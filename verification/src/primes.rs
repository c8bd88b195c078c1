//! Primality testing, and the line protocol that answers primality requests sent as JSON
//! objects.
use vstd::prelude::*;

use crate::text::{trim, trimmed};

verus! {

/// `n` is prime: greater than one, with no divisor strictly between one and itself.
pub open spec fn spec_is_prime(n: int) -> bool {
    &&& n > 1
    &&& forall|d: int| 1 < d < n ==> #[trigger] (n % d) != 0
}

/// If no `d` in `2..i` divides `n` and `i * i > n`, then `n` has no divisor in `2..n` at all.
proof fn lemma_no_small_divisor_means_prime(n: int, i: int)
    requires
        n > 1,
        i >= 2,
        i * i > n,
        forall|d: int| 1 < d < i ==> #[trigger] (n % d) != 0,
    ensures
        spec_is_prime(n),
{
    assert forall|d: int| 1 < d < n implies #[trigger] (n % d) != 0 by {
        if d >= i && n % d == 0 {
            let e = n / d;
            assert(n == d * e) by (nonlinear_arith)
                requires n % d == 0, d > 0, e == n / d;
            assert(e >= 2) by (nonlinear_arith)
                requires n == d * e, d < n, d > 1, n > 1;
            assert(e < i) by (nonlinear_arith)
                requires n == d * e, d >= i, i * i > n, e >= 2, i >= 2;
            assert(n % e == 0) by (nonlinear_arith)
                requires n == d * e, e >= 2;
            assert((n % e) != 0);
        }
    }
}

/// Whether `num` is prime, by trial division up to its square root.
pub fn is_prime(num: u128) -> (res: bool)
    ensures
        res == spec_is_prime(num as int),
{
    if num <= 1 {
        return false;
    }
    let mut i: u128 = 2;
    while i <= num / i
        invariant
            num > 1,
            2 <= i,
            i <= num,
            forall|d: int| 1 < d < i ==> #[trigger] ((num as int) % d) != 0,
        decreases num - i,
    {
        assert(i < num) by (nonlinear_arith)
            requires i <= num / i, i >= 2, num > 1;
        if num % i == 0 {
            assert(1 < i < num && (num as int) % (i as int) == 0);
            return false;
        }
        i = i + 1;
    }
    proof {
        assert(i * i > num) by (nonlinear_arith)
            requires i > num / i, i >= 2;
        lemma_no_small_divisor_means_prime(num as int, i as int);
    }
    true
}

/// The fields of a request line that the server reads.
pub struct PrimeRequest {
    /// The `method` field, when it is a string.
    pub method: Option<String>,
    /// The `number` field, when it is a number: `Some(n)` for an integer `n`, `None` for a
    /// number held as a float (one with a fraction or exponent, or too large for 64 bits).
    pub number: Option<Option<i128>>,
}

impl View for PrimeRequest {
    type V = (Option<Seq<char>>, Option<Option<i128>>);

    open spec fn view(&self) -> (Option<Seq<char>>, Option<Option<i128>>) {
        (
            match self.method {
                Some(m) => Some(m@),
                None => None,
            },
            self.number,
        )
    }
}

/// The fields that `serde_json` reads from `line`, or `None` when `line` is not one JSON
/// value.
pub uninterp spec fn json_request(line: Seq<char>) -> Option<(Option<Seq<char>>, Option<Option<i128>>)>;

/// The request fields of `line`.
///
/// Trusted: parses `line` with `serde_json::from_str` into a `serde_json::Value`, then reads
/// `value["method"].as_str()` and `value["number"].as_number()` with `Number::as_i128`. The
/// result depends on `line` alone; JSON's grammar is not written out here.
#[verifier::external_body]
fn parse_request(line: &str) -> (res: Option<PrimeRequest>)
    ensures
        match res {
            None => json_request(line@) is None,
            Some(r) => json_request(line@) == Some(r@),
        },
{
    let v: serde_json::Value = serde_json::from_str(line).ok()?;
    Some(PrimeRequest {
        method: v["method"].as_str().map(String::from),
        number: v["number"].as_number().map(serde_json::Number::as_i128),
    })
}

/// What the server does with one line.
pub enum Outcome {
    /// A blank line: nothing is answered.
    Ignore,
    /// A well-formed request: whether its number is prime.
    Answer(bool),
    /// A malformed request: an error is answered and the connection closed.
    Malformed,
}

/// The answer to request fields `req`: malformed unless `method` is the string `isPrime` and
/// `number` is a number; an integer is answered by whether it is a positive prime, any
/// other number with `false`.
pub open spec fn answer_for(req: Option<(Option<Seq<char>>, Option<Option<i128>>)>) -> Outcome {
    match req {
        None => Outcome::Malformed,
        Some((method, number)) => {
            if method != Some("isPrime"@) {
                Outcome::Malformed
            } else {
                match number {
                    None => Outcome::Malformed,
                    Some(None) => Outcome::Answer(false),
                    Some(Some(n)) => Outcome::Answer(n > 0 && spec_is_prime(n as int)),
                }
            }
        }
    }
}

/// The answer to a parsed request.
pub fn answer_request(req: &Option<PrimeRequest>) -> (res: Outcome)
    ensures
        res == answer_for(
            match req {
                Some(r) => Some(r@),
                None => None,
            },
        ),
{
    match req {
        None => Outcome::Malformed,
        Some(r) => {
            let method_ok = match &r.method {
                Some(m) => *m == String::from_str("isPrime"),
                None => false,
            };
            if !method_ok {
                return Outcome::Malformed;
            }
            match r.number {
                None => Outcome::Malformed,
                Some(None) => Outcome::Answer(false),
                Some(Some(n)) => {
                    if n <= 0 {
                        Outcome::Answer(false)
                    } else {
                        Outcome::Answer(is_prime(n as u128))
                    }
                },
            }
        },
    }
}

/// What the server does with `line`: a line that is blank once trimmed is ignored; any
/// other is parsed as a JSON request and answered as `answer_for` says.
pub fn handle_line(line: &str) -> (res: Outcome)
    ensures
        trim(line@).len() == 0 ==> res is Ignore,
        trim(line@).len() != 0 ==> res == answer_for(json_request(line@)),
{
    let t = trimmed(line);
    if t.as_str().is_empty() {
        return Outcome::Ignore;
    }
    let req = parse_request(line);
    answer_request(&req)
}

/// The text sent for an answer.
pub open spec fn response_text(answer: bool) -> Seq<char> {
    if answer {
        "{\"method\":\"isPrime\",\"prime\":true}\n"@
    } else {
        "{\"method\":\"isPrime\",\"prime\":false}\n"@
    }
}

/// The text sent before a connection with a malformed request is closed.
pub open spec fn error_text() -> Seq<char> {
    "{\"error\":true}\n"@
}

/// What is sent for an outcome: the answer line, the error line, or nothing.
pub fn response(outcome: &Outcome) -> (res: Option<String>)
    ensures
        match *outcome {
            Outcome::Ignore => res is None,
            Outcome::Answer(b) => res matches Some(s) && s@ == response_text(b),
            Outcome::Malformed => res matches Some(s) && s@ == error_text(),
        },
{
    match outcome {
        Outcome::Ignore => None,
        Outcome::Answer(true) => Some(String::from_str("{\"method\":\"isPrime\",\"prime\":true}\n")),
        Outcome::Answer(false) => Some(String::from_str("{\"method\":\"isPrime\",\"prime\":false}\n")),
        Outcome::Malformed => Some(String::from_str("{\"error\":true}\n")),
    }
}

/// A request for a positive integer `n` is answered `true` exactly when `n` is greater than
/// one and has no divisor strictly between one and itself; zero and negative integers, and
/// non-integral numbers, are answered `false`.
pub proof fn lemma_answer_is_primality(n: i128)
    ensures
        answer_for(Some((Some("isPrime"@), Some(Some(n))))) == Outcome::Answer(
            n > 1 && forall|d: int| 1 < d < n ==> #[trigger] ((n as int) % d) != 0,
        ),
        answer_for(Some((Some("isPrime"@), Some(None)))) == Outcome::Answer(false),
{
}

/// A line holding a well-formed request for the integer `n` is answered `true` exactly when
/// `n` is prime.
pub proof fn lemma_line_answer_is_primality(line: Seq<char>, n: i128)
    requires
        json_request(line) == Some((Some("isPrime"@), Some(Some(n)))),
    ensures
        answer_for(json_request(line)) == Outcome::Answer(
            n > 1 && forall|d: int| 1 < d < n ==> #[trigger] ((n as int) % d) != 0,
        ),
{
    lemma_answer_is_primality(n);
}

} // verus!
