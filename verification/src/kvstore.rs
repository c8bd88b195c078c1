//! A key-value store spoken to in single datagrams: `key=value` stores, `key` retrieves.
use vstd::prelude::*;
use vstd::utf8::{decode_utf8, valid_utf8};

use crate::text::{chars_of, string_from_chars};

verus! {

/// The text of a datagram: its bytes decoded as UTF-8 with every invalid sequence replaced
/// by U+FFFD, as `String::from_utf8_lossy` does.
pub uninterp spec fn utf8_lossy(bytes: Seq<u8>) -> Seq<char>;

/// The text of a datagram.
///
/// Trusted: calls std's `String::from_utf8_lossy`. Its documentation states that valid UTF-8
/// is decoded as it is; what replacement it makes in invalid input is named, not spelled out.
#[verifier::external_body]
pub(crate) fn decode_lossy(bytes: &[u8]) -> (res: String)
    ensures
        res@ == utf8_lossy(bytes@),
        valid_utf8(bytes@) ==> res@ == decode_utf8(bytes@),
{
    String::from_utf8_lossy(bytes).into_owned()
}

/// The key that holds the server's version; clients cannot change it.
pub open spec fn version_key() -> Seq<char> {
    "version"@
}

/// The server's version string.
pub open spec fn version_value() -> Seq<char> {
    "evans awesome database v1"@
}

/// The store's contents as a map, later entries winning.
pub open spec fn entries_map(s: Seq<(String, String)>) -> Map<Seq<char>, Seq<char>>
    decreases s.len(),
{
    if s.len() == 0 {
        Map::empty()
    } else {
        entries_map(s.drop_last()).insert(s.last().0@, s.last().1@)
    }
}

/// No key occurs twice.
pub open spec fn keys_distinct(s: Seq<(String, String)>) -> bool {
    forall|i: int, j: int| 0 <= i < j < s.len() ==> #[trigger] s[i].0@ != #[trigger] s[j].0@
}

/// The key-value store.
pub struct Database {
    entries: Vec<(String, String)>,
}

impl Database {
    #[verifier::type_invariant]
    spec fn well_formed(&self) -> bool {
        keys_distinct(self.entries@)
    }
}

impl View for Database {
    type V = Map<Seq<char>, Seq<char>>;

    closed spec fn view(&self) -> Map<Seq<char>, Seq<char>> {
        entries_map(self.entries@)
    }
}

proof fn lemma_entries_lookup(s: Seq<(String, String)>, i: int)
    requires
        keys_distinct(s),
        0 <= i < s.len(),
    ensures
        entries_map(s).contains_key(s[i].0@),
        entries_map(s)[s[i].0@] == s[i].1@,
    decreases s.len(),
{
    if i < s.len() - 1 {
        let init = s.drop_last();
        assert(init[i] == s[i]);
        assert(s[i].0@ != s[s.len() - 1].0@);
        lemma_entries_lookup(init, i);
    }
}

proof fn lemma_entries_absent(s: Seq<(String, String)>, k: Seq<char>)
    requires
        forall|i: int| 0 <= i < s.len() ==> #[trigger] s[i].0@ != k,
    ensures
        !entries_map(s).contains_key(k),
    decreases s.len(),
{
    if s.len() > 0 {
        let init = s.drop_last();
        assert forall|i: int| 0 <= i < init.len() implies #[trigger] init[i].0@ != k by {
            assert(init[i] == s[i]);
        }
        assert(s[s.len() - 1].0@ != k);
        lemma_entries_absent(init, k);
    }
}

/// The character index of the first `=` in `s`.
pub open spec fn first_equals(s: Seq<char>) -> int
    decreases s.len(),
{
    if s.len() == 0 {
        0
    } else if s[0] == '=' {
        0
    } else {
        1 + first_equals(s.drop_first())
    }
}

/// The store after message `msg`, and the reply to it: with an `=` the message stores what
/// follows the first `=` under what precedes it (except for the version key) and gets no
/// reply; without one it asks for the value of key `msg`, answered with `msg=value` when
/// the key is present and not at all otherwise.
pub open spec fn apply_message(m: Map<Seq<char>, Seq<char>>, msg: Seq<char>) -> (
    Map<Seq<char>, Seq<char>>,
    Option<Seq<char>>,
) {
    if msg.contains('=') {
        let i = first_equals(msg);
        let key = msg.take(i);
        let value = msg.skip(i + 1);
        if key == version_key() {
            (m, None)
        } else {
            (m.insert(key, value), None)
        }
    } else if m.contains_key(msg) {
        (m, Some(msg + "="@ + m[msg]))
    } else {
        (m, None)
    }
}

impl Database {
    /// A store holding only the version.
    pub fn new() -> (res: Database)
        ensures
            res@ == Map::<Seq<char>, Seq<char>>::empty().insert(version_key(), version_value()),
    {
        let mut entries: Vec<(String, String)> = Vec::new();
        entries.push((String::from_str("version"), String::from_str("evans awesome database v1")));
        let ghost s = entries@;
        assert(s.drop_last() =~= Seq::<(String, String)>::empty());
        assert(entries_map(s.drop_last()) == Map::<Seq<char>, Seq<char>>::empty());
        assert(s.last().0@ == version_key() && s.last().1@ == version_value());
        let res = Database { entries };
        assert(res@ == entries_map(s));
        res
    }

    /// Where `key` is stored.
    fn position(&self, key: &String) -> (res: Option<usize>)
        ensures
            res matches Some(i) ==> i < self.entries@.len() && self.entries@[i as int].0@ == key@,
            res is None ==> forall|i: int|
                0 <= i < self.entries@.len() ==> #[trigger] self.entries@[i].0@ != key@,
    {
        let mut i: usize = 0;
        while i < self.entries.len()
            invariant
                i <= self.entries.len(),
                forall|j: int| 0 <= j < i ==> #[trigger] self.entries@[j].0@ != key@,
            decreases self.entries.len() - i,
        {
            if self.entries[i].0 == *key {
                return Some(i);
            }
            i = i + 1;
        }
        None
    }

    /// The value stored under `key`.
    pub fn get(&self, key: &String) -> (res: Option<String>)
        ensures
            self@.contains_key(key@) ==> (res matches Some(v) && v@ == self@[key@]),
            !self@.contains_key(key@) ==> res is None,
    {
        proof {
            use_type_invariant(self);
        }
        match self.position(key) {
            Some(i) => {
                proof {
                    lemma_entries_lookup(self.entries@, i as int);
                }
                Some(self.entries[i].1.clone())
            },
            None => {
                proof {
                    lemma_entries_absent(self.entries@, key@);
                }
                None
            },
        }
    }

    /// Stores `value` under `key`, replacing what was there.
    pub fn set(&mut self, key: String, value: String)
        ensures
            final(self)@ == old(self)@.insert(key@, value@),
    {
        proof {
            use_type_invariant(&*self);
        }
        let ghost s = self.entries@;
        let ghost k = key@;
        let ghost v = value@;
        match self.position(&key) {
            Some(i) => {
                let ghost s2 = s.update(i as int, (key, value));
                assert(keys_distinct(s2)) by {
                    assert forall|a: int, b: int| 0 <= a < b < s2.len() implies #[trigger] s2[a].0@
                        != #[trigger] s2[b].0@ by {
                        if a != i && b != i {
                            assert(s2[a] == s[a] && s2[b] == s[b]);
                        } else if a == i {
                            assert(s2[b] == s[b]);
                        } else {
                            assert(s2[a] == s[a]);
                        }
                    }
                }
                proof {
                    assert forall|key2: Seq<char>| #[trigger] entries_map(s2).contains_key(key2)
                        == entries_map(s).insert(k, v).contains_key(key2) && (entries_map(
                        s2,
                    ).contains_key(key2) ==> entries_map(s2)[key2] == entries_map(s).insert(
                        k,
                        v,
                    )[key2]) by {
                        if key2 == k {
                            lemma_entries_lookup(s2, i as int);
                        } else if exists|j: int| 0 <= j < s.len() && #[trigger] s[j].0@ == key2 {
                            let j = choose|j: int| 0 <= j < s.len() && #[trigger] s[j].0@ == key2;
                            assert(j != i);
                            assert(s2[j] == s[j]);
                            lemma_entries_lookup(s, j);
                            lemma_entries_lookup(s2, j);
                        } else {
                            lemma_entries_absent(s, key2);
                            assert forall|j: int| 0 <= j < s2.len() implies #[trigger] s2[j].0@
                                != key2 by {
                                if j != i {
                                    assert(s2[j] == s[j]);
                                }
                            }
                            lemma_entries_absent(s2, key2);
                        }
                    }
                    assert(entries_map(s2) =~= entries_map(s).insert(k, v));
                }
                let mut entries: Vec<(String, String)> = Vec::new();
                std::mem::swap(&mut entries, &mut self.entries);
                entries.set(i, (key, value));
                self.entries = entries;
            },
            None => {
                let ghost s2 = s.push((key, value));
                assert(s2.drop_last() =~= s);
                assert(keys_distinct(s2)) by {
                    assert forall|a: int, b: int| 0 <= a < b < s2.len() implies #[trigger] s2[a].0@
                        != #[trigger] s2[b].0@ by {
                        assert(s2[a] == s[a]);
                        if b < s.len() {
                            assert(s2[b] == s[b]);
                        }
                    }
                }
                let mut entries: Vec<(String, String)> = Vec::new();
                std::mem::swap(&mut entries, &mut self.entries);
                entries.push((key, value));
                self.entries = entries;
            },
        }
    }

    /// Handles one message, as `apply_message` says, returning the reply if any.
    pub fn handle(&mut self, msg: &str) -> (res: Option<String>)
        ensures
            final(self)@ == apply_message(old(self)@, msg@).0,
            res is Some <==> apply_message(old(self)@, msg@).1 is Some,
            res matches Some(r) ==> apply_message(old(self)@, msg@).1 == Some(r@),
    {
        let cs = chars_of(msg);
        let n = cs.len();
        let mut i: usize = 0;
        assert(cs@.skip(0) =~= cs@);
        while i < n && cs[i] != '='
            invariant
                i <= n,
                n == cs@.len(),
                cs@ == msg@,
                forall|j: int| 0 <= j < i ==> cs@[j] != '=',
                first_equals(cs@) == i + first_equals(cs@.skip(i as int)),
            decreases n - i,
        {
            assert(cs@.skip(i as int).drop_first() =~= cs@.skip(i + 1));
            assert(cs@.skip(i as int)[0] == cs@[i as int]);
            i = i + 1;
        }
        if i < n {
            assert(cs@.skip(i as int)[0] == cs@[i as int]);
            assert(first_equals(cs@) == i);
            assert(msg@.contains('=')) by {
                assert(msg@[i as int] == '=');
            }
            let key = string_from_chars(take_chars(&cs, 0, i).as_slice());
            let value = string_from_chars(take_chars(&cs, i + 1, n).as_slice());
            assert(key@ =~= msg@.take(i as int));
            assert(value@ =~= msg@.skip(i + 1));
            let version = String::from_str("version");
            if key == version {
                return None;
            }
            self.set(key, value);
            None
        } else {
            assert(!msg@.contains('='));
            let key = String::from_str(msg);
            match self.get(&key) {
                Some(v) => {
                    let mut reply = String::from_str(msg);
                    reply.append("=");
                    reply.append(v.as_str());
                    Some(reply)
                },
                None => None,
            }
        }
    }

    /// Handles one datagram: its bytes are decoded as text first.
    pub fn handle_datagram(&mut self, bytes: &[u8]) -> (res: Option<String>)
        ensures
            final(self)@ == apply_message(old(self)@, utf8_lossy(bytes@)).0,
            res is Some <==> apply_message(old(self)@, utf8_lossy(bytes@)).1 is Some,
            res matches Some(r) ==> apply_message(old(self)@, utf8_lossy(bytes@)).1 == Some(r@),
    {
        let msg = decode_lossy(bytes);
        self.handle(msg.as_str())
    }
}

/// `cs[from..to]`.
fn take_chars(cs: &Vec<char>, from: usize, to: usize) -> (res: Vec<char>)
    requires
        from <= to <= cs@.len(),
    ensures
        res@ == cs@.subrange(from as int, to as int),
{
    let mut out: Vec<char> = Vec::new();
    let mut k: usize = from;
    while k < to
        invariant
            from <= k <= to <= cs@.len(),
            out@ == cs@.subrange(from as int, k as int),
        decreases to - k,
    {
        out.push(cs[k]);
        k = k + 1;
        assert(out@ =~= cs@.subrange(from as int, k as int));
    }
    out
}

proof fn lemma_first_equals_after_key(key: Seq<char>, rest: Seq<char>)
    requires
        !key.contains('='),
    ensures
        first_equals(key + seq!['='] + rest) == key.len(),
    decreases key.len(),
{
    let s = key + seq!['='] + rest;
    if key.len() == 0 {
        assert(s[0] == '=');
    } else {
        assert(s[0] == key[0]);
        assert(key[0] != '=') by {
            if key[0] == '=' {
                assert(key.contains('='));
            }
        }
        let k2 = key.drop_first();
        assert(!k2.contains('=')) by {
            if k2.contains('=') {
                let j = choose|j: int| 0 <= j < k2.len() && k2[j] == '=';
                assert(key[j + 1] == '=');
            }
        }
        assert(s.drop_first() =~= k2 + seq!['='] + rest);
        lemma_first_equals_after_key(k2, rest);
    }
}

/// A read gives back the last write: after `key=value` is stored (for a key without `=`,
/// other than the version key), asking for `key` is answered with `key=value`.
pub proof fn lemma_read_after_write(m: Map<Seq<char>, Seq<char>>, key: Seq<char>, value: Seq<char>)
    requires
        !key.contains('='),
        key != version_key(),
    ensures
        ({
            let stored = apply_message(m, key + "="@ + value).0;
            apply_message(stored, key) == (stored, Some(key + "="@ + value))
        }),
{
    reveal_strlit("=");
    let msg = key + "="@ + value;
    assert("="@ =~= seq!['=']);
    lemma_first_equals_after_key(key, value);
    assert(msg[key.len() as int] == '=');
    assert(msg.contains('='));
    assert(msg.take(key.len() as int) =~= key);
    assert(msg.skip(key.len() + 1int) =~= value);
    let stored = m.insert(key, value);
    assert(apply_message(m, msg).0 == stored);
}

/// The version can never be changed by a message.
pub proof fn lemma_version_fixed(m: Map<Seq<char>, Seq<char>>, msg: Seq<char>)
    ensures
        apply_message(m, msg).0.contains_key(version_key()) == m.contains_key(version_key()),
        m.contains_key(version_key()) ==> apply_message(m, msg).0[version_key()] == m[version_key()],
{
}

/// Storing under one key leaves every other key as it was; retrievals change nothing.
pub proof fn lemma_other_keys_untouched(m: Map<Seq<char>, Seq<char>>, msg: Seq<char>, other: Seq<char>)
    requires
        msg.contains('=') ==> other != msg.take(first_equals(msg)),
    ensures
        apply_message(m, msg).0.contains_key(other) == m.contains_key(other),
        m.contains_key(other) ==> apply_message(m, msg).0[other] == m[other],
{
}

} // verus!
