//! Literal, global substring replacement on text.

use vstd::prelude::*;

verus! {

/// `pat` stands in `text` at index `at`.
pub open spec fn occurs_at(text: Seq<char>, pat: Seq<char>, at: int) -> bool {
    &&& 0 <= at
    &&& at + pat.len() <= text.len()
    &&& text.subrange(at, at + pat.len()) == pat
}

/// `pat` stands somewhere in `text`.
pub open spec fn occurs_in(text: Seq<char>, pat: Seq<char>) -> bool {
    exists|at: int| occurs_at(text, pat, at)
}

/// `text` with every occurrence of `pat` replaced by `to`, scanning from the
/// left; an occurrence that overlaps one already replaced is not counted.
/// The empty pattern stands before every character and at the end.
pub open spec fn replace_all(text: Seq<char>, pat: Seq<char>, to: Seq<char>) -> Seq<char>
    decreases text.len(),
{
    if pat.len() == 0 {
        if text.len() == 0 {
            to
        } else {
            to + seq![text[0]] + replace_all(text.skip(1), pat, to)
        }
    } else if occurs_at(text, pat, 0) {
        to + replace_all(text.skip(pat.len() as int), pat, to)
    } else if text.len() == 0 {
        text
    } else {
        seq![text[0]] + replace_all(text.skip(1), pat, to)
    }
}

/// The stretches of `text` that lie between the occurrences of `pat` that
/// `replace_all` replaces: before the first, between one and the next, and
/// after the last. A text without such an occurrence is one stretch.
pub open spec fn unmatched(text: Seq<char>, pat: Seq<char>) -> Seq<Seq<char>>
    decreases text.len(),
{
    if pat.len() == 0 || text.len() == 0 {
        seq![text]
    } else if occurs_at(text, pat, 0) {
        seq![Seq::<char>::empty()] + unmatched(text.skip(pat.len() as int), pat)
    } else {
        let rest = unmatched(text.skip(1), pat);
        seq![seq![text[0]] + rest.first()] + rest.drop_first()
    }
}

/// The stretches of `parts`, one after the other, with `sep` between each
/// two of them.
pub open spec fn joined<A>(parts: Seq<Seq<A>>, sep: Seq<A>) -> Seq<A>
    decreases parts.len(),
{
    if parts.len() == 0 {
        Seq::empty()
    } else if parts.len() == 1 {
        parts.first()
    } else {
        parts.first() + sep + joined(parts.drop_first(), sep)
    }
}

/// No character of `pat` is `c`.
pub open spec fn foreign_to(c: char, pat: Seq<char>) -> bool {
    forall|i: int| 0 <= i < pat.len() ==> pat[i] != c
}

/// The replacement cannot bring the signature back: it is not empty, it
/// begins and ends with characters that the signature does not hold, and
/// the signature does not stand in it.
pub open spec fn delimited(pat: Seq<char>, to: Seq<char>) -> bool {
    &&& to.len() > 0
    &&& foreign_to(to.first(), pat)
    &&& foreign_to(to.last(), pat)
    &&& !occurs_in(to, pat)
}

/// An occurrence in the tail of a text is an occurrence in the text.
pub proof fn lemma_occurs_in_tail(text: Seq<char>, pat: Seq<char>, k: int, at: int)
    requires
        0 <= k <= text.len(),
        occurs_at(text.skip(k), pat, at),
    ensures
        occurs_at(text, pat, at + k),
{
    assert(text.subrange(at + k, at + k + pat.len()) == text.skip(k).subrange(
        at,
        at + pat.len(),
    ));
}

/// An occurrence that begins at `k` or later is an occurrence in the tail.
pub proof fn lemma_occurs_past(text: Seq<char>, pat: Seq<char>, k: int, at: int)
    requires
        0 <= k <= at,
        occurs_at(text, pat, at),
    ensures
        occurs_at(text.skip(k), pat, at - k),
{
    assert(text.subrange(at, at + pat.len()) == text.skip(k).subrange(
        at - k,
        at - k + pat.len(),
    ));
}

/// A text in which the signature does not stand is left as it is.
pub proof fn lemma_replace_without_occurrence(text: Seq<char>, pat: Seq<char>, to: Seq<char>)
    requires
        !occurs_in(text, pat),
    ensures
        replace_all(text, pat, to) == text,
    decreases text.len(),
{
    if pat.len() == 0 {
        assert(text.subrange(0, 0) == pat);
        assert(occurs_at(text, pat, 0));
    } else if text.len() > 0 {
        assert forall|at: int| !occurs_at(text.skip(1), pat, at) by {
            if occurs_at(text.skip(1), pat, at) {
                lemma_occurs_in_tail(text, pat, 1, at);
            }
        }
        lemma_replace_without_occurrence(text.skip(1), pat, to);
    }
}

/// Idempotence: where the replacement has not brought the signature back,
/// replacing once more changes nothing.
pub proof fn lemma_replace_idempotent(text: Seq<char>, pat: Seq<char>, to: Seq<char>)
    requires
        !occurs_in(replace_all(text, pat, to), pat),
    ensures
        replace_all(replace_all(text, pat, to), pat, to) == replace_all(text, pat, to),
{
    lemma_replace_without_occurrence(replace_all(text, pat, to), pat, to);
}

/// What lies outside the replaced occurrences is kept: the text is its
/// unmatched stretches with the signature between them, the result is the
/// same stretches with the replacement between them, and the signature
/// stands in none of the stretches.
pub proof fn lemma_replace_keeps_unmatched(text: Seq<char>, pat: Seq<char>, to: Seq<char>)
    requires
        pat.len() > 0,
    ensures
        unmatched(text, pat).len() >= 1,
        joined(unmatched(text, pat), pat) == text,
        joined(unmatched(text, pat), to) == replace_all(text, pat, to),
        forall|i: int|
            0 <= i < unmatched(text, pat).len() ==> !occurs_in(
                #[trigger] unmatched(text, pat)[i],
                pat,
            ),
    decreases text.len(),
{
    let parts = unmatched(text, pat);
    let m = pat.len() as int;
    if text.len() == 0 {
        assert forall|at: int| !occurs_at(text, pat, at) by {}
    } else if occurs_at(text, pat, 0) {
        let rest = unmatched(text.skip(m), pat);
        lemma_replace_keeps_unmatched(text.skip(m), pat, to);
        assert(parts.drop_first() == rest);
        assert(Seq::<char>::empty() + pat + text.skip(m) == text);
        assert forall|i: int| 0 <= i < parts.len() implies !occurs_in(#[trigger] parts[i], pat) by {
            if i == 0 {
                assert forall|at: int| !occurs_at(parts[0], pat, at) by {}
            }
        }
    } else {
        let rest = unmatched(text.skip(1), pat);
        lemma_replace_keeps_unmatched(text.skip(1), pat, to);
        let head = seq![text[0]] + rest.first();
        assert(parts.drop_first() == rest.drop_first());
        assert(seq![text[0]] + text.skip(1) == text);
        // The first stretch is a prefix of the text, so the signature
        // cannot stand at its start; further on it would stand in the tail.
        assert forall|at: int| !occurs_at(head, pat, at) by {
            if occurs_at(head, pat, at) {
                if at == 0 {
                    assert(head.subrange(0, m) == text.subrange(0, m));
                } else {
                    lemma_occurs_past(head, pat, 1, at);
                    assert(head.skip(1) == rest.first());
                }
            }
        }
    }
}

/// Replacing in two texts, one after the other, is replacing in each on
/// its own, where the first ends with a character that the signature does
/// not hold: no occurrence reaches from the one into the other.
pub proof fn lemma_replace_all_concat(x: Seq<char>, y: Seq<char>, pat: Seq<char>, to: Seq<char>)
    requires
        pat.len() > 0,
        x.len() == 0 || foreign_to(x.last(), pat),
    ensures
        replace_all(x + y, pat, to) == replace_all(x, pat, to) + replace_all(y, pat, to),
    decreases x.len(),
{
    let m = pat.len() as int;
    if x.len() == 0 {
        assert(x + y == y);
        assert(replace_all(x, pat, to) + replace_all(y, pat, to) == replace_all(y, pat, to));
    } else if occurs_at(x + y, pat, 0) {
        // The occurrence ends before the last character of `x`.
        if m >= x.len() {
            assert((x + y).subrange(0, m)[x.len() - 1] == x.last());
            assert(pat[x.len() - 1] == x.last());
        }
        assert((x + y).subrange(0, m) == x.subrange(0, m));
        assert((x + y).skip(m) == x.skip(m) + y);
        assert(x.skip(m).last() == x.last());
        lemma_replace_all_concat(x.skip(m), y, pat, to);
        assert(to + (replace_all(x.skip(m), pat, to) + replace_all(y, pat, to)) == (to
            + replace_all(x.skip(m), pat, to)) + replace_all(y, pat, to));
    } else {
        if occurs_at(x, pat, 0) {
            assert((x + y).subrange(0, m) == x.subrange(0, m));
        }
        assert((x + y).skip(1) == x.skip(1) + y);
        if x.len() > 1 {
            assert(x.skip(1).last() == x.last());
        }
        lemma_replace_all_concat(x.skip(1), y, pat, to);
        assert((x + y)[0] == x[0]);
        assert(seq![x[0]] + (replace_all(x.skip(1), pat, to) + replace_all(y, pat, to)) == (seq![
            x[0],
        ] + replace_all(x.skip(1), pat, to)) + replace_all(y, pat, to));
    }
}

/// The result agrees with the text up to the first replaced occurrence,
/// where the replacement begins; without such an occurrence the two are
/// the same. `j` is the index at which they part.
proof fn lemma_replace_common_prefix(text: Seq<char>, pat: Seq<char>, to: Seq<char>) -> (j: int)
    requires
        pat.len() > 0,
        to.len() > 0,
    ensures
        0 <= j <= text.len(),
        j <= replace_all(text, pat, to).len(),
        replace_all(text, pat, to).take(j) == text.take(j),
        replace_all(text, pat, to) == text || (j < replace_all(text, pat, to).len()
            && replace_all(text, pat, to)[j] == to.first()),
    decreases text.len(),
{
    if text.len() == 0 || occurs_at(text, pat, 0) {
        0
    } else {
        let rest = text.skip(1);
        let j = lemma_replace_common_prefix(rest, pat, to);
        assert(text.take(j + 1) == seq![text[0]] + rest.take(j));
        j + 1
    }
}

/// Where the replacement is delimited by characters that the signature
/// does not hold, the signature stands nowhere in the result.
pub proof fn lemma_replace_leaves_no_occurrence(text: Seq<char>, pat: Seq<char>, to: Seq<char>)
    requires
        pat.len() > 0,
        delimited(pat, to),
    ensures
        !occurs_in(replace_all(text, pat, to), pat),
    decreases text.len(),
{
    let out = replace_all(text, pat, to);
    let m = pat.len() as int;
    assert forall|at: int| !occurs_at(out, pat, at) by {
        if occurs_at(out, pat, at) {
            if text.len() == 0 {
                // The result is empty, and the signature is not.
            } else if occurs_at(text, pat, 0) {
                // The result is the replacement, then the rest replaced.
                let tail = replace_all(text.skip(m), pat, to);
                lemma_replace_leaves_no_occurrence(text.skip(m), pat, to);
                if at + m <= to.len() {
                    assert(to.subrange(at, at + m) == out.subrange(at, at + m));
                    assert(occurs_at(to, pat, at));
                } else if at >= to.len() {
                    lemma_occurs_past(out, pat, to.len() as int, at);
                    assert(out.skip(to.len() as int) == tail);
                } else {
                    // The occurrence would cover the replacement's end.
                    assert(pat[to.len() - 1 - at] == to.last());
                }
            } else {
                // The result is the first character, then the rest replaced.
                let tail = replace_all(text.skip(1), pat, to);
                lemma_replace_leaves_no_occurrence(text.skip(1), pat, to);
                if at >= 1 {
                    lemma_occurs_past(out, pat, 1, at);
                    assert(out.skip(1) == tail);
                } else {
                    let j = lemma_replace_common_prefix(text, pat, to);
                    if m <= j {
                        assert(out.subrange(0, m) == out.take(j).subrange(0, m));
                        assert(text.subrange(0, m) == text.take(j).subrange(0, m));
                    } else {
                        // The occurrence would cover the replacement's start.
                        assert(pat[j] == to.first());
                    }
                }
            }
        }
    }
}

/// Tells whether `pat` stands in `text` at index `at`.
pub fn matches_at(text: &Vec<char>, pat: &Vec<char>, at: usize) -> (found: bool)
    requires
        at <= text.len(),
    ensures
        found == occurs_at(text@, pat@, at as int),
{
    if text.len() - at < pat.len() {
        return false;
    }
    let mut k: usize = 0;
    while k < pat.len()
        invariant
            at <= text.len(),
            pat.len() <= text.len() - at,
            k <= pat.len(),
            forall|j: int| 0 <= j < k ==> text@[at + j] == pat@[j],
        decreases pat.len() - k,
    {
        if text[at + k] != pat[k] {
            assert(text@.subrange(at as int, at + pat.len())[k as int] != pat@[k as int]);
            return false;
        }
        k += 1;
    }
    assert(text@.subrange(at as int, at + pat.len()) == pat@);
    true
}

/// Appends a copy of `items` to `out`.
fn append_chars(out: &mut Vec<char>, items: &Vec<char>)
    ensures
        final(out)@ == old(out)@ + items@,
{
    let mut k: usize = 0;
    while k < items.len()
        invariant
            k <= items.len(),
            out@ == old(out)@ + items@.take(k as int),
        decreases items.len() - k,
    {
        out.push(items[k]);
        k += 1;
    }
}

/// Replacement on vectors of characters: every occurrence of `pat` in `text`
/// gives way to `to`.
pub fn replace_chars(text: &Vec<char>, pat: &Vec<char>, to: &Vec<char>) -> (out: Vec<char>)
    ensures
        out@ == replace_all(text@, pat@, to@),
{
    let n = text.len();
    let m = pat.len();
    let mut out: Vec<char> = Vec::new();
    let mut i: usize = 0;
    assert(text@.skip(0) == text@);
    while i < n
        invariant
            i <= n,
            n == text.len(),
            m == pat.len(),
            out@ + replace_all(text@.skip(i as int), pat@, to@) == replace_all(text@, pat@, to@),
        decreases n - i,
    {
        let ghost rest = text@.skip(i as int);
        if m == 0 {
            append_chars(&mut out, to);
            out.push(text[i]);
            i += 1;
            assert(rest.skip(1) == text@.skip(i as int));
        } else if matches_at(text, pat, i) {
            append_chars(&mut out, to);
            i += m;
            proof {
                assert(rest.subrange(0, m as int) == text@.subrange(i - m, i as int));
                assert(rest.skip(m as int) == text@.skip(i as int));
            }
        } else {
            out.push(text[i]);
            i += 1;
            proof {
                if occurs_at(rest, pat@, 0) {
                    assert(rest.subrange(0, m as int) == text@.subrange(i - 1, i - 1 + m));
                }
                assert(rest.skip(1) == text@.skip(i as int));
            }
        }
    }
    if m == 0 {
        append_chars(&mut out, to);
    }
    out
}

/// The characters of `s`, in order.
pub fn chars_of(s: &str) -> (out: Vec<char>)
    ensures
        out@ == s@,
{
    let mut out: Vec<char> = Vec::new();
    for c in it: s.chars()
        invariant
            it.seq() == s@,
            out@ == s@.take(it.index() as int),
    {
        out.push(c);
    }
    out
}

/// `String::push`: the character is appended to the end of the string.
#[verifier::external_body]
pub(crate) fn push_char(s: &mut String, c: char)
    ensures
        final(s)@ == old(s)@.push(c),
{
    s.push(c)
}

/// The string made of `chars`, in order.
pub fn string_of(chars: &Vec<char>) -> (out: String)
    ensures
        out@ == chars@,
{
    let mut out = String::new();
    let mut k: usize = 0;
    while k < chars.len()
        invariant
            k <= chars.len(),
            out@ == chars@.take(k as int),
        decreases chars.len() - k,
    {
        push_char(&mut out, chars[k]);
        k += 1;
    }
    out
}

/// `text` with every occurrence of `pat` replaced by `to`. The match is
/// literal and case-sensitive; all other characters are kept as they are.
pub fn replace_text(text: &str, pat: &str, to: &str) -> (out: String)
    ensures
        out@ == replace_all(text@, pat@, to@),
{
    let t = chars_of(text);
    let p = chars_of(pat);
    let r = chars_of(to);
    let replaced = replace_chars(&t, &p, &r);
    string_of(&replaced)
}

} // verus!
