//! Byte-level text replacement: the primitive under variable substitution.
//!
//! `spec_replace` gives the meaning of replacing every occurrence of a
//! pattern in a text: occurrences are found left to right, they do not
//! overlap, and the scan resumes after each replacement, so replacement
//! text is never itself rescanned for the same pattern.
use vstd::prelude::*;

verus! {

/// The text with every occurrence of `pat` replaced by `rep`, scanning
/// left to right and resuming after each replacement. An empty pattern
/// leaves the text unchanged.
pub open spec fn spec_replace(text: Seq<u8>, pat: Seq<u8>, rep: Seq<u8>) -> Seq<u8>
    decreases text.len(),
{
    if pat.len() == 0 || text.len() < pat.len() {
        text
    } else if text.subrange(0, pat.len() as int) == pat {
        rep + spec_replace(text.skip(pat.len() as int), pat, rep)
    } else {
        seq![text[0]] + spec_replace(text.skip(1), pat, rep)
    }
}

/// Appends all of `src` onto `dst`.
pub fn append_bytes(dst: &mut Vec<u8>, src: &Vec<u8>)
    ensures
        final(dst)@ == old(dst)@ + src@,
{
    let mut j: usize = 0;
    while j < src.len()
        invariant
            j <= src.len(),
            dst@ == old(dst)@ + src@.subrange(0, j as int),
        decreases src.len() - j,
    {
        dst.push(src[j]);
        j = j + 1;
        assert(dst@ =~= old(dst)@ + src@.subrange(0, j as int));
    }
    assert(src@.subrange(0, src.len() as int) =~= src@);
}

/// Whether `pat` occurs anywhere in `text`.
pub open spec fn spec_occurs(text: Seq<u8>, pat: Seq<u8>) -> bool {
    exists|i: int|
        0 <= i && i + pat.len() <= text.len() && #[trigger] text.subrange(
            i,
            i + pat.len() as int,
        ) == pat
}

/// Replacing a pattern that does not occur leaves the text unchanged.
pub proof fn lemma_replace_absent(text: Seq<u8>, pat: Seq<u8>, rep: Seq<u8>)
    requires
        !spec_occurs(text, pat),
    ensures
        spec_replace(text, pat, rep) == text,
    decreases text.len(),
{
    if pat.len() == 0 || text.len() < pat.len() {
    } else if text.subrange(0, pat.len() as int) == pat {
        assert(text.subrange(0, 0 + pat.len() as int) == pat);
        assert(spec_occurs(text, pat));
    } else {
        assert(!spec_occurs(text.skip(1), pat)) by {
            if spec_occurs(text.skip(1), pat) {
                let i = choose|i: int|
                    0 <= i && i + pat.len() <= text.skip(1).len() && #[trigger] text.skip(
                        1,
                    ).subrange(i, i + pat.len() as int) == pat;
                assert(text.subrange(i + 1, i + 1 + pat.len() as int) =~= text.skip(1).subrange(
                    i,
                    i + pat.len() as int,
                ));
                assert(spec_occurs(text, pat));
            }
        }
        lemma_replace_absent(text.skip(1), pat, rep);
        assert(spec_replace(text, pat, rep) =~= text);
    }
}

/// A fresh copy of a byte vector.
pub fn clone_bytes(v: &Vec<u8>) -> (r: Vec<u8>)
    ensures
        r@ == v@,
{
    let mut out: Vec<u8> = Vec::new();
    append_bytes(&mut out, v);
    assert(out@ =~= v@);
    out
}

/// Whether two byte vectors hold the same bytes.
pub fn bytes_eq(a: &Vec<u8>, b: &Vec<u8>) -> (r: bool)
    ensures
        r == (a@ == b@),
{
    if a.len() != b.len() {
        return false;
    }
    let mut j: usize = 0;
    while j < a.len()
        invariant
            j <= a.len(),
            a.len() == b.len(),
            forall|k: int| 0 <= k < j ==> a@[k] == b@[k],
        decreases a.len() - j,
    {
        if a[j] != b[j] {
            return false;
        }
        j = j + 1;
    }
    assert(a@ =~= b@);
    true
}

/// Whether `pat` occurs in `text` at position `i`.
fn match_at(text: &Vec<u8>, pat: &Vec<u8>, i: usize) -> (b: bool)
    requires
        i + pat.len() <= text.len(),
    ensures
        b == (text@.subrange(i as int, i as int + pat.len() as int) == pat@),
{
    let mut j: usize = 0;
    while j < pat.len()
        invariant
            j <= pat.len(),
            i + pat.len() <= text.len(),
            forall|k: int| 0 <= k < j ==> text@[i + k] == pat@[k],
        decreases pat.len() - j,
    {
        if text[i + j] != pat[j] {
            assert(text@.subrange(i as int, i as int + pat.len() as int)[j as int]
                != pat@[j as int]);
            return false;
        }
        j = j + 1;
    }
    assert(text@.subrange(i as int, i as int + pat.len() as int) =~= pat@);
    true
}

/// Replaces every occurrence of `pat` in `text` by `rep`, as `spec_replace`
/// describes: leftmost first, non-overlapping, never rescanning `rep`.
pub fn replace_bytes(text: &Vec<u8>, pat: &Vec<u8>, rep: &Vec<u8>) -> (r: Vec<u8>)
    ensures
        r@ == spec_replace(text@, pat@, rep@),
{
    let mut out: Vec<u8> = Vec::new();
    if pat.len() == 0 {
        append_bytes(&mut out, text);
        return out;
    }
    let mut i: usize = 0;
    assert(text@.skip(0) =~= text@);
    assert(out@ + spec_replace(text@, pat@, rep@) =~= spec_replace(text@, pat@, rep@));
    while text.len() - i >= pat.len()
        invariant
            pat.len() >= 1,
            i <= text.len(),
            out@ + spec_replace(text@.skip(i as int), pat@, rep@)
                == spec_replace(text@, pat@, rep@),
        decreases text.len() - i,
    {
        let ghost tail = text@.skip(i as int);
        assert(tail.subrange(0, pat.len() as int)
            =~= text@.subrange(i as int, i as int + pat.len() as int));
        if match_at(text, pat, i) {
            append_bytes(&mut out, rep);
            i = i + pat.len();
            assert(tail.skip(pat.len() as int) =~= text@.skip(i as int));
            assert(spec_replace(tail, pat@, rep@)
                == rep@ + spec_replace(text@.skip(i as int), pat@, rep@));
            assert(out@ + spec_replace(text@.skip(i as int), pat@, rep@)
                =~= spec_replace(text@, pat@, rep@));
        } else {
            out.push(text[i]);
            let ghost prev = i as int;
            i = i + 1;
            assert(tail.skip(1) =~= text@.skip(i as int));
            assert(tail[0] == text@[prev]);
            assert(spec_replace(tail, pat@, rep@)
                == seq![text@[prev]] + spec_replace(text@.skip(i as int), pat@, rep@));
            assert(out@ + spec_replace(text@.skip(i as int), pat@, rep@)
                =~= spec_replace(text@, pat@, rep@));
        }
    }
    let ghost tail = text@.skip(i as int);
    assert(spec_replace(tail, pat@, rep@) == tail);
    while i < text.len()
        invariant
            i <= text.len(),
            out@ + text@.skip(i as int) == spec_replace(text@, pat@, rep@),
        decreases text.len() - i,
    {
        out.push(text[i]);
        let ghost prev = i as int;
        i = i + 1;
        assert(text@.skip(prev) =~= seq![text@[prev]] + text@.skip(i as int));
        assert(out@ + text@.skip(i as int) =~= spec_replace(text@, pat@, rep@));
    }
    assert(text@.skip(i as int) =~= Seq::<u8>::empty());
    assert(out@ =~= spec_replace(text@, pat@, rep@));
    out
}

} // verus!
