//! Byte-level substring matching and replacement.
//!
//! The buffer, the query and the replacement are sequences of bytes. A match
//! list is produced by a left-to-right greedy scan: after a match at offset
//! `i`, scanning resumes at `i + pat.len()`, so matches never overlap.

use vstd::prelude::*;

verus! {

/// `pat` occurs in `text` starting at offset `i`.
pub open spec fn match_at(text: Seq<u8>, pat: Seq<u8>, i: int) -> bool {
    &&& 0 <= i
    &&& i + pat.len() <= text.len()
    &&& forall|k: int| 0 <= k < pat.len() ==> text[i + k] == pat[k]
}

/// Offsets of the occurrences of `pat` in `text` found by the greedy
/// left-to-right scan beginning at `pos`; empty when `pat` is empty.
pub open spec fn matches_from(text: Seq<u8>, pat: Seq<u8>, pos: int) -> Seq<int>
    decreases text.len() - pos,
{
    if pos < 0 || pat.len() == 0 || pos + pat.len() > text.len() {
        Seq::<int>::empty()
    } else if match_at(text, pat, pos) {
        seq![pos] + matches_from(text, pat, pos + pat.len())
    } else {
        matches_from(text, pat, pos + 1)
    }
}

/// All match offsets for `pat` in `text`, in ascending order.
pub open spec fn match_offsets(text: Seq<u8>, pat: Seq<u8>) -> Seq<int> {
    matches_from(text, pat, 0)
}

/// The tail of `text` from `pos` on, with every occurrence of `pat` found by
/// the greedy scan replaced by `repl`.
pub open spec fn replaced_from(text: Seq<u8>, pat: Seq<u8>, repl: Seq<u8>, pos: int) -> Seq<u8>
    decreases text.len() - pos,
{
    if pos < 0 || pos > text.len() {
        Seq::<u8>::empty()
    } else if pat.len() == 0 || pos + pat.len() > text.len() {
        text.subrange(pos, text.len() as int)
    } else if match_at(text, pat, pos) {
        repl + replaced_from(text, pat, repl, pos + pat.len())
    } else {
        seq![text[pos]] + replaced_from(text, pat, repl, pos + 1)
    }
}

/// `text` with every left-to-right non-overlapping occurrence of `pat`
/// replaced by `repl`, in a single pass.
pub open spec fn replace_all_spec(text: Seq<u8>, pat: Seq<u8>, repl: Seq<u8>) -> Seq<u8> {
    replaced_from(text, pat, repl, 0)
}

/// Decide whether `pat` occurs in `text` at offset `pos`.
pub fn is_match_at(text: &Vec<u8>, pat: &Vec<u8>, pos: usize) -> (b: bool)
    ensures
        b == match_at(text@, pat@, pos as int),
{
    if pat.len() > text.len() || pos > text.len() - pat.len() {
        return false;
    }
    let mut j: usize = 0;
    while j < pat.len()
        invariant
            pos + pat@.len() <= text@.len(),
            text@.len() <= usize::MAX,
            j <= pat@.len(),
            forall|k: int| 0 <= k < j ==> text@[pos + k] == pat@[k],
        decreases pat@.len() - j,
    {
        if text[pos + j] != pat[j] {
            return false;
        }
        j = j + 1;
    }
    true
}

/// Collect the offsets of all left-to-right non-overlapping occurrences of
/// `pat` in `text`.
pub fn find_matches(text: &Vec<u8>, pat: &Vec<u8>) -> (r: Vec<usize>)
    ensures
        r@.map_values(|v: usize| v as int) == match_offsets(text@, pat@),
{
    let mut out: Vec<usize> = Vec::new();
    if pat.len() == 0 || pat.len() > text.len() {
        assert(out@.map_values(|v: usize| v as int) =~= match_offsets(text@, pat@));
        return out;
    }
    let end: usize = text.len() - pat.len();
    let mut pos: usize = 0;
    while pos <= end
        invariant
            1 <= pat@.len() <= text@.len(),
            text@.len() <= usize::MAX,
            end == text@.len() - pat@.len(),
            pos <= text@.len(),
            out@.map_values(|v: usize| v as int) + matches_from(text@, pat@, pos as int)
                == match_offsets(text@, pat@),
        decreases text@.len() - pos,
    {
        let ghost prev = out@;
        if is_match_at(text, pat, pos) {
            out.push(pos);
            assert(out@.map_values(|v: usize| v as int)
                =~= prev.map_values(|v: usize| v as int) + seq![pos as int]);
            assert(prev.map_values(|v: usize| v as int) + matches_from(text@, pat@, pos as int)
                == match_offsets(text@, pat@));
            pos = pos + pat.len();
        } else {
            pos = pos + 1;
        }
    }
    assert(matches_from(text@, pat@, pos as int) =~= Seq::<int>::empty());
    assert(out@.map_values(|v: usize| v as int)
        =~= out@.map_values(|v: usize| v as int) + Seq::<int>::empty());
    out
}

/// Append every byte of `add` to `out`.
pub fn append_bytes(out: &mut Vec<u8>, add: &Vec<u8>)
    ensures
        final(out)@ == old(out)@ + add@,
{
    let mut j: usize = 0;
    while j < add.len()
        invariant
            j <= add@.len(),
            out@ == old(out)@ + add@.subrange(0, j as int),
        decreases add@.len() - j,
    {
        let ghost prev = out@;
        out.push(add[j]);
        assert(out@ =~= old(out)@ + add@.subrange(0, j + 1));
        j = j + 1;
    }
    assert(add@.subrange(0, add@.len() as int) =~= add@);
}

/// Copy the bytes of `text` in `[start, end)`.
pub fn copy_range(text: &Vec<u8>, start: usize, end: usize) -> (r: Vec<u8>)
    requires
        start <= end,
        end <= text@.len(),
    ensures
        r@ == text@.subrange(start as int, end as int),
{
    let mut out: Vec<u8> = Vec::new();
    let mut i: usize = start;
    while i < end
        invariant
            start <= i <= end,
            end <= text@.len(),
            out@ == text@.subrange(start as int, i as int),
        decreases end - i,
    {
        out.push(text[i]);
        assert(out@ =~= text@.subrange(start as int, i + 1));
        i = i + 1;
    }
    out
}

/// Copy of `text` with the bytes in `[start, end)` replaced by `repl`.
pub fn splice(text: &Vec<u8>, start: usize, end: usize, repl: &Vec<u8>) -> (r: Vec<u8>)
    requires
        start <= end,
        end <= text@.len(),
    ensures
        r@ == text@.subrange(0, start as int) + repl@
            + text@.subrange(end as int, text@.len() as int),
{
    let mut out = copy_range(text, 0, start);
    append_bytes(&mut out, repl);
    let tail = copy_range(text, end, text.len());
    append_bytes(&mut out, &tail);
    out
}

/// Decide whether two byte vectors hold the same bytes.
pub fn bytes_equal(a: &Vec<u8>, b: &Vec<u8>) -> (r: bool)
    ensures
        r == (a@ == b@),
{
    if a.len() != b.len() {
        return false;
    }
    let mut i: usize = 0;
    while i < a.len()
        invariant
            a@.len() == b@.len(),
            i <= a@.len(),
            forall|k: int| 0 <= k < i ==> a@[k] == b@[k],
        decreases a@.len() - i,
    {
        if a[i] != b[i] {
            return false;
        }
        i = i + 1;
    }
    assert(a@ =~= b@);
    true
}

/// `text` with every occurrence of `pat` replaced by `repl`, scanning left to
/// right over non-overlapping matches in a single pass.
pub fn replace_all_bytes(text: &Vec<u8>, pat: &Vec<u8>, repl: &Vec<u8>) -> (r: Vec<u8>)
    ensures
        r@ == replace_all_spec(text@, pat@, repl@),
{
    if pat.len() == 0 || pat.len() > text.len() {
        let out = copy_range(text, 0, text.len());
        assert(out@ =~= replace_all_spec(text@, pat@, repl@));
        return out;
    }
    let mut out: Vec<u8> = Vec::new();
    let end: usize = text.len() - pat.len();
    let mut pos: usize = 0;
    while pos <= end
        invariant
            1 <= pat@.len() <= text@.len(),
            text@.len() <= usize::MAX,
            end == text@.len() - pat@.len(),
            pos <= text@.len(),
            out@ + replaced_from(text@, pat@, repl@, pos as int)
                == replace_all_spec(text@, pat@, repl@),
        decreases text@.len() - pos,
    {
        let ghost prev = out@;
        if is_match_at(text, pat, pos) {
            append_bytes(&mut out, repl);
            assert(out@ + replaced_from(text@, pat@, repl@, pos + pat@.len())
                =~= prev + replaced_from(text@, pat@, repl@, pos as int));
            pos = pos + pat.len();
        } else {
            out.push(text[pos]);
            assert(out@ + replaced_from(text@, pat@, repl@, pos + 1)
                =~= prev + replaced_from(text@, pat@, repl@, pos as int));
            pos = pos + 1;
        }
    }
    let tail = copy_range(text, pos, text.len());
    append_bytes(&mut out, &tail);
    assert(replaced_from(text@, pat@, repl@, pos as int)
        == text@.subrange(pos as int, text@.len() as int));
    out
}

} // verus!
