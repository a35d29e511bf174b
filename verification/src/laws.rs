//! The laws of the engine, stated and proved once for all inputs: what the
//! scan reports, how the cyclic cursor behaves under repeated steps, when a
//! bulk replacement changes the buffer, and that the styled runs tile it.

use vstd::prelude::*;

verus! {

use crate::matching::{
    match_at, match_offsets, matches_from, replaced_from, replace_all_spec,
};
use crate::search::{next_cursor, prev_cursor};
use crate::highlight::{current_run, fits, runs_from, runs_spec, tiles, Run, RunStyle};
use vstd::arithmetic::div_mod::{
    lemma_small_mod, lemma_mod_self_0, lemma_mod_bound, lemma_add_mod_noop_right,
    lemma_mod_multiples_vanish,
};

proof fn lemma_matches_from_props(text: Seq<u8>, pat: Seq<u8>, pos: int)
    requires
        pat.len() > 0,
        pos >= 0,
    ensures
        forall|k: int| 0 <= k < matches_from(text, pat, pos).len()
            ==> pos <= #[trigger] matches_from(text, pat, pos)[k]
                && match_at(text, pat, matches_from(text, pat, pos)[k]),
        forall|k: int| 0 <= k && k + 1 < matches_from(text, pat, pos).len()
            ==> #[trigger] matches_from(text, pat, pos)[k] + pat.len()
                <= matches_from(text, pat, pos)[k + 1],
        forall|i: int| pos <= i && match_at(text, pat, i)
            ==> exists|k: int| 0 <= k < matches_from(text, pat, pos).len()
                && #[trigger] matches_from(text, pat, pos)[k] <= i
                && i < matches_from(text, pat, pos)[k] + pat.len(),
    decreases text.len() - pos,
{
    let ms = matches_from(text, pat, pos);
    if pos + pat.len() > text.len() {
        assert(ms.len() == 0);
        assert forall|i: int| pos <= i && match_at(text, pat, i)
            implies exists|k: int| 0 <= k < ms.len() && #[trigger] ms[k] <= i
                && i < ms[k] + pat.len() by {
            assert(i + pat.len() <= text.len());
            assert(false);
        }
    } else if match_at(text, pat, pos) {
        let rest = matches_from(text, pat, pos + pat.len());
        lemma_matches_from_props(text, pat, pos + pat.len());
        assert(ms == seq![pos] + rest);
        assert(ms[0] == pos);
        assert(forall|k: int| 0 <= k < rest.len() ==> ms[k + 1] == #[trigger] rest[k]);
        assert forall|i: int| pos <= i && match_at(text, pat, i)
            implies exists|k: int| 0 <= k < ms.len() && #[trigger] ms[k] <= i
                && i < ms[k] + pat.len() by {
            if i < pos + pat.len() {
                assert(ms[0] <= i < ms[0] + pat.len());
            } else {
                let k0 = choose|k0: int| 0 <= k0 < rest.len() && #[trigger] rest[k0] <= i
                    && i < rest[k0] + pat.len();
                assert(ms[k0 + 1] <= i < ms[k0 + 1] + pat.len());
            }
        }
    } else {
        let rest = matches_from(text, pat, pos + 1);
        lemma_matches_from_props(text, pat, pos + 1);
        assert(ms == rest);
        assert forall|i: int| pos <= i && match_at(text, pat, i)
            implies exists|k: int| 0 <= k < ms.len() && #[trigger] ms[k] <= i
                && i < ms[k] + pat.len() by {
            assert(i != pos);
            let k0 = choose|k0: int| 0 <= k0 < rest.len() && #[trigger] rest[k0] <= i
                && i < rest[k0] + pat.len();
            assert(ms[k0] <= i < ms[k0] + pat.len());
        }
    }
}

/// What the scan reports, for every buffer and non-empty query: every
/// reported offset is a real occurrence; offsets ascend and their spans do
/// not overlap; and every occurrence of the query overlaps some reported
/// span, so none is passed over.
pub proof fn lemma_match_offsets_sound(text: Seq<u8>, pat: Seq<u8>)
    requires
        pat.len() > 0,
    ensures
        forall|k: int| 0 <= k < match_offsets(text, pat).len()
            ==> 0 <= #[trigger] match_offsets(text, pat)[k]
                && match_at(text, pat, match_offsets(text, pat)[k]),
        forall|k: int| 0 <= k && k + 1 < match_offsets(text, pat).len()
            ==> #[trigger] match_offsets(text, pat)[k] + pat.len()
                <= match_offsets(text, pat)[k + 1],
        forall|i: int| match_at(text, pat, i)
            ==> exists|k: int| 0 <= k < match_offsets(text, pat).len()
                && #[trigger] match_offsets(text, pat)[k] <= i
                && i < match_offsets(text, pat)[k] + pat.len(),
{
    lemma_matches_from_props(text, pat, 0);
    let ms0 = matches_from(text, pat, 0);
    assert forall|i: int| match_at(text, pat, i)
        implies exists|k: int| 0 <= k < match_offsets(text, pat).len()
            && #[trigger] match_offsets(text, pat)[k] <= i
            && i < match_offsets(text, pat)[k] + pat.len() by {
        assert(0 <= i);
        let k0 = choose|k0: int| 0 <= k0 < ms0.len() && #[trigger] ms0[k0] <= i
            && i < ms0[k0] + pat.len();
        assert(0 <= k0 < match_offsets(text, pat).len()
            && match_offsets(text, pat)[k0] <= i
            && i < match_offsets(text, pat)[k0] + pat.len());
    }
}

/// The match list of a scan always fits the buffer it was scanned from.
pub proof fn lemma_offsets_fit(text: Seq<u8>, pat: Seq<u8>)
    ensures
        fits(match_offsets(text, pat), pat.len() as int, text.len() as int),
{
    if pat.len() == 0 {
        assert(match_offsets(text, pat).len() == 0);
    } else {
        lemma_matches_from_props(text, pat, 0);
    }
}

/// The cursor after `t` forward steps over `n` matches.
pub open spec fn advance_times(cur: Option<int>, n: int, t: nat) -> Option<int>
    decreases t,
{
    if t == 0 {
        cur
    } else {
        next_cursor(advance_times(cur, n, (t - 1) as nat), n)
    }
}

/// The cursor after `t` backward steps over `n` matches.
pub open spec fn retreat_times(cur: Option<int>, n: int, t: nat) -> Option<int>
    decreases t,
{
    if t == 0 {
        cur
    } else {
        prev_cursor(retreat_times(cur, n, (t - 1) as nat), n)
    }
}

proof fn lemma_advance_times_mod(i: int, n: int, t: nat)
    requires
        0 <= i < n,
    ensures
        advance_times(Some(i), n, t) == Some((i + t) % n),
    decreases t,
{
    if t == 0 {
        lemma_small_mod(i as nat, n as nat);
    } else {
        lemma_advance_times_mod(i, n, (t - 1) as nat);
        lemma_mod_bound(i + t - 1, n);
        lemma_add_mod_noop_right(1, i + t - 1, n);
    }
}

/// Stepping forward exactly `n` times over `n` matches returns the cursor to
/// where it started: the cursor moves in a cycle of order `n`.
pub proof fn lemma_advance_cycle(i: int, n: int)
    requires
        0 <= i < n,
    ensures
        advance_times(Some(i), n, n as nat) == Some(i),
{
    lemma_advance_times_mod(i, n, n as nat);
    lemma_mod_multiples_vanish(1, i, n);
    lemma_small_mod(i as nat, n as nat);
    assert(i + n == n * 1 + i);
}

proof fn lemma_prev_cursor_mod(c: int, n: int)
    requires
        0 <= c < n,
    ensures
        prev_cursor(Some(c), n) == Some((c + n - 1) % n),
{
    if c == 0 {
        lemma_small_mod((n - 1) as nat, n as nat);
    } else {
        lemma_mod_multiples_vanish(-1, c + n - 1, n);
        assert(c - 1 == n * -1 + (c + n - 1));
        lemma_small_mod((c - 1) as nat, n as nat);
    }
}

proof fn lemma_retreat_times_mod(i: int, n: int, t: nat)
    requires
        0 <= i < n,
    ensures
        retreat_times(Some(i), n, t) == Some((i + t * (n - 1)) % n),
    decreases t,
{
    if t == 0 {
        lemma_small_mod(i as nat, n as nat);
    } else {
        lemma_retreat_times_mod(i, n, (t - 1) as nat);
        let x = i + (t - 1) * (n - 1);
        let c = x % n;
        lemma_mod_bound(x, n);
        assert(retreat_times(Some(i), n, t) == prev_cursor(Some(c), n));
        lemma_prev_cursor_mod(c, n);
        lemma_add_mod_noop_right(n - 1, x, n);
        assert((c + n - 1) % n == (x + (n - 1)) % n);
        assert(t * (n - 1) == (t - 1) * (n - 1) + (n - 1)) by (nonlinear_arith);
        assert(i + t * (n - 1) == x + (n - 1));
    }
}

/// Stepping backward exactly `n` times over `n` matches returns the cursor to
/// where it started.
pub proof fn lemma_retreat_cycle(i: int, n: int)
    requires
        0 <= i < n,
    ensures
        retreat_times(Some(i), n, n as nat) == Some(i),
{
    lemma_retreat_times_mod(i, n, n as nat);
    lemma_mod_multiples_vanish(n - 1, i, n);
    lemma_small_mod(i as nat, n as nat);
    assert(i + n * (n - 1) == n * (n - 1) + i);
}

/// One step forward then one step back — in either order — returns the
/// cursor to the selected match it started on.
pub proof fn lemma_advance_retreat_inverse(i: int, n: int)
    requires
        0 <= i < n,
    ensures
        prev_cursor(next_cursor(Some(i), n), n) == Some(i),
        next_cursor(prev_cursor(Some(i), n), n) == Some(i),
{
    if i == n - 1 {
        lemma_mod_self_0(n);
        assert((i + 1) % n == 0);
    } else {
        lemma_small_mod((i + 1) as nat, n as nat);
    }
    if i == 0 {
        lemma_mod_self_0(n);
        assert((n - 1 + 1) % n == 0);
    } else {
        lemma_small_mod(i as nat, n as nat);
    }
}

proof fn lemma_replaced_from_identity(text: Seq<u8>, pat: Seq<u8>, pos: int)
    requires
        pat.len() > 0,
        0 <= pos <= text.len(),
    ensures
        replaced_from(text, pat, pat, pos) == text.subrange(pos, text.len() as int),
    decreases text.len() - pos,
{
    if pos + pat.len() > text.len() {
    } else if match_at(text, pat, pos) {
        lemma_replaced_from_identity(text, pat, pos + pat.len());
        assert(pat + text.subrange(pos + pat.len(), text.len() as int)
            =~= text.subrange(pos, text.len() as int));
    } else {
        lemma_replaced_from_identity(text, pat, pos + 1);
        assert(seq![text[pos]] + text.subrange(pos + 1, text.len() as int)
            =~= text.subrange(pos, text.len() as int));
    }
}

/// Replacing a query by itself leaves the buffer exactly as it was, so
/// replace-all is then a no-op.
pub proof fn lemma_replace_all_identity(text: Seq<u8>, pat: Seq<u8>)
    requires
        pat.len() > 0,
    ensures
        replace_all_spec(text, pat, pat) == text,
{
    lemma_replaced_from_identity(text, pat, 0);
    assert(text.subrange(0, text.len() as int) =~= text);
}

proof fn lemma_replaced_from_len(text: Seq<u8>, pat: Seq<u8>, repl: Seq<u8>, pos: int)
    requires
        pat.len() > 0,
        0 <= pos <= text.len(),
    ensures
        replaced_from(text, pat, repl, pos).len()
            == text.len() - pos
                + matches_from(text, pat, pos).len() * (repl.len() - pat.len()),
    decreases text.len() - pos,
{
    let d = repl.len() - pat.len();
    if pos + pat.len() > text.len() {
        assert(matches_from(text, pat, pos).len() * d == 0) by (nonlinear_arith)
            requires matches_from(text, pat, pos).len() == 0;
    } else if match_at(text, pat, pos) {
        lemma_replaced_from_len(text, pat, repl, pos + pat.len());
        let c = matches_from(text, pat, pos + pat.len()).len();
        assert(matches_from(text, pat, pos).len() == c + 1);
        assert((c + 1) * d == c * d + d) by (nonlinear_arith);
    } else {
        lemma_replaced_from_len(text, pat, repl, pos + 1);
    }
}

proof fn lemma_replaced_from_changes(text: Seq<u8>, pat: Seq<u8>, repl: Seq<u8>, pos: int)
    requires
        pat.len() > 0,
        repl.len() == pat.len(),
        repl != pat,
        0 <= pos <= text.len(),
        matches_from(text, pat, pos).len() > 0,
    ensures
        replaced_from(text, pat, repl, pos) != text.subrange(pos, text.len() as int),
    decreases text.len() - pos,
{
    let tail = text.subrange(pos, text.len() as int);
    if pos + pat.len() > text.len() {
        assert(false);
    } else if match_at(text, pat, pos) {
        let rec = replaced_from(text, pat, repl, pos + pat.len());
        if repl + rec == tail {
            assert forall|k: int| 0 <= k < pat.len() implies repl[k] == pat[k] by {
                assert((repl + rec)[k] == repl[k]);
                assert(tail[k] == text[pos + k]);
            }
            assert(repl =~= pat);
            assert(false);
        }
    } else {
        let rec = replaced_from(text, pat, repl, pos + 1);
        lemma_replaced_from_changes(text, pat, repl, pos + 1);
        let shorter = text.subrange(pos + 1, text.len() as int);
        if seq![text[pos]] + rec == tail {
            assert(tail.len() == text.len() - pos);
            assert((seq![text[pos]] + rec).len() == 1 + rec.len());
            assert(1 + rec.len() == tail.len());
            assert forall|k: int| 0 <= k < rec.len() implies rec[k] == shorter[k] by {
                assert(0 <= k + 1 < tail.len());
                assert((seq![text[pos]] + rec)[k + 1] == rec[k]);
                assert(tail[k + 1] == text[(k + 1) + pos]);
                assert(shorter[k] == text[k + (pos + 1)]);
            }
            assert(rec =~= shorter);
            assert(false);
        }
    }
}

/// Replacing a non-empty query by anything other than itself, in a buffer
/// that holds at least one occurrence, changes the buffer: replace-all then
/// reports a change.
pub proof fn lemma_replace_all_changes(text: Seq<u8>, pat: Seq<u8>, repl: Seq<u8>)
    requires
        pat.len() > 0,
        repl != pat,
        match_offsets(text, pat).len() > 0,
    ensures
        replace_all_spec(text, pat, repl) != text,
{
    if repl.len() == pat.len() {
        lemma_replaced_from_changes(text, pat, repl, 0);
        assert(text.subrange(0, text.len() as int) =~= text);
    } else {
        lemma_replaced_from_len(text, pat, repl, 0);
        let c = match_offsets(text, pat).len();
        let d = repl.len() - pat.len();
        assert(c * d != 0) by (nonlinear_arith)
            requires c >= 1, d != 0;
    }
}

#[verifier::rlimit(60)]
#[verifier::spinoff_prover]
proof fn lemma_tiles_concat(a: Seq<Run>, b: Seq<Run>, from: int, mid: int, to: int)
    requires
        tiles(a, from, mid),
        tiles(b, mid, to),
    ensures
        tiles(a + b, from, to),
{
    let c = a + b;
    if a.len() == 0 {
        assert(c =~= b);
    } else if b.len() == 0 {
        assert(c =~= a);
    } else {
        assert(c[0] == a[0]);
        assert(c[c.len() - 1] == b[b.len() - 1]);
        assert forall|j: int| 0 <= j < c.len()
            implies (#[trigger] c[j]).start <= c[j].end by {
            if j < a.len() {
                assert(c[j] == a[j]);
                assert(a[j].start <= a[j].end);
            } else {
                assert(c[j] == b[j - a.len()]);
                assert(b[j - a.len()].start <= b[j - a.len()].end);
            }
        }
        assert forall|j: int| 0 <= j && j + 1 < c.len()
            implies (#[trigger] c[j]).end == c[j + 1].start by {
            if j + 1 < a.len() {
                assert(c[j] == a[j]);
                assert(c[j + 1] == a[j + 1]);
                assert(a[j].end == a[j + 1].start);
            } else if j + 1 == a.len() {
                assert(c[j] == a[j]);
                assert(c[j + 1] == b[0]);
                assert(a[a.len() - 1].end == mid);
                assert(b[0].start == mid);
            } else {
                assert(c[j] == b[j - a.len()]);
                assert(c[j + 1] == b[j + 1 - a.len()]);
                assert(b[j - a.len()].end == b[j + 1 - a.len()].start);
            }
        }
    }
}

#[verifier::rlimit(100)]
#[verifier::spinoff_prover]
proof fn lemma_runs_from_tile(ms: Seq<int>, cursor: Option<int>, qlen: int, tlen: int, k: int, last: int)
    requires
        qlen >= 1,
        tlen <= usize::MAX,
        fits(ms, qlen, tlen),
        0 <= k <= ms.len(),
        0 <= last <= tlen,
        k < ms.len() ==> last <= ms[k],
    ensures
        tiles(runs_from(ms, cursor, qlen, tlen, k, last), last, tlen),
    decreases ms.len() - k,
{
    let runs = runs_from(ms, cursor, qlen, tlen, k, last);
    if k >= ms.len() {
    } else {
        let m = ms[k];
        assert(0 <= m && m + qlen <= tlen);
        lemma_runs_from_tile(ms, cursor, qlen, tlen, k + 1, m + qlen);
        let rec = runs_from(ms, cursor, qlen, tlen, k + 1, m + qlen);
        let styled = Run {
            start: m as usize,
            end: (m + qlen) as usize,
            style: if cursor == Some(k) { RunStyle::Current } else { RunStyle::Found },
        };
        let gap = if m > last {
            seq![Run { start: last as usize, end: m as usize, style: RunStyle::Plain }]
        } else {
            Seq::<Run>::empty()
        };
        assert(runs == gap + seq![styled] + rec);
        assert(tiles(gap, last, m));
        assert(tiles(seq![styled], m, m + qlen));
        lemma_tiles_concat(gap, seq![styled], last, m, m + qlen);
        lemma_tiles_concat(gap + seq![styled], rec, last, m + qlen, tlen);
    }
}

#[verifier::rlimit(100)]
#[verifier::spinoff_prover]
proof fn lemma_runs_from_current(ms: Seq<int>, c: int, qlen: int, tlen: int, k: int, last: int)
    requires
        qlen >= 1,
        tlen <= usize::MAX,
        fits(ms, qlen, tlen),
        0 <= c < ms.len(),
        0 <= k <= ms.len(),
        0 <= last <= tlen,
        k < ms.len() ==> last <= ms[k],
    ensures
        forall|j: int| 0 <= j < runs_from(ms, Some(c), qlen, tlen, k, last).len()
            && (#[trigger] runs_from(ms, Some(c), qlen, tlen, k, last)[j]).style
                == RunStyle::Current
            ==> runs_from(ms, Some(c), qlen, tlen, k, last)[j] == current_run(ms, c, qlen),
        k <= c ==> exists|j: int| 0 <= j < runs_from(ms, Some(c), qlen, tlen, k, last).len()
            && (#[trigger] runs_from(ms, Some(c), qlen, tlen, k, last)[j])
                == current_run(ms, c, qlen),
        k > c ==> forall|j: int| 0 <= j < runs_from(ms, Some(c), qlen, tlen, k, last).len()
            ==> (#[trigger] runs_from(ms, Some(c), qlen, tlen, k, last)[j]).style
                != RunStyle::Current,
        forall|j1: int, j2: int|
            #![trigger runs_from(ms, Some(c), qlen, tlen, k, last)[j1],
                runs_from(ms, Some(c), qlen, tlen, k, last)[j2]]
            0 <= j1 < runs_from(ms, Some(c), qlen, tlen, k, last).len()
            && 0 <= j2 < runs_from(ms, Some(c), qlen, tlen, k, last).len()
            && runs_from(ms, Some(c), qlen, tlen, k, last)[j1].style == RunStyle::Current
            && runs_from(ms, Some(c), qlen, tlen, k, last)[j2].style == RunStyle::Current
            ==> j1 == j2,
    decreases ms.len() - k,
{
    let runs = runs_from(ms, Some(c), qlen, tlen, k, last);
    if k >= ms.len() {
    } else {
        let m = ms[k];
        assert(0 <= m && m + qlen <= tlen);
        lemma_runs_from_current(ms, c, qlen, tlen, k + 1, m + qlen);
        let rec = runs_from(ms, Some(c), qlen, tlen, k + 1, m + qlen);
        let styled = Run {
            start: m as usize,
            end: (m + qlen) as usize,
            style: if Some(c) == Some(k) { RunStyle::Current } else { RunStyle::Found },
        };
        let gap = if m > last {
            seq![Run { start: last as usize, end: m as usize, style: RunStyle::Plain }]
        } else {
            Seq::<Run>::empty()
        };
        assert(runs == gap + seq![styled] + rec);
        let g = gap.len() as int;
        assert(runs.len() == g + 1 + rec.len());
        assert(g == 1 ==> runs[0] == gap[0] && gap[0].style == RunStyle::Plain);
        assert(runs[g] == styled);
        assert(forall|i: int| 0 <= i < rec.len() ==> runs[g + 1 + i] == #[trigger] rec[i]);
        if k == c {
            assert(styled == current_run(ms, c, qlen));
        }
        assert forall|j: int| 0 <= j < runs.len() && (#[trigger] runs[j]).style == RunStyle::Current
            implies runs[j] == current_run(ms, c, qlen) by {
            if j < g {
                assert(false);
            } else if j == g {
                assert(c == k);
            } else {
                assert(runs[j] == rec[j - g - 1]);
            }
        }
        if k <= c {
            if k == c {
                assert(runs[g] == current_run(ms, c, qlen));
            } else {
                let i0 = choose|i0: int| 0 <= i0 < rec.len()
                    && (#[trigger] rec[i0]) == current_run(ms, c, qlen);
                assert(runs[g + 1 + i0] == current_run(ms, c, qlen));
            }
        }
        if k > c {
            assert forall|j: int| 0 <= j < runs.len()
                implies (#[trigger] runs[j]).style != RunStyle::Current by {
                if j < g {
                } else if j == g {
                    assert(c != k);
                } else {
                    assert(runs[j] == rec[j - g - 1]);
                }
            }
        }
        assert forall|j1: int, j2: int|
            #![trigger runs[j1], runs[j2]]
            0 <= j1 < runs.len() && 0 <= j2 < runs.len()
            && runs[j1].style == RunStyle::Current && runs[j2].style == RunStyle::Current
            implies j1 == j2 by {
            if k == c {
                // the current run is the styled one; the tail holds none
                assert(j1 >= g ==> j1 == g || runs[j1] == rec[j1 - g - 1]);
                assert(j2 >= g ==> j2 == g || runs[j2] == rec[j2 - g - 1]);
                assert(j1 == g && j2 == g);
            } else {
                // the current run can only sit in the tail
                assert(j1 > g && j2 > g);
                assert(runs[j1] == rec[j1 - g - 1]);
                assert(runs[j2] == rec[j2 - g - 1]);
                assert(j1 - g - 1 == j2 - g - 1);
            }
        }
    }
}

/// When the cursor selects a match, exactly one styled run carries the
/// current-match style, and it spans exactly that match.
pub proof fn lemma_one_current_run(ms: Seq<int>, c: int, qlen: int, tlen: int)
    requires
        1 <= qlen,
        0 <= tlen <= usize::MAX,
        fits(ms, qlen, tlen),
        0 <= c < ms.len(),
    ensures
        exists|j: int| 0 <= j < runs_spec(ms, Some(c), qlen, tlen).len()
            && (#[trigger] runs_spec(ms, Some(c), qlen, tlen)[j]) == current_run(ms, c, qlen),
        forall|j: int| 0 <= j < runs_spec(ms, Some(c), qlen, tlen).len()
            && (#[trigger] runs_spec(ms, Some(c), qlen, tlen)[j]).style == RunStyle::Current
            ==> runs_spec(ms, Some(c), qlen, tlen)[j] == current_run(ms, c, qlen),
        forall|j1: int, j2: int|
            #![trigger runs_spec(ms, Some(c), qlen, tlen)[j1],
                runs_spec(ms, Some(c), qlen, tlen)[j2]]
            0 <= j1 < runs_spec(ms, Some(c), qlen, tlen).len()
            && 0 <= j2 < runs_spec(ms, Some(c), qlen, tlen).len()
            && runs_spec(ms, Some(c), qlen, tlen)[j1].style == RunStyle::Current
            && runs_spec(ms, Some(c), qlen, tlen)[j2].style == RunStyle::Current
            ==> j1 == j2,
{
    lemma_runs_from_current(ms, c, qlen, tlen, 0, 0);
    assert(runs_spec(ms, Some(c), qlen, tlen) == runs_from(ms, Some(c), qlen, tlen, 0, 0));
}

/// The styled runs tile the buffer exactly: the first starts at its first
/// byte, each runs into the next without gap or overlap, and the last ends at
/// its length; so their concatenation is the whole buffer.
pub proof fn lemma_runs_tile(ms: Seq<int>, cursor: Option<int>, qlen: int, tlen: int)
    requires
        0 <= qlen,
        0 <= tlen <= usize::MAX,
        fits(ms, qlen, tlen),
    ensures
        tiles(runs_spec(ms, cursor, qlen, tlen), 0, tlen),
{
    if ms.len() == 0 || qlen == 0 {
    } else {
        lemma_runs_from_tile(ms, cursor, qlen, tlen, 0, 0);
    }
}

} // verus!
