//! The highlight composer: a pure map from the match list, the cursor and the
//! query length to a sequence of styled runs that tile the buffer.

use vstd::prelude::*;

verus! {

use crate::search::cursor_view;

/// The style of one run of buffer text.
#[derive(Clone, Copy, PartialEq, Eq, Structural, Debug)]
pub enum RunStyle {
    /// Text outside every match.
    Plain,
    /// A match other than the selected one.
    Found,
    /// The selected match.
    Current,
}

/// One run of buffer text: the bytes in `[start, end)`, with a style.
#[derive(Clone, Copy, PartialEq, Eq, Structural, Debug)]
pub struct Run {
    pub start: usize,
    pub end: usize,
    pub style: RunStyle,
}

/// The match list fits a buffer of `tlen` bytes for a query of `qlen` bytes:
/// every span lies inside the buffer and consecutive spans do not overlap.
pub open spec fn fits(ms: Seq<int>, qlen: int, tlen: int) -> bool {
    &&& forall|k: int| 0 <= k < ms.len() ==> 0 <= #[trigger] ms[k] && ms[k] + qlen <= tlen
    &&& forall|k: int| 0 <= k && k + 1 < ms.len() ==> #[trigger] ms[k] + qlen <= ms[k + 1]
}

/// The runs for the matches from index `k` on, the preceding runs having
/// covered the buffer up to `last`: a plain run for each gap, a styled run for
/// each match span, and a final plain run for the tail of the buffer.
pub open spec fn runs_from(ms: Seq<int>, cursor: Option<int>, qlen: int, tlen: int, k: int, last: int) -> Seq<Run>
    decreases ms.len() - k,
{
    if k < 0 || k >= ms.len() {
        if last < tlen {
            seq![Run { start: last as usize, end: tlen as usize, style: RunStyle::Plain }]
        } else {
            Seq::<Run>::empty()
        }
    } else {
        let m = ms[k];
        let styled = Run {
            start: m as usize,
            end: (m + qlen) as usize,
            style: if cursor == Some(k) { RunStyle::Current } else { RunStyle::Found },
        };
        let gap = if m > last {
            seq![Run { start: last as usize, end: m as usize, style: RunStyle::Plain }]
        } else {
            Seq::<Run>::empty()
        };
        gap + seq![styled] + runs_from(ms, cursor, qlen, tlen, k + 1, m + qlen)
    }
}

/// The run that the composer styles as the current match when the cursor
/// selects match `c`.
pub open spec fn current_run(ms: Seq<int>, c: int, qlen: int) -> Run {
    Run { start: ms[c] as usize, end: (ms[c] + qlen) as usize, style: RunStyle::Current }
}

/// The runs cover `[from, to)` exactly: the first starts at `from`, each one
/// runs into the next, and the last ends at `to`; an empty list covers only
/// an empty range.
pub open spec fn tiles(runs: Seq<Run>, from: int, to: int) -> bool {
    &&& (runs.len() == 0 ==> from == to)
    &&& (runs.len() > 0 ==> runs[0].start == from && runs[runs.len() - 1].end == to)
    &&& (forall|j: int| 0 <= j < runs.len() ==> (#[trigger] runs[j]).start <= runs[j].end)
    &&& (forall|j: int| 0 <= j && j + 1 < runs.len()
        ==> (#[trigger] runs[j]).end == runs[j + 1].start)
}

/// The full run list: one unstyled run over the whole buffer when there is no
/// match or no query, otherwise the runs of the whole match list.
pub open spec fn runs_spec(ms: Seq<int>, cursor: Option<int>, qlen: int, tlen: int) -> Seq<Run> {
    if ms.len() == 0 || qlen == 0 {
        seq![Run { start: 0, end: tlen as usize, style: RunStyle::Plain }]
    } else {
        runs_from(ms, cursor, qlen, tlen, 0, 0)
    }
}

/// Build the styled runs for a buffer of `text_len` bytes: plain gaps around
/// one styled run per match, the one at the cursor index marked current.
pub fn compose(results: &Vec<usize>, cursor: Option<usize>, query_len: usize, text_len: usize) -> (runs: Vec<Run>)
    requires
        fits(results@.map_values(|v: usize| v as int), query_len as int, text_len as int),
    ensures
        runs@ == runs_spec(results@.map_values(|v: usize| v as int), cursor_view(cursor),
            query_len as int, text_len as int),
{
    let ghost ms = results@.map_values(|v: usize| v as int);
    let ghost cv = cursor_view(cursor);
    let mut out: Vec<Run> = Vec::new();
    if results.len() == 0 || query_len == 0 {
        out.push(Run { start: 0, end: text_len, style: RunStyle::Plain });
        assert(out@ =~= runs_spec(ms, cv, query_len as int, text_len as int));
        return out;
    }
    let mut k: usize = 0;
    let mut last: usize = 0;
    while k < results.len()
        invariant
            results@.len() > 0,
            query_len > 0,
            ms == results@.map_values(|v: usize| v as int),
            cv == cursor_view(cursor),
            fits(ms, query_len as int, text_len as int),
            k <= results@.len(),
            last <= text_len,
            k < results@.len() ==> last <= ms[k as int],
            out@ + runs_from(ms, cv, query_len as int, text_len as int, k as int, last as int)
                == runs_from(ms, cv, query_len as int, text_len as int, 0, 0),
        decreases results@.len() - k,
    {
        let ghost prev = out@;
        let ghost rest = runs_from(ms, cv, query_len as int, text_len as int, k as int, last as int);
        let m = results[k];
        assert(0 <= ms[k as int] && ms[k as int] + query_len <= text_len);
        if m > last {
            out.push(Run { start: last, end: m, style: RunStyle::Plain });
        }
        let is_current = match cursor {
            Some(c) => c == k,
            None => false,
        };
        let style = if is_current { RunStyle::Current } else { RunStyle::Found };
        assert(is_current == (cv == Some(k as int)));
        out.push(Run { start: m, end: m + query_len, style });
        assert(out@ + runs_from(ms, cv, query_len as int, text_len as int, k + 1, m + query_len)
            =~= prev + rest);
        last = m + query_len;
        k = k + 1;
        assert(k < results@.len() ==> last <= ms[k as int]);
    }
    assert(runs_from(ms, cv, query_len as int, text_len as int, results@.len() as int, last as int)
        == runs_from(ms, cv, query_len as int, text_len as int, k as int, last as int));
    if last < text_len {
        let ghost prev = out@;
        out.push(Run { start: last, end: text_len, style: RunStyle::Plain });
        assert(out@ =~= prev
            + runs_from(ms, cv, query_len as int, text_len as int, k as int, last as int));
    } else {
        assert(out@ =~= out@
            + runs_from(ms, cv, query_len as int, text_len as int, k as int, last as int));
    }
    assert(runs_spec(ms, cv, query_len as int, text_len as int)
        == runs_from(ms, cv, query_len as int, text_len as int, 0, 0));
    out
}

/// Decide whether the match list fits a buffer of `text_len` bytes for a
/// query of `query_len` bytes.
#[verifier::rlimit(50)]
pub fn check_fits(results: &Vec<usize>, query_len: usize, text_len: usize) -> (b: bool)
    ensures
        b == fits(results@.map_values(|v: usize| v as int), query_len as int, text_len as int),
{
    let ghost ms = results@.map_values(|v: usize| v as int);
    if query_len > text_len {
        if results.len() == 0 {
            return true;
        }
        assert(!fits(ms, query_len as int, text_len as int)) by {
            if fits(ms, query_len as int, text_len as int) {
                assert(0 <= ms[0] && ms[0] + query_len <= text_len);
            }
        }
        return false;
    }
    let bound: usize = text_len - query_len;
    let mut k: usize = 0;
    while k < results.len()
        invariant
            ms == results@.map_values(|v: usize| v as int),
            query_len + bound == text_len,
            k <= results@.len(),
            forall|j: int| 0 <= j < k ==> 0 <= #[trigger] ms[j] && ms[j] + query_len <= text_len,
            forall|j: int| 0 <= j && j + 1 < k ==> #[trigger] ms[j] + query_len <= ms[j + 1],
        decreases results@.len() - k,
    {
        let m = results[k];
        assert(ms[k as int] == m as int);
        if m > bound {
            assert(!fits(ms, query_len as int, text_len as int)) by {
                if fits(ms, query_len as int, text_len as int) {
                    assert(0 <= ms[k as int] && ms[k as int] + query_len <= text_len);
                }
            }
            return false;
        }
        if k > 0 {
            let p = results[k - 1];
            assert(ms[k - 1] == p as int);
            if m < p || m - p < query_len {
                assert(ms[k - 1] + query_len > ms[k as int]);
                assert(!fits(ms, query_len as int, text_len as int));
                return false;
            }
            assert(ms[k - 1] + query_len <= ms[k as int]);
        }
        proof {
            let kk = k as int;
            assert forall|j: int| 0 <= j && j + 1 < kk + 1 implies #[trigger] ms[j] + query_len <= ms[j + 1] by {
                if j + 1 < kk {
                    assert(ms[j] + query_len <= ms[j + 1]);
                } else {
                    assert(j == kk - 1);
                    assert(ms[kk - 1] + query_len <= ms[kk]);
                }
            }
        }
        k = k + 1;
    }
    true
}

/// Build the styled runs after checking that the match list fits the buffer;
/// when it does not, a single plain run over the whole buffer.
pub fn compose_checked(results: &Vec<usize>, cursor: Option<usize>, query_len: usize, text_len: usize) -> (runs: Vec<Run>)
    ensures
        runs@ == (if fits(results@.map_values(|v: usize| v as int), query_len as int,
            text_len as int) {
            runs_spec(results@.map_values(|v: usize| v as int), cursor_view(cursor),
                query_len as int, text_len as int)
        } else {
            seq![Run { start: 0, end: text_len, style: RunStyle::Plain }]
        }),
{
    if check_fits(results, query_len, text_len) {
        compose(results, cursor, query_len, text_len)
    } else {
        let mut out: Vec<Run> = Vec::new();
        out.push(Run { start: 0, end: text_len, style: RunStyle::Plain });
        assert(out@ =~= seq![Run { start: 0, end: text_len, style: RunStyle::Plain }]);
        out
    }
}

} // verus!
