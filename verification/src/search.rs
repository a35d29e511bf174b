//! The match index and navigator: a query, a replacement, the ordered list of
//! match offsets in the current buffer, and a cyclic cursor over that list.

use vstd::prelude::*;

verus! {

use crate::matching::{
    match_at, match_offsets, replace_all_spec, is_match_at, find_matches, splice,
    replace_all_bytes, bytes_equal,
};

/// The cursor as a mathematical value.
pub open spec fn cursor_view(c: Option<usize>) -> Option<int> {
    match c {
        Some(i) => Some(i as int),
        None => None,
    }
}

/// The cursor after one forward step over `n` matches: cyclic, defaulting to
/// the first match when absent; unchanged when there are no matches.
pub open spec fn next_cursor(cur: Option<int>, n: int) -> Option<int> {
    if n <= 0 {
        cur
    } else {
        match cur {
            Some(c) => Some((c + 1) % n),
            None => Some(0),
        }
    }
}

/// The cursor after one backward step over `n` matches: cyclic, defaulting to
/// the last match when absent; unchanged when there are no matches.
pub open spec fn prev_cursor(cur: Option<int>, n: int) -> Option<int> {
    if n <= 0 {
        cur
    } else {
        match cur {
            Some(c) => Some(if c == 0 { n - 1 } else { c - 1 }),
            None => Some(n - 1),
        }
    }
}

/// What the status area of the search bar displays.
#[derive(Clone, Copy, PartialEq, Eq, Structural, Debug)]
pub enum Status {
    /// No message: no search is active, or no match is selected.
    Quiet,
    /// The query found nothing.
    NoMatches,
    /// Match `index + 1` of `total` is selected.
    Selected { index: usize, total: usize },
}

/// Search and replace state over an external text buffer.
///
/// The match list and the cursor describe the buffer as it stood at the last
/// `update_results`; they go stale the moment the buffer or the query changes.
pub struct SearchState {
    pub show_bar: bool,
    pub query: Vec<u8>,
    pub replace_query: Vec<u8>,
    pub show_replace: bool,
    pub results: Vec<usize>,
    pub current_match_index: Option<usize>,
}

impl SearchState {
    /// The cursor, when present, indexes a valid entry of the match list.
    pub open spec fn wf(self) -> bool {
        self.current_match_index is Some ==> self.current_match_index.unwrap() < self.results@.len()
    }

    /// The match list as mathematical offsets.
    pub open spec fn offsets(self) -> Seq<int> {
        self.results@.map_values(|v: usize| v as int)
    }

    /// The fields that no navigation or replacement operation touches.
    pub open spec fn same_config(self, other: Self) -> bool {
        &&& self.query@ == other.query@
        &&& self.replace_query@ == other.replace_query@
        &&& self.show_bar == other.show_bar
        &&& self.show_replace == other.show_replace
    }

    /// Rebuild the match list from `text` and the current query, and reset the
    /// cursor to the first match, or to nothing when there is none.
    pub fn update_results(&mut self, text: &Vec<u8>)
        ensures
            final(self).same_config(*old(self)),
            final(self).offsets() == match_offsets(text@, old(self).query@),
            final(self).current_match_index == (if match_offsets(text@, old(self).query@).len() > 0 {
                Some(0usize)
            } else {
                None::<usize>
            }),
            final(self).wf(),
    {
        self.results = find_matches(text, &self.query);
        if self.results.len() > 0 {
            self.current_match_index = Some(0);
        } else {
            self.current_match_index = None;
        }
    }

    /// Move the cursor to the next match, wrapping from the last to the first;
    /// from an absent cursor, select the first match. No-op without matches.
    pub fn find_next(&mut self)
        requires
            old(self).wf(),
        ensures
            final(self).same_config(*old(self)),
            final(self).results@ == old(self).results@,
            cursor_view(final(self).current_match_index)
                == next_cursor(cursor_view(old(self).current_match_index), old(self).results@.len() as int),
            final(self).wf(),
    {
        if self.results.len() == 0 {
            return;
        }
        match self.current_match_index {
            Some(current) => {
                self.current_match_index = Some((current + 1) % self.results.len());
            }
            None => {
                self.current_match_index = Some(0);
            }
        }
    }

    /// Move the cursor to the previous match, wrapping from the first to the
    /// last; from an absent cursor, select the last match. No-op without
    /// matches.
    pub fn find_previous(&mut self)
        requires
            old(self).wf(),
        ensures
            final(self).same_config(*old(self)),
            final(self).results@ == old(self).results@,
            cursor_view(final(self).current_match_index)
                == prev_cursor(cursor_view(old(self).current_match_index), old(self).results@.len() as int),
            final(self).wf(),
    {
        if self.results.len() == 0 {
            return;
        }
        match self.current_match_index {
            Some(current) => {
                if current == 0 {
                    self.current_match_index = Some(self.results.len() - 1);
                } else {
                    self.current_match_index = Some(current - 1);
                }
            }
            None => {
                self.current_match_index = Some(self.results.len() - 1);
            }
        }
    }

    /// Replace the match under the cursor with the replacement, provided the
    /// buffer still holds the query at the recorded offset, then rescan the
    /// mutated buffer and keep the cursor at the same list position modulo the
    /// new match count. Returns whether a replacement happened.
    pub fn replace_current(&mut self, text: &mut Vec<u8>) -> (changed: bool)
        requires
            old(self).wf(),
        ensures
            final(self).same_config(*old(self)),
            final(self).wf(),
            changed == (old(self).current_match_index is Some
                && match_at(old(text)@, old(self).query@,
                    old(self).results@[old(self).current_match_index.unwrap() as int] as int)),
            !changed ==> final(text)@ == old(text)@
                && final(self).results@ == old(self).results@
                && final(self).current_match_index == old(self).current_match_index,
            changed ==> ({
                let i = old(self).current_match_index.unwrap() as int;
                let p = old(self).results@[i] as int;
                let new_text = old(text)@.subrange(0, p) + old(self).replace_query@
                    + old(text)@.subrange(p + old(self).query@.len(), old(text)@.len() as int);
                let n = match_offsets(new_text, old(self).query@).len();
                &&& final(text)@ == new_text
                &&& final(self).offsets() == match_offsets(new_text, old(self).query@)
                &&& final(self).current_match_index == (if n > 0 {
                    Some((i % n as int) as usize)
                } else {
                    None::<usize>
                })
            }),
    {
        match self.current_match_index {
            Some(current_idx) => {
                let match_pos = self.results[current_idx];
                if is_match_at(text, &self.query, match_pos) {
                    let text_len = text.len();
                    assert(match_pos + self.query@.len() <= text_len);
                    let new_text = splice(text, match_pos, match_pos + self.query.len(),
                        &self.replace_query);
                    *text = new_text;
                    self.update_results(text);
                    if self.results.len() > 0 {
                        self.current_match_index = Some(current_idx % self.results.len());
                    }
                    true
                } else {
                    false
                }
            }
            None => false,
        }
    }

    /// Replace every non-overlapping occurrence of the query in `text` in one
    /// pass, then rescan. Returns `false`, leaving buffer and state unchanged,
    /// when there is nothing to replace or the replacement leaves the buffer
    /// as it was.
    pub fn replace_all(&mut self, text: &mut Vec<u8>) -> (changed: bool)
        requires
            old(self).wf(),
        ensures
            final(self).same_config(*old(self)),
            final(self).wf(),
            changed == (old(self).results@.len() > 0 && old(self).query@.len() > 0
                && replace_all_spec(old(text)@, old(self).query@, old(self).replace_query@)
                    != old(text)@),
            !changed ==> final(text)@ == old(text)@
                && final(self).results@ == old(self).results@
                && final(self).current_match_index == old(self).current_match_index,
            changed ==> ({
                let new_text = replace_all_spec(old(text)@, old(self).query@,
                    old(self).replace_query@);
                &&& final(text)@ == new_text
                &&& final(self).offsets() == match_offsets(new_text, old(self).query@)
                &&& final(self).current_match_index == (
                    if match_offsets(new_text, old(self).query@).len() > 0 {
                        Some(0usize)
                    } else {
                        None::<usize>
                    })
            }),
    {
        if self.results.len() > 0 && self.query.len() > 0 {
            let new_text = replace_all_bytes(text, &self.query, &self.replace_query);
            if !bytes_equal(&new_text, text) {
                *text = new_text;
                self.update_results(text);
                return true;
            }
        }
        false
    }

    /// The status line the editor shell shows beside the search bar.
    pub fn status(&self) -> (s: Status)
        ensures
            s == (match self.current_match_index {
                Some(i) => Status::Selected { index: i, total: self.results@.len() as usize },
                None => if self.query@.len() > 0 && self.results@.len() == 0 {
                    Status::NoMatches
                } else {
                    Status::Quiet
                },
            }),
    {
        match self.current_match_index {
            Some(i) => Status::Selected { index: i, total: self.results.len() },
            None => {
                if self.query.len() > 0 && self.results.len() == 0 {
                    Status::NoMatches
                } else {
                    Status::Quiet
                }
            }
        }
    }
}

impl Default for SearchState {
    /// The initial state: everything empty, nothing selected, bar hidden.
    fn default() -> (s: Self)
        ensures
            s.query@.len() == 0,
            s.replace_query@.len() == 0,
            s.results@.len() == 0,
            s.current_match_index is None,
            !s.show_bar,
            !s.show_replace,
            s.wf(),
    {
        SearchState {
            show_bar: false,
            query: Vec::new(),
            replace_query: Vec::new(),
            show_replace: false,
            results: Vec::new(),
            current_match_index: None,
        }
    }
}

} // verus!
