//! The fold table: a lookup structure of changing case-fold mappings,
//! sorted by source code point and queried by binary search.
//!
//! A code point that the provider folds to itself is never stored: absence
//! of an entry means the code point folds to itself, or has not been looked
//! up yet. The table is owned by one case-fold transform and filled from
//! the provider as the transform meets new code points.

use vstd::prelude::*;

use crate::fold::fold_char;
use crate::provider::provider_case_fold;

verus! {

/// One table entry: a source code point and its one-to-three-code-point
/// replacement, kept in fixed slots with a length counter.
#[derive(Clone, Copy)]
pub struct FoldEntry {
    source: char,
    r0: char,
    r1: char,
    r2: char,
    len: usize,
}

impl FoldEntry {
    /// The source code point of the entry.
    pub closed spec fn src(self) -> char {
        self.source
    }

    /// The length counter names one to three used slots.
    pub closed spec fn valid(self) -> bool {
        1 <= self.len <= 3
    }

    /// The replacement sequence of the entry.
    pub closed spec fn replacement(self) -> Seq<char> {
        if self.len == 1 {
            seq![self.r0]
        } else if self.len == 2 {
            seq![self.r0, self.r1]
        } else {
            seq![self.r0, self.r1, self.r2]
        }
    }
}

/// The table of changing case-fold mappings met so far.
pub struct FoldTable {
    entries: Vec<FoldEntry>,
}

impl FoldTable {
    /// The entries of the table, in order.
    pub closed spec fn entry_seq(self) -> Seq<FoldEntry> {
        self.entries@
    }

    /// Well-formedness: entries strictly sorted by source code point (hence
    /// with unique sources), each entry holding exactly the folding of its
    /// source, and only changing mappings stored.
    pub open spec fn wf(self) -> bool {
        &&& forall|i: int, j: int|
            0 <= i < j < self.entry_seq().len() ==> (self.entry_seq()[i].src() as u32)
                < (self.entry_seq()[j].src() as u32)
        &&& forall|i: int| 0 <= i < self.entry_seq().len() ==> (#[trigger] self.entry_seq()[i]).valid()
        &&& forall|i: int|
            0 <= i < self.entry_seq().len() ==> #[trigger] self.entry_seq()[i].replacement()
                == fold_char(self.entry_seq()[i].src())
        &&& forall|i: int|
            0 <= i < self.entry_seq().len() ==> fold_char(#[trigger] self.entry_seq()[i].src())
                != seq![self.entry_seq()[i].src()]
    }

    /// An empty table.
    pub fn new() -> (r: FoldTable)
        ensures
            r.wf(),
    {
        FoldTable { entries: Vec::new() }
    }

    /// Binary search for `c`: whether an entry with source `c` exists, and
    /// its position, or else the position where it would be inserted.
    fn search(&self, c: char) -> (r: (bool, usize))
        requires
            self.wf(),
        ensures
            r.1 <= self.entry_seq().len(),
            r.0 ==> r.1 < self.entry_seq().len() && self.entry_seq()[r.1 as int].src() == c,
            !r.0 ==> forall|i: int|
                0 <= i < self.entry_seq().len() ==> #[trigger] self.entry_seq()[i].src() != c,
            !r.0 ==> forall|i: int|
                0 <= i < r.1 ==> (#[trigger] self.entry_seq()[i].src() as u32) < (c as u32),
            !r.0 ==> forall|i: int|
                r.1 <= i < self.entry_seq().len() ==> (c as u32) < (
                #[trigger] self.entry_seq()[i].src() as u32),
    {
        broadcast use vstd::utf8::char_u32_cast;

        let cu = c as u32;
        let mut lo: usize = 0;
        let mut hi: usize = self.entries.len();
        while lo < hi
            invariant
                lo <= hi <= self.entry_seq().len(),
                self.wf(),
                forall|i: int| 0 <= i < lo ==> (#[trigger] self.entry_seq()[i].src() as u32) < cu,
                forall|i: int|
                    hi <= i < self.entry_seq().len() ==> cu <= (
                    #[trigger] self.entry_seq()[i].src() as u32),
                cu == c as u32,
            decreases hi - lo,
        {
            let mid = lo + (hi - lo) / 2;
            let s = self.entries[mid].source as u32;
            if s < cu {
                lo = mid + 1;
            } else {
                hi = mid;
            }
        }
        if lo < self.entries.len() && self.entries[lo].source as u32 == cu {
            (true, lo)
        } else {
            proof {
                if lo < self.entry_seq().len() {
                    assert(cu < (self.entry_seq()[lo as int].src() as u32));
                }
                assert forall|i: int|
                    lo <= i < self.entry_seq().len() implies (c as u32) < (
                    #[trigger] self.entry_seq()[i].src() as u32) by {
                    assert((self.entry_seq()[lo as int].src() as u32) <= (self.entry_seq()[i].src()
                        as u32));
                }
            }
            (false, lo)
        }
    }

    /// The folding of `c`: from the table where `c` has an entry, from the
    /// provider otherwise, memoizing any changing mapping met for the first
    /// time.
    pub fn folded(&mut self, c: char) -> (r: Vec<char>)
        requires
            old(self).wf(),
        ensures
            final(self).wf(),
            r@ == fold_char(c),
            1 <= r@.len() <= 3,
    {
        let (found, idx) = self.search(c);
        if found {
            let e = self.entries[idx];
            let mut v: Vec<char> = Vec::new();
            v.push(e.r0);
            if e.len >= 2 {
                v.push(e.r1);
            }
            if e.len == 3 {
                v.push(e.r2);
            }
            proof {
                assert(1 <= self.entry_seq()[idx as int].replacement().len() <= 3);
                assert(v@ =~= self.entry_seq()[idx as int].replacement());
            }
            v
        } else {
            let raw = provider_case_fold(c);
            let v: Vec<char> = if raw.len() < 1 || raw.len() > 3 {
                let mut w: Vec<char> = Vec::new();
                w.push(c);
                proof {
                    assert(w@ =~= seq![c]);
                }
                w
            } else {
                raw
            };
            assert(v@ == fold_char(c));
            let identity = v.len() == 1 && v[0] == c;
            proof {
                if identity {
                    assert(v@ =~= seq![c]);
                } else {
                    assert(v@ != seq![c]);
                }
            }
            if !identity {
                let e = FoldEntry {
                    source: c,
                    r0: v[0],
                    r1: if v.len() >= 2 {
                        v[1]
                    } else {
                        v[0]
                    },
                    r2: if v.len() == 3 {
                        v[2]
                    } else {
                        v[0]
                    },
                    len: v.len(),
                };
                proof {
                    assert(e.replacement() =~= v@);
                }
                self.entries.insert(idx, e);
                proof {
                    let old_seq = old(self).entry_seq();
                    let new_seq = self.entry_seq();
                    old_seq.insert_ensures(idx as int, e);
                    assert forall|i: int, j: int|
                        0 <= i < j < new_seq.len() implies (new_seq[i].src() as u32) < (
                    new_seq[j].src() as u32) by {
                        if i < idx as int && j < idx as int {
                        } else if i < idx as int && j == idx as int {
                        } else if i == idx as int {
                            assert(new_seq[j] == old_seq[j - 1]);
                        } else if i > idx as int {
                            assert(new_seq[i] == old_seq[i - 1]);
                            assert(new_seq[j] == old_seq[j - 1]);
                        } else {
                            assert(new_seq[i] == old_seq[i]);
                            assert(new_seq[j] == old_seq[j - 1]);
                            assert((old_seq[i].src() as u32) < (c as u32));
                            if j - 1 >= idx as int {
                                assert((c as u32) < (old_seq[j - 1].src() as u32));
                            }
                        }
                    }
                }
            }
            v
        }
    }
}

} // verus!
