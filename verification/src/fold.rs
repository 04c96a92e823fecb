//! The case-fold transform: the mathematical model of default case
//! folding, and the stream transformer that applies it.

use vstd::prelude::*;

use crate::provider::raw_fold_of;
use crate::stream::CharStream;
use crate::table::FoldTable;

verus! {

/// The default case folding of one code point: the provider's folding where
/// it is usable (one to three code points), the code point itself otherwise.
pub open spec fn fold_char(c: char) -> Seq<char> {
    let r = raw_fold_of(c);
    if 1 <= r.len() && r.len() <= 3 {
        r
    } else {
        seq![c]
    }
}

/// The default case folding of a sequence of code points: each code point's
/// folding, concatenated.
pub open spec fn fold_seq(s: Seq<char>) -> Seq<char>
    decreases s.len(),
{
    if s.len() == 0 {
        Seq::empty()
    } else {
        fold_char(s[0]) + fold_seq(s.drop_first())
    }
}

/// Case folding distributes over concatenation: folding is applied code
/// point by code point, with no lookahead and no context.
pub proof fn lemma_fold_seq_concat(a: Seq<char>, b: Seq<char>)
    ensures
        fold_seq(a + b) == fold_seq(a) + fold_seq(b),
    decreases a.len(),
{
    if a.len() == 0 {
        assert(a + b =~= b);
        assert(fold_seq(a) + fold_seq(b) =~= fold_seq(b));
    } else {
        assert((a + b).drop_first() =~= a.drop_first() + b);
        lemma_fold_seq_concat(a.drop_first(), b);
        assert(fold_seq(a + b) =~= fold_seq(a) + fold_seq(b));
    }
}

/// Folding a sequence at least keeps and at most triples its length.
pub proof fn lemma_fold_seq_len(s: Seq<char>)
    ensures
        s.len() <= fold_seq(s).len() <= 3 * s.len(),
    decreases s.len(),
{
    if s.len() > 0 {
        lemma_fold_seq_len(s.drop_first());
    }
}

/// The case-fold stream transform: emits the case folding of its upstream
/// stream, buffering the overflow code points of a multi-code-point folding
/// in a two-slot pending queue.
pub struct CaseFold<S> {
    chars: S,
    table: FoldTable,
    q0: char,
    q1: char,
    qlen: usize,
}

impl<S: CharStream> CaseFold<S> {
    /// The pending queue as a sequence.
    closed spec fn queue_seq(self) -> Seq<char> {
        if self.qlen == 0 {
            Seq::empty()
        } else if self.qlen == 1 {
            seq![self.q0]
        } else {
            seq![self.q0, self.q1]
        }
    }

    /// Makes the case-fold transform over the stream `chars`.
    pub fn new(chars: S) -> (r: CaseFold<S>)
        requires
            chars.wf(),
        ensures
            r.wf(),
            r.remaining() == fold_seq(chars.remaining()),
    {
        let r = CaseFold { chars, table: FoldTable::new(), q0: '\0', q1: '\0', qlen: 0 };
        proof {
            assert(r.remaining() =~= fold_seq(r.chars.remaining()));
        }
        r
    }
}

impl<S: CharStream> CharStream for CaseFold<S> {
    closed spec fn wf(&self) -> bool {
        &&& self.chars.wf()
        &&& self.table.wf()
        &&& self.qlen <= 2
    }

    closed spec fn remaining(&self) -> Seq<char> {
        self.queue_seq() + fold_seq(self.chars.remaining())
    }

    fn next(&mut self) -> (r: Option<char>) {
        if self.qlen > 0 {
            let c = self.q0;
            self.q0 = self.q1;
            self.qlen = self.qlen - 1;
            proof {
                assert(old(self).remaining()[0] == c);
                assert(self.remaining() =~= old(self).remaining().drop_first());
            }
            Some(c)
        } else {
            let pulled = self.chars.next();
            match pulled {
                None => {
                    proof {
                        assert(old(self).remaining() =~= Seq::<char>::empty());
                        assert(self.remaining() =~= Seq::<char>::empty());
                    }
                    None
                },
                Some(c) => {
                    let ghost up_rest = self.chars.remaining();
                    let f = self.table.folded(c);
                    if f.len() >= 2 {
                        self.q0 = f[1];
                    }
                    if f.len() == 3 {
                        self.q1 = f[2];
                    }
                    self.qlen = f.len() - 1;
                    proof {
                        let up_old = old(self).chars.remaining();
                        assert(up_old[0] == c && up_old.drop_first() == up_rest);
                        assert(fold_seq(up_old) == fold_char(c) + fold_seq(up_rest));
                        assert(old(self).remaining() =~= fold_char(c) + fold_seq(up_rest));
                        assert(old(self).remaining()[0] == f@[0]);
                        assert(self.queue_seq() =~= f@.drop_first());
                        assert(self.remaining() =~= old(self).remaining().drop_first());
                    }
                    Some(f[0])
                },
            }
        }
    }

    fn size_hint(&self) -> (r: (usize, Option<usize>)) {
        proof {
            lemma_fold_seq_len(self.chars.remaining());
        }
        let (low, high) = self.chars.size_hint();
        let lo = if low <= usize::MAX - self.qlen {
            low + self.qlen
        } else {
            usize::MAX
        };
        let hi = match high {
            Some(h) => {
                if h <= (usize::MAX - self.qlen) / 3 {
                    Some(3 * h + self.qlen)
                } else {
                    None
                }
            },
            None => None,
        };
        (lo, hi)
    }
}

} // verus!
