//! The decomposition transform: a stream transformer that emits the
//! canonical (NFD) or compatibility (NFKD) decomposition of its upstream
//! stream, with each run of combining marks reordered into non-decreasing
//! combining-class order by a stable sort.
//!
//! The transform buffers a run of nonzero-class code points until a class-0
//! boundary (or the end of the stream) is known, sorts the run in place
//! with a stable adjacent-swap pass, and only then emits; the sorted prefix
//! of the buffer is drained one code point per pull.

use vstd::prelude::*;

use crate::order::class_sort;
use crate::order::classes_sorted;
use crate::order::lemma_adjacent_classes_sorted;
use crate::order::lemma_class_sort_of_sorted;
use crate::order::lemma_class_sort_swap;
use crate::order::lemma_reorder_pending_len;
use crate::order::reorder;
use crate::order::reorder_pending;
use crate::provider::canonical_decomposition_of;
use crate::provider::combining_class_of;
use crate::provider::compatibility_decomposition_of;
use crate::provider::provider_canonical_decomposition;
use crate::provider::provider_combining_class;
use crate::provider::provider_compatibility_decomposition;
use crate::stream::CharStream;

verus! {

/// Which decomposition a transform applies.
#[derive(Clone, Copy)]
pub enum DecompositionKind {
    Canonical,
    Compatible,
}

/// The decomposition of one code point under `kind`, not yet reordered.
pub open spec fn decompose_char(c: char, kind: DecompositionKind) -> Seq<char> {
    match kind {
        DecompositionKind::Canonical => canonical_decomposition_of(c),
        DecompositionKind::Compatible => compatibility_decomposition_of(c),
    }
}

/// The decomposition of a sequence of code points: each code point's
/// decomposition, concatenated, not yet reordered.
pub open spec fn decompose_seq(s: Seq<char>, kind: DecompositionKind) -> Seq<char>
    decreases s.len(),
{
    if s.len() == 0 {
        Seq::empty()
    } else {
        decompose_char(s[0], kind) + decompose_seq(s.drop_first(), kind)
    }
}

/// The normal form of a sequence under `kind`: its decomposition with every
/// run of combining marks canonically ordered.
pub open spec fn normalize_seq(s: Seq<char>, kind: DecompositionKind) -> Seq<char> {
    reorder(decompose_seq(s, kind))
}

/// Decomposition distributes over concatenation: it is applied code point
/// by code point, with no lookahead and no context.
pub proof fn lemma_decompose_seq_concat(a: Seq<char>, b: Seq<char>, kind: DecompositionKind)
    ensures
        decompose_seq(a + b, kind) == decompose_seq(a, kind) + decompose_seq(b, kind),
    decreases a.len(),
{
    if a.len() == 0 {
        assert(a + b =~= b);
        assert(decompose_seq(a, kind) + decompose_seq(b, kind) =~= decompose_seq(b, kind));
    } else {
        assert((a + b).drop_first() =~= a.drop_first() + b);
        lemma_decompose_seq_concat(a.drop_first(), b, kind);
        assert(decompose_seq(a + b, kind) =~= decompose_seq(a, kind) + decompose_seq(b, kind));
    }
}

/// The decomposition of one code point under `kind`, from the provider.
fn decompose_one(c: char, kind: DecompositionKind) -> (r: Vec<char>)
    ensures
        r@ == decompose_char(c, kind),
{
    match kind {
        DecompositionKind::Canonical => provider_canonical_decomposition(c),
        DecompositionKind::Compatible => provider_compatibility_decomposition(c),
    }
}

/// Sorts `buf[start..]` by combining class with a stable adjacent-swap
/// (bubble) pass over the paired class vector, early-exiting once a full
/// pass performs no swap. Elements before `start` do not move.
fn sort_run(buf: &mut Vec<char>, cls: &mut Vec<u8>, start: usize)
    requires
        old(buf)@.len() == old(cls)@.len(),
        start <= old(buf)@.len(),
        forall|i: int|
            0 <= i < old(buf)@.len() ==> old(cls)@[i] == combining_class_of(#[trigger] old(buf)@[i]),
    ensures
        final(buf)@.len() == old(buf)@.len(),
        final(cls)@.len() == old(cls)@.len(),
        forall|i: int| 0 <= i < start ==> final(buf)@[i] == old(buf)@[i],
        forall|i: int| 0 <= i < start ==> final(cls)@[i] == old(cls)@[i],
        forall|i: int|
            0 <= i < final(buf)@.len() ==> final(cls)@[i] == combining_class_of(
                #[trigger] final(buf)@[i],
            ),
        final(buf)@.skip(start as int) == class_sort(old(buf)@.skip(start as int)),
        classes_sorted(final(buf)@.skip(start as int)),
{
    let ghost orig = old(buf)@.skip(start as int);
    let n = buf.len();
    let mut end = n;
    if end - start > 1 {
        loop
            invariant
                start + 1 <= end <= n,
                n == buf@.len() == cls@.len(),
                forall|i: int| 0 <= i < start ==> buf@[i] == old(buf)@[i],
                forall|i: int| 0 <= i < start ==> cls@[i] == old(cls)@[i],
                forall|i: int| 0 <= i < n ==> cls@[i] == combining_class_of(#[trigger] buf@[i]),
                class_sort(buf@.skip(start as int)) == class_sort(orig),
                forall|jj: int, l: int|
                    end <= jj < n && start <= l < jj ==> combining_class_of(#[trigger] buf@[l])
                        <= combining_class_of(#[trigger] buf@[jj]),
            ensures
                n == buf@.len() == cls@.len(),
                forall|i: int| 0 <= i < start ==> buf@[i] == old(buf)@[i],
                forall|i: int| 0 <= i < start ==> cls@[i] == old(cls)@[i],
                forall|i: int| 0 <= i < n ==> cls@[i] == combining_class_of(#[trigger] buf@[i]),
                class_sort(buf@.skip(start as int)) == class_sort(orig),
                classes_sorted(buf@.skip(start as int)),
            decreases end - start,
        {
            let mut j = start;
            let mut swapped = false;
            while j + 1 < end
                invariant
                    start <= j <= end - 1 <= n - 1,
                    start + 1 <= end <= n,
                    n == buf@.len() == cls@.len(),
                    forall|i: int| 0 <= i < start ==> buf@[i] == old(buf)@[i],
                    forall|i: int| 0 <= i < start ==> cls@[i] == old(cls)@[i],
                    forall|i: int|
                        0 <= i < n ==> cls@[i] == combining_class_of(#[trigger] buf@[i]),
                    class_sort(buf@.skip(start as int)) == class_sort(orig),
                    forall|jj: int, l: int|
                        end <= jj < n && start <= l < jj ==> combining_class_of(#[trigger] buf@[l])
                            <= combining_class_of(#[trigger] buf@[jj]),
                    forall|l: int|
                        start <= l < j ==> combining_class_of(#[trigger] buf@[l])
                            <= combining_class_of(buf@[j as int]),
                    !swapped ==> forall|l: int|
                        start <= l < j ==> combining_class_of(#[trigger] buf@[l])
                            <= combining_class_of(buf@[l + 1]),
                    swapped ==> start + 1 < end,
                decreases end - j,
            {
                if cls[j] > cls[j + 1] {
                    let ghost pre = buf@;
                    let a = buf[j];
                    let b = buf[j + 1];
                    let ka = cls[j];
                    let kb = cls[j + 1];
                    buf[j] = b;
                    buf[j + 1] = a;
                    cls[j] = kb;
                    cls[j + 1] = ka;
                    proof {
                        lemma_class_sort_swap(pre.skip(start as int), j - start);
                        assert(buf@.skip(start as int) =~= pre.skip(start as int).update(
                            j - start,
                            pre[j as int + 1],
                        ).update(j - start + 1, pre[j as int]));
                    }
                    swapped = true;
                }
                j = j + 1;
            }
            if !swapped {
                proof {
                    assert forall|l: int|
                        0 <= l < buf@.skip(start as int).len() - 1 implies combining_class_of(
                        #[trigger] buf@.skip(start as int)[l],
                    ) <= combining_class_of(buf@.skip(start as int)[l + 1]) by {
                        let g = l + start;
                        assert(buf@.skip(start as int)[l] == buf@[g]);
                        assert(buf@.skip(start as int)[l + 1] == buf@[g + 1]);
                        if g + 1 < end {
                            assert(combining_class_of(buf@[g]) <= combining_class_of(buf@[g + 1]));
                        } else {
                            assert(combining_class_of(buf@[g]) <= combining_class_of(buf@[g + 1]));
                        }
                    }
                    lemma_adjacent_classes_sorted(buf@.skip(start as int));
                }
                break;
            }
            proof {
                assert forall|jj: int, l: int|
                    end - 1 <= jj < n && start <= l < jj implies combining_class_of(
                    #[trigger] buf@[l],
                ) <= combining_class_of(#[trigger] buf@[jj]) by {
                    if jj == end - 1 {
                        assert(combining_class_of(buf@[l]) <= combining_class_of(buf@[jj]));
                    }
                }
            }
            end = end - 1;
            if end == start + 1 {
                proof {
                    assert forall|i: int, j2: int|
                        0 <= i < j2 < buf@.skip(start as int).len() implies combining_class_of(
                        #[trigger] buf@.skip(start as int)[i],
                    ) <= combining_class_of(#[trigger] buf@.skip(start as int)[j2]) by {
                        assert(buf@.skip(start as int)[i] == buf@[i + start]);
                        assert(buf@.skip(start as int)[j2] == buf@[j2 + start]);
                        assert(end <= j2 + start < n && start <= i + start < j2 + start);
                    }
                }
                break;
            }
        }
    } else {
        proof {
            assert(buf@.skip(start as int).len() <= 1);
        }
    }
    proof {
        lemma_class_sort_of_sorted(buf@.skip(start as int));
    }
}

/// The decomposition stream transform: emits the normal form of its
/// upstream stream under the chosen decomposition kind.
///
/// The reorder buffer holds code points paired with their combining
/// classes; the prefix of `ready` code points is sorted and safe to emit,
/// the rest is the still-open run of nonzero-class code points.
pub struct Decompose<S> {
    chars: S,
    kind: DecompositionKind,
    buf: Vec<char>,
    cls: Vec<u8>,
    ready: usize,
}

impl<S: CharStream> Decompose<S> {
    /// The still-open run of nonzero-class code points.
    closed spec fn run_seq(self) -> Seq<char> {
        self.buf@.skip(self.ready as int)
    }

    /// The decomposition of everything the upstream stream has yet to emit.
    closed spec fn upcoming(self) -> Seq<char> {
        decompose_seq(self.chars.remaining(), self.kind)
    }

    /// Makes the decomposition transform of kind `kind` over the stream
    /// `chars`.
    pub fn new(chars: S, kind: DecompositionKind) -> (r: Decompose<S>)
        requires
            chars.wf(),
        ensures
            r.wf(),
            r.remaining() == normalize_seq(chars.remaining(), kind),
    {
        let r = Decompose { chars, kind, buf: Vec::new(), cls: Vec::new(), ready: 0 };
        proof {
            assert(r.buf@.take(0) =~= Seq::<char>::empty());
            assert(r.run_seq() =~= Seq::<char>::empty());
            assert(r.remaining() =~= normalize_seq(r.chars.remaining(), kind));
        }
        r
    }

    /// Emits the first code point of the sorted buffer prefix.
    fn emit_front(&mut self) -> (c: char)
        requires
            old(self).wf(),
            old(self).ready > 0,
        ensures
            final(self).wf(),
            old(self).remaining().len() > 0,
            c == old(self).remaining()[0],
            final(self).remaining() == old(self).remaining().drop_first(),
    {
        proof {
            assert(old(self).buf@.take(old(self).ready as int).len() == old(self).ready as int);
            assert(old(self).remaining()[0] == old(self).buf@[0]);
        }
        let c = self.buf.remove(0);
        let _k = self.cls.remove(0);
        self.ready = self.ready - 1;
        proof {
            let pre = old(self);
            assert(self.buf@ =~= pre.buf@.drop_first());
            assert(self.cls@ =~= pre.cls@.drop_first());
            assert forall|i: int| 0 <= i < self.buf@.len() implies self.cls@[i]
                == combining_class_of(#[trigger] self.buf@[i]) by {
                assert(self.buf@[i] == pre.buf@[i + 1]);
                assert(self.cls@[i] == pre.cls@[i + 1]);
            }
            assert forall|i: int|
                self.ready <= i < self.buf@.len() implies combining_class_of(
                #[trigger] self.buf@[i],
            ) != 0 by {
                assert(self.buf@[i] == pre.buf@[i + 1]);
            }
            assert(self.buf@.take(self.ready as int) =~= pre.buf@.take(
                pre.ready as int,
            ).drop_first());
            assert(self.run_seq() =~= pre.run_seq());
            assert(self.upcoming() == pre.upcoming());
            assert(self.remaining() =~= pre.remaining().drop_first());
        }
        c
    }

    /// Pulls from upstream, decomposing and buffering, until a sorted
    /// prefix is ready to emit or the stream is exhausted and flushed.
    fn fill(&mut self)
        requires
            old(self).wf(),
            old(self).ready == 0,
        ensures
            final(self).wf(),
            final(self).remaining() == old(self).remaining(),
            final(self).ready == 0 ==> final(self).remaining().len() == 0,
    {
        let ghost base = old(self).remaining();
        let ghost kind0 = old(self).kind;
        while self.ready == 0
            invariant
                self.wf(),
                self.kind == kind0,
                self.remaining() == base,
                self.ready == 0 ==> self.buf@.take(self.ready as int).len() == 0,
            ensures
                self.wf(),
                self.kind == kind0,
                self.remaining() == base,
                self.ready == 0 ==> self.remaining().len() == 0,
            decreases self.chars.remaining().len(),
        {
            let ghost pre = *self;
            let pulled = self.chars.next();
            match pulled {
                None => {
                    proof {
                        assert(decompose_seq(self.chars.remaining(), kind0)
                            =~= Seq::<char>::empty());
                        assert(self.remaining() == self.buf@.take(0) + reorder_pending(
                            self.run_seq(),
                            Seq::empty(),
                        ));
                        assert(self.buf@.take(0) =~= Seq::<char>::empty());
                    }
                    let ghost run0 = self.run_seq();
                    sort_run(&mut self.buf, &mut self.cls, 0);
                    self.ready = self.buf.len();
                    proof {
                        assert(self.buf@.skip(0) =~= self.buf@);
                        assert(run0 =~= pre.buf@);
                        assert(self.buf@ == class_sort(run0));
                        assert(self.buf@.take(self.ready as int) =~= self.buf@);
                        assert(self.run_seq() =~= Seq::<char>::empty());
                        assert(decompose_seq(self.chars.remaining(), kind0)
                            =~= Seq::<char>::empty());
                        assert(reorder_pending(self.run_seq(), self.upcoming()) == class_sort(
                            Seq::empty(),
                        ));
                        assert(class_sort(Seq::<char>::empty()) =~= Seq::<char>::empty());
                        assert(self.remaining() =~= class_sort(run0));
                        assert(self.remaining() == base);
                        if self.ready == 0 {
                            assert(self.remaining().len() == 0);
                        }
                    }
                    break ;
                },
                Some(c) => {
                    proof {
                        let up_old = pre.chars.remaining();
                        assert(decompose_seq(up_old, kind0) == decompose_char(c, kind0)
                            + decompose_seq(self.chars.remaining(), kind0));
                    }
                    let ds = decompose_one(c, self.kind);
                    let ghost rest = decompose_seq(self.chars.remaining(), kind0);
                    let ghost chars_now = self.chars;
                    let mut i: usize = 0;
                    proof {
                        assert(ds@.skip(0) =~= ds@);
                        assert(self.buf@.take(self.ready as int) + reorder_pending(
                            self.run_seq(),
                            ds@.skip(0) + rest,
                        ) =~= base);
                    }
                    while i < ds.len()
                        invariant
                            i <= ds@.len(),
                            self.wf(),
                            self.kind == kind0,
                            self.chars == chars_now,
                            ds@ == decompose_char(c, kind0),
                            rest == decompose_seq(chars_now.remaining(), kind0),
                            self.buf@.take(self.ready as int) + reorder_pending(
                                self.run_seq(),
                                ds@.skip(i as int) + rest,
                            ) == base,
                        decreases ds@.len() - i,
                    {
                        let d = ds[i];
                        let k = provider_combining_class(d);
                        let ghost st = *self;
                        let ghost tail = ds@.skip(i as int + 1) + rest;
                        proof {
                            assert(ds@.skip(i as int)[0] == d);
                            assert((ds@.skip(i as int) + rest)[0] == d);
                            assert((ds@.skip(i as int) + rest).drop_first() =~= tail);
                        }
                        if k == 0 {
                            sort_run(&mut self.buf, &mut self.cls, self.ready);
                            proof {
                                assert(self.buf@.take(st.ready as int) =~= st.buf@.take(
                                    st.ready as int,
                                ));
                                assert(self.buf@.skip(st.ready as int) == class_sort(st.run_seq()));
                            }
                            self.buf.push(d);
                            self.cls.push(k);
                            self.ready = self.buf.len();
                            proof {
                                assert(reorder_pending(st.run_seq(), ds@.skip(i as int) + rest)
                                    == class_sort(st.run_seq()) + seq![d] + reorder_pending(
                                    Seq::empty(),
                                    tail,
                                ));
                                assert(self.buf@.take(self.ready as int) =~= st.buf@.take(
                                    st.ready as int,
                                ) + class_sort(st.run_seq()) + seq![d]);
                                assert(self.run_seq() =~= Seq::<char>::empty());
                                assert(self.buf@.take(self.ready as int) + reorder_pending(
                                    self.run_seq(),
                                    ds@.skip(i as int + 1) + rest,
                                ) =~= base);
                            }
                        } else {
                            self.buf.push(d);
                            self.cls.push(k);
                            proof {
                                assert(reorder_pending(st.run_seq(), ds@.skip(i as int) + rest)
                                    == reorder_pending(st.run_seq().push(d), tail));
                                assert(self.buf@.take(self.ready as int) =~= st.buf@.take(
                                    st.ready as int,
                                ));
                                assert(self.run_seq() =~= st.run_seq().push(d));
                                assert(self.buf@.take(self.ready as int) + reorder_pending(
                                    self.run_seq(),
                                    ds@.skip(i as int + 1) + rest,
                                ) =~= base);
                            }
                        }
                        i = i + 1;
                    }
                    proof {
                        assert(ds@.skip(ds@.len() as int) =~= Seq::<char>::empty());
                        assert(ds@.skip(ds@.len() as int) + rest =~= rest);
                        assert(self.remaining() == base);
                    }
                },
            }
        }
    }
}

impl<S: CharStream> CharStream for Decompose<S> {
    closed spec fn wf(&self) -> bool {
        &&& self.chars.wf()
        &&& self.buf@.len() == self.cls@.len()
        &&& self.ready <= self.buf@.len()
        &&& forall|i: int|
            0 <= i < self.buf@.len() ==> self.cls@[i] == combining_class_of(#[trigger] self.buf@[i])
        &&& forall|i: int|
            self.ready <= i < self.buf@.len() ==> combining_class_of(#[trigger] self.buf@[i]) != 0
    }

    closed spec fn remaining(&self) -> Seq<char> {
        self.buf@.take(self.ready as int) + reorder_pending(self.run_seq(), self.upcoming())
    }

    fn next(&mut self) -> (r: Option<char>) {
        if self.ready > 0 {
            Some(self.emit_front())
        } else {
            self.fill();
            if self.ready > 0 {
                Some(self.emit_front())
            } else {
                None
            }
        }
    }

    fn size_hint(&self) -> (r: (usize, Option<usize>)) {
        proof {
            lemma_reorder_pending_len(self.run_seq(), self.upcoming());
            assert(self.buf@.take(self.ready as int).len() == self.ready as int);
        }
        let (_, high) = self.chars.size_hint();
        let hi = match high {
            Some(h) => {
                if h == 0 {
                    proof {
                        assert(self.upcoming() =~= Seq::<char>::empty());
                    }
                    Some(self.buf.len())
                } else {
                    None
                }
            },
            None => None,
        };
        (self.buf.len(), hi)
    }
}

} // verus!
