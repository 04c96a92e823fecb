//! Caseless comparison primitives: pairwise-synchronized pulls from two
//! streams, comparing one pair of code points at a time by scalar value.
//!
//! The three primitives — equality, ternary ordering, and prefix test —
//! drive both streams to the first mismatch and never materialize either
//! stream.

use vstd::prelude::*;

use crate::stream::CharStream;

verus! {

/// Lexicographic comparison of two sequences of code points by scalar
/// value: the first differing pair decides; with no differing pair the
/// shorter sequence comes first.
pub open spec fn lex_cmp(a: Seq<char>, b: Seq<char>) -> core::cmp::Ordering
    decreases a.len(),
{
    if a.len() == 0 && b.len() == 0 {
        core::cmp::Ordering::Equal
    } else if a.len() == 0 {
        core::cmp::Ordering::Less
    } else if b.len() == 0 {
        core::cmp::Ordering::Greater
    } else if (a[0] as u32) < (b[0] as u32) {
        core::cmp::Ordering::Less
    } else if (b[0] as u32) < (a[0] as u32) {
        core::cmp::Ordering::Greater
    } else {
        lex_cmp(a.drop_first(), b.drop_first())
    }
}

/// Drives both streams and decides equality: equal exactly when both
/// exhaust together with no mismatching pair.
pub fn iter_eq<A: CharStream, B: CharStream>(a: &mut A, b: &mut B) -> (r: bool)
    requires
        old(a).wf(),
        old(b).wf(),
    ensures
        r == (old(a).remaining() == old(b).remaining()),
{
    let ghost ra = a.remaining();
    let ghost rb = b.remaining();
    loop
        invariant
            a.wf(),
            b.wf(),
            ra == old(a).remaining(),
            rb == old(b).remaining(),
            (a.remaining() == b.remaining()) == (ra == rb),
        decreases a.remaining().len(),
    {
        let ghost oa = a.remaining();
        let ghost ob = b.remaining();
        let x = a.next();
        let y = b.next();
        match (x, y) {
            (None, None) => {
                proof {
                    assert(oa =~= ob);
                }
                return true;
            },
            (Some(ca), Some(cb)) => {
                if ca != cb {
                    proof {
                        assert(oa[0] != ob[0]);
                        assert(oa != ob);
                    }
                    return false;
                }
                proof {
                    if a.remaining() == b.remaining() {
                        assert(a.remaining() == oa.drop_first());
                        assert(b.remaining() == ob.drop_first());
                        assert(oa.drop_first().len() == oa.len() - 1);
                        assert(ob.drop_first().len() == ob.len() - 1);
                        assert(oa.len() == ob.len());
                        assert forall|i: int| 0 <= i < oa.len() implies oa[i] == ob[i] by {
                            if i > 0 {
                                assert(oa[i] == oa.drop_first()[i - 1]);
                                assert(ob[i] == ob.drop_first()[i - 1]);
                            }
                        }
                        assert(oa =~= ob);
                    }
                }
            },
            _ => {
                proof {
                    assert(oa.len() != ob.len());
                    assert(oa != ob);
                }
                return false;
            },
        }
    }
}

/// Drives both streams and decides their lexicographic order by scalar
/// value.
pub fn iter_cmp<A: CharStream, B: CharStream>(a: &mut A, b: &mut B) -> (r: core::cmp::Ordering)
    requires
        old(a).wf(),
        old(b).wf(),
    ensures
        r == lex_cmp(old(a).remaining(), old(b).remaining()),
{
    broadcast use vstd::utf8::char_u32_cast;

    let ghost ra = a.remaining();
    let ghost rb = b.remaining();
    loop
        invariant
            a.wf(),
            b.wf(),
            ra == old(a).remaining(),
            rb == old(b).remaining(),
            lex_cmp(a.remaining(), b.remaining()) == lex_cmp(ra, rb),
        decreases a.remaining().len(),
    {
        let x = a.next();
        let y = b.next();
        match (x, y) {
            (None, None) => {
                return core::cmp::Ordering::Equal;
            },
            (None, Some(_)) => {
                return core::cmp::Ordering::Less;
            },
            (Some(_), None) => {
                return core::cmp::Ordering::Greater;
            },
            (Some(ca), Some(cb)) => {
                let ua = ca as u32;
                let ub = cb as u32;
                if ua < ub {
                    return core::cmp::Ordering::Less;
                }
                if ub < ua {
                    return core::cmp::Ordering::Greater;
                }
            },
        }
    }
}

/// Drives both streams and decides whether the second is a prefix of the
/// first: the pattern may exhaust while text remains; a mismatching pair,
/// or text exhausting first, is a miss.
pub fn iter_starts_with<A: CharStream, B: CharStream>(text: &mut A, pattern: &mut B) -> (r: bool)
    requires
        old(text).wf(),
        old(pattern).wf(),
    ensures
        r == old(pattern).remaining().is_prefix_of(old(text).remaining()),
{
    let ghost rt = text.remaining();
    let ghost rp = pattern.remaining();
    loop
        invariant
            text.wf(),
            pattern.wf(),
            rt == old(text).remaining(),
            rp == old(pattern).remaining(),
            pattern.remaining().is_prefix_of(text.remaining()) == rp.is_prefix_of(rt),
        decreases pattern.remaining().len(),
    {
        let ghost ot = text.remaining();
        let ghost op = pattern.remaining();
        let x = pattern.next();
        match x {
            None => {
                proof {
                    assert(op =~= ot.subrange(0, op.len() as int));
                }
                return true;
            },
            Some(cp) => {
                let y = text.next();
                match y {
                    None => {
                        proof {
                            assert(!op.is_prefix_of(ot));
                        }
                        return false;
                    },
                    Some(ct) => {
                        if cp != ct {
                            proof {
                                if op.is_prefix_of(ot) {
                                    assert(op[0] == ot.subrange(0, op.len() as int)[0]);
                                }
                            }
                            return false;
                        }
                        proof {
                            let np = pattern.remaining();
                            let nt = text.remaining();
                            if np.is_prefix_of(nt) {
                                assert(np == nt.subrange(0, np.len() as int));
                                assert forall|i: int| 0 <= i < op.len() implies op[i] == ot.subrange(
                                    0,
                                    op.len() as int,
                                )[i] by {
                                    assert(ot.subrange(0, op.len() as int)[i] == ot[i]);
                                    if i > 0 {
                                        assert(op[i] == np[i - 1]);
                                        assert(np[i - 1] == nt.subrange(0, np.len() as int)[i - 1]);
                                        assert(nt[i - 1] == ot[i]);
                                    }
                                }
                                assert(op =~= ot.subrange(0, op.len() as int));
                            }
                            if op.is_prefix_of(ot) {
                                assert(op == ot.subrange(0, op.len() as int));
                                assert forall|i: int| 0 <= i < np.len() implies np[i] == nt.subrange(
                                    0,
                                    np.len() as int,
                                )[i] by {
                                    assert(np[i] == op[i + 1]);
                                    assert(ot.subrange(0, op.len() as int)[i + 1] == ot[i + 1]);
                                    assert(nt[i] == ot[i + 1]);
                                }
                                assert(np =~= nt.subrange(0, np.len() as int));
                            }
                        }
                    },
                }
            },
        }
    }
}

} // verus!
