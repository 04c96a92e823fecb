//! Pull-based streams of code points.
//!
//! Every transform of the library consumes one such stream and is one
//! itself, so whole pipelines are built by nesting streams; a comparison
//! pulls one code point at a time and never materializes an intermediate
//! sequence.

use vstd::prelude::*;

verus! {

/// A pull-based, finite stream of code points.
///
/// `remaining()` is the mathematical sequence of code points the stream has
/// yet to emit; `next` pops its head. A stream is driven to its end by
/// calling `next` until it returns `None`, and is restarted only by
/// recreating it.
pub trait CharStream: Sized {
    /// The stream's state is well formed.
    spec fn wf(&self) -> bool;

    /// The code points the stream has yet to emit, in order.
    spec fn remaining(&self) -> Seq<char>;

    /// Emits the next code point of the stream, or `None` at its end.
    fn next(&mut self) -> (r: Option<char>)
        requires
            old(self).wf(),
        ensures
            final(self).wf(),
            old(self).remaining().len() == 0 ==> r is None && final(self).remaining()
                == old(self).remaining(),
            old(self).remaining().len() > 0 ==> r == Some(old(self).remaining()[0])
                && final(self).remaining() == old(self).remaining().drop_first(),
    ;

    /// Bounds on how many code points the stream has yet to emit: a lower
    /// bound, and an upper bound where one is known.
    fn size_hint(&self) -> (r: (usize, Option<usize>))
        requires
            self.wf(),
        ensures
            r.0 <= self.remaining().len(),
            r.1 matches Some(high) ==> self.remaining().len() <= high,
    ;
}

/// A stream that replays a vector of code points.
pub struct CharSource {
    chars: Vec<char>,
    pos: usize,
}

impl CharSource {
    /// Makes a stream that emits all code points of `chars` in order.
    pub fn new(chars: Vec<char>) -> (r: CharSource)
        ensures
            r.wf(),
            r.remaining() == chars@,
    {
        let r = CharSource { chars, pos: 0 };
        proof {
            assert(r.remaining() =~= r.chars@);
        }
        r
    }
}

impl CharStream for CharSource {
    closed spec fn wf(&self) -> bool {
        self.pos <= self.chars@.len()
    }

    closed spec fn remaining(&self) -> Seq<char> {
        self.chars@.skip(self.pos as int)
    }

    fn next(&mut self) -> (r: Option<char>) {
        if self.pos < self.chars.len() {
            let c = self.chars[self.pos];
            self.pos = self.pos + 1;
            proof {
                assert(old(self).remaining()[0] == c);
                assert(self.remaining() =~= old(self).remaining().drop_first());
            }
            Some(c)
        } else {
            None
        }
    }

    fn size_hint(&self) -> (r: (usize, Option<usize>)) {
        let n = self.chars.len() - self.pos;
        (n, Some(n))
    }
}

} // verus!
