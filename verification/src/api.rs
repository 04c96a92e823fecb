//! The public surface: caseless matching, ordering and prefix tests over
//! streams (the [`Caseless`] trait) and over strings, for the default,
//! canonical and compatibility caseless-matching algorithms of the Unicode
//! Standard.

use vstd::prelude::*;
use vstd::std_specs::iter::IteratorSpec;

use crate::compare::iter_cmp;
use crate::compare::iter_eq;
use crate::compare::iter_starts_with;
use crate::compare::lex_cmp;
use crate::decompose::Decompose;
use crate::decompose::DecompositionKind;
use crate::decompose::normalize_seq;
use crate::fold::CaseFold;
use crate::fold::fold_seq;
use crate::stream::CharSource;
use crate::stream::CharStream;

verus! {

broadcast use vstd::string::group_string_axioms;

/// Relies on `alloc::string::String::push`: appends exactly the given
/// character to the string.
pub assume_specification[ String::push ](s: &mut String, ch: char)
    ensures
        final(s)@ == old(s)@.push(ch),
;

/// The canonical caseless form of a sequence: canonical decomposition,
/// default case folding, canonical decomposition again (folding does not
/// preserve normalization forms).
pub open spec fn canonical_caseless_form(s: Seq<char>) -> Seq<char> {
    normalize_seq(
        fold_seq(normalize_seq(s, DecompositionKind::Canonical)),
        DecompositionKind::Canonical,
    )
}

/// The compatibility caseless form of a sequence: canonical decomposition
/// and folding, then a full cycle of compatibility decomposition, folding
/// and compatibility decomposition again (a compatibility decomposition
/// can surface new letters that must be folded and normalized once more).
pub open spec fn compatibility_caseless_form(s: Seq<char>) -> Seq<char> {
    normalize_seq(
        fold_seq(
            normalize_seq(
                fold_seq(normalize_seq(s, DecompositionKind::Canonical)),
                DecompositionKind::Compatible,
            ),
        ),
        DecompositionKind::Compatible,
    )
}

/// The code points of a string, in order.
pub(crate) fn chars_of(s: &str) -> (r: Vec<char>)
    ensures
        r@ == s@,
{
    let mut it = s.chars();
    let mut v: Vec<char> = Vec::new();
    loop
        invariant
            it.obeys_prophetic_iter_laws(),
            it.decrease() is Some,
            v@ + it.remaining() == s@,
        decreases it.decrease()->0,
    {
        match it.next() {
            Some(c) => {
                v.push(c);
                proof {
                    assert(v@ + it.remaining() =~= s@);
                }
            },
            None => {
                proof {
                    assert(v@ =~= s@);
                }
                return v;
            },
        }
    }
}

/// A string made of the given code points, in order.
pub(crate) fn string_of(v: &Vec<char>) -> (r: String)
    ensures
        r@ == v@,
{
    let mut s = String::new();
    let mut i: usize = 0;
    while i < v.len()
        invariant
            i <= v@.len(),
            s@ == v@.take(i as int),
        decreases v@.len() - i,
    {
        s.push(v[i]);
        i = i + 1;
        proof {
            assert(s@ =~= v@.take(i as int));
        }
    }
    proof {
        assert(v@.take(v@.len() as int) =~= v@);
    }
    s
}

/// Drives a stream to its end and collects everything it emits.
pub(crate) fn collect_stream<S: CharStream>(s: &mut S) -> (r: Vec<char>)
    requires
        old(s).wf(),
    ensures
        r@ == old(s).remaining(),
{
    let ghost all = old(s).remaining();
    let mut v: Vec<char> = Vec::new();
    loop
        invariant
            s.wf(),
            all == old(s).remaining(),
            v@ + s.remaining() == all,
        decreases s.remaining().len(),
    {
        match s.next() {
            Some(c) => {
                v.push(c);
                proof {
                    assert(v@ + s.remaining() =~= all);
                }
            },
            None => {
                proof {
                    assert(v@ =~= all);
                }
                return v;
            },
        }
    }
}

/// The canonical caseless pipeline over a stream.
fn canonical_pipeline<S: CharStream>(s: S) -> (r: Decompose<CaseFold<Decompose<S>>>)
    requires
        s.wf(),
    ensures
        r.wf(),
        r.remaining() == canonical_caseless_form(s.remaining()),
{
    Decompose::new(
        CaseFold::new(Decompose::new(s, DecompositionKind::Canonical)),
        DecompositionKind::Canonical,
    )
}

/// The compatibility caseless pipeline over a stream.
fn compatibility_pipeline<S: CharStream>(s: S) -> (r: Decompose<
    CaseFold<Decompose<CaseFold<Decompose<S>>>>,
>)
    requires
        s.wf(),
    ensures
        r.wf(),
        r.remaining() == compatibility_caseless_form(s.remaining()),
{
    Decompose::new(
        CaseFold::new(
            Decompose::new(
                CaseFold::new(Decompose::new(s, DecompositionKind::Canonical)),
                DecompositionKind::Compatible,
            ),
        ),
        DecompositionKind::Compatible,
    )
}

/// Caseless operations on streams of code points: case folding, and
/// matching, ordering and prefix tests under the three caseless-matching
/// algorithms.
pub trait Caseless: CharStream {
    /// The default case folding of the stream, as a lazy stream.
    fn default_case_fold(self) -> (r: CaseFold<Self>)
        requires
            self.wf(),
        ensures
            r.wf(),
            r.remaining() == fold_seq(self.remaining()),
    ;

    /// Default caseless match: equality of the case-folded streams, with
    /// no normalization.
    fn default_caseless_match<J: CharStream>(self, other: J) -> (r: bool)
        requires
            self.wf(),
            other.wf(),
        ensures
            r == (fold_seq(self.remaining()) == fold_seq(other.remaining())),
    ;

    /// Canonical caseless match: equality of the canonical caseless forms.
    fn canonical_caseless_match<J: CharStream>(self, other: J) -> (r: bool)
        requires
            self.wf(),
            other.wf(),
        ensures
            r == (canonical_caseless_form(self.remaining()) == canonical_caseless_form(
                other.remaining(),
            )),
    ;

    /// Compatibility caseless match: equality of the compatibility
    /// caseless forms.
    fn compatibility_caseless_match<J: CharStream>(self, other: J) -> (r: bool)
        requires
            self.wf(),
            other.wf(),
        ensures
            r == (compatibility_caseless_form(self.remaining()) == compatibility_caseless_form(
                other.remaining(),
            )),
    ;

    /// Default caseless ordering of the case-folded streams.
    fn default_caseless_compare<J: CharStream>(self, other: J) -> (r: core::cmp::Ordering)
        requires
            self.wf(),
            other.wf(),
        ensures
            r == lex_cmp(fold_seq(self.remaining()), fold_seq(other.remaining())),
    ;

    /// Canonical caseless ordering of the canonical caseless forms.
    fn canonical_caseless_compare<J: CharStream>(self, other: J) -> (r: core::cmp::Ordering)
        requires
            self.wf(),
            other.wf(),
        ensures
            r == lex_cmp(
                canonical_caseless_form(self.remaining()),
                canonical_caseless_form(other.remaining()),
            ),
    ;

    /// Compatibility caseless ordering of the compatibility caseless
    /// forms.
    fn compatibility_caseless_compare<J: CharStream>(self, other: J) -> (r: core::cmp::Ordering)
        requires
            self.wf(),
            other.wf(),
        ensures
            r == lex_cmp(
                compatibility_caseless_form(self.remaining()),
                compatibility_caseless_form(other.remaining()),
            ),
    ;

    /// Default caseless prefix test: whether the folded pattern is a
    /// prefix of the folded stream.
    fn default_caseless_starts_with<J: CharStream>(self, pattern: J) -> (r: bool)
        requires
            self.wf(),
            pattern.wf(),
        ensures
            r == fold_seq(pattern.remaining()).is_prefix_of(fold_seq(self.remaining())),
    ;

    /// Canonical caseless prefix test on the canonical caseless forms.
    fn canonical_caseless_starts_with<J: CharStream>(self, pattern: J) -> (r: bool)
        requires
            self.wf(),
            pattern.wf(),
        ensures
            r == canonical_caseless_form(pattern.remaining()).is_prefix_of(
                canonical_caseless_form(self.remaining()),
            ),
    ;

    /// Compatibility caseless prefix test on the compatibility caseless
    /// forms.
    fn compatibility_caseless_starts_with<J: CharStream>(self, pattern: J) -> (r: bool)
        requires
            self.wf(),
            pattern.wf(),
        ensures
            r == compatibility_caseless_form(pattern.remaining()).is_prefix_of(
                compatibility_caseless_form(self.remaining()),
            ),
    ;
}

impl<S: CharStream> Caseless for S {
    fn default_case_fold(self) -> (r: CaseFold<S>) {
        CaseFold::new(self)
    }

    fn default_caseless_match<J: CharStream>(self, other: J) -> (r: bool) {
        let mut a = CaseFold::new(self);
        let mut b = CaseFold::new(other);
        iter_eq(&mut a, &mut b)
    }

    fn canonical_caseless_match<J: CharStream>(self, other: J) -> (r: bool) {
        let mut a = canonical_pipeline(self);
        let mut b = canonical_pipeline(other);
        iter_eq(&mut a, &mut b)
    }

    fn compatibility_caseless_match<J: CharStream>(self, other: J) -> (r: bool) {
        let mut a = compatibility_pipeline(self);
        let mut b = compatibility_pipeline(other);
        iter_eq(&mut a, &mut b)
    }

    fn default_caseless_compare<J: CharStream>(self, other: J) -> (r: core::cmp::Ordering) {
        let mut a = CaseFold::new(self);
        let mut b = CaseFold::new(other);
        iter_cmp(&mut a, &mut b)
    }

    fn canonical_caseless_compare<J: CharStream>(self, other: J) -> (r: core::cmp::Ordering) {
        let mut a = canonical_pipeline(self);
        let mut b = canonical_pipeline(other);
        iter_cmp(&mut a, &mut b)
    }

    fn compatibility_caseless_compare<J: CharStream>(self, other: J) -> (r: core::cmp::Ordering) {
        let mut a = compatibility_pipeline(self);
        let mut b = compatibility_pipeline(other);
        iter_cmp(&mut a, &mut b)
    }

    fn default_caseless_starts_with<J: CharStream>(self, pattern: J) -> (r: bool) {
        let mut a = CaseFold::new(self);
        let mut b = CaseFold::new(pattern);
        iter_starts_with(&mut a, &mut b)
    }

    fn canonical_caseless_starts_with<J: CharStream>(self, pattern: J) -> (r: bool) {
        let mut a = canonical_pipeline(self);
        let mut b = canonical_pipeline(pattern);
        iter_starts_with(&mut a, &mut b)
    }

    fn compatibility_caseless_starts_with<J: CharStream>(self, pattern: J) -> (r: bool) {
        let mut a = compatibility_pipeline(self);
        let mut b = compatibility_pipeline(pattern);
        iter_starts_with(&mut a, &mut b)
    }
}

/// The default case folding of a string: the folding of each of its code
/// points, concatenated. The result is not necessarily lowercase, and a
/// normalized string may leave its normalization form.
pub fn default_case_fold_str(s: &str) -> (r: String)
    ensures
        r@ == fold_seq(s@),
{
    let v = chars_of(s);
    let mut folded_stream = CharSource::new(v).default_case_fold();
    let folded = collect_stream(&mut folded_stream);
    string_of(&folded)
}

/// Default caseless match of two strings: their case-folded forms are
/// equal. No normalization is performed, so canonically equivalent strings
/// in different normalization forms do not match.
pub fn default_caseless_match_str(a: &str, b: &str) -> (r: bool)
    ensures
        r == (fold_seq(a@) == fold_seq(b@)),
{
    let va = chars_of(a);
    let vb = chars_of(b);
    CharSource::new(va).default_caseless_match(CharSource::new(vb))
}

/// Canonical caseless match of two strings: their canonical caseless
/// forms are equal, so canonically equivalent spellings match, while
/// compatibility-only equivalents do not.
pub fn canonical_caseless_match_str(a: &str, b: &str) -> (r: bool)
    ensures
        r == (canonical_caseless_form(a@) == canonical_caseless_form(b@)),
{
    let va = chars_of(a);
    let vb = chars_of(b);
    CharSource::new(va).canonical_caseless_match(CharSource::new(vb))
}

/// Compatibility caseless match of two strings: their compatibility
/// caseless forms are equal, so compatibility equivalents match as well.
pub fn compatibility_caseless_match_str(a: &str, b: &str) -> (r: bool)
    ensures
        r == (compatibility_caseless_form(a@) == compatibility_caseless_form(b@)),
{
    let va = chars_of(a);
    let vb = chars_of(b);
    CharSource::new(va).compatibility_caseless_match(CharSource::new(vb))
}

/// Default caseless ordering of two strings, by scalar value of their
/// case-folded forms.
pub fn default_caseless_compare_str(a: &str, b: &str) -> (r: core::cmp::Ordering)
    ensures
        r == lex_cmp(fold_seq(a@), fold_seq(b@)),
{
    let va = chars_of(a);
    let vb = chars_of(b);
    CharSource::new(va).default_caseless_compare(CharSource::new(vb))
}

/// Canonical caseless ordering of two strings.
pub fn canonical_caseless_compare_str(a: &str, b: &str) -> (r: core::cmp::Ordering)
    ensures
        r == lex_cmp(canonical_caseless_form(a@), canonical_caseless_form(b@)),
{
    let va = chars_of(a);
    let vb = chars_of(b);
    CharSource::new(va).canonical_caseless_compare(CharSource::new(vb))
}

/// Compatibility caseless ordering of two strings.
pub fn compatibility_caseless_compare_str(a: &str, b: &str) -> (r: core::cmp::Ordering)
    ensures
        r == lex_cmp(compatibility_caseless_form(a@), compatibility_caseless_form(b@)),
{
    let va = chars_of(a);
    let vb = chars_of(b);
    CharSource::new(va).compatibility_caseless_compare(CharSource::new(vb))
}

/// Default caseless prefix test: the folded pattern is a prefix of the
/// folded text (a full match counts as a prefix).
pub fn default_caseless_starts_with_str(text: &str, pattern: &str) -> (r: bool)
    ensures
        r == fold_seq(pattern@).is_prefix_of(fold_seq(text@)),
{
    let vt = chars_of(text);
    let vp = chars_of(pattern);
    CharSource::new(vt).default_caseless_starts_with(CharSource::new(vp))
}

/// Canonical caseless prefix test on the canonical caseless forms.
pub fn canonical_caseless_starts_with_str(text: &str, pattern: &str) -> (r: bool)
    ensures
        r == canonical_caseless_form(pattern@).is_prefix_of(canonical_caseless_form(text@)),
{
    let vt = chars_of(text);
    let vp = chars_of(pattern);
    CharSource::new(vt).canonical_caseless_starts_with(CharSource::new(vp))
}

/// Compatibility caseless prefix test on the compatibility caseless
/// forms.
pub fn compatibility_caseless_starts_with_str(text: &str, pattern: &str) -> (r: bool)
    ensures
        r == compatibility_caseless_form(pattern@).is_prefix_of(
            compatibility_caseless_form(text@),
        ),
{
    let vt = chars_of(text);
    let vp = chars_of(pattern);
    CharSource::new(vt).compatibility_caseless_starts_with(CharSource::new(vp))
}

} // verus!
