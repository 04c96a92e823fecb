//! Laws of the caseless operations: idempotence of case folding, the
//! equivalence-relation character of caseless matching, and how the
//! matching, ordering and prefix operations relate.

use vstd::prelude::*;

use crate::api::chars_of;
use crate::api::collect_stream;
use crate::api::string_of;
use crate::compare::lex_cmp;
use crate::fold::CaseFold;
use crate::fold::fold_char;
use crate::fold::fold_seq;
use crate::stream::CharSource;
use crate::table::FoldTable;

verus! {

/// Every code point of `s` folds to itself.
pub open spec fn fold_fixed(s: Seq<char>) -> bool {
    forall|i: int| 0 <= i < s.len() ==> fold_char(#[trigger] s[i]) == seq![s[i]]
}

/// A sequence whose code points all fold to themselves is unchanged by
/// folding.
pub proof fn lemma_fold_fixed_identity(s: Seq<char>)
    ensures
        fold_fixed(s) ==> fold_seq(s) == s,
    decreases s.len(),
{
    if fold_fixed(s) && s.len() > 0 {
        assert(fold_char(s[0]) == seq![s[0]]);
        assert(fold_fixed(s.drop_first()));
        lemma_fold_fixed_identity(s.drop_first());
        assert(seq![s[0]] + s.drop_first() =~= s);
    }
}

/// Idempotence of case folding: when every code point of a folded
/// sequence folds to itself — which the Unicode case-folding data
/// guarantees for the folded form of every sequence — folding it again
/// changes nothing. Code points that fold away from lowercase, such as
/// the Cherokee letters whose folded form is uppercase, are covered: their
/// folded forms fold to themselves too.
pub proof fn lemma_default_fold_idempotent(s: Seq<char>)
    ensures
        fold_fixed(fold_seq(s)) ==> fold_seq(fold_seq(s)) == fold_seq(s),
{
    lemma_fold_fixed_identity(fold_seq(s));
}

/// The default case folding of a string together with a verified check of
/// idempotence: the folded string, when every code point of the folded
/// form folds to itself, so refolding can never change it; `None` when
/// the provider's data breaks that guarantee of the Unicode Standard.
pub fn default_case_fold_fixpoint_str(s: &str) -> (r: Option<String>)
    ensures
        r matches Some(t) ==> t@ == fold_seq(s@) && fold_seq(fold_seq(s@)) == fold_seq(s@),
        r is None ==> !fold_fixed(fold_seq(s@)),
{
    let v = chars_of(s);
    let mut stream = CaseFold::new(CharSource::new(v));
    let folded = collect_stream(&mut stream);
    let ghost fs = fold_seq(s@);
    let mut table = FoldTable::new();
    let mut i: usize = 0;
    let mut ok = true;
    while i < folded.len()
        invariant
            i <= folded@.len(),
            folded@ == fs,
            table.wf(),
            ok == (forall|j: int| 0 <= j < i ==> fold_char(#[trigger] folded@[j]) == seq![
                folded@[j],
            ]),
        decreases folded@.len() - i,
    {
        let c = folded[i];
        let f = table.folded(c);
        let identity = f.len() == 1 && f[0] == c;
        proof {
            if identity {
                assert(f@ =~= seq![c]);
            } else {
                assert(f@ != seq![c]);
            }
        }
        ok = ok && identity;
        i = i + 1;
    }
    if ok {
        proof {
            assert(fold_fixed(fs));
            lemma_default_fold_idempotent(s@);
        }
        Some(string_of(&folded))
    } else {
        None
    }
}

/// Default caseless matching is reflexive: every stream matches itself,
/// because matching is equality of the folded forms.
pub proof fn lemma_default_match_reflexive(a: Seq<char>)
    ensures
        fold_seq(a) == fold_seq(a),
{
}

/// Default caseless matching is symmetric: the operands of the folded
/// equality can be exchanged.
pub proof fn lemma_default_match_symmetric(a: Seq<char>, b: Seq<char>)
    ensures
        (fold_seq(a) == fold_seq(b)) == (fold_seq(b) == fold_seq(a)),
{
}

/// Ordering agrees with matching: the lexicographic comparison answers
/// `Equal` exactly on equal sequences, so a caseless comparison of two
/// streams is `Equal` exactly when the streams match caselessly.
pub proof fn lemma_lex_cmp_equal_iff_eq(a: Seq<char>, b: Seq<char>)
    ensures
        (lex_cmp(a, b) == core::cmp::Ordering::Equal) <==> (a == b),
    decreases a.len(),
{
    broadcast use vstd::utf8::char_u32_cast;

    if a.len() == 0 && b.len() == 0 {
        assert(a =~= b);
    } else if a.len() == 0 || b.len() == 0 {
        assert(a.len() != b.len());
    } else {
        let ua = a[0] as u32;
        let ub = b[0] as u32;
        if ua < ub || ub < ua {
            assert(a[0] != b[0]);
            assert(a != b);
        } else {
            vstd::utf8::char_u32_cast(a[0], ua);
            vstd::utf8::char_u32_cast(b[0], ub);
            assert(a[0] == b[0]);
            lemma_lex_cmp_equal_iff_eq(a.drop_first(), b.drop_first());
            if a.drop_first() == b.drop_first() {
                assert(a.drop_first().len() == b.drop_first().len());
                assert forall|i: int| 0 <= i < a.len() implies a[i] == b[i] by {
                    if i > 0 {
                        assert(a[i] == a.drop_first()[i - 1]);
                        assert(b[i] == b.drop_first()[i - 1]);
                    }
                }
                assert(a =~= b);
            }
        }
    }
}

/// Exchanging the operands of the lexicographic comparison reverses the
/// answer.
pub proof fn lemma_lex_cmp_antisymmetric(a: Seq<char>, b: Seq<char>)
    ensures
        (lex_cmp(a, b) == core::cmp::Ordering::Less) <==> (lex_cmp(b, a)
            == core::cmp::Ordering::Greater),
        (lex_cmp(a, b) == core::cmp::Ordering::Equal) <==> (lex_cmp(b, a)
            == core::cmp::Ordering::Equal),
    decreases a.len(),
{
    if a.len() > 0 && b.len() > 0 {
        let ua = a[0] as u32;
        let ub = b[0] as u32;
        if !(ua < ub) && !(ub < ua) {
            lemma_lex_cmp_antisymmetric(a.drop_first(), b.drop_first());
        }
    }
}

/// A full caseless match counts as a caseless prefix: when two streams
/// match, either one's caseless form is a prefix of the other's.
pub proof fn lemma_match_is_prefix(a: Seq<char>, b: Seq<char>)
    ensures
        fold_seq(a) == fold_seq(b) ==> fold_seq(b).is_prefix_of(fold_seq(a)),
{
    if fold_seq(a) == fold_seq(b) {
        assert(fold_seq(b) =~= fold_seq(a).subrange(0, fold_seq(b).len() as int));
    }
}

} // verus!
