//! Greedy decompositions of a reduced amount.

use vstd::prelude::*;
use vstd::string::StringExecFns;

use crate::amount::amount_chars;
use crate::amount::Amount;
use crate::render::sep_chars;
use crate::render::sep_str;
use crate::sum::mul_matches;
use crate::sum::mul_ok;
use crate::sum::piece_mul_ok;
use crate::sum::pieces_mul_ok;
use crate::sum::Expr;
use crate::sum::Sum;
use crate::traits::Error;

verus! {

/// An amount decomposed across an exchanger's unit ladder: an ordered
/// sequence of pieces, from the coarsest denomination used down to the
/// finest.
#[derive(Debug, Clone)]
pub struct Split {
    pub(crate) pieces: Vec<Amount>,
}

impl View for Split {
    type V = Seq<Amount>;

    closed spec fn view(&self) -> Seq<Amount> {
        self.pieces@
    }
}

/// The textual form of a piece sequence: the pieces' own forms joined by
/// `" + "`, or nothing at all when there is no piece.
pub open spec fn pieces_chars(ps: Seq<Amount>) -> Seq<char>
    decreases ps.len(),
{
    if ps.len() == 0 {
        Seq::empty()
    } else if ps.len() == 1 {
        amount_chars(ps[0])
    } else {
        pieces_chars(ps.drop_last()) + sep_chars() + amount_chars(ps.last())
    }
}

impl Split {
    /// An iterator over the pieces, coarsest denomination first.
    pub fn iter(&self) -> (it: core::slice::Iter<'_, Amount>)
        ensures
            vstd::std_specs::slice::into_iter_elts(it) == self@,
    {
        broadcast use vstd::std_specs::slice::axiom_spec_slice_iter;

        let s = self.pieces.as_slice();
        let it = s.iter();
        proof {
            assert(s@.as_ref().unref() =~= self@);
        }
        it
    }

    /// The pieces themselves, coarsest denomination first.
    pub fn into_pieces(self) -> (v: Vec<Amount>)
        ensures
            v@ == self@,
    {
        self.pieces
    }

    /// Renders the pieces joined by `" + "`; an empty split renders as the
    /// empty string.
    pub fn to_string(&self) -> (s: String)
        ensures
            s@ == pieces_chars(self@),
    {
        let mut out = String::new();
        let mut i: usize = 0;
        while i < self.pieces.len()
            invariant
                i <= self.pieces@.len(),
                out@ == pieces_chars(self@.take(i as int)),
            decreases self.pieces@.len() - i,
        {
            if i > 0 {
                out.append(sep_str());
            }
            let piece = self.pieces[i].to_string();
            out.append(piece.as_str());
            proof {
                assert(self@.take(i + 1).drop_last() =~= self@.take(i as int));
                assert(self@.take(i + 1).last() == self@[i as int]);
                assert(out@ =~= pieces_chars(self@.take(i + 1)));
            }
            i = i + 1;
        }
        proof {
            assert(self@.take(self.pieces@.len() as int) =~= self@);
        }
        out
    }
}

pub(crate) proof fn lemma_split_view(s: &Split)
    ensures
        s@ == s.pieces@,
{
}

impl Split {
    /// This split as an expression: it stands for the sum of its pieces.
    pub fn into_expr(self) -> (e: Expr)
        ensures
            e == Expr::Split(self),
    {
        Expr::Split(self)
    }

    /// Adds `rhs`, yielding a sum over this split's pieces.
    pub fn add(self, rhs: Expr) -> (s: Sum)
        ensures
            *s.lhs == Expr::Split(self),
            *s.rhs == rhs,
    {
        Sum { lhs: Box::new(Expr::Split(self)), rhs: Box::new(rhs) }
    }

    /// Scales every piece by `k`, keeping the units and the order; fails
    /// on any 64-bit overflow.
    pub fn mul(&self, k: u64) -> (r: Result<Split, Error>)
        ensures
            r is Ok <==> mul_ok(Expr::Split(*self), k),
            r matches Ok(t) ==> mul_matches(Expr::Split(*self), k, Expr::Split(t)),
            r is Err ==> r == Err::<Split, Error>(Error::Overflow),
    {
        let mut out: Vec<Amount> = Vec::new();
        let mut i: usize = 0;
        while i < self.pieces.len()
            invariant
                i <= self.pieces@.len(),
                out@.len() == i,
                forall|j: int|
                    0 <= j < i ==> (#[trigger] out@[j]).amount == self.pieces@[j].amount * k
                        && out@[j].unit.key@ == self.pieces@[j].unit.key@,
            decreases self.pieces@.len() - i,
        {
            let a = &self.pieces[i];
            match a.amount.checked_mul(k) {
                Some(m) => {
                    out.push(Amount { amount: m, unit: a.unit.duplicate() });
                    i = i + 1;
                },
                None => {
                    proof {
                        assert(!piece_mul_ok(self@[i as int], k));
                        assert(!pieces_mul_ok(self@, k));
                    }
                    return Err(Error::Overflow);
                },
            }
        }
        proof {
            assert forall|j: int| 0 <= j < self@.len() implies piece_mul_ok(
                #[trigger] self@[j],
                k,
            ) by {
                assert(out@[j].amount == self.pieces@[j].amount * k);
            }
            assert(pieces_mul_ok(self@, k));
        }
        Ok(Split { pieces: out })
    }
}

} // verus!
