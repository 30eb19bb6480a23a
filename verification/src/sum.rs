//! Lazily combined expressions of amounts.

use vstd::prelude::*;
use vstd::string::StringExecFns;

use crate::amount::Amount;
use crate::render::sep_str;
use crate::render::sep_chars;
use crate::amount::amount_chars;
use crate::split::pieces_chars;
use crate::split::Split;
use crate::traits::Error;

verus! {

/// A deferred combination of amounts. Addition never converts units; it
/// only grows one of these trees, and reduction later folds the tree into
/// a single amount in an exchanger's base unit.
#[derive(Debug)]
pub enum Expr {
    /// A single quantity.
    Amount(Amount),
    /// The sum of two subexpressions.
    Sum(Sum),
    /// An already decomposed amount, standing for the sum of its pieces.
    Split(Split),
}

/// One addition node: the left operand plus the right operand, kept
/// symbolic until reduction.
#[derive(Debug)]
pub struct Sum {
    pub lhs: Box<Expr>,
    pub rhs: Box<Expr>,
}

/// Whether the magnitude of `a` can be scaled by `k` within 64 bits.
pub open spec fn piece_mul_ok(a: Amount, k: u64) -> bool {
    a.amount * k <= u64::MAX
}

/// Whether every piece of `ps` can be scaled by `k` within 64 bits.
pub open spec fn pieces_mul_ok(ps: Seq<Amount>, k: u64) -> bool {
    forall|i: int| 0 <= i < ps.len() ==> piece_mul_ok(#[trigger] ps[i], k)
}

/// Whether every magnitude in `e` can be scaled by `k` without leaving
/// 64 bits.
pub open spec fn mul_ok(e: Expr, k: u64) -> bool
    decreases e,
{
    match e {
        Expr::Amount(a) => piece_mul_ok(a, k),
        Expr::Sum(s) => mul_ok(*s.lhs, k) && mul_ok(*s.rhs, k),
        Expr::Split(sp) => pieces_mul_ok(sp@, k),
    }
}

/// Whether `r` is `e` with every magnitude scaled by `k`: the same tree
/// shape, the same units, each magnitude multiplied.
pub open spec fn mul_matches(e: Expr, k: u64, r: Expr) -> bool
    decreases e,
{
    match (e, r) {
        (Expr::Amount(a), Expr::Amount(b)) => b.amount == a.amount * k && b.unit.key@
            == a.unit.key@,
        (Expr::Sum(s), Expr::Sum(t)) => mul_matches(*s.lhs, k, *t.lhs) && mul_matches(
            *s.rhs,
            k,
            *t.rhs,
        ),
        (Expr::Split(sp), Expr::Split(tp)) => tp@.len() == sp@.len() && forall|i: int|
            0 <= i < sp@.len() ==> (#[trigger] tp@[i]).amount == sp@[i].amount * k
                && tp@[i].unit.key@ == sp@[i].unit.key@,
        _ => false,
    }
}

/// The textual form of an expression: amounts as `<magnitude><unit>`, sums
/// as their operands joined by `" + "`, splits as their pieces joined by
/// `" + "`.
pub open spec fn expr_chars(e: Expr) -> Seq<char>
    decreases e,
{
    match e {
        Expr::Amount(a) => amount_chars(a),
        Expr::Sum(s) => expr_chars(*s.lhs) + sep_chars() + expr_chars(*s.rhs),
        Expr::Split(sp) => pieces_chars(sp@),
    }
}

impl Sum {
    /// Combines two expressions into one addition node.
    pub fn new(lhs: Expr, rhs: Expr) -> (s: Sum)
        ensures
            *s.lhs == lhs,
            *s.rhs == rhs,
    {
        Sum { lhs: Box::new(lhs), rhs: Box::new(rhs) }
    }

    /// This sum as an expression.
    pub fn into_expr(self) -> (e: Expr)
        ensures
            e == Expr::Sum(self),
    {
        Expr::Sum(self)
    }

    /// Adds `rhs`, yielding a larger sum; nothing is evaluated.
    pub fn add(self, rhs: Expr) -> (s: Sum)
        ensures
            *s.lhs == Expr::Sum(self),
            *s.rhs == rhs,
    {
        Sum { lhs: Box::new(Expr::Sum(self)), rhs: Box::new(rhs) }
    }

    /// Scales both operands by `k`, failing on any 64-bit overflow.
    pub fn mul(&self, k: u64) -> (r: Result<Sum, Error>)
        ensures
            r is Ok <==> mul_ok(Expr::Sum(*self), k),
            r matches Ok(t) ==> mul_matches(Expr::Sum(*self), k, Expr::Sum(t)),
            r is Err ==> r == Err::<Sum, Error>(Error::Overflow),
        decreases *self,
    {
        match self.lhs.mul(k) {
            Err(e) => Err(e),
            Ok(l) => match self.rhs.mul(k) {
                Err(e) => Err(e),
                Ok(r) => Ok(Sum { lhs: Box::new(l), rhs: Box::new(r) }),
            },
        }
    }

    /// Renders the two operands joined by `" + "`.
    pub fn to_string(&self) -> (s: String)
        ensures
            s@ == expr_chars(Expr::Sum(*self)),
        decreases *self,
    {
        let l = self.lhs.to_string();
        let r = self.rhs.to_string();
        let s = l.concat(sep_str()).concat(r.as_str());
        proof {
            assert(s@ =~= expr_chars(Expr::Sum(*self)));
        }
        s
    }
}

impl Expr {
    /// Adds `rhs`, yielding a sum node; nothing is evaluated.
    pub fn add(self, rhs: Expr) -> (s: Sum)
        ensures
            *s.lhs == self,
            *s.rhs == rhs,
    {
        Sum { lhs: Box::new(self), rhs: Box::new(rhs) }
    }

    /// Scales every magnitude in the expression by `k`, preserving the
    /// tree shape and the units; fails on any 64-bit overflow.
    pub fn mul(&self, k: u64) -> (r: Result<Expr, Error>)
        ensures
            r is Ok <==> mul_ok(*self, k),
            r matches Ok(out) ==> mul_matches(*self, k, out),
            r is Err ==> r == Err::<Expr, Error>(Error::Overflow),
        decreases *self,
    {
        match self {
            Expr::Amount(a) => match a.mul(k) {
                Ok(b) => Ok(Expr::Amount(b)),
                Err(e) => Err(e),
            },
            Expr::Sum(s) => match s.mul(k) {
                Ok(t) => Ok(Expr::Sum(t)),
                Err(e) => Err(e),
            },
            Expr::Split(sp) => match sp.mul(k) {
                Ok(t) => Ok(Expr::Split(t)),
                Err(e) => Err(e),
            },
        }
    }

    /// Renders the expression.
    pub fn to_string(&self) -> (s: String)
        ensures
            s@ == expr_chars(*self),
        decreases *self,
    {
        match self {
            Expr::Amount(a) => a.to_string(),
            Expr::Sum(s) => s.to_string(),
            Expr::Split(sp) => sp.to_string(),
        }
    }
}

impl Amount {
    /// This amount as an expression.
    pub fn into_expr(self) -> (e: Expr)
        ensures
            e == Expr::Amount(self),
    {
        Expr::Amount(self)
    }

    /// Adds `rhs`, yielding a sum; the units stay as they are.
    pub fn add(self, rhs: Expr) -> (s: Sum)
        ensures
            *s.lhs == Expr::Amount(self),
            *s.rhs == rhs,
    {
        Sum { lhs: Box::new(Expr::Amount(self)), rhs: Box::new(rhs) }
    }

    /// Scales the magnitude by `k`, keeping the unit; fails on 64-bit
    /// overflow.
    pub fn mul(&self, k: u64) -> (r: Result<Amount, Error>)
        ensures
            r is Ok <==> self.amount * k <= u64::MAX,
            r matches Ok(b) ==> b.amount == self.amount * k && b.unit.key@ == self.unit.key@,
            r is Err ==> r == Err::<Amount, Error>(Error::Overflow),
    {
        match self.amount.checked_mul(k) {
            Some(m) => Ok(Amount { amount: m, unit: self.unit.duplicate() }),
            None => Err(Error::Overflow),
        }
    }
}

} // verus!
