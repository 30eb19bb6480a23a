//! The exchanger capability and expression reduction.

use vstd::prelude::*;

use crate::amount::Amount;
use crate::amount::Unit;
use crate::split::lemma_split_view;
use crate::split::Split;
use crate::sum::Expr;
use crate::sum::Sum;
use crate::table::merge;
use crate::table::merge_matches;
use crate::table::Table;

verus! {

/// One table entry: a unit together with its conversion rate into the
/// table's base unit.
pub type UnitRate = (Unit, u64);

/// Why an exchanger operation failed.
#[derive(Debug, Clone, PartialEq)]
pub enum Error {
    /// The exchanger's table has no entry for this unit.
    NotFound(Unit),
    /// An exchanger with an opaque failure reason of its own.
    Message(String),
    /// A magnitude computation does not fit in 64 bits.
    Overflow,
}

impl From<String> for Error {
    /// Wraps an opaque failure message.
    fn from(value: String) -> (e: Error)
        ensures
            e == Error::Message(value),
    {
        Error::Message(value)
    }
}

impl vstd::std_specs::convert::FromSpecImpl<String> for Error {
    open spec fn obeys_from_spec() -> bool {
        true
    }

    open spec fn from_spec(value: String) -> Error {
        Error::Message(value)
    }
}

/// The mathematical shadow of a rate table: unit keys with their rates,
/// in table order.
pub open spec fn entry_views(s: Seq<UnitRate>) -> Seq<(Seq<char>, u64)> {
    s.map_values(|p: UnitRate| (p.0.key@, p.1))
}

/// The piece sequence of a split, as plain values.
pub open spec fn piece_views(ps: Seq<Amount>) -> Seq<(u64, Seq<char>)> {
    ps.map_values(|a: Amount| (a.amount, a.unit.key@))
}

/// The rate of the first entry of `t` whose unit key is `u`, if any.
pub open spec fn lookup(t: Seq<(Seq<char>, u64)>, u: Seq<char>) -> Option<u64>
    decreases t.len(),
{
    if t.len() == 0 {
        None
    } else if t[0].0 == u {
        Some(t[0].1)
    } else {
        lookup(t.drop_first(), u)
    }
}

/// Whether every rate in `t` is at least one.
pub open spec fn pos_rates(t: Seq<(Seq<char>, u64)>) -> bool {
    forall|i: int| 0 <= i < t.len() ==> (#[trigger] t[i]).1 >= 1
}

/// What a reduction yields: a base-unit magnitude, or the first unknown
/// unit encountered, or an overflow past 64 bits.
pub enum ReduceOutcome {
    /// The reduced magnitude, in base units.
    Value(int),
    /// The key of the first unit with no table entry.
    NotFound(Seq<char>),
    /// Some magnitude computation left 64 bits.
    Overflow,
}

/// Adds two reduction outcomes: the left error wins, then the right one,
/// and a sum past 64 bits overflows.
pub open spec fn combine(l: ReduceOutcome, r: ReduceOutcome) -> ReduceOutcome {
    match l {
        ReduceOutcome::Value(lv) => match r {
            ReduceOutcome::Value(rv) => if lv + rv > u64::MAX {
                ReduceOutcome::Overflow
            } else {
                ReduceOutcome::Value(lv + rv)
            },
            _ => r,
        },
        _ => l,
    }
}

/// Reducing the single amount `m` of the unit keyed `u` under table `t`:
/// `m` times the unit's rate, in base units.
pub open spec fn amount_outcome(m: u64, u: Seq<char>, t: Seq<(Seq<char>, u64)>) -> ReduceOutcome {
    match lookup(t, u) {
        Some(r) => if m * r > u64::MAX {
            ReduceOutcome::Overflow
        } else {
            ReduceOutcome::Value(m * r)
        },
        None => ReduceOutcome::NotFound(u),
    }
}

/// Reducing a piece sequence left to right, summing as it goes.
pub open spec fn pieces_outcome(
    ps: Seq<(u64, Seq<char>)>,
    t: Seq<(Seq<char>, u64)>,
) -> ReduceOutcome
    decreases ps.len(),
{
    if ps.len() == 0 {
        ReduceOutcome::Value(0)
    } else {
        combine(pieces_outcome(ps.drop_last(), t), amount_outcome(ps.last().0, ps.last().1, t))
    }
}

/// Reducing an expression under table `t`, structurally: each amount is
/// scaled by its unit's rate, sums add their operands left to right, and
/// a split stands for the sum of its pieces.
pub open spec fn expr_outcome(e: Expr, t: Seq<(Seq<char>, u64)>) -> ReduceOutcome
    decreases e,
{
    match e {
        Expr::Amount(a) => amount_outcome(a.amount, a.unit.key@, t),
        Expr::Sum(s) => combine(expr_outcome(*s.lhs, t), expr_outcome(*s.rhs, t)),
        Expr::Split(sp) => pieces_outcome(piece_views(sp@), t),
    }
}

/// Whether the executable result `r` reports exactly the outcome `o`,
/// with reduced amounts carrying the base unit keyed `base`.
pub open spec fn reduce_matches(
    o: ReduceOutcome,
    base: Seq<char>,
    r: Result<Amount, Error>,
) -> bool {
    match o {
        ReduceOutcome::Value(v) => r matches Ok(a) && a.amount == v && a.unit.key@ == base,
        ReduceOutcome::NotFound(u) => r matches Err(Error::NotFound(un)) && un.key@ == u,
        ReduceOutcome::Overflow => r matches Err(e) && e is Overflow,
    }
}

/// Whether the rate result `r` is exactly what looking `u` up in `t`
/// yields: the first matching rate, or `NotFound` for the unit itself.
pub open spec fn rate_matches(t: Seq<(Seq<char>, u64)>, u: Seq<char>, r: Result<u64, Error>) -> bool {
    match lookup(t, u) {
        Some(v) => r == Ok::<u64, Error>(v),
        None => r matches Err(Error::NotFound(un)) && un.key@ == u,
    }
}

/// The capability of converting units: a rate for each known unit,
/// relative to one fixed base unit.
pub trait Exchanger {
    /// The conversion ladder, as unit keys with rates, in table order.
    spec fn entries(&self) -> Seq<(Seq<char>, u64)>;

    /// The key of the base unit every reduction targets.
    spec fn base_key(&self) -> Seq<char>;

    /// The multiplier turning one `unit` into base units: the rate of the
    /// first matching table entry, or `NotFound` when there is none.
    fn rate(&self, unit: &Unit) -> (r: Result<u64, Error>)
        ensures
            rate_matches(self.entries(), unit.key@, r),
    ;

    /// The full ladder of unit-rate pairs, in table order.
    fn sorted_units(&self) -> (r: &Vec<UnitRate>)
        ensures
            entry_views(r@) == self.entries(),
    ;

    /// The base unit itself.
    fn base_unit(&self) -> (r: &Unit)
        ensures
            r.key@ == self.base_key(),
    ;
}

/// Something reducible under an exchanger: an amount, a sum, or a split.
pub trait Reduce {
    /// What reducing this expression under table `t` must yield.
    spec fn outcome(&self, t: Seq<(Seq<char>, u64)>) -> ReduceOutcome;

    /// Folds this expression into one amount in `x`'s base unit.
    fn reduce<E: Exchanger>(&self, x: &E) -> (r: Result<Amount, Error>)
        ensures
            reduce_matches(self.outcome(x.entries()), x.base_key(), r),
    ;
}

/// Reduces one amount: multiply by the unit's rate, tag with the base
/// unit.
fn reduce_amount<E: Exchanger>(a: &Amount, x: &E) -> (r: Result<Amount, Error>)
    ensures
        reduce_matches(amount_outcome(a.amount, a.unit.key@, x.entries()), x.base_key(), r),
{
    match x.rate(&a.unit) {
        Err(e) => Err(e),
        Ok(rt) => match a.amount.checked_mul(rt) {
            Some(m) => Ok(Amount { amount: m, unit: x.base_unit().duplicate() }),
            None => Err(Error::Overflow),
        },
    }
}

/// If a prefix of the pieces already failed, the whole sequence fails the
/// same way: later pieces cannot undo an error.
proof fn lemma_pieces_error_persists(
    ps: Seq<(u64, Seq<char>)>,
    t: Seq<(Seq<char>, u64)>,
    j: int,
    l: int,
)
    requires
        0 <= j <= l <= ps.len(),
        !(pieces_outcome(ps.take(j), t) is Value),
    ensures
        pieces_outcome(ps.take(l), t) == pieces_outcome(ps.take(j), t),
    decreases l - j,
{
    if j < l {
        lemma_pieces_error_persists(ps, t, j, l - 1);
        assert(ps.take(l).drop_last() =~= ps.take(l - 1));
    }
}

/// Reduces a split: fold its pieces left to right.
fn reduce_split<E: Exchanger>(sp: &Split, x: &E) -> (r: Result<Amount, Error>)
    ensures
        reduce_matches(pieces_outcome(piece_views(sp@), x.entries()), x.base_key(), r),
{
    proof {
        lemma_split_view(sp);
    }
    let ghost pv = piece_views(sp.pieces@);
    let ghost t = x.entries();
    let mut acc: u64 = 0;
    let mut i: usize = 0;
    while i < sp.pieces.len()
        invariant
            i <= sp.pieces@.len(),
            sp@ == sp.pieces@,
            pv == piece_views(sp.pieces@),
            t == x.entries(),
            pieces_outcome(pv.take(i as int), t) == ReduceOutcome::Value(acc as int),
        decreases sp.pieces@.len() - i,
    {
        let a = &sp.pieces[i];
        proof {
            assert(pv.take(i + 1).drop_last() =~= pv.take(i as int));
            assert(pv.take(i + 1).last() == pv[i as int]);
        }
        match x.rate(&a.unit) {
            Err(e) => {
                proof {
                    lemma_pieces_error_persists(pv, t, i + 1, pv.len() as int);
                    assert(pv.take(pv.len() as int) =~= pv);
                }
                return Err(e);
            },
            Ok(rt) => match a.amount.checked_mul(rt) {
                None => {
                    proof {
                        lemma_pieces_error_persists(pv, t, i + 1, pv.len() as int);
                        assert(pv.take(pv.len() as int) =~= pv);
                    }
                    return Err(Error::Overflow);
                },
                Some(v) => match acc.checked_add(v) {
                    None => {
                        proof {
                            lemma_pieces_error_persists(pv, t, i + 1, pv.len() as int);
                            assert(pv.take(pv.len() as int) =~= pv);
                        }
                        return Err(Error::Overflow);
                    },
                    Some(s) => {
                        acc = s;
                        i = i + 1;
                    },
                },
            },
        }
    }
    proof {
        assert(pv.take(pv.len() as int) =~= pv);
    }
    Ok(Amount { amount: acc, unit: x.base_unit().duplicate() })
}

/// Reduces a sum: both operands fold to the base unit, then the
/// magnitudes add; the left operand's error is reported first.
fn reduce_sum<E: Exchanger>(s: &Sum, x: &E) -> (r: Result<Amount, Error>)
    ensures
        reduce_matches(expr_outcome(Expr::Sum(*s), x.entries()), x.base_key(), r),
    decreases *s,
{
    let l = match reduce_expr(&*s.lhs, x) {
        Ok(v) => v,
        Err(e) => {
            return Err(e);
        },
    };
    let r = match reduce_expr(&*s.rhs, x) {
        Ok(v) => v,
        Err(e) => {
            return Err(e);
        },
    };
    match l.amount.checked_add(r.amount) {
        Some(m) => Ok(Amount { amount: m, unit: l.unit }),
        None => Err(Error::Overflow),
    }
}

/// Reduces any expression, structurally.
fn reduce_expr<E: Exchanger>(e: &Expr, x: &E) -> (r: Result<Amount, Error>)
    ensures
        reduce_matches(expr_outcome(*e, x.entries()), x.base_key(), r),
    decreases *e,
{
    match e {
        Expr::Amount(a) => reduce_amount(a, x),
        Expr::Sum(s) => reduce_sum(s, x),
        Expr::Split(sp) => reduce_split(sp, x),
    }
}

impl Reduce for Amount {
    open spec fn outcome(&self, t: Seq<(Seq<char>, u64)>) -> ReduceOutcome {
        amount_outcome(self.amount, self.unit.key@, t)
    }

    fn reduce<E: Exchanger>(&self, x: &E) -> (r: Result<Amount, Error>) {
        reduce_amount(self, x)
    }
}

impl Reduce for Sum {
    open spec fn outcome(&self, t: Seq<(Seq<char>, u64)>) -> ReduceOutcome {
        expr_outcome(Expr::Sum(*self), t)
    }

    fn reduce<E: Exchanger>(&self, x: &E) -> (r: Result<Amount, Error>) {
        reduce_sum(self, x)
    }
}

impl Reduce for Split {
    open spec fn outcome(&self, t: Seq<(Seq<char>, u64)>) -> ReduceOutcome {
        pieces_outcome(piece_views(self@), t)
    }

    fn reduce<E: Exchanger>(&self, x: &E) -> (r: Result<Amount, Error>) {
        reduce_split(self, x)
    }
}

impl Reduce for Expr {
    open spec fn outcome(&self, t: Seq<(Seq<char>, u64)>) -> ReduceOutcome {
        expr_outcome(*self, t)
    }

    fn reduce<E: Exchanger>(&self, x: &E) -> (r: Result<Amount, Error>) {
        reduce_expr(self, x)
    }
}

impl<T: Reduce> Reduce for &T {
    open spec fn outcome(&self, t: Seq<(Seq<char>, u64)>) -> ReduceOutcome {
        (**self).outcome(t)
    }

    fn reduce<E: Exchanger>(&self, x: &E) -> (r: Result<Amount, Error>) {
        (**self).reduce(x)
    }
}

/// The greedy decomposition of the base-unit magnitude `m` along table
/// `t`: walk the entries in order; each entry that fits takes its share,
/// and the remainder moves on to the next entry.
pub open spec fn split_pieces(m: int, t: Seq<(Seq<char>, u64)>) -> Seq<(u64, Seq<char>)>
    decreases t.len(),
{
    if t.len() == 0 {
        Seq::empty()
    } else if t[0].1 > 0 && m >= t[0].1 {
        seq![((m / t[0].1 as int) as u64, t[0].0)] + split_pieces(m % t[0].1 as int, t.drop_first())
    } else {
        split_pieces(m, t.drop_first())
    }
}

/// Whether the split result `r` reports exactly the outcome `o`: the
/// greedy decomposition of the reduced magnitude, or the reduction's own
/// error.
pub open spec fn split_result_matches(
    o: ReduceOutcome,
    t: Seq<(Seq<char>, u64)>,
    r: Result<Split, Error>,
) -> bool {
    match o {
        ReduceOutcome::Value(v) => r matches Ok(sp) && piece_views(sp@) == split_pieces(v, t),
        ReduceOutcome::NotFound(u) => r matches Err(Error::NotFound(un)) && un.key@ == u,
        ReduceOutcome::Overflow => r matches Err(e) && e is Overflow,
    }
}

/// Operations every exchanger offers: reducing expressions and splitting
/// them back into readable denominations.
pub trait ExchangerExt: Exchanger + Sized {
    /// Reduces `exp` to one amount in this exchanger's base unit.
    fn reduce<T: Reduce>(&self, exp: T) -> (r: Result<Amount, Error>)
        ensures
            reduce_matches(exp.outcome(self.entries()), self.base_key(), r),
    {
        exp.reduce(self)
    }

    /// Reduces `exp`, then decomposes the result greedily along the
    /// ladder, coarsest unit first; zero shares are left out.
    fn split<T: Reduce>(&self, exp: T) -> (r: Result<Split, Error>)
        requires
            pos_rates(self.entries()),
        ensures
            split_result_matches(exp.outcome(self.entries()), self.entries(), r),
    {
        let reduced = match self.reduce(exp) {
            Ok(a) => a,
            Err(e) => {
                return Err(e);
            },
        };
        let ghost v = reduced.amount as int;
        let ghost t = self.entries();
        let mut remaining = reduced.amount;
        let mut pieces: Vec<Amount> = Vec::new();
        let units = self.sorted_units();
        let mut i: usize = 0;
        proof {
            assert(t.skip(0) =~= t);
            assert(piece_views(pieces@) =~= Seq::<(u64, Seq<char>)>::empty());
            assert(piece_views(pieces@) + split_pieces(v, t.skip(0)) =~= split_pieces(v, t));
        }
        while i < units.len()
            invariant
                i <= units@.len(),
                entry_views(units@) == t,
                pos_rates(t),
                split_pieces(v, t) == piece_views(pieces@) + split_pieces(
                    remaining as int,
                    t.skip(i as int),
                ),
            decreases units@.len() - i,
        {
            proof {
                assert(t.skip(i as int).drop_first() =~= t.skip(i + 1));
                assert(t[i as int] == (units@[i as int].0.key@, units@[i as int].1));
            }
            let rate = units[i].1;
            if remaining >= rate {
                let share = remaining / rate;
                let piece = Amount { amount: share, unit: units[i].0.duplicate() };
                pieces.push(piece);
                remaining = remaining % rate;
                proof {
                    let x = (share, t[i as int].0);
                    assert(piece_views(pieces@) =~= piece_views(pieces@.drop_last()).push(x));
                    assert(split_pieces(v, t) == piece_views(pieces@.drop_last()) + (seq![x]
                        + split_pieces(remaining as int, t.skip(i + 1))));
                    assert(piece_views(pieces@.drop_last()) + (seq![x] + split_pieces(
                        remaining as int,
                        t.skip(i + 1),
                    )) =~= piece_views(pieces@) + split_pieces(remaining as int, t.skip(i + 1)));
                }
            }
            i = i + 1;
        }
        proof {
            assert(t.skip(units@.len() as int) =~= Seq::empty());
            assert(split_pieces(v, t) =~= piece_views(pieces@));
        }
        let result = Split { pieces };
        proof {
            lemma_split_view(&result);
        }
        Ok(result)
    }

    /// Merges the exchanger `ext` into this one, consuming both: one
    /// table based at this exchanger's base unit, with `ext`'s rates
    /// re-expressed through the cross rate of `ext`'s base unit.
    fn extend<E: Exchanger>(self, ext: E) -> (r: Result<Table, Error>)
        ensures
            merge_matches(self.entries(), self.base_key(), ext.entries(), ext.base_key(), r),
    {
        merge(self, ext)
    }
}

impl<T: Exchanger> ExchangerExt for T {

}

} // verus!
