//! The laws this library promises, proved once and for all.

use vstd::prelude::*;

use crate::amount::Amount;
use crate::split::pieces_chars;
use crate::sum::mul_matches;
use crate::sum::Expr;
use crate::sum::Sum;
use crate::table::has_key;
use crate::table::insert_desc;
use crate::table::sort_desc;
use crate::table::sorted_desc;
use crate::table::table_spec;
use crate::traits::amount_outcome;
use crate::traits::combine;
use crate::traits::expr_outcome;
use crate::traits::lookup;
use crate::traits::pieces_outcome;
use crate::traits::piece_views;
use crate::traits::pos_rates;
use crate::traits::split_pieces;
use crate::traits::ReduceOutcome;

verus! {

/// An amount of zero splits into nothing: its reduction is zero, the
/// greedy decomposition of zero takes no share of any entry, and an
/// empty split renders as the empty string.
pub proof fn lemma_empty_split(u: Seq<char>, t: Seq<(Seq<char>, u64)>)
    requires
        lookup(t, u) is Some,
    ensures
        amount_outcome(0, u, t) == ReduceOutcome::Value(0),
        split_pieces(0, t) =~= Seq::<(u64, Seq<char>)>::empty(),
        pieces_chars(Seq::<Amount>::empty()) =~= Seq::<char>::empty(),
{
    lemma_split_pieces_zero(t);
}

proof fn lemma_split_pieces_zero(t: Seq<(Seq<char>, u64)>)
    ensures
        split_pieces(0, t) =~= Seq::<(u64, Seq<char>)>::empty(),
    decreases t.len(),
{
    if t.len() > 0 {
        lemma_split_pieces_zero(t.drop_first());
    }
}

/// Whether the sum node `s` adds the amount `m1` of the unit keyed `u1`
/// to the amount `m2` of the unit keyed `u2`, in that order.
pub open spec fn sum_of_amounts(s: Sum, m1: u64, u1: Seq<char>, m2: u64, u2: Seq<char>) -> bool {
    &&& *s.lhs matches Expr::Amount(a) && a.amount == m1 && a.unit.key@ == u1
    &&& *s.rhs matches Expr::Amount(b) && b.amount == m2 && b.unit.key@ == u2
}

/// Sum reduction is commutative: for amounts whose units the table
/// knows, `a + b` and `b + a` reduce to the same outcome.
pub proof fn lemma_sum_reduction_commutes(
    s: Sum,
    u: Sum,
    m1: u64,
    u1: Seq<char>,
    m2: u64,
    u2: Seq<char>,
    t: Seq<(Seq<char>, u64)>,
)
    requires
        sum_of_amounts(s, m1, u1, m2, u2),
        sum_of_amounts(u, m2, u2, m1, u1),
        lookup(t, u1) is Some,
        lookup(t, u2) is Some,
    ensures
        expr_outcome(Expr::Sum(s), t) == expr_outcome(Expr::Sum(u), t),
{
    match (*s.lhs, *s.rhs, *u.lhs, *u.rhs) {
        (Expr::Amount(a1), Expr::Amount(b1), Expr::Amount(b2), Expr::Amount(a2)) => {
            assert(expr_outcome(*s.lhs, t) == amount_outcome(m1, u1, t));
            assert(expr_outcome(*s.rhs, t) == amount_outcome(m2, u2, t));
            assert(expr_outcome(*u.lhs, t) == amount_outcome(m2, u2, t));
            assert(expr_outcome(*u.rhs, t) == amount_outcome(m1, u1, t));
            assert(expr_outcome(Expr::Sum(s), t) == combine(
                amount_outcome(m1, u1, t),
                amount_outcome(m2, u2, t),
            ));
            assert(expr_outcome(Expr::Sum(u), t) == combine(
                amount_outcome(m2, u2, t),
                amount_outcome(m1, u1, t),
            ));
        },
        _ => {
            assert(false);
        },
    }
}

/// Two expressions that are both `e` scaled by `k` reduce alike: the
/// scaling pins every magnitude and every unit.
proof fn lemma_mul_matches_reduce_equal(
    e: Expr,
    k: u64,
    r1: Expr,
    r2: Expr,
    t: Seq<(Seq<char>, u64)>,
)
    requires
        mul_matches(e, k, r1),
        mul_matches(e, k, r2),
    ensures
        expr_outcome(r1, t) == expr_outcome(r2, t),
    decreases e,
{
    match (e, r1, r2) {
        (Expr::Amount(a), Expr::Amount(b1), Expr::Amount(b2)) => {
            assert(amount_outcome(b1.amount, b1.unit.key@, t) == amount_outcome(
                b2.amount,
                b2.unit.key@,
                t,
            ));
        },
        (Expr::Sum(s), Expr::Sum(p1), Expr::Sum(p2)) => {
            lemma_mul_matches_reduce_equal(*s.lhs, k, *p1.lhs, *p2.lhs, t);
            lemma_mul_matches_reduce_equal(*s.rhs, k, *p1.rhs, *p2.rhs, t);
        },
        (Expr::Split(sp), Expr::Split(t1), Expr::Split(t2)) => {
            assert(piece_views(t1@) =~= piece_views(t2@));
        },
        _ => {},
    }
}

/// Multiplication distributes over sums: `(a + b) * k` and
/// `(a * k) + (b * k)` reduce to the same outcome, whenever both scaled
/// expressions exist.
pub proof fn lemma_mul_distributes_over_sum(
    a: Expr,
    b: Expr,
    k: u64,
    p: Sum,
    q: Sum,
    t: Seq<(Seq<char>, u64)>,
)
    requires
        mul_matches(a, k, *p.lhs),
        mul_matches(b, k, *p.rhs),
        mul_matches(a, k, *q.lhs),
        mul_matches(b, k, *q.rhs),
    ensures
        expr_outcome(Expr::Sum(p), t) == expr_outcome(Expr::Sum(q), t),
{
    lemma_mul_matches_reduce_equal(a, k, *p.lhs, *q.lhs, t);
    lemma_mul_matches_reduce_equal(b, k, *p.rhs, *q.rhs, t);
}

/// How many entries of `t` carry the rate one.
pub open spec fn count_ones(t: Seq<(Seq<char>, u64)>) -> int
    decreases t.len(),
{
    if t.len() == 0 {
        0
    } else {
        count_ones(t.drop_last()) + if t.last().1 == 1 {
            1int
        } else {
            0int
        }
    }
}

/// Whether every entry keyed `b` carries the rate one.
pub open spec fn base_rate_one(t: Seq<(Seq<char>, u64)>, b: Seq<char>) -> bool {
    forall|i: int| 0 <= i < t.len() ==> ((#[trigger] t[i]).0 == b ==> t[i].1 == 1)
}

/// Whether only entries keyed `b` carry the rate one.
pub open spec fn rate_one_only_base(t: Seq<(Seq<char>, u64)>, b: Seq<char>) -> bool {
    forall|i: int| 0 <= i < t.len() ==> ((#[trigger] t[i]).1 == 1 ==> t[i].0 == b)
}

/// Whether at most one entry of `t` carries the key `b`.
pub open spec fn at_most_one_key(t: Seq<(Seq<char>, u64)>, b: Seq<char>) -> bool {
    forall|i: int, j: int|
        0 <= i < j < t.len() ==> !((#[trigger] t[i]).0 == b && (#[trigger] t[j]).0 == b)
}

/// How many leading entries of `s` have a rate of at least `r`: the
/// stable insertion point for rate `r`.
pub open spec fn insert_pos(s: Seq<(Seq<char>, u64)>, r: u64) -> int
    decreases s.len(),
{
    if s.len() == 0 {
        0
    } else if s[0].1 >= r {
        1 + insert_pos(s.drop_first(), r)
    } else {
        0
    }
}

/// The stable insertion splits `s` at [`insert_pos`].
proof fn lemma_insert_desc_shape(s: Seq<(Seq<char>, u64)>, x: (Seq<char>, u64))
    ensures
        0 <= insert_pos(s, x.1) <= s.len(),
        forall|j: int| 0 <= j < insert_pos(s, x.1) ==> (#[trigger] s[j]).1 >= x.1,
        insert_pos(s, x.1) < s.len() ==> s[insert_pos(s, x.1)].1 < x.1,
        insert_desc(s, x) == s.take(insert_pos(s, x.1)) + seq![x] + s.skip(insert_pos(s, x.1)),
    decreases s.len(),
{
    if s.len() == 0 {
        assert(insert_desc(s, x) =~= s.take(0) + seq![x] + s.skip(0));
    } else if s[0].1 >= x.1 {
        let t = s.drop_first();
        lemma_insert_desc_shape(t, x);
        let k = insert_pos(s, x.1);
        assert(s.take(k) =~= seq![s[0]] + t.take(k - 1));
        assert(s.skip(k) =~= t.skip(k - 1));
        assert(insert_desc(s, x) =~= s.take(k) + seq![x] + s.skip(k));
    } else {
        assert(insert_desc(s, x) =~= s.take(0) + seq![x] + s.skip(0));
    }
}

/// Rate-one entries are counted piecewise across a concatenation.
proof fn lemma_count_ones_concat(a: Seq<(Seq<char>, u64)>, b: Seq<(Seq<char>, u64)>)
    ensures
        count_ones(a + b) == count_ones(a) + count_ones(b),
    decreases b.len(),
{
    if b.len() == 0 {
        assert(a + b =~= a);
    } else {
        lemma_count_ones_concat(a, b.drop_last());
        assert((a + b).drop_last() =~= a + b.drop_last());
        assert((a + b).last() == b.last());
    }
}

/// A rate-one entry somewhere means the count is positive.
proof fn lemma_count_ones_witness(t: Seq<(Seq<char>, u64)>, i: int)
    requires
        0 <= i < t.len(),
        t[i].1 == 1,
    ensures
        count_ones(t) >= 1,
        count_ones(t) >= 0,
    decreases t.len(),
{
    lemma_count_ones_nonneg(t);
    lemma_count_ones_nonneg(t.drop_last());
    if i < t.len() - 1 {
        lemma_count_ones_witness(t.drop_last(), i);
    }
}

proof fn lemma_count_ones_nonneg(t: Seq<(Seq<char>, u64)>)
    ensures
        count_ones(t) >= 0,
    decreases t.len(),
{
    if t.len() > 0 {
        lemma_count_ones_nonneg(t.drop_last());
    }
}

/// A positive count names a rate-one entry.
proof fn lemma_count_ones_pos(t: Seq<(Seq<char>, u64)>)
    requires
        count_ones(t) >= 1,
    ensures
        exists|i: int| 0 <= i < t.len() && (#[trigger] t[i]).1 == 1,
    decreases t.len(),
{
    if t.last().1 == 1 {
        assert(t[t.len() - 1].1 == 1);
    } else {
        lemma_count_ones_nonneg(t.drop_last());
        lemma_count_ones_pos(t.drop_last());
        let i = choose|i: int| 0 <= i < t.len() - 1 && (#[trigger] t.drop_last()[i]).1 == 1;
        assert(t[i].1 == 1);
    }
}

/// A count of two or more names two rate-one entries.
proof fn lemma_count_ones_two(t: Seq<(Seq<char>, u64)>)
    requires
        count_ones(t) >= 2,
    ensures
        exists|i: int, j: int|
            0 <= i < j < t.len() && (#[trigger] t[i]).1 == 1 && (#[trigger] t[j]).1 == 1,
    decreases t.len(),
{
    lemma_count_ones_nonneg(t.drop_last());
    if t.last().1 == 1 {
        lemma_count_ones_pos(t.drop_last());
        let i = choose|i: int| 0 <= i < t.len() - 1 && (#[trigger] t.drop_last()[i]).1 == 1;
        assert(t[i].1 == 1 && t[t.len() - 1].1 == 1);
    } else {
        lemma_count_ones_two(t.drop_last());
        let (i, j) = choose|i: int, j: int|
            0 <= i < j < t.len() - 1 && (#[trigger] t.drop_last()[i]).1 == 1 && (#[trigger] t.drop_last()[j]).1 == 1;
        assert(t[i].1 == 1 && t[j].1 == 1);
    }
}

/// The stable sort keeps the rates sorted descending and keeps every
/// pointwise property of the entries: rate counts, positive rates, and
/// which keys rate-one entries carry.
#[verifier::rlimit(60)]
proof fn lemma_sort_desc_props(s: Seq<(Seq<char>, u64)>, b: Seq<char>)
    ensures
        sorted_desc(sort_desc(s)),
        sort_desc(s).len() == s.len(),
        count_ones(sort_desc(s)) == count_ones(s),
        pos_rates(s) ==> pos_rates(sort_desc(s)),
        rate_one_only_base(s, b) ==> rate_one_only_base(sort_desc(s), b),
    decreases s.len(),
{
    if s.len() == 0 {
    } else {
        let dl = s.drop_last();
        let x = s.last();
        lemma_sort_desc_props(dl, b);
        let sd = sort_desc(dl);
        lemma_insert_desc_shape(sd, x);
        let k = insert_pos(sd, x.1);
        let r = insert_desc(sd, x);
        assert(r == sd.take(k) + seq![x] + sd.skip(k));
        assert forall|m: int, n: int| 0 <= m < n < r.len() implies (#[trigger] r[m]).1
            >= (#[trigger] r[n]).1 by {
            if n < k {
            } else if m < k && n == k {
                assert(r[m] == sd[m]);
            } else if m < k && n > k {
                assert(r[m] == sd[m] && r[n] == sd[n - 1]);
                assert(k <= n - 1);
                if k < sd.len() {
                    assert(sd[k].1 < x.1);
                }
            } else if m == k {
                assert(r[n] == sd[n - 1]);
                assert(sd[k].1 < x.1);
                assert(sd[k].1 >= sd[n - 1].1);
            } else {
                assert(r[m] == sd[m - 1] && r[n] == sd[n - 1]);
            }
        }
        lemma_count_ones_concat(sd.take(k) + seq![x], sd.skip(k));
        lemma_count_ones_concat(sd.take(k), seq![x]);
        lemma_count_ones_concat(sd.take(k), sd.skip(k));
        assert(sd.take(k) + sd.skip(k) =~= sd);
        assert(seq![x].drop_last() =~= Seq::<(Seq<char>, u64)>::empty());
        reveal_with_fuel(count_ones, 2);
        assert(count_ones(seq![x]) == if x.1 == 1 {
            1int
        } else {
            0int
        });
        assert(count_ones(r) == count_ones(sd) + if x.1 == 1 {
            1int
        } else {
            0int
        });
        assert(s.drop_last() == dl && s.last() == x);
        if pos_rates(s) {
            assert forall|i: int| 0 <= i < dl.len() implies (#[trigger] dl[i]).1 >= 1 by {
                assert(dl[i] == s[i]);
            }
            assert forall|i: int| 0 <= i < r.len() implies (#[trigger] r[i]).1 >= 1 by {
                if i < k {
                    assert(r[i] == sd[i]);
                } else if i == k {
                    assert(r[i] == x && x == s[s.len() - 1]);
                } else {
                    assert(r[i] == sd[i - 1]);
                }
            }
        }
        if rate_one_only_base(s, b) {
            assert forall|i: int| 0 <= i < dl.len() implies ((#[trigger] dl[i]).1 == 1 ==> dl[i].0
                == b) by {
                assert(dl[i] == s[i]);
            }
            assert forall|i: int| 0 <= i < r.len() implies ((#[trigger] r[i]).1 == 1 ==> r[i].0
                == b) by {
                if i < k {
                    assert(r[i] == sd[i]);
                } else if i == k {
                    assert(r[i] == x && x == s[s.len() - 1]);
                } else {
                    assert(r[i] == sd[i - 1]);
                }
            }
        }
    }
}

/// Every constructed rate table keeps the table invariant: its ladder
/// is sorted by rate descending, and exactly one entry carries the
/// rate one, namely one keyed by the base unit. The preconditions say
/// the raw entries are honest: positive rates, the base key (if
/// supplied) appearing once with rate one, and rate one reserved for
/// the base key.
pub proof fn lemma_table_invariant(s: Seq<(Seq<char>, u64)>, b: Seq<char>)
    requires
        pos_rates(s),
        base_rate_one(s, b),
        rate_one_only_base(s, b),
        at_most_one_key(s, b),
    ensures
        sorted_desc(table_spec(s, b)),
        count_ones(table_spec(s, b)) == 1,
        rate_one_only_base(table_spec(s, b), b),
        exists|i: int|
            0 <= i < table_spec(s, b).len() && (#[trigger] table_spec(s, b)[i]).1 == 1
                && table_spec(s, b)[i].0 == b,
{
    lemma_sort_desc_props(s, b);
    lemma_count_ones_nonneg(s);
    let r = table_spec(s, b);
    if has_key(s, b) {
        let w = choose|i: int| 0 <= i < s.len() && (#[trigger] s[i]).0 == b;
        assert(s[w].1 == 1);
        lemma_count_ones_witness(s, w);
        if count_ones(s) >= 2 {
            lemma_count_ones_two(s);
            let (i, j) = choose|i: int, j: int|
                0 <= i < j < s.len() && (#[trigger] s[i]).1 == 1 && (#[trigger] s[j]).1 == 1;
            assert(s[i].0 == b && s[j].0 == b);
            assert(false);
        }
        assert(count_ones(r) == 1);
        lemma_count_ones_pos(r);
        let v = choose|i: int| 0 <= i < r.len() && (#[trigger] r[i]).1 == 1;
        assert(r[v].0 == b);
    } else {
        if count_ones(s) >= 1 {
            lemma_count_ones_pos(s);
            let i = choose|i: int| 0 <= i < s.len() && (#[trigger] s[i]).1 == 1;
            assert(s[i].0 == b);
            assert(false);
        }
        let sd = sort_desc(s);
        assert(r == sd.push((b, 1u64)));
        assert(r.drop_last() =~= sd);
        assert(count_ones(r) == count_ones(sd) + 1);
        assert forall|m: int, n: int| 0 <= m < n < r.len() implies (#[trigger] r[m]).1
            >= (#[trigger] r[n]).1 by {
            if n == r.len() - 1 {
                assert(r[m] == sd[m]);
                assert(r[n] == (b, 1u64));
            }
        }
        assert forall|i: int| 0 <= i < r.len() implies ((#[trigger] r[i]).1 == 1 ==> r[i].0
            == b) by {
            if i < r.len() - 1 {
                assert(r[i] == sd[i]);
            }
        }
        assert(r[r.len() - 1].1 == 1 && r[r.len() - 1].0 == b);
    }
}

/// Whether no two entries of `t` share a unit key.
pub open spec fn unique_keys(t: Seq<(Seq<char>, u64)>) -> bool {
    forall|i: int, j: int|
        0 <= i < j < t.len() ==> (#[trigger] t[i]).0 != (#[trigger] t[j]).0
}

/// What the greedy decomposition of `m` along `t` leaves over.
pub open spec fn split_rem(m: int, t: Seq<(Seq<char>, u64)>) -> int
    decreases t.len(),
{
    if t.len() == 0 {
        m
    } else if t[0].1 > 0 && m >= t[0].1 {
        split_rem(m % (t[0].1 as int), t.drop_first())
    } else {
        split_rem(m, t.drop_first())
    }
}

/// The base-unit worth of one piece under table `t`; zero for a unit
/// the table misses.
pub open spec fn piece_val(p: (u64, Seq<char>), t: Seq<(Seq<char>, u64)>) -> int {
    match lookup(t, p.1) {
        Some(r) => p.0 * r,
        None => 0,
    }
}

/// The base-unit worth of a piece sequence under table `t`.
pub open spec fn pieces_total(ps: Seq<(u64, Seq<char>)>, t: Seq<(Seq<char>, u64)>) -> int
    decreases ps.len(),
{
    if ps.len() == 0 {
        0
    } else {
        piece_val(ps[0], t) + pieces_total(ps.drop_first(), t)
    }
}

proof fn lemma_piece_val_nonneg(p: (u64, Seq<char>), t: Seq<(Seq<char>, u64)>)
    ensures
        piece_val(p, t) >= 0,
{
    match lookup(t, p.1) {
        Some(r) => {
            assert(p.0 * r >= 0) by (nonlinear_arith)
                requires
                    p.0 >= 0,
                    r >= 0,
            ;
        },
        None => {},
    }
}

proof fn lemma_pieces_total_nonneg(ps: Seq<(u64, Seq<char>)>, t: Seq<(Seq<char>, u64)>)
    ensures
        pieces_total(ps, t) >= 0,
    decreases ps.len(),
{
    if ps.len() > 0 {
        lemma_piece_val_nonneg(ps[0], t);
        lemma_pieces_total_nonneg(ps.drop_first(), t);
    }
}

proof fn lemma_pieces_total_drop_last(ps: Seq<(u64, Seq<char>)>, t: Seq<(Seq<char>, u64)>)
    requires
        ps.len() >= 1,
    ensures
        pieces_total(ps, t) == pieces_total(ps.drop_last(), t) + piece_val(ps.last(), t),
    decreases ps.len(),
{
    if ps.len() == 1 {
        assert(ps.drop_first() =~= Seq::<(u64, Seq<char>)>::empty());
        assert(ps.drop_last() =~= Seq::<(u64, Seq<char>)>::empty());
    } else {
        let tail = ps.drop_first();
        lemma_pieces_total_drop_last(tail, t);
        assert(tail.drop_last() =~= ps.drop_last().drop_first());
        assert(tail.last() == ps.last());
        assert(ps.drop_last()[0] == ps[0]);
    }
}

/// A piece sequence whose units the table all knows, and whose total
/// worth fits 64 bits, reduces to exactly that total.
proof fn lemma_pieces_outcome_value(ps: Seq<(u64, Seq<char>)>, t: Seq<(Seq<char>, u64)>)
    requires
        forall|i: int| 0 <= i < ps.len() ==> lookup(t, (#[trigger] ps[i]).1) is Some,
        pieces_total(ps, t) <= u64::MAX,
    ensures
        pieces_outcome(ps, t) == ReduceOutcome::Value(pieces_total(ps, t)),
    decreases ps.len(),
{
    if ps.len() == 0 {
    } else {
        let dl = ps.drop_last();
        let x = ps.last();
        lemma_pieces_total_drop_last(ps, t);
        lemma_pieces_total_nonneg(dl, t);
        lemma_piece_val_nonneg(x, t);
        assert(forall|i: int| 0 <= i < dl.len() ==> (#[trigger] dl[i]) == ps[i]);
        lemma_pieces_outcome_value(dl, t);
        assert(lookup(t, x.1) is Some);
        let r = lookup(t, x.1)->Some_0;
        assert(amount_outcome(x.0, x.1, t) == ReduceOutcome::Value(x.0 * r));
    }
}

/// The greedy decomposition accounts for `m` exactly: the pieces are
/// worth `m` less the remainder, every piece's unit has an entry, and
/// the remainder never grows past `m`.
proof fn lemma_split_pieces_sum(m: int, s: Seq<(Seq<char>, u64)>, t: Seq<(Seq<char>, u64)>)
    requires
        0 <= m <= u64::MAX,
        pos_rates(s),
        forall|i: int| 0 <= i < s.len() ==> lookup(t, (#[trigger] s[i]).0) == Some(s[i].1),
    ensures
        pieces_total(split_pieces(m, s), t) == m - split_rem(m, s),
        0 <= split_rem(m, s) <= m,
        forall|i: int|
            0 <= i < split_pieces(m, s).len() ==> lookup(
                t,
                (#[trigger] split_pieces(m, s)[i]).1,
            ) is Some,
    decreases s.len(),
{
    if s.len() == 0 {
    } else {
        let tail = s.drop_first();
        assert(forall|i: int| 0 <= i < tail.len() ==> (#[trigger] tail[i]) == s[i + 1]);
        assert(pos_rates(tail));
        assert(forall|i: int| 0 <= i < tail.len() ==> lookup(t, (#[trigger] tail[i]).0) == Some(
            tail[i].1,
        ));
        let r = s[0].1 as int;
        if s[0].1 > 0 && m >= s[0].1 {
            assert(0 <= m % r < r) by (nonlinear_arith)
                requires
                    r > 0,
                    m >= 0,
            ;
            let m2 = m % r;
            lemma_split_pieces_sum(m2, tail, t);
            let p = ((m / r) as u64, s[0].0);
            let rest = split_pieces(m2, tail);
            let ps = split_pieces(m, s);
            assert(ps == seq![p] + rest);
            assert(ps[0] == p);
            assert(ps.drop_first() =~= rest);
            assert(0 <= m / r <= m) by (nonlinear_arith)
                requires
                    r >= 1,
                    m >= 0,
            ;
            assert(piece_val(p, t) == (m / r) * r);
            vstd::arithmetic::div_mod::lemma_fundamental_div_mod(m, r);
            assert((m / r) * r == m - m2);
            assert(pieces_total(ps, t) == (m - m2) + (m2 - split_rem(m2, tail)));
            assert(split_rem(m, s) == split_rem(m2, tail));
            assert forall|i: int| 0 <= i < ps.len() implies lookup(
                t,
                (#[trigger] ps[i]).1,
            ) is Some by {
                if i > 0 {
                    assert(ps[i] == rest[i - 1]);
                }
            }
        } else {
            lemma_split_pieces_sum(m, tail, t);
        }
    }
}

proof fn lemma_split_rem_of_zero(s: Seq<(Seq<char>, u64)>)
    ensures
        split_rem(0, s) == 0,
    decreases s.len(),
{
    if s.len() > 0 {
        lemma_split_rem_of_zero(s.drop_first());
    }
}

/// A ladder holding a rate-one entry leaves no remainder.
proof fn lemma_split_rem_zero(m: int, s: Seq<(Seq<char>, u64)>)
    requires
        0 <= m,
        pos_rates(s),
        exists|i: int| 0 <= i < s.len() && (#[trigger] s[i]).1 == 1,
    ensures
        split_rem(m, s) == 0,
    decreases s.len(),
{
    let tail = s.drop_first();
    assert(pos_rates(tail));
    if s[0].1 == 1 {
        if m >= 1 {
            assert(m % 1int == 0) by (nonlinear_arith)
                requires
                    m >= 0,
            ;
            lemma_split_rem_of_zero(tail);
        } else {
            lemma_split_rem_of_zero(tail);
        }
    } else {
        let w = choose|i: int| 0 <= i < s.len() && (#[trigger] s[i]).1 == 1;
        assert(tail[w - 1].1 == 1);
        if s[0].1 > 0 && m >= s[0].1 {
            assert(0 <= m % (s[0].1 as int)) by (nonlinear_arith)
                requires
                    m >= 0,
                    s[0].1 > 0,
            ;
            lemma_split_rem_zero(m % (s[0].1 as int), tail);
        } else {
            lemma_split_rem_zero(m, tail);
        }
    }
}

/// In a table without duplicate keys, every entry is found by its own
/// key.
proof fn lemma_unique_self_lookup(t: Seq<(Seq<char>, u64)>)
    requires
        unique_keys(t),
    ensures
        forall|i: int| 0 <= i < t.len() ==> lookup(t, (#[trigger] t[i]).0) == Some(t[i].1),
{
    assert forall|i: int| 0 <= i < t.len() implies lookup(t, (#[trigger] t[i]).0) == Some(
        t[i].1,
    ) by {
        crate::table::lemma_lookup_at(t, t[i].0, i);
    }
}

/// The stable sort keeps exactly the unit keys it was given.
proof fn lemma_sort_desc_has_key(s: Seq<(Seq<char>, u64)>, u: Seq<char>)
    ensures
        has_key(sort_desc(s), u) <==> has_key(s, u),
    decreases s.len(),
{
    if s.len() == 0 {
    } else {
        let dl = s.drop_last();
        let x = s.last();
        lemma_sort_desc_has_key(dl, u);
        let sd = sort_desc(dl);
        lemma_insert_desc_shape(sd, x);
        let k = insert_pos(sd, x.1);
        let r = insert_desc(sd, x);
        if has_key(r, u) {
            let i = choose|i: int| 0 <= i < r.len() && (#[trigger] r[i]).0 == u;
            if i < k {
                assert(sd[i].0 == u);
                assert(has_key(sd, u));
                let j = choose|j: int| 0 <= j < dl.len() && (#[trigger] dl[j]).0 == u;
                assert(s[j].0 == u);
            } else if i == k {
                assert(x.0 == u);
                assert(s[s.len() - 1].0 == u);
            } else {
                assert(sd[i - 1].0 == u);
                assert(has_key(sd, u));
                let j = choose|j: int| 0 <= j < dl.len() && (#[trigger] dl[j]).0 == u;
                assert(s[j].0 == u);
            }
        }
        if has_key(s, u) {
            let i = choose|i: int| 0 <= i < s.len() && (#[trigger] s[i]).0 == u;
            if i == s.len() - 1 {
                assert(r[k].0 == u);
            } else {
                assert(dl[i].0 == u);
                assert(has_key(dl, u));
                let j = choose|j: int| 0 <= j < sd.len() && (#[trigger] sd[j]).0 == u;
                if j < k {
                    assert(r[j].0 == u);
                } else {
                    assert(r[j + 1].0 == u);
                }
            }
        }
    }
}

/// The stable sort never makes a unit key collide: a table of distinct
/// keys stays a table of distinct keys.
proof fn lemma_sort_desc_unique(s: Seq<(Seq<char>, u64)>)
    requires
        unique_keys(s),
    ensures
        unique_keys(sort_desc(s)),
    decreases s.len(),
{
    if s.len() == 0 {
    } else {
        let dl = s.drop_last();
        let x = s.last();
        assert forall|i: int, j: int| 0 <= i < j < dl.len() implies (#[trigger] dl[i]).0
            != (#[trigger] dl[j]).0 by {
            assert(dl[i] == s[i] && dl[j] == s[j]);
        }
        lemma_sort_desc_unique(dl);
        let sd = sort_desc(dl);
        if has_key(dl, x.0) {
            let w = choose|w: int| 0 <= w < dl.len() && (#[trigger] dl[w]).0 == x.0;
            assert(s[w].0 == s[s.len() - 1].0);
            assert(false);
        }
        lemma_sort_desc_has_key(dl, x.0);
        assert(!has_key(sd, x.0));
        lemma_insert_desc_shape(sd, x);
        let k = insert_pos(sd, x.1);
        let r = insert_desc(sd, x);
        assert forall|i: int, j: int| 0 <= i < j < r.len() implies (#[trigger] r[i]).0
            != (#[trigger] r[j]).0 by {
            if i == k {
                let n = j - 1;
                assert(r[j] == sd[n]);
                assert(sd[n].0 != x.0);
            } else if j == k {
                assert(r[i] == sd[i]);
                assert(sd[i].0 != x.0);
            } else {
                let m = if i < k {
                    i
                } else {
                    i - 1
                };
                let n = if j < k {
                    j
                } else {
                    j - 1
                };
                assert(r[i] == sd[m] && r[j] == sd[n]);
                assert(m < n);
            }
        }
    }
}

/// Every table built from entries with distinct keys and positive rates
/// meets the round-trip law's conditions: its ladder keeps the keys
/// distinct and the rates positive, and holds a rate-one entry. The
/// base key's entry, if supplied, must be the rate-one one.
pub proof fn lemma_table_supports_round_trip(s: Seq<(Seq<char>, u64)>, b: Seq<char>)
    requires
        unique_keys(s),
        pos_rates(s),
        base_rate_one(s, b),
        rate_one_only_base(s, b),
    ensures
        unique_keys(table_spec(s, b)),
        pos_rates(table_spec(s, b)),
        exists|i: int| 0 <= i < table_spec(s, b).len() && (#[trigger] table_spec(s, b)[i]).1 == 1,
{
    assert(at_most_one_key(s, b));
    lemma_table_invariant(s, b);
    lemma_sort_desc_props(s, b);
    lemma_sort_desc_unique(s);
    let sd = sort_desc(s);
    let r = table_spec(s, b);
    if has_key(s, b) {
    } else {
        lemma_sort_desc_has_key(s, b);
        assert(!has_key(sd, b));
        assert(r == sd.push((b, 1u64)));
        assert forall|i: int, j: int| 0 <= i < j < r.len() implies (#[trigger] r[i]).0
            != (#[trigger] r[j]).0 by {
            if j == r.len() - 1 {
                assert(r[i] == sd[i]);
                assert(sd[i].0 != b);
            } else {
                assert(r[i] == sd[i] && r[j] == sd[j]);
            }
        }
        assert forall|i: int| 0 <= i < r.len() implies (#[trigger] r[i]).1 >= 1 by {
            if i < r.len() - 1 {
                assert(r[i] == sd[i]);
            }
        }
    }
}

/// The round-trip law: splitting a reduced magnitude along a proper
/// table and reducing the pieces again gives back the same magnitude.
/// The table must not repeat a unit key, must keep its rates positive,
/// and must hold a rate-one entry so the decomposition is exhaustive.
pub proof fn lemma_round_trip(m: u64, t: Seq<(Seq<char>, u64)>)
    requires
        unique_keys(t),
        pos_rates(t),
        exists|i: int| 0 <= i < t.len() && (#[trigger] t[i]).1 == 1,
    ensures
        pieces_outcome(split_pieces(m as int, t), t) == ReduceOutcome::Value(m as int),
{
    lemma_unique_self_lookup(t);
    lemma_split_pieces_sum(m as int, t, t);
    lemma_split_rem_zero(m as int, t);
    lemma_pieces_outcome_value(split_pieces(m as int, t), t);
}

} // verus!
