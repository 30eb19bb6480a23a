//! Concrete rate tables, and merging two exchangers into one.

use vstd::prelude::*;

use crate::amount::Unit;
use crate::traits::entry_views;
use crate::traits::lookup;
use crate::traits::Error;
use crate::traits::Exchanger;
use crate::traits::UnitRate;

verus! {

/// Whether the rates of `t` never increase from one entry to the next.
pub open spec fn sorted_desc(t: Seq<(Seq<char>, u64)>) -> bool {
    forall|i: int, j: int| 0 <= i < j < t.len() ==> (#[trigger] t[i]).1 >= (#[trigger] t[j]).1
}

/// Whether some entry of `t` carries the unit key `u`.
pub open spec fn has_key(t: Seq<(Seq<char>, u64)>, u: Seq<char>) -> bool {
    exists|i: int| 0 <= i < t.len() && (#[trigger] t[i]).0 == u
}

/// Inserts `x` into `s` behind every entry whose rate is at least `x`'s:
/// the stable position for a descending order.
pub open spec fn insert_desc(
    s: Seq<(Seq<char>, u64)>,
    x: (Seq<char>, u64),
) -> Seq<(Seq<char>, u64)>
    decreases s.len(),
{
    if s.len() == 0 {
        seq![x]
    } else if s[0].1 >= x.1 {
        seq![s[0]] + insert_desc(s.drop_first(), x)
    } else {
        seq![x] + s
    }
}

/// Sorts `s` by rate, descending, keeping entries of equal rate in their
/// given order: each entry in turn takes its stable position.
pub open spec fn sort_desc(s: Seq<(Seq<char>, u64)>) -> Seq<(Seq<char>, u64)>
    decreases s.len(),
{
    if s.len() == 0 {
        Seq::empty()
    } else {
        insert_desc(sort_desc(s.drop_last()), s.last())
    }
}

/// The ladder a table builds from the raw entries `s` and base key `b`:
/// the entries sorted descending by rate, and `(b, 1)` appended when no
/// entry carries the base key itself.
pub open spec fn table_spec(s: Seq<(Seq<char>, u64)>, b: Seq<char>) -> Seq<(Seq<char>, u64)> {
    if has_key(s, b) {
        sort_desc(s)
    } else {
        sort_desc(s).push((b, 1))
    }
}

/// Where the stable insertion puts `x`: before the first entry whose
/// rate is below `x`'s.
proof fn lemma_insert_desc_at(s: Seq<(Seq<char>, u64)>, x: (Seq<char>, u64), k: int)
    requires
        0 <= k <= s.len(),
        forall|j: int| 0 <= j < k ==> (#[trigger] s[j]).1 >= x.1,
        k < s.len() ==> s[k].1 < x.1,
    ensures
        insert_desc(s, x) == s.take(k) + seq![x] + s.skip(k),
    decreases s.len(),
{
    if s.len() == 0 {
        assert(insert_desc(s, x) =~= s.take(k) + seq![x] + s.skip(k));
    } else if k == 0 {
        assert(insert_desc(s, x) =~= s.take(0) + seq![x] + s.skip(0));
    } else {
        let t = s.drop_first();
        assert(forall|j: int| 0 <= j < k - 1 ==> (#[trigger] t[j]).1 >= x.1);
        lemma_insert_desc_at(t, x, k - 1);
        assert(insert_desc(s, x) =~= s.take(k) + seq![x] + s.skip(k));
    }
}

/// A concrete exchanger: a ladder of unit-rate pairs sorted descending
/// by rate, with a designated base unit that always has an entry of rate
/// one when the caller supplied none.
#[derive(Debug, Clone)]
pub struct Table {
    units: Vec<UnitRate>,
    base_unit: Unit,
}

impl Table {
    /// Builds the table for `base_unit` from `units`: the entries are
    /// sorted by rate, descending and stable, and `(base_unit, 1)` is
    /// appended when `units` has no entry for the base unit itself.
    pub fn new(base_unit: Unit, units: Vec<UnitRate>) -> (t: Table)
        ensures
            t.entries() == table_spec(entry_views(units@), base_unit.key@),
            t.base_key() == base_unit.key@,
    {
        let ghost ev = entry_views(units@);
        let mut has_base = false;
        let mut i: usize = 0;
        while i < units.len()
            invariant
                i <= units@.len(),
                ev == entry_views(units@),
                has_base == has_key(ev.take(i as int), base_unit.key@),
            decreases units@.len() - i,
        {
            proof {
                assert(ev[i as int] == (units@[i as int].0.key@, units@[i as int].1));
            }
            if !has_base && units[i].0.key == base_unit.key {
                has_base = true;
                proof {
                    assert(ev.take(i + 1)[i as int].0 == base_unit.key@);
                }
            }
            proof {
                assert(ev.take(i + 1).drop_last() =~= ev.take(i as int));
                if has_key(ev.take(i + 1), base_unit.key@) && !has_key(
                    ev.take(i as int),
                    base_unit.key@,
                ) {
                    let w = choose|j: int|
                        0 <= j < i + 1 && (#[trigger] ev.take(i + 1)[j]).0 == base_unit.key@;
                    assert(ev[w].0 == base_unit.key@);
                }
            }
            i = i + 1;
        }
        proof {
            assert(ev.take(units@.len() as int) =~= ev);
        }
        let mut out: Vec<UnitRate> = Vec::new();
        let mut i: usize = 0;
        while i < units.len()
            invariant
                i <= units@.len(),
                ev == entry_views(units@),
                entry_views(out@) == sort_desc(ev.take(i as int)),
                out@.len() == i,
            decreases units@.len() - i,
        {
            let x = (units[i].0.duplicate(), units[i].1);
            let ghost xv = (units@[i as int].0.key@, units@[i as int].1);
            let ghost ov = entry_views(out@);
            let mut k: usize = 0;
            while k < out.len() && out[k].1 >= x.1
                invariant
                    k <= out@.len(),
                    ov == entry_views(out@),
                    x.1 == units@[i as int].1,
                    forall|j: int| 0 <= j < k ==> (#[trigger] ov[j]).1 >= x.1,
                decreases out@.len() - k,
            {
                proof {
                    assert(ov[k as int].1 == out@[k as int].1);
                }
                k = k + 1;
            }
            proof {
                assert(k < out@.len() ==> ov[k as int].1 < x.1);
                lemma_insert_desc_at(ov, xv, k as int);
            }
            out.insert(k, x);
            proof {
                assert(entry_views(out@) =~= ov.take(k as int) + seq![xv] + ov.skip(k as int));
                assert(ev.take(i + 1).drop_last() =~= ev.take(i as int));
                assert(ev.take(i + 1).last() == ev[i as int]);
                assert(entry_views(out@) == insert_desc(sort_desc(ev.take(i as int)), ev[i as int]));
            }
            i = i + 1;
        }
        proof {
            assert(ev.take(units@.len() as int) =~= ev);
        }
        if !has_base {
            out.push((base_unit.duplicate(), 1));
            proof {
                assert(entry_views(out@) =~= sort_desc(ev).push((base_unit.key@, 1)));
            }
        }
        let t = Table { units: out, base_unit };
        t
    }
}

impl Exchanger for Table {
    closed spec fn entries(&self) -> Seq<(Seq<char>, u64)> {
        entry_views(self.units@)
    }

    closed spec fn base_key(&self) -> Seq<char> {
        self.base_unit.key@
    }

    fn rate(&self, unit: &Unit) -> (r: Result<u64, Error>) {
        let ghost t = self.entries();
        let mut i: usize = 0;
        while i < self.units.len()
            invariant
                i <= self.units@.len(),
                t == entry_views(self.units@),
                forall|j: int| 0 <= j < i ==> (#[trigger] t[j]).0 != unit.key@,
            decreases self.units@.len() - i,
        {
            proof {
                assert(t[i as int] == (self.units@[i as int].0.key@, self.units@[i as int].1));
            }
            if self.units[i].0.key == unit.key {
                proof {
                    lemma_lookup_at(t, unit.key@, i as int);
                }
                return Ok(self.units[i].1);
            }
            i = i + 1;
        }
        proof {
            lemma_lookup_at(t, unit.key@, t.len() as int);
        }
        Err(Error::NotFound(unit.duplicate()))
    }

    fn sorted_units(&self) -> (r: &Vec<UnitRate>) {
        &self.units
    }

    fn base_unit(&self) -> (r: &Unit) {
        &self.base_unit
    }
}

/// The entries of `t` with every rate scaled by `c`, the entry for the
/// key `bridge` left out; the order of the rest is kept.
pub open spec fn rescaled(
    t: Seq<(Seq<char>, u64)>,
    bridge: Seq<char>,
    c: u64,
) -> Seq<(Seq<char>, u64)>
    decreases t.len(),
{
    if t.len() == 0 {
        Seq::empty()
    } else if t.last().0 == bridge {
        rescaled(t.drop_last(), bridge, c)
    } else {
        rescaled(t.drop_last(), bridge, c).push((t.last().0, (t.last().1 * c) as u64))
    }
}

/// Whether every rate scaled in [`rescaled`] stays within 64 bits.
pub open spec fn rescale_ok(t: Seq<(Seq<char>, u64)>, bridge: Seq<char>, c: u64) -> bool
    decreases t.len(),
{
    if t.len() == 0 {
        true
    } else {
        rescale_ok(t.drop_last(), bridge, c) && (t.last().0 == bridge || t.last().1 * c
            <= u64::MAX)
    }
}

/// A scaling overflow in a prefix is a scaling overflow of the whole.
proof fn lemma_rescale_ok_prefix(t: Seq<(Seq<char>, u64)>, bridge: Seq<char>, c: u64, j: int)
    requires
        0 <= j <= t.len(),
        !rescale_ok(t.take(j), bridge, c),
    ensures
        !rescale_ok(t, bridge, c),
    decreases t.len() - j,
{
    if j < t.len() {
        assert(t.take(j + 1).drop_last() =~= t.take(j));
        lemma_rescale_ok_prefix(t, bridge, c, j + 1);
    } else {
        assert(t.take(j) =~= t);
    }
}

/// The unified ladder of merging: the extension's entries rescaled by
/// the cross rate `c` (its own base-unit entry left out), followed by
/// the base exchanger's entries, built into a table for the base
/// exchanger's base key.
pub open spec fn merged_entries(
    bt: Seq<(Seq<char>, u64)>,
    bb: Seq<char>,
    et: Seq<(Seq<char>, u64)>,
    eb: Seq<char>,
    c: u64,
) -> Seq<(Seq<char>, u64)> {
    table_spec(rescaled(et, eb, c) + bt, bb)
}

/// Whether the merge result `r` is exactly what merging a base ladder
/// `bt` (base key `bb`) with an extension ladder `et` (base key `eb`)
/// must produce: the base exchanger's error when it has no rate for
/// `eb`; `Overflow` when a rescaled rate leaves 64 bits; otherwise the
/// unified table of [`merged_entries`], based at `bb`.
pub open spec fn merge_matches(
    bt: Seq<(Seq<char>, u64)>,
    bb: Seq<char>,
    et: Seq<(Seq<char>, u64)>,
    eb: Seq<char>,
    r: Result<Table, Error>,
) -> bool {
    match lookup(bt, eb) {
        None => r matches Err(Error::NotFound(un)) && un.key@ == eb,
        Some(c) => if rescale_ok(et, eb, c) {
            r matches Ok(tb) && tb.entries() == merged_entries(bt, bb, et, eb, c)
                && tb.base_key() == bb
        } else {
            r == Err::<Table, Error>(Error::Overflow)
        },
    }
}

/// Merges the exchanger `ext` into `base`: every rate of `ext` is
/// re-expressed in `base`'s base unit through the cross rate that `base`
/// gives for `ext`'s base unit, and one table holds both ladders.
/// Fails with `base`'s own error when the two cannot be bridged, and
/// with `Overflow` when a rescaled rate leaves 64 bits.
pub fn merge<B: Exchanger, E: Exchanger>(base: B, ext: E) -> (r: Result<Table, Error>)
    ensures
        merge_matches(base.entries(), base.base_key(), ext.entries(), ext.base_key(), r),
{
    let ghost bt = base.entries();
    let ghost et = ext.entries();
    let ghost eb = ext.base_key();
    let bridge = ext.base_unit().duplicate();
    let c = match base.rate(&bridge) {
        Ok(v) => v,
        Err(e) => {
            return Err(e);
        },
    };
    let mut v: Vec<UnitRate> = Vec::new();
    let eu = ext.sorted_units();
    let mut i: usize = 0;
    while i < eu.len()
        invariant
            i <= eu@.len(),
            et == entry_views(eu@),
            et == ext.entries(),
            eb == ext.base_key(),
            eb == bridge.key@,
            lookup(base.entries(), eb) == Some(c),
            entry_views(v@) == rescaled(et.take(i as int), eb, c),
            rescale_ok(et.take(i as int), eb, c),
        decreases eu@.len() - i,
    {
        proof {
            assert(et[i as int] == (eu@[i as int].0.key@, eu@[i as int].1));
            assert(et.take(i + 1).drop_last() =~= et.take(i as int));
            assert(et.take(i + 1).last() == et[i as int]);
        }
        if eu[i].0.key == bridge.key {
            i = i + 1;
            continue ;
        }
        match eu[i].1.checked_mul(c) {
            Some(m) => {
                v.push((eu[i].0.duplicate(), m));
                proof {
                    assert(entry_views(v@) =~= rescaled(et.take(i as int), eb, c).push(
                        (et[i as int].0, (et[i as int].1 * c) as u64),
                    ));
                }
                i = i + 1;
            },
            None => {
                proof {
                    lemma_rescale_ok_prefix(et, eb, c, i + 1);
                }
                return Err(Error::Overflow);
            },
        }
    }
    proof {
        assert(et.take(eu@.len() as int) =~= et);
    }
    let bu = base.sorted_units();
    let ghost scaled = entry_views(v@);
    let mut j: usize = 0;
    while j < bu.len()
        invariant
            j <= bu@.len(),
            bt == entry_views(bu@),
            entry_views(v@) == scaled + bt.take(j as int),
        decreases bu@.len() - j,
    {
        proof {
            assert(bt[j as int] == (bu@[j as int].0.key@, bu@[j as int].1));
        }
        let x = (bu[j].0.duplicate(), bu[j].1);
        let ghost ov = v@;
        v.push(x);
        proof {
            assert(entry_views(v@) =~= entry_views(ov).push(bt[j as int]));
            assert((scaled + bt.take(j as int)).push(bt[j as int]) =~= scaled + bt.take(j + 1));
        }
        j = j + 1;
    }
    proof {
        assert(bt.take(bu@.len() as int) =~= bt);
    }
    let new_base = base.base_unit().duplicate();
    Ok(Table::new(new_base, v))
}

/// Looking a key up finds the entry at `k` when everything before `k`
/// misses; scanning past the end finds nothing.
pub(crate) proof fn lemma_lookup_at(t: Seq<(Seq<char>, u64)>, u: Seq<char>, k: int)
    requires
        0 <= k <= t.len(),
        forall|j: int| 0 <= j < k ==> (#[trigger] t[j]).0 != u,
        k < t.len() ==> t[k].0 == u,
    ensures
        lookup(t, u) == if k < t.len() {
            Some(t[k].1)
        } else {
            None::<u64>
        },
    decreases t.len(),
{
    if t.len() == 0 {
    } else if k == 0 {
    } else {
        let s = t.drop_first();
        assert(forall|j: int| 0 <= j < k - 1 ==> (#[trigger] s[j]).0 != u);
        lemma_lookup_at(s, u, k - 1);
    }
}

} // verus!
