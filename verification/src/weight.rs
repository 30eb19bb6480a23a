//! Declaratively defined exchangers and their rebasing constructor.

use vstd::prelude::*;

use crate::amount::Unit;
use crate::table::has_key;
use crate::table::merge_matches;
use crate::table::table_spec;
use crate::table::Table;
use crate::traits::entry_views;
use crate::traits::pos_rates;
use crate::traits::Error;
use crate::traits::Exchanger;
use crate::traits::ExchangerExt;
use crate::traits::UnitRate;

verus! {

/// The index of the first entry of `s` carrying the key `b`.
pub open spec fn first_key_index(s: Seq<(Seq<char>, u64)>, b: Seq<char>) -> int
    recommends
        has_key(s, b),
    decreases s.len(),
{
    if s.len() == 0 {
        0
    } else if s[0].0 == b {
        0
    } else {
        1 + first_key_index(s.drop_first(), b)
    }
}

/// What rebasing a fixed ladder `s` to the unit keyed `b` keeps: the
/// entries down to and including `b`'s own, every rate divided by `b`'s
/// rate. The division truncates; non-divisible rates lose their
/// remainder, as the ladder's coarser entries are expected to be
/// multiples of the finer ones.
pub open spec fn rebased(s: Seq<(Seq<char>, u64)>, b: Seq<char>) -> Seq<(Seq<char>, u64)>
    recommends
        has_key(s, b),
{
    let i = first_key_index(s, b);
    let r0 = s[i].1;
    s.take(i + 1).map_values(|p: (Seq<char>, u64)| (p.0, ((p.1 as int) / (r0 as int)) as u64))
}

/// The first key hit sits at `k` when everything before `k` misses.
proof fn lemma_first_key_at(s: Seq<(Seq<char>, u64)>, b: Seq<char>, k: int)
    requires
        0 <= k <= s.len(),
        forall|j: int| 0 <= j < k ==> (#[trigger] s[j]).0 != b,
        k < s.len() ==> s[k].0 == b,
    ensures
        has_key(s, b) <==> k < s.len(),
        k < s.len() ==> first_key_index(s, b) == k,
    decreases s.len(),
{
    if s.len() == 0 {
    } else if k == 0 {
    } else {
        let t = s.drop_first();
        assert(forall|j: int| 0 <= j < k - 1 ==> (#[trigger] t[j]).0 != b);
        lemma_first_key_at(t, b, k - 1);
        if has_key(t, b) {
            let w = choose|i: int| 0 <= i < t.len() && (#[trigger] t[i]).0 == b;
            assert(s[w + 1].0 == b);
        }
        if has_key(s, b) && k == s.len() {
            let w = choose|i: int| 0 <= i < s.len() && (#[trigger] s[i]).0 == b;
            assert(t[w - 1].0 == b);
        }
    }
}

/// Rebases a fixed ladder to the unit named `base`: scan the entries in
/// order; when `base` is found, keep the entries so far (the coarser
/// ones), divide their rates by `base`'s rate, and build the table
/// based at `base`. An unknown name fails with `NotFound`.
fn rebase(entries: &Vec<UnitRate>, base: &str) -> (r: Result<Table, Error>)
    requires
        pos_rates(entry_views(entries@)),
    ensures
        !has_key(entry_views(entries@), base@) ==> (r matches Err(Error::NotFound(un)) && un.key@
            == base@),
        has_key(entry_views(entries@), base@) ==> (r matches Ok(t) && t.entries() == table_spec(
            rebased(entry_views(entries@), base@),
            base@,
        ) && t.base_key() == base@),
{
    let ghost ev = entry_views(entries@);
    let target = base.to_owned();
    let mut i: usize = 0;
    while i < entries.len()
        invariant
            i <= entries@.len(),
            ev == entry_views(entries@),
            pos_rates(ev),
            target@ == base@,
            forall|j: int| 0 <= j < i ==> (#[trigger] ev[j]).0 != base@,
        decreases entries@.len() - i,
    {
        proof {
            assert(ev[i as int] == (entries@[i as int].0.key@, entries@[i as int].1));
        }
        if entries[i].0.key == target {
            proof {
                lemma_first_key_at(ev, base@, i as int);
            }
            let r0 = entries[i].1;
            let n = entries.len();
            let mut out: Vec<UnitRate> = Vec::new();
            let mut j: usize = 0;
            while j <= i
                invariant
                    j <= i + 1,
                    i < n == entries@.len(),
                    ev == entry_views(entries@),
                    pos_rates(ev),
                    r0 == ev[i as int].1,
                    entry_views(out@) == ev.take(j as int).map_values(
                        |p: (Seq<char>, u64)| (p.0, ((p.1 as int) / (r0 as int)) as u64),
                    ),
                decreases i + 1 - j,
            {
                proof {
                    assert(ev[j as int] == (entries@[j as int].0.key@, entries@[j as int].1));
                    assert(ev[j as int].1 >= 1);
                }
                let x = (entries[j].0.duplicate(), entries[j].1 / r0);
                let ghost ov = out@;
                out.push(x);
                proof {
                    let f = |p: (Seq<char>, u64)| (p.0, ((p.1 as int) / (r0 as int)) as u64);
                    assert(entry_views(out@) =~= entry_views(ov).push(f(ev[j as int])));
                    assert(ev.take(j as int).map_values(f).push(f(ev[j as int])) =~= ev.take(
                        j + 1,
                    ).map_values(f));
                }
                j = j + 1;
            }
            let t = Table::new(Unit::new(base), out);
            proof {
                assert(ev.take(i + 1).map_values(
                    |p: (Seq<char>, u64)| (p.0, ((p.1 as int) / (r0 as int)) as u64),
                ) == rebased(ev, base@));
            }
            return Ok(t);
        }
        i = i + 1;
    }
    proof {
        lemma_first_key_at(ev, base@, ev.len() as int);
    }
    Err(Error::NotFound(Unit::new(base)))
}

/// A declarative exchanger definition: a fixed ladder of unit names
/// with positive rates, closed off by its declared base unit at rate
/// one. It is not an exchanger itself; its [`Ladder::base`] constructor
/// rebases it into a concrete [`Table`].
#[derive(Debug, Clone)]
pub struct Ladder {
    entries: Vec<UnitRate>,
    base: Unit,
}

/// The entries of `s` whose key is not `b`, in their given order.
pub open spec fn without_key(s: Seq<(Seq<char>, u64)>, b: Seq<char>) -> Seq<(Seq<char>, u64)>
    decreases s.len(),
{
    if s.len() == 0 {
        Seq::empty()
    } else if s.last().0 == b {
        without_key(s.drop_last(), b)
    } else {
        without_key(s.drop_last(), b).push(s.last())
    }
}

impl Ladder {
    /// The ladder as the model sees it: unit keys with rates, ending at
    /// the declared base unit with rate one.
    pub closed spec fn ladder(&self) -> Seq<(Seq<char>, u64)> {
        entry_views(self.entries@)
    }

    /// The declared base unit's key.
    pub closed spec fn base_key(&self) -> Seq<char> {
        self.base.key@
    }

    /// A well-formed ladder: positive rates throughout, with the base
    /// unit's rate-one entry closing it off.
    pub closed spec fn wf(&self) -> bool {
        &&& pos_rates(self.ladder())
        &&& self.ladder().len() > 0
        &&& self.ladder().last() == (self.base.key@, 1u64)
    }

    /// Declares a ladder: the given units with their rates, in order,
    /// followed by `base` at rate one. A unit named like the base is
    /// dropped in favour of that closing entry.
    pub fn new(base: &str, units: Vec<UnitRate>) -> (l: Ladder)
        requires
            pos_rates(entry_views(units@)),
        ensures
            l.ladder() == without_key(entry_views(units@), base@).push((base@, 1u64)),
            l.base_key() == base@,
            l.wf(),
    {
        let ghost ev = entry_views(units@);
        let target = base.to_owned();
        let mut entries: Vec<UnitRate> = Vec::new();
        let mut i: usize = 0;
        while i < units.len()
            invariant
                i <= units@.len(),
                ev == entry_views(units@),
                pos_rates(ev),
                target@ == base@,
                entry_views(entries@) == without_key(ev.take(i as int), base@),
                pos_rates(entry_views(entries@)),
            decreases units@.len() - i,
        {
            proof {
                assert(ev[i as int] == (units@[i as int].0.key@, units@[i as int].1));
                assert(ev.take(i + 1).drop_last() =~= ev.take(i as int));
                assert(ev.take(i + 1).last() == ev[i as int]);
            }
            if !(units[i].0.key == target) {
                let ghost ov = entries@;
                entries.push((units[i].0.duplicate(), units[i].1));
                proof {
                    assert(entry_views(entries@) =~= entry_views(ov).push(ev[i as int]));
                }
            }
            i = i + 1;
        }
        proof {
            assert(ev.take(units@.len() as int) =~= ev);
        }
        let base_unit = Unit::new(base);
        let ghost ov = entries@;
        entries.push((base_unit.duplicate(), 1));
        proof {
            assert(entry_views(entries@) =~= entry_views(ov).push((base@, 1u64)));
        }
        Ladder { entries, base: base_unit }
    }

    /// The ladder's unit names, in order, the base unit last.
    pub fn units(&self) -> (r: Vec<String>)
        ensures
            r@.len() == self.ladder().len(),
            forall|i: int| 0 <= i < r@.len() ==> (#[trigger] r@[i])@ == self.ladder()[i].0,
    {
        let mut out: Vec<String> = Vec::new();
        let mut i: usize = 0;
        while i < self.entries.len()
            invariant
                i <= self.entries@.len(),
                out@.len() == i,
                forall|j: int|
                    0 <= j < i ==> (#[trigger] out@[j])@ == entry_views(self.entries@)[j].0,
            decreases self.entries@.len() - i,
        {
            out.push(self.entries[i].0.to_string());
            i = i + 1;
        }
        out
    }

    /// Rebases the ladder to the unit named `unit`, producing a table
    /// based there; fails with `NotFound` for a name outside the
    /// ladder.
    pub fn base(&self, unit: &str) -> (r: Result<Table, Error>)
        requires
            self.wf(),
        ensures
            !has_key(self.ladder(), unit@) ==> (r matches Err(Error::NotFound(un)) && un.key@
                == unit@),
            has_key(self.ladder(), unit@) ==> (r matches Ok(t) && t.entries() == table_spec(
                rebased(self.ladder(), unit@),
                unit@,
            ) && t.base_key() == unit@),
    {
        rebase(&self.entries, unit)
    }

    /// The table of the ladder as declared: rebased to its own base
    /// unit.
    pub fn default_table(&self) -> (t: Table)
        requires
            self.wf(),
        ensures
            t.entries() == table_spec(rebased(self.ladder(), self.base_key()), self.base_key()),
            t.base_key() == self.base_key(),
    {
        proof {
            assert(self.ladder().last().0 == self.base.key@);
            assert(has_key(self.ladder(), self.base_key()));
        }
        match rebase(&self.entries, self.base.key.as_str()) {
            Ok(t) => t,
            Err(_) => {
                proof {
                    assert(false);
                }
                Table::new(Unit::new(""), Vec::new())
            },
        }
    }
}

/// The weight ladder this library declares: tonnes, kilograms and jin,
/// all in grams, with the gram as base unit.
pub open spec fn weight_ladder() -> Seq<(Seq<char>, u64)> {
    seq![("t"@, 1000000u64), ("kg"@, 1000u64), ("jin"@, 500u64), ("g"@, 1u64)]
}

/// The declared weight ladder as a [`Ladder`] value.
fn weight_definition() -> (l: Ladder)
    ensures
        l.ladder() == weight_ladder(),
        l.base_key() == "g"@,
        l.wf(),
{
    let mut units: Vec<UnitRate> = Vec::new();
    units.push((Unit::new("t"), 1000000));
    units.push((Unit::new("kg"), 1000));
    units.push((Unit::new("jin"), 500));
    proof {
        assert forall|i: int| 0 <= i < entry_views(units@).len() implies (#[trigger] entry_views(
            units@,
        )[i]).1 >= 1 by {
            assert(entry_views(units@)[i] == (units@[i].0.key@, units@[i].1));
        }
    }
    let l = Ladder::new("g", units);
    proof {
        reveal_strlit("t");
        reveal_strlit("kg");
        reveal_strlit("jin");
        reveal_strlit("g");
        let b = "g"@;
        let s = entry_views(units@);
        assert(s[0] == (units@[0].0.key@, units@[0].1));
        assert(s[1] == (units@[1].0.key@, units@[1].1));
        assert(s[2] == (units@[2].0.key@, units@[2].1));
        assert(("t"@).len() == 1 && ("t"@)[0] == 't');
        assert(("kg"@).len() == 2);
        assert(("jin"@).len() == 3);
        assert(b.len() == 1 && b[0] == 'g');
        assert(s[0].0 != b && s[1].0 != b && s[2].0 != b);
        let s2 = s.drop_last();
        let s1 = s2.drop_last();
        let s0 = s1.drop_last();
        assert(s0.len() == 0);
        assert(without_key(s0, b) =~= Seq::<(Seq<char>, u64)>::empty());
        assert(s1.last() == s[0] && s2.last() == s[1] && s.last() == s[2]);
        assert(without_key(s1, b) =~= seq![s[0]]);
        assert(without_key(s2, b) =~= seq![s[0], s[1]]);
        assert(without_key(s, b) =~= seq![s[0], s[1], s[2]]);
        assert(without_key(s, b).push((b, 1u64)) =~= weight_ladder());
    }
    l
}

/// The standard weight exchanger: the [`weight_ladder`] rebased to one
/// of its units; grams by default.
#[derive(Debug, Clone)]
pub struct Weight {
    table: Table,
}

impl Weight {
    /// The weight ladder's unit names, in order: `t`, `kg`, `jin`, `g`.
    pub fn units() -> (r: Vec<String>)
        ensures
            r@.len() == weight_ladder().len(),
            forall|i: int| 0 <= i < r@.len() ==> (#[trigger] r@[i])@ == weight_ladder()[i].0,
    {
        weight_definition().units()
    }

    /// The weight ladder rebased to the unit named `unit`; `NotFound`
    /// for a name outside the ladder.
    pub fn base(unit: &str) -> (r: Result<Weight, Error>)
        ensures
            !has_key(weight_ladder(), unit@) ==> (r matches Err(Error::NotFound(un)) && un.key@
                == unit@),
            has_key(weight_ladder(), unit@) ==> (r matches Ok(w) && w.entries() == table_spec(
                rebased(weight_ladder(), unit@),
                unit@,
            ) && w.base_key() == unit@),
    {
        match weight_definition().base(unit) {
            Ok(t) => Ok(Weight { table: t }),
            Err(e) => Err(e),
        }
    }
}

impl Default for Weight {
    /// The weight ladder based at its declared base unit, the gram.
    fn default() -> (w: Weight)
        ensures
            w.entries() == table_spec(rebased(weight_ladder(), "g"@), "g"@),
            w.base_key() == "g"@,
    {
        let l = weight_definition();
        proof {
            assert(l.ladder().last().0 == "g"@);
            assert(has_key(weight_ladder(), "g"@));
        }
        Weight { table: l.default_table() }
    }
}

impl Exchanger for Weight {
    closed spec fn entries(&self) -> Seq<(Seq<char>, u64)> {
        self.table.entries()
    }

    closed spec fn base_key(&self) -> Seq<char> {
        self.table.base_key()
    }

    fn rate(&self, unit: &Unit) -> (r: Result<u64, Error>) {
        self.table.rate(unit)
    }

    fn sorted_units(&self) -> (r: &Vec<UnitRate>) {
        self.table.sorted_units()
    }

    fn base_unit(&self) -> (r: &Unit) {
        self.table.base_unit()
    }
}

/// A custom weight table: the caller's unit-rate pairs based at
/// `base_unit`. Where `base_unit` is one of the weight ladder's own
/// units, the ladder (rebased there) is merged in, so the standard
/// weight units stay known; otherwise the caller's table stands alone.
pub fn custom(base_unit: &str, units: Vec<UnitRate>) -> (r: Result<Table, Error>)
    ensures
        !has_key(weight_ladder(), base_unit@) ==> (r matches Ok(t) && t.entries() == table_spec(
            entry_views(units@),
            base_unit@,
        ) && t.base_key() == base_unit@),
        has_key(weight_ladder(), base_unit@) ==> merge_matches(
            table_spec(rebased(weight_ladder(), base_unit@), base_unit@),
            base_unit@,
            table_spec(entry_views(units@), base_unit@),
            base_unit@,
            r,
        ),
{
    let table = Table::new(Unit::new(base_unit), units);
    match Weight::base(base_unit) {
        Ok(w) => w.extend(table),
        Err(_) => Ok(table),
    }
}

} // verus!
