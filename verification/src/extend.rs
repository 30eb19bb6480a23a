//! A merged pair of exchangers, kept as its own exchanger value.

use vstd::prelude::*;

use crate::amount::Unit;
use crate::table::merge;
use crate::table::merged_entries;
use crate::table::rescale_ok;
use crate::table::Table;
use crate::traits::lookup;
use crate::traits::Error;
use crate::traits::Exchanger;
use crate::traits::UnitRate;

verus! {

/// Two exchangers composed into one: a base exchanger extended by a
/// second one, with every rate of the extension re-expressed in the
/// base exchanger's base unit. Built once by [`extend`]; afterwards it
/// answers like any single-table exchanger.
#[derive(Debug, Clone)]
pub struct Extend {
    table: Table,
}

/// Whether the composition result `r` is exactly what extending a base
/// ladder `bt` (base key `bb`) by an extension ladder `et` (base key
/// `eb`) must produce; the cases are those of
/// [`crate::table::merge_matches`].
pub open spec fn extend_matches(
    bt: Seq<(Seq<char>, u64)>,
    bb: Seq<char>,
    et: Seq<(Seq<char>, u64)>,
    eb: Seq<char>,
    r: Result<Extend, Error>,
) -> bool {
    match lookup(bt, eb) {
        None => r matches Err(Error::NotFound(un)) && un.key@ == eb,
        Some(c) => if rescale_ok(et, eb, c) {
            r matches Ok(x) && x.entries() == merged_entries(bt, bb, et, eb, c)
                && x.base_key() == bb
        } else {
            r == Err::<Extend, Error>(Error::Overflow)
        },
    }
}

/// Composes `ext` into `base`, keeping the result as an [`Extend`]
/// value.
pub fn extend<B: Exchanger, E: Exchanger>(base: B, ext: E) -> (r: Result<Extend, Error>)
    ensures
        extend_matches(base.entries(), base.base_key(), ext.entries(), ext.base_key(), r),
{
    match merge(base, ext) {
        Ok(t) => Ok(Extend { table: t }),
        Err(e) => Err(e),
    }
}

impl Exchanger for Extend {
    closed spec fn entries(&self) -> Seq<(Seq<char>, u64)> {
        self.table.entries()
    }

    closed spec fn base_key(&self) -> Seq<char> {
        self.table.base_key()
    }

    fn rate(&self, unit: &Unit) -> (r: Result<u64, Error>) {
        self.table.rate(unit)
    }

    fn sorted_units(&self) -> (r: &Vec<UnitRate>) {
        self.table.sorted_units()
    }

    fn base_unit(&self) -> (r: &Unit) {
        self.table.base_unit()
    }
}

} // verus!
