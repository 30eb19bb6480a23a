//! A small unit-of-measure arithmetic library.
//!
//! Quantities are unsigned integers tagged with a symbolic [`Unit`]
//! (an [`Amount`] such as `5kg`). Amounts combine lazily into expression
//! trees ([`Expr`], [`Sum`]) and are later reduced to a single amount in a
//! canonical base unit through an [`Exchanger`]: a capability that supplies
//! an integer conversion rate for each known unit. A reduced amount can be
//! split back into a readable descending ladder of denominations
//! ([`Split`]).

mod amount;
mod extend;
mod laws;
mod render;
mod split;
mod sum;
mod table;
mod traits;
mod weight;

pub use crate::amount::Amount;
pub use crate::amount::ParseError;
pub use crate::amount::Unit;
pub use crate::extend::extend;
pub use crate::extend::Extend;
pub use crate::table::merge;
pub use crate::weight::custom;
pub use crate::weight::Ladder;
pub use crate::weight::Weight;
pub use crate::split::Split;
pub use crate::table::Table;
pub use crate::sum::Expr;
pub use crate::sum::Sum;
pub use crate::traits::Error;
pub use crate::traits::Exchanger;
pub use crate::traits::ExchangerExt;
pub use crate::traits::Reduce;
pub use crate::traits::UnitRate;
