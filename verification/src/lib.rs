//! A ledger for memory mappings.
//!
//! A [`Ledger`] keeps the books on one window of a page-granular address
//! space: which ranges of it are in use, and which tag each of them carries.
//! It maps no memory itself. [`Ledger::insert`] records a tagged range,
//! growing a touching range with an equal tag over it where there is one,
//! and [`Ledger::find_free`] proposes a place for a range of a given length
//! near the low or the high end of the window.
//!
//! * [`address`], [`line`] and [`region`] hold the values that the ledger
//!   works on.
//! * [`model`] describes in mathematical terms what holds of the ranges of
//!   a ledger, what an insertion makes of them and how a search goes through
//!   them; the contracts of the ledger's operations are stated in its terms.
//! * [`laws`] proves what holds of the operations taken together.
//!
//! The arithmetic on addresses and lines is that of the `lset` and
//! `primordial` crates. The private module `trusted` holds the calls into
//! them and states what is assumed of each; everything else is verified.

pub mod address;
pub mod laws;
pub mod ledger;
pub mod line;
pub mod model;
pub mod region;
mod trusted;

pub use address::{Address, Offset, PAGE_SIZE};
pub use ledger::Ledger;
pub use line::Line;
pub use region::{Error, Region};
