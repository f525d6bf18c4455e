use vstd::prelude::*;

pub mod allocate;
pub mod arith;
pub mod currency;
pub mod decimal;
pub mod error;
pub mod exchange;
pub mod format;
pub mod laws;
pub mod money;
pub mod parse;

pub use currency::{Currency, Locale};
pub use decimal::Decimal;
pub use error::MoneyError;
pub use exchange::{Exchange, ExchangeRate};
pub use money::{Money, Round};

verus! {

} // verus!
