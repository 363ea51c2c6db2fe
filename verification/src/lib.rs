//! Currency units of the LuxTensor ledger.
//!
//! Balances are kept in LTS, the smallest indivisible unit, as unsigned 128-bit
//! integers. MDT is the denomination people read and write: one MDT is
//! `10^18` LTS. This crate converts between the two, renders amounts as decimal
//! text and reads decimal text back, and proves what each operation returns.

pub mod currency;
pub mod decimal;
pub mod error;
pub mod laws;

pub use currency::{
    format_lts, format_lts_as_mdt, lts_to_mdt, mdt_to_lts, parse_mdt_amount, parse_mdt_to_lts,
    LTS_PER_KMDT, LTS_PER_MDT, LTS_PER_MMDT, MDT_DECIMALS,
};
pub use error::ParseError;
