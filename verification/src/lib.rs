//! A transaction engine: it reads delimited transaction records, routes them
//! to per-client accounts and applies deposits, withdrawals, disputes,
//! resolutions and chargebacks under exact decimal arithmetic.
//!
//! - [`amount`]: decimal amounts, computed by `rust_decimal`.
//! - [`records`]: transaction records.
//! - [`table`]: a keyed table over a `hashbrown` index.
//! - [`client_account`]: the account of one client and its state machine.
//! - [`account_manager`]: managers that apply a stream of records, on one
//!   shard or on many, and the laws that make sharding safe.
//! - [`record_parser`]: from rows of text fields to records.
//! - [`transactions_reader`]: readers, line-aligned blocks and the reorder
//!   stage.
//! - [`paytoy`]: reader and manager put together.

pub mod account_manager;
pub mod amount;
pub mod client_account;
pub mod paytoy;
pub mod record_parser;
pub mod records;
pub mod table;
pub mod transactions_reader;
