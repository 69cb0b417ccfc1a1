//! Verified core of a Cashu-style ecash wallet: the selection of proofs that
//! pay an amount, the intake of a received wad and the checks it must pass, the grouping of proofs
//! into a compact wad, and the conversions between the wallet's records and
//! the messages sent to a node.

pub mod types;
pub mod convert;
pub mod select;
pub mod wad;
pub mod receive;
pub mod intake;
pub mod keyset;
pub mod swap;
pub mod store;
pub mod tls;
