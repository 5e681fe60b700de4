//! The data of the ledger: transactions, blocks and the chain state.
pub mod block;
pub mod blockchain;
pub mod replay;
pub mod transaction;

pub use block::{Block, BlockHeader, BlockView};
pub use blockchain::Blockchain;
pub use transaction::{Transaction, TransactionInput, TransactionOutput, TransactionView};
