//! A Streamlet-style consensus engine: blocks, votes, chains and the per-node
//! state machine that proposes, votes, notarizes and finalizes.
pub mod block;
pub mod blockchain;
pub mod clock;
pub mod crypto;
pub mod encoding;
pub mod laws;
pub mod metadata;
pub mod node;
pub mod vote;

pub use block::Block;
pub use blockchain::Blockchain;
pub use metadata::Metadata;
pub use node::{ChainIndex, Node, NodeError};
pub use vote::Vote;
