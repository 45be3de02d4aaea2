//! Mysticeti DAG consensus: protocol types, committee, block store, wave-based
//! commit rule, linearizer, core state machine, and the framing, peer identity and
//! sync decisions used on the wire.

pub mod base_committer;
pub mod block_handler;
pub mod block_manager;
pub mod block_store;
pub mod block_validator;
pub mod client;
pub mod codec;
pub mod commit_observer;
pub mod committee;
pub mod config;
pub mod core_loop;
pub mod crypto;
pub mod data;
pub mod encoding;
pub mod linearizer;
pub mod message;
pub mod peer_identity;
pub mod sync;
pub mod types;
pub mod universal_committer;

pub use base_committer::{BaseCommitter, LeaderStatus};
pub use block_handler::{BlockHandler, NoOpBlockHandler};
pub use block_manager::BlockManager;
pub use block_store::BlockStore;
pub use block_validator::BlockValidator;
pub use client::{pick_target, rate_per_worker, ConnectionPool};
pub use codec::{decode_frame, encode_frame, CodecError, MAX_MESSAGE_LEN};
pub use commit_observer::{CommitObserver, SimpleCommitObserver};
pub use committee::{Authority, Committee};
pub use config::{make_test_committee, Identifier, Parameters, PrivateConfig};
pub use core_loop::Core;
pub use crypto::{block_digest, verify_block, CryptoError, PublicKey, SecretKey};
pub use data::Data;
pub use linearizer::{CommittedSubDag, Linearizer};
pub use message::NetworkMessage;
pub use peer_identity::PeerIdentity;
pub use sync::Syncer;
pub use types::{
    AuthorityIndex, BaseStatement, BlockDigest, BlockReference, BlockSignature, EpochNumber,
    RoundNumber, StatementBlock, Transaction, TransactionLocator, TransactionLocatorRange, Vote,
    MAX_AUTHORITIES,
};
pub use universal_committer::UniversalCommitter;
