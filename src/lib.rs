pub mod assemble;
pub mod directory;
pub mod error;
pub mod identity;
pub mod pool;

pub use assemble::{build_and_sign, SignedTransaction, SignerKey, TransferInstruction};
pub use directory::{ContactRecord, Directory, DirectoryEntry, StakeRecord};
pub use error::DirectError;
pub use identity::{Endpoint, IpAddress, ValidatorIdentity};
pub use pool::{ConnectionPool, GetStep};
