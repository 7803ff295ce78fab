//! An append-only record store with an LRU read cache and a Redis-compatible
//! wire protocol front-end.

pub mod error;
pub mod decimal;
pub mod format;
pub mod storage;
pub mod stats;
pub mod lru;
pub mod cache;
pub mod resp;
pub mod resp_proofs;
pub mod text;
pub mod users;
pub mod auth;
pub mod tls;
pub mod glob;
pub mod directory;
pub mod backup;
pub mod handler;

pub use error::Error;
pub use format::{create_header, parse_header, parse_line, ToonHeader, toon_idx_magic, toon_magic};
pub use storage::ToonStore;
pub use stats::CacheStats;
pub use lru::LruCache;
pub use cache::ToonCache;
pub use resp::RespValue;
pub use users::{AuthError, User, UserManager, UserRole};
pub use auth::{AuthConfig, SessionState};
pub use tls::TlsMode;
pub use backup::{BackupConfig, BackupInfo};
pub use handler::{CommandHandler, Outcome};
