pub mod codec;
pub mod db;
pub mod entities;
pub mod errors;
pub mod storage;

pub use codec::Key;
pub use db::{Db, DeletionBehaviour, Link, RelationEntry, RelationId, StoreDesc, Target};
pub use entities::{ChildEntity1, ChildEntity2, Entity1, Entity2, Entity3, GrandChildEntity};
pub use errors::Error;
