//! `tack` — a content-addressed, agent-native version-control engine.
//!
//! The library holds the engine's data and rules, with contracts that Verus
//! proves; the program around it reads and writes files and streams.
//!
//! * Objects: [`encoding`] and [`codec`] give every object one canonical byte
//!   form, [`hash`] its id, [`object`] its fields, and [`store`] keeps it; [`layout`]
//!   says which bytes that form has.
//! * Files and trees: [`chunker`], [`blob`], [`tree`], [`ignore`], [`diff`],
//!   [`linediff`] and the lazy file system of [`projfs`].
//! * History: [`oplog`] and the [`claims`] that are read out of it.
//! * The agent API: [`api`], its description in [`schema`], the questions it puts
//!   to the [`engine`], how [`dispatch`] leads a request to its response, and what
//!   holds of the whole [`conversation`].
//! * The program: [`commands`] and what they show on their [`screens`], [`hook`],
//!   [`install`] and [`mcp`], with [`author`], [`output`] and [`json`] below them.
//! * [`text`], [`order`] and [`error`] serve all of these.
pub mod api;
pub mod author;
pub mod blob;
pub mod chunker;
pub mod claims;
pub mod codec;
pub mod commands;
pub mod conversation;
pub mod diff;
pub mod dispatch;
pub mod encoding;
pub mod engine;
pub mod error;
pub mod hash;
pub mod hook;
pub mod ignore;
pub mod install;
pub mod json;
pub mod layout;
pub mod linediff;
pub mod mcp;
pub mod object;
pub mod oplog;
pub mod order;
pub mod output;
pub mod projfs;
pub mod schema;
pub mod screens;
pub mod store;
pub mod text;
pub mod tree;

pub use api::{Request, Response};
pub use blob::{read_blob, read_blob_range, store_file_bytes};
pub use chunker::{chunk_ranges, AVG_CHUNK, MAX_CHUNK, MIN_CHUNK};
pub use claims::Claim;
pub use diff::{diff_trees, TreeDiff};
pub use dispatch::handle;
pub use encoding::{Decode, Decoder, Encode, Encoder};
pub use error::Error;
pub use hash::{hash_object, ObjectId, TypeTag};
pub use ignore::IgnoreRules;
pub use linediff::{tree_patch, DiffLine, FilePatch, FileStat, Hunk};
pub use object::{
    tree_entry, Blob, Chunk, ChunkRef, EntryKind, Identity, NamedRef, Op, OpMetadata, Snapshot,
    Timestamp, Tree, TreeEntry,
};
pub use oplog::{append_op, current_op, op_head, op_log, set_op_head};
pub use store::ObjectStore;
pub use tree::{list_tree, normalize_repo_path, read_tree_path};
