//! A content-addressed, versioned directory tree: nodes and manifests, a local
//! block cache, the path-based tree engine and the two sorted-merge diffs.
pub mod assoc;
pub mod text;
pub mod path;
pub mod cid;
pub mod object;
pub mod cbor;
pub mod record;
pub mod node;
pub mod manifest;
pub mod cache;
pub mod tree;
pub mod sorted;
pub mod change_log;
pub mod diff;
pub mod leaky;
pub mod root;
pub mod laws;

pub use cache::BlockCache;
pub use change_log::{ChangeLog, ChangeType};
pub use cid::Cid;
pub use diff::{diff, pull_plan, FsEntry};
pub use leaky::{check_cid, links_to_fetch, Leaky, LeakyError, PushPlan};
pub use manifest::{Manifest, ManifestError};
pub use node::Node;
pub use object::Object;
pub use path::clean_path;
pub use root::{push_root, PullRootResponse, PushRootRequest, RootError, RootRecord};
pub use tree::TreeError;
