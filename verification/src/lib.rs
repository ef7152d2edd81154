//! Structured file editing with four built-in methods:
//! - **Hashline**: line-addressed edits using content hashes for integrity
//! - **Replace**: find-and-replace with fuzzy whitespace matching
//! - **Patch**: unified diff parsing and application with fuzzy hunk matching
//! - **Apply Patch**: Codex-style `apply_patch` parsing and application
//!
//! The crate is designed for embedding in coding agents: a filesystem trait, a
//! method trait, the built-in edit methods, and reusable helper modules for
//! normalization, fuzzy matching, and patch and hashline application.

pub mod applicator;
pub mod diff;
pub mod double;
pub mod error;
pub mod fs;
pub mod fuzzy;
pub mod hashline;
pub mod locate;
pub mod methods;
pub mod normalize;
pub mod operations;
pub mod parser;
pub mod reindent;
pub mod splice;
pub mod text;
pub mod traits;
pub mod value;
pub mod variants;

pub use crate::double::Double;
pub use crate::error::{EditError, HashMismatch};
pub use crate::fs::{EditFs, InMemoryFs, MemoryFS};
pub use crate::methods::all_methods;
pub use crate::methods::codex_patch_method::CodexPatchMethod;
pub use crate::methods::hashline_method::HashlineMethod;
pub use crate::methods::patch_method::PatchMethod;
pub use crate::methods::replace_method::ReplaceMethod;
pub use crate::traits::{ChangeOp, EditMethod, EditResult, FileChange, PartialPreview};
pub use crate::value::Value;
