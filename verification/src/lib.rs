//! Cross-reference tags for a code base: `[traverse-tgt: id]` marks a place to
//! link to and `[traverse-lnk: id]` a place to link from.  The library scans
//! lines for tags, indexes them by id and by file, and resolves the links of a
//! document to the targets that carry the same id.

pub mod text;
pub mod scan;
pub mod tags;
pub mod mapping;
pub mod links;
pub mod report;
pub mod protocol;
pub mod paths;
pub mod lsp;
pub mod uri;
