//! Discovers version-controlled working trees under a directory and plans
//! their relocation into a canonical `<root>/<host>/<owner>/<name>` layout.
//!
//! The verified core is pure: it works on byte strings and on paths modelled
//! as vectors of components. The surrounding binary performs the traversal,
//! repository inspection and filesystem moves, and consults this library for
//! every decision.

pub mod bytes;
pub mod confirm;
pub mod path;
pub mod plan;
pub mod relocate;
pub mod scan;
pub mod url;
