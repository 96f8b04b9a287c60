//! A verified engine for a catalog of reusable shell-script modules.
//!
//! Each module is described by a versioned descriptor: placeholder value
//! prototypes, supporting-file declarations and a script template.  This
//! library holds the module lifecycle logic — the recursive placeholder data
//! model, the descriptor codec, the module-state classifier, the interactive
//! value collector and the install/update/merge rules — with contracts that
//! Verus checks.  Everything that touches a terminal, the filesystem, git or
//! the template engine lives outside the library and is driven through it.

pub mod codec;
pub mod git;
pub mod models;
pub mod modules;
pub mod prompts;
pub mod template;
pub mod version;
