//! Core logic of a RimWorld mod manager: mod metadata, load-order rules, tiered topological
//! sorting, validation, and the file formats RimSort and RimWorld use.

pub mod about;
pub mod dbupdate;
pub mod detect;
pub mod dto;
pub mod error;
pub mod gitmods;
pub mod graph;
pub mod json;
pub mod launch;
pub mod logs;
pub mod mod_id;
pub mod meta;
pub mod modlist_io;
pub mod mods;
pub mod modsconfig;
pub mod paths;
pub mod rules;
pub mod saves;
pub mod reread;
pub mod search;
pub mod settings;
pub mod snapshots;
pub mod sort;
pub mod state;
pub mod startup_impact;
pub mod steamacf;
pub mod steamcmd;
pub mod steamdb;
pub mod task;
pub mod text;
pub mod troubleshoot;
pub mod validate;
pub mod watch;
pub mod workshop;
pub mod todds;
pub mod xml;

pub use error::{Error, ErrorDto};
pub use mod_id::ModId;

use vstd::prelude::*;

verus! {

/// Liveness check used by the UI.
pub fn ping() -> (s: String)
    ensures
        s@ == "pong from rimsort-core"@,
{
    String::from_str("pong from rimsort-core")
}

} // verus!
