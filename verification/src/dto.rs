//! Plain data handed to the user interface.

use vstd::prelude::*;

use crate::mod_id::ModId;
use crate::mods::ModType;
use crate::paths::PathCheck;

verus! {

/// One game instance as the settings screen shows it.
#[derive(Debug, Clone)]
pub struct InstanceDto {
    pub name: String,
    pub game_folder: String,
    pub config_folder: String,
    pub local_folder: String,
    pub workshop_folder: String,
    pub run_args: String,
    pub launch_via_steam: bool,
}

/// A Workshop item found for a package id.
#[derive(Debug, Clone)]
pub struct WorkshopMatch {
    pub package_id: String,
    pub workshop_id: String,
    pub name: String,
}

/// Sort options.
#[derive(Debug, Clone)]
pub struct OptionsDto {
    pub dependencies_as_load_after: bool,
    pub use_alternative_ids: bool,
    pub prefer_versioned: bool,
    pub alphabetical_sort: bool,
}

/// The settings screen.
#[derive(Debug, Clone)]
pub struct SettingsView {
    pub current_instance: String,
    pub instances: Vec<InstanceDto>,
    pub sorting_algorithm: String,
    pub options: OptionsDto,
    pub warning: Option<String>,
    pub checks: Vec<PathCheck>,
    pub game_version: String,
}

/// One row of a mod list.
#[derive(Debug, Clone)]
pub struct ModRow {
    pub id: ModId,
    pub name: String,
    pub authors: String,
    pub package_id: String,
    pub mod_type: ModType,
    pub valid: bool,
    pub unsupported_version: bool,
    pub published_file_id: Option<String>,
    pub modified: u32,
    pub color: Option<String>,
    pub tags: Vec<String>,
    pub has_note: bool,
    pub csharp: bool,
}

/// The active and inactive lists.
#[derive(Debug, Clone)]
pub struct ListsView {
    pub active: Vec<ModRow>,
    pub inactive: Vec<ModRow>,
    pub missing: Vec<String>,
    pub game_version: String,
    pub scan_ms: u32,
    pub duplicate_package_ids: u32,
    pub community_rules: u32,
    pub user_rules: u32,
}

/// Color, tags and note of a mod.
#[derive(Debug, Clone)]
pub struct MetaDto {
    pub color: Option<String>,
    pub tags: Vec<String>,
    pub note: String,
}

/// Outcome of a sort.
#[derive(Debug, Clone)]
pub struct SortResultDto {
    pub ok: bool,
    pub cycles: Vec<CycleDto>,
    pub changed: bool,
}

/// One cycle: its members and the rules forming it.
#[derive(Debug, Clone)]
pub struct CycleDto {
    pub members: Vec<String>,
    pub rules: Vec<String>,
}

/// Outcome of saving `ModsConfig.xml`.
#[derive(Debug, Clone)]
pub struct SaveResult {
    pub path: String,
    pub backup: Option<String>,
    pub count: u32,
}

/// Outcome of importing a list.
#[derive(Debug, Clone)]
pub struct ImportResult {
    pub imported: u32,
    pub missing: Vec<String>,
}

/// Export formats.
#[derive(Debug, Clone, Copy, PartialEq, Eq, Structural)]
pub enum ExportFormat {
    Xml,
    Json,
    PackageIds,
    Report,
}

/// A piece of the game log.
#[derive(Debug, Clone)]
pub struct LogChunk {
    pub path: String,
    pub text: String,
    pub offset: u32,
    pub reset: bool,
}

/// The user's rule for one mod.
#[derive(Debug, Clone)]
pub struct UserRuleDto {
    pub load_after: Vec<String>,
    pub load_before: Vec<String>,
    pub load_top: bool,
    pub load_bottom: bool,
}

/// Every rule source for one mod.
#[derive(Debug, Clone)]
pub struct ModRulesView {
    pub package_id: String,
    pub name: String,
    pub about_load_after: Vec<String>,
    pub about_load_before: Vec<String>,
    pub community_load_after: Vec<String>,
    pub community_load_before: Vec<String>,
    pub community_top: bool,
    pub community_bottom: bool,
    pub user: UserRuleDto,
    pub ignored: bool,
}

/// A backup of `ModsConfig.xml`.
#[derive(Debug, Clone)]
pub struct BackupInfo {
    pub path: String,
    pub unix: u32,
    pub count: u32,
}

/// One copy of a duplicated mod.
#[derive(Debug, Clone)]
pub struct DupCopy {
    pub id: ModId,
    pub path: String,
    pub mod_type: ModType,
    pub published_file_id: Option<String>,
    pub mod_version: String,
    pub active: bool,
}

/// The copies sharing one package id.
#[derive(Debug, Clone)]
pub struct DupGroup {
    pub package_id: String,
    pub name: String,
    pub copies: Vec<DupCopy>,
}

} // verus!
