//! Configuration values around the engine: the presentation ("atmosphere")
//! settings, the workspace settings, the supported platforms, and the
//! transport authentication modes.

use vstd::prelude::*;

verus! {

/// How transport operations authenticate.
#[derive(Debug, Clone, Copy, PartialEq, Eq, Structural)]
pub enum AuthMode {
    /// No credential: local-only operation.
    Anonymous,
    /// An SSH key held outside the engine.
    Ssh,
    /// A personal access token carried in the transport URL.
    Pat,
}

/// The presentation settings stored beside the vault.
pub struct AtmosphereConfig {
    pub theme: String,
}

/// The workspace settings: what one commit covers, and how often the
/// timer-driven collaborator asks for an automatic commit.
pub struct WorkspaceConfig {
    pub commit_scope: String,
    pub auto_commit_interval: u64,
}

/// The presentation settings used when none are stored yet.
pub fn default_atmosphere_config() -> (r: AtmosphereConfig)
    ensures
        r.theme@ == "arcane"@,
{
    AtmosphereConfig { theme: "arcane".to_string() }
}

/// The workspace settings written when a workspace is first initialized:
/// whole-workspace commits every fifteen minutes.
pub fn initial_workspace_config() -> (r: WorkspaceConfig)
    ensures
        r.commit_scope@ == "workspace"@,
        r.auto_commit_interval == 15,
{
    WorkspaceConfig { commit_scope: "workspace".to_string(), auto_commit_interval: 15 }
}

/// The workspace settings assumed when the stored file is missing:
/// whole-workspace commits every ten minutes.
pub fn fallback_workspace_config() -> (r: WorkspaceConfig)
    ensures
        r.commit_scope@ == "workspace"@,
        r.auto_commit_interval == 10,
{
    WorkspaceConfig { commit_scope: "workspace".to_string(), auto_commit_interval: 10 }
}

/// The platforms the vault runs on.
pub open spec fn supported_platform(os: Seq<char>) -> bool {
    os == "windows"@ || os == "linux"@ || os == "android"@
}

/// Validate a platform name: the engine supports exactly three.
pub fn platform_supported(os: &String) -> (r: bool)
    ensures
        r == supported_platform(os@),
{
    let w = "windows".to_string();
    if os.eq(&w) {
        return true;
    }
    let l = "linux".to_string();
    if os.eq(&l) {
        return true;
    }
    let a = "android".to_string();
    if os.eq(&a) {
        return true;
    }
    false
}

} // verus!
