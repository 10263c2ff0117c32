//! Plain values shared by the resolution tree and its collaborators.
use vstd::prelude::*;

verus! {

/// Identifies one workspace root (a top-level folder opened by the user).
#[derive(Clone, Copy, Debug, PartialEq, Eq, Structural)]
pub struct WorktreeId(pub u64);

/// The identity assigned to a running language server.
#[derive(Clone, Copy, Debug, PartialEq, Eq, Structural)]
pub struct LanguageServerId(pub u64);

/// A path inside a workspace root, relative to that root; the empty path is the root itself.
#[derive(Debug, PartialEq, Eq)]
pub struct ProjectPath {
    pub worktree_id: WorktreeId,
    pub path: String,
}

impl Clone for ProjectPath {
    fn clone(&self) -> (r: Self)
        ensures
            r == *self,
    {
        ProjectPath { worktree_id: self.worktree_id, path: self.path.clone() }
    }
}

impl ProjectPath {
    /// The root of the given workspace root.
    pub fn worktree_root(worktree_id: WorktreeId) -> (r: Self)
        ensures
            r.worktree_id == worktree_id,
            r.path@ == Seq::<char>::empty(),
    {
        ProjectPath { worktree_id, path: String::new() }
    }
}

} // verus!

verus! {

/// A snapshot of one server's configuration at one location, kept in its serialized
/// form; two snapshots are the same configuration exactly when their texts are equal.
#[derive(Debug)]
pub struct LspSettings {
    pub serialized: String,
}

impl Clone for LspSettings {
    fn clone(&self) -> (r: Self)
        ensures
            r == *self,
    {
        LspSettings { serialized: self.serialized.clone() }
    }
}

impl Default for LspSettings {
    fn default() -> (r: Self)
        ensures
            r.serialized@ == Seq::<char>::empty(),
    {
        LspSettings { serialized: String::new() }
    }
}

impl LspSettings {
    /// Whether two snapshots describe the same configuration.
    pub fn same_as(&self, other: &LspSettings) -> (r: bool)
        ensures
            r == (self.serialized@ == other.serialized@),
    {
        self.serialized == other.serialized
    }
}

/// What the adapter registry knows of one adapter: its server name and the kind of
/// project manifest that anchors its root, if any.
#[derive(Debug)]
pub struct AdapterInfo {
    pub name: String,
    pub manifest_name: Option<String>,
}

impl Clone for AdapterInfo {
    fn clone(&self) -> (r: Self)
        ensures
            r == *self,
    {
        let manifest_name = match &self.manifest_name {
            Some(m) => Some(m.clone()),
            None => None,
        };
        AdapterInfo { name: self.name.clone(), manifest_name }
    }
}

/// One adapter selected for a lookup, with its settings snapshot and the languages
/// on whose behalf it was selected.
#[derive(Debug)]
pub struct AdapterCandidate {
    pub adapter: AdapterInfo,
    pub settings: LspSettings,
    pub languages: Vec<String>,
}

/// A project root detected by the manifest resolver for one kind of manifest.
#[derive(Debug)]
pub struct ManifestRoot {
    pub manifest_name: String,
    pub root: ProjectPath,
}

} // verus!
