//! The on-disk registry: one file per workspace under `workspace_store/` in
//! the repository's control directory, named after the workspace and holding
//! its encoded record. This module computes the names and contents of those
//! files; reading, writing and renaming them is left to the caller.

use vstd::prelude::*;
use vstd::string::*;
use crate::codec::{decode, decode_record, encode, encode_record, Workspace, WorkspaceRecord};

verus! {

/// `leaf` under the directory `base`: joined with one `/`, or appended where
/// `base` is empty or already ends in `/`.
pub open spec fn join_path(base: Seq<char>, leaf: Seq<char>) -> Seq<char> {
    if base.len() == 0 {
        leaf
    } else if base.last() == '/' {
        base + leaf
    } else {
        base + seq!['/'] + leaf
    }
}

/// What went wrong in the registry.
#[derive(Debug, Clone, PartialEq, Eq)]
pub enum WorkspaceStoreError {
    /// A filesystem operation on `path` failed; `not_found` where the file
    /// was not there.
    Io { path: String, not_found: bool, message: String },
    /// A path could not be built or canonicalized.
    Path { path: String, message: String },
    /// A registry file did not hold a well-formed record.
    MalformedRecord,
}

/// Joins `leaf` under the directory `base`.
pub fn join_path_exec(base: &str, leaf: &str) -> (r: String)
    ensures
        r@ == join_path(base@, leaf@),
{
    let n = base.unicode_len();
    let mut out = String::from_str(base);
    if n > 0 && base.get_char(n - 1) != '/' {
        out.append("/");
        proof {
            reveal_strlit("/");
        }
    }
    out.append(leaf);
    proof {
        if n > 0 && base@.last() != '/' {
            assert(out@ =~= base@ + seq!['/'] + leaf@);
        }
    }
    out
}

/// The registry of a repository: the directory that holds one record file per
/// workspace.
#[derive(Debug, Clone)]
pub struct SimpleWorkspaceStore {
    workspace_store_dir: String,
}

impl SimpleWorkspaceStore {
    /// The registry directory of the repository at `repo_path`: its
    /// `workspace_store` subdirectory.
    pub open spec fn dir_of(repo_path: Seq<char>) -> Seq<char> {
        join_path(repo_path, "workspace_store"@)
    }

    pub closed spec fn dir_view(&self) -> Seq<char> {
        self.workspace_store_dir@
    }

    /// The registry of the repository at `repo_path`. The directory itself is
    /// not touched.
    pub fn for_repo(repo_path: &str) -> (r: SimpleWorkspaceStore)
        ensures
            r.dir_view() == Self::dir_of(repo_path@),
    {
        SimpleWorkspaceStore { workspace_store_dir: join_path_exec(repo_path, "workspace_store") }
    }

    /// The name of this kind of registry.
    pub fn name(&self) -> (r: &'static str)
        ensures
            r@ == "simple"@,
    {
        "simple"
    }

    /// The registry directory.
    pub fn dir(&self) -> (r: &str)
        ensures
            r@ == self.dir_view(),
    {
        self.workspace_store_dir.as_str()
    }

    /// The file that holds the record of the workspace named `workspace_name`.
    pub fn get_file(&self, workspace_name: &str) -> (r: String)
        ensures
            r@ == join_path(self.dir_view(), workspace_name@),
    {
        join_path_exec(self.workspace_store_dir.as_str(), workspace_name)
    }

    /// The contents of the record file of `workspace_name`, whose working
    /// copy is at `canonical_path`.
    pub fn set_path_contents(workspace_name: &str, canonical_path: &str) -> (r: Vec<u8>)
        ensures
            r@ == encode_record(WorkspaceRecord { name: workspace_name@, path: canonical_path@ }),
    {
        let w = Workspace { name: String::from_str(workspace_name), path: String::from_str(canonical_path) };
        encode(&w)
    }

    /// The record held by a record file with contents `contents`.
    pub fn get_path_from_contents(contents: &[u8]) -> (r: Result<Workspace, WorkspaceStoreError>)
        ensures
            match decode_record(contents@) {
                Some(rec) => r matches Ok(w) && w@ == rec,
                None => r == Err::<Workspace, _>(WorkspaceStoreError::MalformedRecord),
            },
    {
        match decode(contents) {
            Ok(w) => Ok(w),
            Err(_) => Err(WorkspaceStoreError::MalformedRecord),
        }
    }
}

} // verus!
