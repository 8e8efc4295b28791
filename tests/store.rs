use workspace_store::codec::{decode, Workspace};
use workspace_store::store::{join_path_exec, SimpleWorkspaceStore, WorkspaceStoreError};

#[test]
fn store_dir_is_under_repo() {
    assert_eq!(SimpleWorkspaceStore::for_repo("/r").dir(), "/r/workspace_store");
    assert_eq!(SimpleWorkspaceStore::for_repo("/r/").dir(), "/r/workspace_store");
    assert_eq!(SimpleWorkspaceStore::for_repo("/r").name(), "simple");
}

#[test]
fn record_file_is_named_after_workspace() {
    let store = SimpleWorkspaceStore::for_repo("/r");
    assert_eq!(store.get_file("main"), "/r/workspace_store/main");
    assert_eq!(join_path_exec("", "x"), "x");
}

#[test]
fn fresh_repo_add_and_read() {
    let bytes = SimpleWorkspaceStore::set_path_contents("main", "/work/main");
    let w = SimpleWorkspaceStore::get_path_from_contents(&bytes).unwrap();
    assert_eq!(w.path, "/work/main");
    assert_eq!(decode(&bytes), Ok(Workspace { name: "main".to_string(), path: "/work/main".to_string() }));
}

#[test]
fn malformed_file_gives_malformed_record() {
    assert_eq!(
        SimpleWorkspaceStore::get_path_from_contents(&[0x0a, 9]),
        Err(WorkspaceStoreError::MalformedRecord)
    );
}
