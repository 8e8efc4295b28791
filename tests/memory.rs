use workspace_store::memory::MemoryWorkspaceStore;
use workspace_store::store::WorkspaceStoreError;

fn not_found<T>(r: &Result<T, WorkspaceStoreError>) -> bool {
    matches!(r, Err(WorkspaceStoreError::Io { not_found: true, .. }))
}

#[test]
fn set_then_get_reads_path_back() {
    let mut store = MemoryWorkspaceStore::new();
    assert!(!store.contains("main"));
    store.set_path("main", "/work/main");
    assert!(store.contains("main"));
    let w = store.get_path("main").unwrap();
    assert_eq!(w.name, "main");
    assert_eq!(w.path, "/work/main");
}

#[test]
fn set_replaces_earlier_path() {
    let mut store = MemoryWorkspaceStore::new();
    store.set_path("main", "/a");
    store.set_path("other", "/o");
    store.set_path("main", "/b");
    assert_eq!(store.get_path("main").unwrap().path, "/b");
    assert_eq!(store.get_path("other").unwrap().path, "/o");
}

#[test]
fn remove_then_absent() {
    let mut store = MemoryWorkspaceStore::new();
    store.set_path("main", "/work/main");
    assert!(store.remove_path("main").is_ok());
    assert!(!store.contains("main"));
    assert!(not_found(&store.get_path("main")));
}

#[test]
fn remove_missing_is_not_found() {
    let mut store = MemoryWorkspaceStore::new();
    assert!(not_found(&store.remove_path("ghost")));
}

#[test]
fn forget_entries_tolerates_missing() {
    let mut store = MemoryWorkspaceStore::new();
    store.set_path("a", "/a");
    store.set_path("c", "/c");
    store.set_path("keep", "/k");
    store.forget_entries(&vec!["b".to_string(), "c".to_string(), "a".to_string()]);
    assert!(!store.contains("a"));
    assert!(!store.contains("b"));
    assert!(!store.contains("c"));
    assert_eq!(store.get_path("keep").unwrap().path, "/k");
}
