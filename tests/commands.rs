use workspace_store::commands::{
    forget_description, forget_targets, plan_forget, root_output, root_source,
    root_workspace_name, RootSource,
};

fn names(v: &[&str]) -> Vec<String> {
    v.iter().map(|s| s.to_string()).collect()
}

#[test]
fn forget_current_by_default() {
    let plan = plan_forget(&vec![], "main", &names(&["main"])).unwrap();
    assert_eq!(plan.workspaces, names(&["main"]));
    assert_eq!(plan.description, "forget workspace main");
}

#[test]
fn forget_unknown_fails() {
    assert_eq!(
        plan_forget(&names(&["other"]), "main", &names(&["main"])),
        Err("No such workspace: other".to_string())
    );
}

#[test]
fn forget_reports_first_unknown() {
    assert_eq!(
        plan_forget(&names(&["a", "x", "y"]), "main", &names(&["a", "main"])),
        Err("No such workspace: x".to_string())
    );
}

#[test]
fn forget_multiple_keeps_order() {
    let plan = plan_forget(&names(&["b", "c", "a"]), "main", &names(&["a", "b", "c"])).unwrap();
    assert_eq!(plan.workspaces, names(&["b", "c", "a"]));
    assert_eq!(plan.description, "forget workspaces b, c, a");
}

#[test]
fn forget_descriptions() {
    assert_eq!(forget_description(&names(&["x"])), "forget workspace x");
    assert_eq!(forget_description(&names(&["x", "y"])), "forget workspaces x, y");
    assert_eq!(forget_targets(&vec![], "cur"), names(&["cur"]));
    assert_eq!(forget_targets(&names(&["p", "q"]), "cur"), names(&["p", "q"]));
}

#[test]
fn root_sources() {
    assert_eq!(root_source(true, false), RootSource::Unknown);
    assert_eq!(root_source(false, false), RootSource::Ambient);
    assert_eq!(root_source(true, true), RootSource::Registry);
    assert_eq!(root_source(false, true), RootSource::Registry);
}

#[test]
fn root_names_and_output() {
    assert_eq!(root_workspace_name(&Some("ghost".to_string()), "main"), "ghost");
    assert_eq!(root_workspace_name(&None, "main"), "main");
    assert_eq!(root_output(b"/work/main"), b"/work/main\n".to_vec());
    assert_eq!(root_output(b""), b"\n".to_vec());
}

#[test]
fn root_unknown_name_message() {
    assert_eq!(
        workspace_store::commands::no_such_workspace("ghost"),
        "No such workspace: ghost"
    );
}
