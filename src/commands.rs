//! The decisions of the two workspace commands: `forget`, which drops
//! workspaces from the repository view and from the registry in one
//! transaction, and `root`, which prints where a workspace lives.

use vstd::prelude::*;
use vstd::string::*;
use itertools::Itertools;

verus! {

/// `items` in order with `sep` between each two.
pub open spec fn join_with(items: Seq<Seq<char>>, sep: Seq<char>) -> Seq<char>
    decreases items.len(),
{
    if items.len() == 0 {
        Seq::empty()
    } else if items.len() == 1 {
        items[0]
    } else {
        join_with(items.drop_last(), sep) + sep + items.last()
    }
}

/// Relies on itertools::Itertools::join: writes the items in order with `sep`
/// between each two, each as its `Display` writes it (a `String` as itself).
#[verifier::external_body]
fn join_names(names: &Vec<String>, sep: &str) -> (r: String)
    ensures
        r@ == join_with(names.deep_view(), sep@),
{
    names.iter().join(sep)
}

/// The workspaces that `forget` acts on: those named, or the current one
/// where none is named.
pub open spec fn forget_targets_spec(requested: Seq<Seq<char>>, current: Seq<char>) -> Seq<Seq<char>> {
    if requested.len() == 0 {
        seq![current]
    } else {
        requested
    }
}

/// The message for a workspace that the repository does not know.
pub open spec fn no_such_workspace_spec(name: Seq<char>) -> Seq<char> {
    "No such workspace: "@ + name
}

/// The description of the transaction that forgets `names`.
pub open spec fn forget_description_spec(names: Seq<Seq<char>>) -> Seq<char> {
    if names.len() == 1 {
        "forget workspace "@ + names[0]
    } else {
        "forget workspaces "@ + join_with(names, ", "@)
    }
}

/// The first of `names` that is not among `known`, if any.
pub open spec fn first_unknown(names: Seq<Seq<char>>, known: Seq<Seq<char>>) -> Option<int> {
    if exists|i: int| 0 <= i < names.len() && !known.contains(names[i]) {
        Some(choose|i: int|
            0 <= i < names.len() && !known.contains(names[i]) && forall|j: int|
                0 <= j < i ==> known.contains(#[trigger] names[j]))
    } else {
        None
    }
}

/// What `forget` is to do: the workspaces, in the order given, and the
/// description of the transaction.
#[derive(Debug, Clone, PartialEq, Eq)]
pub struct ForgetPlan {
    pub workspaces: Vec<String>,
    pub description: String,
}

/// The workspaces that `forget` acts on.
pub fn forget_targets(requested: &Vec<String>, current: &str) -> (r: Vec<String>)
    ensures
        r.deep_view() == forget_targets_spec(requested.deep_view(), current@),
{
    let mut out: Vec<String> = Vec::new();
    if requested.len() == 0 {
        out.push(String::from_str(current));
        proof {
            assert(out.deep_view() =~= seq![current@]);
        }
    } else {
        let mut i: usize = 0;
        while i < requested.len()
            invariant
                i <= requested@.len(),
                out.deep_view() =~= requested.deep_view().subrange(0, i as int),
            decreases requested@.len() - i,
        {
            let ghost before = out.deep_view();
            out.push(requested[i].clone());
            proof {
                assert(out.deep_view() =~= before.push(requested.deep_view()[i as int]));
                assert(requested.deep_view().subrange(0, i + 1) =~= requested.deep_view().subrange(
                    0,
                    i as int,
                ).push(requested.deep_view()[i as int]));
            }
            i = i + 1;
        }
        proof {
            assert(requested.deep_view().subrange(0, i as int) =~= requested.deep_view());
        }
    }
    out
}

/// Whether `name` is among `known`.
fn is_known(name: &String, known: &Vec<String>) -> (r: bool)
    ensures
        r == known.deep_view().contains(name@),
{
    let mut i: usize = 0;
    while i < known.len()
        invariant
            i <= known@.len(),
            forall|j: int| 0 <= j < i ==> known.deep_view()[j] != name@,
        decreases known@.len() - i,
    {
        if known[i] == *name {
            proof {
                assert(known.deep_view()[i as int] == name@);
            }
            return true;
        }
        i = i + 1;
    }
    false
}

/// The index of the first of `names` that is not among `known`.
pub fn find_unknown(names: &Vec<String>, known: &Vec<String>) -> (r: Option<usize>)
    ensures
        match r {
            Some(i) => i < names@.len() && first_unknown(names.deep_view(), known.deep_view())
                == Some(i as int),
            None => first_unknown(names.deep_view(), known.deep_view()) is None,
        },
{
    let ghost ns = names.deep_view();
    let ghost ts = known.deep_view();
    let mut i: usize = 0;
    while i < names.len()
        invariant
            i <= names@.len(),
            ns == names.deep_view(),
            ts == known.deep_view(),
            forall|j: int| 0 <= j < i ==> ts.contains(#[trigger] ns[j]),
        decreases names@.len() - i,
    {
        if !is_known(&names[i], known) {
            proof {
                let k = i as int;
                assert(0 <= k < ns.len() && !ts.contains(ns[k]));
                let c = choose|c: int|
                    0 <= c < ns.len() && !ts.contains(ns[c]) && forall|j: int|
                        0 <= j < c ==> ts.contains(#[trigger] ns[j]);
                assert(0 <= c < ns.len() && !ts.contains(ns[c]) && forall|j: int|
                    0 <= j < k ==> ts.contains(#[trigger] ns[j]));
                if c < k {
                    assert(ts.contains(ns[c]));
                } else if c > k {
                    assert(ts.contains(ns[k]));
                }
            }
            return Some(i);
        }
        i = i + 1;
    }
    None
}

/// The message for a workspace that the repository does not know.
pub fn no_such_workspace(name: &str) -> (r: String)
    ensures
        r@ == no_such_workspace_spec(name@),
{
    let mut s = String::from_str("No such workspace: ");
    s.append(name);
    s
}

/// The description of the transaction that forgets `names`: "forget
/// workspace <name>" for one, else "forget workspaces " and the names in
/// order, separated by ", ".
pub fn forget_description(names: &Vec<String>) -> (r: String)
    ensures
        r@ == forget_description_spec(names.deep_view()),
{
    if names.len() == 1 {
        let mut s = String::from_str("forget workspace ");
        s.append(names[0].as_str());
        s
    } else {
        let joined = join_names(names, ", ");
        let mut s = String::from_str("forget workspaces ");
        s.append(joined.as_str());
        s
    }
}

/// Plans `forget`: the workspaces named in `requested` (or the current one
/// where none is), each of which the repository view must track. Fails with
/// "No such workspace: <name>" for the first that it does not, before
/// anything is changed. Whether the registry holds an entry for a workspace
/// plays no part.
pub fn plan_forget(requested: &Vec<String>, current: &str, known: &Vec<String>) -> (r: Result<
    ForgetPlan,
    String,
>)
    ensures
        ({
            let targets = forget_targets_spec(requested.deep_view(), current@);
            match first_unknown(targets, known.deep_view()) {
                Some(i) => r matches Err(msg) && msg@ == no_such_workspace_spec(targets[i]),
                None => r matches Ok(plan) && plan.workspaces.deep_view() == targets
                    && plan.description@ == forget_description_spec(targets),
            }
        }),
{
    let workspaces = forget_targets(requested, current);
    match find_unknown(&workspaces, known) {
        Some(i) => {
            proof {
                let ghost targets = workspaces.deep_view();
                assert(targets[i as int] == workspaces@[i as int]@);
            }
            Err(no_such_workspace(workspaces[i].as_str()))
        },
        None => {
            let description = forget_description(&workspaces);
            Ok(ForgetPlan { workspaces, description })
        },
    }
}

/// Where `root` takes the path that it prints from.
#[derive(Debug, Clone, Copy, PartialEq, Eq)]
pub enum RootSource {
    /// The workspace's registry record, canonicalized.
    Registry,
    /// The root of the workspace that the command runs in.
    Ambient,
    /// Nowhere: the named workspace is unknown.
    Unknown,
}

/// The workspace that `root` looks up: the one named, else the current one.
pub fn root_workspace_name(requested: &Option<String>, current: &str) -> (r: String)
    ensures
        r@ == match requested {
            Some(n) => n@,
            None => current@,
        },
{
    match requested {
        Some(n) => n.clone(),
        None => String::from_str(current),
    }
}

/// Where `root` takes the path from, for a workspace named by the user or
/// not, that the registry holds or not.
pub open spec fn root_source_spec(named: bool, registered: bool) -> RootSource {
    if registered {
        RootSource::Registry
    } else if named {
        RootSource::Unknown
    } else {
        RootSource::Ambient
    }
}

/// Where `root` takes the path from: the registry where it holds the
/// workspace; else, for a workspace named by the user, nowhere; else the
/// root of the current workspace, which repositories from before the
/// registry rely on.
pub fn root_source(named: bool, registered: bool) -> (r: RootSource)
    ensures
        r == root_source_spec(named, registered),
{
    if registered {
        RootSource::Registry
    } else if named {
        RootSource::Unknown
    } else {
        RootSource::Ambient
    }
}

/// What `root` writes: the path's bytes as they are, then a newline.
pub fn root_output(path_bytes: &[u8]) -> (r: Vec<u8>)
    ensures
        r@ == path_bytes@.push(10u8),
{
    let mut out: Vec<u8> = Vec::new();
    let mut i: usize = 0;
    while i < path_bytes.len()
        invariant
            i <= path_bytes@.len(),
            out@ == path_bytes@.subrange(0, i as int),
        decreases path_bytes@.len() - i,
    {
        out.push(path_bytes[i]);
        i = i + 1;
        proof {
            assert(path_bytes@.subrange(0, i as int) =~= path_bytes@.subrange(0, i - 1).push(
                path_bytes@[i - 1],
            ));
        }
    }
    out.push(10u8);
    proof {
        assert(path_bytes@.subrange(0, i as int) =~= path_bytes@);
    }
    out
}

/// `forget` goes ahead whenever the repository view knows every workspace
/// that it names (or the current one, where it names none); the registry
/// plays no part in that.
pub proof fn lemma_forget_needs_only_known(requested: Seq<Seq<char>>, current: Seq<char>, known: Seq<Seq<char>>)
    requires
        forall|i: int| 0 <= i < forget_targets_spec(requested, current).len()
            ==> known.contains(#[trigger] forget_targets_spec(requested, current)[i]),
    ensures
        first_unknown(forget_targets_spec(requested, current), known) is None,
{
}

/// In a repository without registry entries, both commands still succeed for
/// the current workspace: `forget` goes ahead when the view knows it, and
/// `root` falls back to the current workspace's root.
pub proof fn lemma_legacy_tolerance(current: Seq<char>, known: Seq<Seq<char>>)
    requires
        known.contains(current),
    ensures
        first_unknown(forget_targets_spec(Seq::empty(), current), known) is None,
        root_source_spec(false, false) == RootSource::Ambient,
{
    assert(forget_targets_spec(Seq::empty(), current)[0] == current);
}

} // verus!
