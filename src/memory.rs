//! A registry held in memory: the same operations as the on-disk one, over a
//! list of (file name, contents) entries in place of a directory.

use vstd::prelude::*;
use vstd::string::*;
use vstd::utf8::encode_utf8;
use crate::codec::{decode_record, encode_record, lemma_round_trip, Workspace, WorkspaceRecord};
use crate::store::{SimpleWorkspaceStore, WorkspaceStoreError};

verus! {

/// A registry held in memory, keyed by workspace name.
#[derive(Debug)]
pub struct MemoryWorkspaceStore {
    files: Vec<(String, Vec<u8>)>,
}

/// The registry's contents after `set(name, path)`.
pub open spec fn set_spec(m: Map<Seq<char>, Seq<u8>>, name: Seq<char>, path: Seq<char>) -> Map<
    Seq<char>,
    Seq<u8>,
> {
    m.insert(name, encode_record(WorkspaceRecord { name, path }))
}

impl MemoryWorkspaceStore {
    /// The contents: for each workspace name that has an entry, the bytes of
    /// its record file.
    pub closed spec fn view(&self) -> Map<Seq<char>, Seq<u8>> {
        Map::new(
            |k: Seq<char>| exists|i: int| 0 <= i < self.files@.len() && self.files@[i].0@ == k,
            |k: Seq<char>|
                self.files@[choose|i: int| 0 <= i < self.files@.len() && self.files@[i].0@ == k].1@,
        )
    }

    /// No two entries have one name.
    pub closed spec fn wf(&self) -> bool {
        forall|i: int, j: int|
            0 <= i < j < self.files@.len() ==> #[trigger] self.files@[i].0@
                != #[trigger] self.files@[j].0@
    }

    proof fn lemma_entry(&self, i: int)
        requires
            self.wf(),
            0 <= i < self.files@.len(),
        ensures
            self.view().contains_key(self.files@[i].0@),
            self.view()[self.files@[i].0@] == self.files@[i].1@,
    {
        let k = self.files@[i].0@;
        assert(self.view().contains_key(k));
        let c = choose|c: int| 0 <= c < self.files@.len() && self.files@[c].0@ == k;
        if c != i {
            if c < i {
                assert(self.files@[c].0@ != self.files@[i].0@);
            } else {
                assert(self.files@[i].0@ != self.files@[c].0@);
            }
        }
    }

    /// An empty registry.
    pub fn new() -> (r: MemoryWorkspaceStore)
        ensures
            r.wf(),
            r.view() == Map::<Seq<char>, Seq<u8>>::empty(),
    {
        let r = MemoryWorkspaceStore { files: Vec::new() };
        proof {
            assert(r.view() =~= Map::<Seq<char>, Seq<u8>>::empty());
        }
        r
    }

    /// The index of the entry of `name`.
    fn find(&self, name: &str) -> (r: Option<usize>)
        requires
            self.wf(),
        ensures
            match r {
                Some(i) => i < self.files@.len() && self.files@[i as int].0@ == name@,
                None => !self.view().contains_key(name@),
            },
    {
        let key = String::from_str(name);
        let mut i: usize = 0;
        while i < self.files.len()
            invariant
                key@ == name@,
                i <= self.files@.len(),
                forall|j: int| 0 <= j < i ==> self.files@[j].0@ != name@,
            decreases self.files@.len() - i,
        {
            if self.files[i].0 == key {
                return Some(i);
            }
            i = i + 1;
        }
        None
    }

    /// Whether the registry holds an entry for `name`.
    pub fn contains(&self, name: &str) -> (r: bool)
        requires
            self.wf(),
        ensures
            r == self.view().contains_key(name@),
    {
        match self.find(name) {
            Some(i) => {
                proof {
                    self.lemma_entry(i as int);
                }
                true
            },
            None => false,
        }
    }

    /// The record of `name`: not found where it has no entry, malformed where
    /// its entry does not decode.
    pub fn get_path(&self, name: &str) -> (r: Result<Workspace, WorkspaceStoreError>)
        requires
            self.wf(),
        ensures
            !self.view().contains_key(name@) ==> (r matches Err(WorkspaceStoreError::Io {
                not_found,
                ..
            }) && not_found),
            self.view().contains_key(name@) ==> match decode_record(self.view()[name@]) {
                Some(rec) => r matches Ok(w) && w@ == rec,
                None => r == Err::<Workspace, _>(WorkspaceStoreError::MalformedRecord),
            },
    {
        match self.find(name) {
            Some(i) => {
                proof {
                    self.lemma_entry(i as int);
                }
                SimpleWorkspaceStore::get_path_from_contents(self.files[i].1.as_slice())
            },
            None => Err(
                WorkspaceStoreError::Io {
                    path: String::from_str(name),
                    not_found: true,
                    message: String::from_str("not found"),
                },
            ),
        }
    }

    /// Records that the working copy of `name` is at `canonical_path`.
    pub fn set_path(&mut self, name: &str, canonical_path: &str)
        requires
            old(self).wf(),
        ensures
            final(self).wf(),
            final(self).view() == set_spec(old(self).view(), name@, canonical_path@),
    {
        let contents = SimpleWorkspaceStore::set_path_contents(name, canonical_path);
        let ghost before = self.view();
        let ghost bytes = contents@;
        match self.find(name) {
            Some(i) => {
                let ghost old_files = self.files@;
                self.files.set(i, (String::from_str(name), contents));
                proof {
                    assert forall|a: int, b: int|
                        0 <= a < b < self.files@.len() implies #[trigger] self.files@[a].0@
                        != #[trigger] self.files@[b].0@ by {
                        if a != i && b != i {
                            assert(old_files[a].0@ != old_files[b].0@);
                        } else if a == i {
                            assert(old_files[a].0@ != old_files[b].0@);
                        } else {
                            assert(old_files[a].0@ != old_files[b].0@);
                        }
                    }
                    self.lemma_entry(i as int);
                    assert forall|k: Seq<char>| #[trigger]
                        self.view().contains_key(k) implies set_spec(
                        before,
                        name@,
                        canonical_path@,
                    ).contains_key(k) && self.view()[k] == set_spec(
                        before,
                        name@,
                        canonical_path@,
                    )[k] by {
                        let c = choose|c: int| 0 <= c < self.files@.len() && self.files@[c].0@ == k;
                        self.lemma_entry(c);
                        if c != i {
                            assert(old_files[c] == self.files@[c]);
                            assert(before.contains_key(k)) by {
                                assert(old_files[c].0@ == k);
                            }
                            let d = choose|d: int| 0 <= d < old_files.len() && old_files[d].0@ == k;
                            if d != c {
                                if d < c {
                                    assert(old_files[d].0@ != old_files[c].0@);
                                } else {
                                    assert(old_files[c].0@ != old_files[d].0@);
                                }
                            }
                        }
                    }
                    assert forall|k: Seq<char>| #[trigger]
                        set_spec(before, name@, canonical_path@).contains_key(k) implies self.view().contains_key(k) by {
                        if k != name@ {
                            let d = choose|d: int| 0 <= d < old_files.len() && old_files[d].0@ == k;
                            assert(self.files@[d].0@ == k);
                        }
                    }
                    assert(self.view() =~= set_spec(before, name@, canonical_path@));
                }
            },
            None => {
                let ghost old_files = self.files@;
                self.files.push((String::from_str(name), contents));
                proof {
                    let n = old_files.len() as int;
                    assert forall|a: int, b: int|
                        0 <= a < b < self.files@.len() implies #[trigger] self.files@[a].0@
                        != #[trigger] self.files@[b].0@ by {
                        if b < n {
                            assert(old_files[a].0@ != old_files[b].0@);
                        } else {
                            assert(old_files[a].0@ != name@) by {
                                if old_files[a].0@ == name@ {
                                    assert(before.contains_key(name@));
                                }
                            }
                        }
                    }
                    self.lemma_entry(n);
                    assert forall|k: Seq<char>| #[trigger]
                        self.view().contains_key(k) implies set_spec(
                        before,
                        name@,
                        canonical_path@,
                    ).contains_key(k) && self.view()[k] == set_spec(
                        before,
                        name@,
                        canonical_path@,
                    )[k] by {
                        let c = choose|c: int| 0 <= c < self.files@.len() && self.files@[c].0@ == k;
                        self.lemma_entry(c);
                        if c != n {
                            assert(old_files[c] == self.files@[c]);
                            assert(before.contains_key(k)) by {
                                assert(old_files[c].0@ == k);
                            }
                            let d = choose|d: int| 0 <= d < old_files.len() && old_files[d].0@ == k;
                            if d != c {
                                if d < c {
                                    assert(old_files[d].0@ != old_files[c].0@);
                                } else {
                                    assert(old_files[c].0@ != old_files[d].0@);
                                }
                            }
                        }
                    }
                    assert forall|k: Seq<char>| #[trigger]
                        set_spec(before, name@, canonical_path@).contains_key(k) implies self.view().contains_key(k) by {
                        if k != name@ {
                            let d = choose|d: int| 0 <= d < old_files.len() && old_files[d].0@ == k;
                            assert(self.files@[d].0@ == k);
                        }
                    }
                    assert(self.view() =~= set_spec(before, name@, canonical_path@));
                }
            },
        }
    }

    /// Deletes the entry of `name`; not found where there is none.
    pub fn remove_path(&mut self, name: &str) -> (r: Result<(), WorkspaceStoreError>)
        requires
            old(self).wf(),
        ensures
            final(self).wf(),
            final(self).view() == old(self).view().remove(name@),
            old(self).view().contains_key(name@) <==> r is Ok,
            !old(self).view().contains_key(name@) ==> (r matches Err(WorkspaceStoreError::Io {
                not_found,
                ..
            }) && not_found),
    {
        let ghost before = self.view();
        match self.find(name) {
            Some(i) => {
                let ghost old_files = self.files@;
                proof {
                    self.lemma_entry(i as int);
                }
                self.files.remove(i);
                proof {
                    assert forall|a: int, b: int|
                        0 <= a < b < self.files@.len() implies #[trigger] self.files@[a].0@
                        != #[trigger] self.files@[b].0@ by {
                        let a0 = if a < i { a } else { a + 1 };
                        let b0 = if b < i { b } else { b + 1 };
                        assert(self.files@[a] == old_files[a0]);
                        assert(self.files@[b] == old_files[b0]);
                        assert(old_files[a0].0@ != old_files[b0].0@);
                    }
                    assert forall|k: Seq<char>| #[trigger]
                        self.view().contains_key(k) implies before.remove(name@).contains_key(k)
                        && self.view()[k] == before.remove(name@)[k] by {
                        let c = choose|c: int| 0 <= c < self.files@.len() && self.files@[c].0@ == k;
                        self.lemma_entry(c);
                        let c0 = if c < i { c } else { c + 1 };
                        assert(self.files@[c] == old_files[c0]);
                        assert(old_files[c0].0@ != old_files[i as int].0@) by {
                            if c0 < i {
                                assert(old_files[c0].0@ != old_files[i as int].0@);
                            } else {
                                assert(old_files[i as int].0@ != old_files[c0].0@);
                            }
                        }
                        assert(before.contains_key(k)) by {
                            assert(old_files[c0].0@ == k);
                        }
                        let d = choose|d: int| 0 <= d < old_files.len() && old_files[d].0@ == k;
                        if d != c0 {
                            if d < c0 {
                                assert(old_files[d].0@ != old_files[c0].0@);
                            } else {
                                assert(old_files[c0].0@ != old_files[d].0@);
                            }
                        }
                    }
                    assert forall|k: Seq<char>| #[trigger]
                        before.remove(name@).contains_key(k) implies self.view().contains_key(k) by {
                        let d = choose|d: int| 0 <= d < old_files.len() && old_files[d].0@ == k;
                        assert(d != i);
                        let d1 = if d < i { d } else { d - 1 };
                        assert(self.files@[d1] == old_files[d]);
                    }
                    assert(self.view() =~= before.remove(name@));
                }
                Ok(())
            },
            None => {
                proof {
                    assert(before.remove(name@) =~= before);
                }
                Err(
                    WorkspaceStoreError::Io {
                        path: String::from_str(name),
                        not_found: true,
                        message: String::from_str("not found"),
                    },
                )
            },
        }
    }

    /// Drops the entries of `names` where there are any: an entry that is
    /// already gone is no error.
    pub fn forget_entries(&mut self, names: &Vec<String>)
        requires
            old(self).wf(),
        ensures
            final(self).wf(),
            final(self).view() == old(self).view().remove_keys(names.deep_view().to_set()),
    {
        let ghost before = self.view();
        let mut i: usize = 0;
        while i < names.len()
            invariant
                i <= names@.len(),
                self.wf(),
                self.view() == before.remove_keys(names.deep_view().subrange(0, i as int).to_set()),
            decreases names@.len() - i,
        {
            let ghost prev = self.view();
            if self.contains(names[i].as_str()) {
                let _ = self.remove_path(names[i].as_str());
            } else {
                proof {
                    assert(prev.remove(names@[i as int]@) =~= prev);
                }
            }
            proof {
                assert(names.deep_view().subrange(0, i + 1).to_set() =~= names.deep_view().subrange(
                    0,
                    i as int,
                ).to_set().insert(names@[i as int]@)) by {
                    assert(names.deep_view().subrange(0, i + 1) =~= names.deep_view().subrange(
                        0,
                        i as int,
                    ).push(names@[i as int]@));
                    names.deep_view().subrange(0, i as int).lemma_push_to_set_commute(names@[i as int]@);
                }
                assert(self.view() =~= before.remove_keys(
                    names.deep_view().subrange(0, i + 1).to_set(),
                ));
            }
            i = i + 1;
        }
        proof {
            assert(names.deep_view().subrange(0, i as int) =~= names.deep_view());
        }
    }
}

/// After `set(name, path)` the registry holds `name`, and its entry reads
/// back as the record of `name` at `path`.
pub proof fn lemma_set_then_get(m: Map<Seq<char>, Seq<u8>>, name: Seq<char>, path: Seq<char>)
    requires
        encode_utf8(name).len() < 0x1_0000_0000_0000_0000,
        encode_utf8(path).len() < 0x1_0000_0000_0000_0000,
    ensures
        set_spec(m, name, path).contains_key(name),
        decode_record(set_spec(m, name, path)[name]) == Some(WorkspaceRecord { name, path }),
{
    lemma_round_trip(WorkspaceRecord { name, path });
}

/// After `remove(name)` the registry no longer holds `name`.
pub proof fn lemma_remove_then_absent(m: Map<Seq<char>, Seq<u8>>, name: Seq<char>)
    ensures
        !m.remove(name).contains_key(name),
{
}

/// Forgetting workspaces leaves none of them in the registry, whether it held
/// entries for them or not, and touches no other entry.
pub proof fn lemma_forget_entries(m: Map<Seq<char>, Seq<u8>>, names: Seq<Seq<char>>, other: Seq<char>)
    requires
        !names.contains(other),
    ensures
        forall|i: int| 0 <= i < names.len() ==> !m.remove_keys(names.to_set()).contains_key(#[trigger] names[i]),
        m.remove_keys(names.to_set()).contains_key(other) == m.contains_key(other),
        m.contains_key(other) ==> m.remove_keys(names.to_set())[other] == m[other],
{
    assert forall|i: int| 0 <= i < names.len() implies !m.remove_keys(names.to_set()).contains_key(#[trigger] names[i]) by {
        assert(names.to_set().contains(names[i]));
    }
}

} // verus!
