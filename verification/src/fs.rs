//! Filesystem abstraction.
//!
//! The edit logic never talks to a disk directly. Everything goes through
//! [`EditFs`], so the same code can run on disk, in tests, or behind an FFI
//! boundary.

use crate::error::{EditError, ErrorView, outcome, status};
use crate::text::{opt_view, same, views};
use vstd::prelude::*;
use vstd::string::*;

verus! {

/// A yes-or-no result, by its contents.
pub open spec fn flag(r: Result<bool, EditError>) -> Result<bool, ErrorView> {
    match r {
        Ok(b) => Ok(b),
        Err(e) => Err(e@),
    }
}

/// Minimal filesystem interface for edit operations.
///
/// An implementation has a state, and what each operation answers and leaves
/// behind depends on the state and its arguments. Of one whose files can change
/// in other ways, nothing is proved.
pub trait EditFs: Sized {
    /// What the answers depend on.
    type State;

    /// The state.
    closed spec fn state(&self) -> Self::State {
        arbitrary()
    }

    /// What [`EditFs::file_exists`] answers.
    closed spec fn exists_in(state: Self::State, path: Seq<char>) -> Result<bool, ErrorView> {
        arbitrary()
    }

    /// What [`EditFs::read`] answers.
    closed spec fn read_in(state: Self::State, path: Seq<char>) -> Result<Seq<char>, ErrorView> {
        arbitrary()
    }

    /// What [`EditFs::write`] answers, and the state that it leaves.
    closed spec fn write_in(state: Self::State, path: Seq<char>, content: Seq<char>) -> (
        Result<(), ErrorView>,
        Self::State,
    ) {
        arbitrary()
    }

    /// What [`EditFs::delete`] answers, and the state that it leaves.
    closed spec fn delete_in(state: Self::State, path: Seq<char>) -> (
        Result<(), ErrorView>,
        Self::State,
    ) {
        arbitrary()
    }

    /// What [`EditFs::mkdir`] answers, and the state that it leaves.
    closed spec fn mkdir_in(state: Self::State, path: Seq<char>) -> (Result<(), ErrorView>, Self::State) {
        arbitrary()
    }

    /// Check whether a file exists.
    fn file_exists(&self, path: &str) -> (r: Result<bool, EditError>)
        ensures
            flag(r) == Self::exists_in(self.state(), path@),
    ;

    /// Read an entire UTF-8 file.
    fn read(&self, path: &str) -> (r: Result<String, EditError>)
        ensures
            outcome(r) == Self::read_in(self.state(), path@),
    ;

    /// Write a UTF-8 file, creating parent directories as needed.
    fn write(&mut self, path: &str, content: &str) -> (r: Result<(), EditError>)
        ensures
            (status(r), final(self).state()) == Self::write_in(old(self).state(), path@, content@),
    ;

    /// Delete a file.
    fn delete(&mut self, path: &str) -> (r: Result<(), EditError>)
        ensures
            (status(r), final(self).state()) == Self::delete_in(old(self).state(), path@),
    ;

    /// Create directories recursively.
    fn mkdir(&mut self, path: &str) -> (r: Result<(), EditError>)
        ensures
            (status(r), final(self).state()) == Self::mkdir_in(old(self).state(), path@),
    ;
}

/// The paths and contents of files.
pub type Files = Map<Seq<char>, Seq<char>>;

/// The files that a list of entries gives.
pub closed spec fn files_of(entries: Seq<(String, String)>) -> Files
    decreases entries.len(),
{
    if entries.len() == 0 {
        Map::empty()
    } else {
        files_of(entries.drop_last()).insert(entries.last().0@, entries.last().1@)
    }
}

/// In-memory filesystem for tests and embedding.
#[derive(Debug)]
pub struct InMemoryFs {
    entries: Vec<(String, String)>,
}

/// Another name of [`InMemoryFs`].
pub type MemoryFS = InMemoryFs;

impl InMemoryFs {
    /// No path occurs twice.
    #[verifier::type_invariant]
    spec fn distinct(self) -> bool {
        distinct_paths(self.entries@)
    }

    /// The files that it holds.
    pub closed spec fn files(&self) -> Files {
        files_of(self.entries@)
    }
}

spec fn distinct_paths(entries: Seq<(String, String)>) -> bool {
    forall|i: int, j: int|
        0 <= i < j < entries.len() ==> (#[trigger] entries[i]).0@ != (#[trigger] entries[j]).0@
}

/// An entry is found in the files that the list gives.
proof fn lemma_entry(entries: Seq<(String, String)>, i: int)
    requires
        0 <= i < entries.len(),
        distinct_paths(entries),
    ensures
        files_of(entries).contains_key(entries[i].0@),
        files_of(entries)[entries[i].0@] == entries[i].1@,
    decreases entries.len(),
{
    if i < entries.len() - 1 {
        let t = entries.drop_last();
        assert(distinct_paths(t)) by {
            assert forall|a: int, b: int| 0 <= a < b < t.len() implies (#[trigger] t[a]).0@ != (
            #[trigger] t[b]).0@ by {
                assert(t[a] == entries[a] && t[b] == entries[b]);
            }
        }
        lemma_entry(t, i);
        assert(entries[i].0@ != entries[entries.len() - 1].0@);
    }
}

/// A path of the files that the list gives is that of an entry.
proof fn lemma_path(entries: Seq<(String, String)>, path: Seq<char>) -> (i: int)
    requires
        files_of(entries).contains_key(path),
    ensures
        0 <= i < entries.len(),
        entries[i].0@ == path,
    decreases entries.len(),
{
    if entries.len() == 0 {
        0
    } else if entries.last().0@ == path {
        entries.len() - 1
    } else {
        lemma_path(entries.drop_last(), path)
    }
}

impl InMemoryFs {
    /// Create an empty in-memory filesystem.
    pub fn new() -> (r: InMemoryFs)
        ensures
            r.files() == Files::empty(),
    {
        InMemoryFs { entries: Vec::new() }
    }

    fn position(&self, path: &str) -> (r: Option<usize>)
        ensures
            match r {
                Some(i) => i < self.entries@.len() && self.entries@[i as int].0@ == path@
                    && self.files().contains_key(path@) && self.files()[path@]
                    == self.entries@[i as int].1@,
                None => !self.files().contains_key(path@),
            },
    {
        proof {
            use_type_invariant(self);
        }
        let mut i: usize = 0;
        while i < self.entries.len()
            invariant
                i <= self.entries@.len(),
                distinct_paths(self.entries@),
                forall|k: int| 0 <= k < i ==> (#[trigger] self.entries@[k]).0@ != path@,
            decreases self.entries@.len() - i,
        {
            if same(self.entries[i].0.as_str(), path) {
                proof {
                    lemma_entry(self.entries@, i as int);
                }
                return Some(i);
            }
            i = i + 1;
        }
        proof {
            if self.files().contains_key(path@) {
                let k = lemma_path(self.entries@, path@);
            }
        }
        None
    }

    /// The content of a file, if it exists.
    pub fn get(&self, path: &str) -> (r: Option<String>)
        ensures
            opt_view(r) == (if self.files().contains_key(path@) {
                Some(self.files()[path@])
            } else {
                None
            }),
    {
        match self.position(path) {
            Some(i) => Some(self.entries[i].1.clone()),
            None => None,
        }
    }

    /// All stored paths.
    pub fn paths(&self) -> (r: Vec<String>)
        ensures
            views(r@).no_duplicates(),
            views(r@).to_set() == self.files().dom(),
    {
        proof {
            use_type_invariant(self);
        }
        let mut r: Vec<String> = Vec::new();
        let mut i: usize = 0;
        while i < self.entries.len()
            invariant
                i <= self.entries@.len(),
                r@.len() == i,
                distinct_paths(self.entries@),
                forall|k: int| 0 <= k < i ==> (#[trigger] r@[k])@ == self.entries@[k].0@,
            decreases self.entries@.len() - i,
        {
            r.push(self.entries[i].0.clone());
            i = i + 1;
        }
        proof {
            let v = views(r@);
            assert forall|p: Seq<char>| v.to_set().contains(p) <==> self.files().dom().contains(
                p,
            ) by {
                if v.to_set().contains(p) {
                    let k = choose|k: int| 0 <= k < v.len() && v[k] == p;
                    assert(r@[k]@ == self.entries@[k].0@);
                    lemma_entry(self.entries@, k);
                }
                if self.files().dom().contains(p) {
                    let k = lemma_path(self.entries@, p);
                    assert(r@[k]@ == self.entries@[k].0@);
                    assert(v[k] == p);
                }
            }
            assert(v.to_set() =~= self.files().dom());
            assert(v.no_duplicates()) by {
                assert forall|a: int, b: int|
                    0 <= a < v.len() && 0 <= b < v.len() && a != b implies v[a] != v[b] by {
                    assert(r@[a]@ == self.entries@[a].0@ && r@[b]@ == self.entries@[b].0@);
                    if a < b {
                        assert(self.entries@[a].0@ != self.entries@[b].0@);
                    } else {
                        assert(self.entries@[b].0@ != self.entries@[a].0@);
                    }
                }
            }
        }
        r
    }

    /// Removes a file, if it exists.
    fn drop_path(&mut self, path: &str)
        ensures
            final(self).files() == old(self).files().remove(path@),
            forall|k: int|
                0 <= k < final(self).entries@.len() ==> (#[trigger] final(self).entries@[k]).0@
                    != path@,
    {
        proof {
            use_type_invariant(&*self);
        }
        let ghost all = self.entries@;
        let mut out: Vec<(String, String)> = Vec::new();
        let mut i: usize = 0;
        proof {
            assert(all.take(0).len() == 0);
            assert(Files::empty().remove(path@) =~= Files::empty());
        }
        while i < self.entries.len()
            invariant
                self.entries@ == all,
                distinct_paths(all),
                i <= all.len(),
                files_of(out@) == files_of(all.take(i as int)).remove(path@),
                distinct_paths(out@),
                forall|k: int| 0 <= k < out@.len() ==> (#[trigger] out@[k]).0@ != path@,
                forall|k: int|
                    0 <= k < out@.len() ==> exists|j: int|
                        0 <= j < i && #[trigger] all[j].0@ == (#[trigger] out@[k]).0@,
            decreases all.len() - i,
        {
            let ghost before = files_of(all.take(i as int));
            proof {
                assert(all.take(i + 1).drop_last() =~= all.take(i as int));
                assert(all.take(i + 1).last() == all[i as int]);
            }
            let ghost key = all[i as int].0@;
            let ghost val = all[i as int].1@;
            if same(self.entries[i].0.as_str(), path) {
                assert(before.insert(key, val).remove(path@) =~= before.remove(path@));
            } else {
                let ghost out0 = out@;
                out.push((self.entries[i].0.clone(), self.entries[i].1.clone()));
                proof {
                    assert(out@.drop_last() =~= out0);
                    assert(before.insert(key, val).remove(path@) =~= before.remove(path@).insert(
                        key,
                        val,
                    ));
                    assert(distinct_paths(out@)) by {
                        assert forall|a: int, b: int| 0 <= a < b < out@.len() implies (
                        #[trigger] out@[a]).0@ != (#[trigger] out@[b]).0@ by {
                            if b == out0.len() {
                                assert(out@[a] == out0[a]);
                                let j = choose|j: int|
                                    0 <= j < i && #[trigger] all[j].0@ == out0[a].0@;
                                assert(all[j].0@ != all[i as int].0@);
                            } else {
                                assert(out@[a] == out0[a] && out@[b] == out0[b]);
                            }
                        }
                    }
                    assert forall|k: int| 0 <= k < out@.len() implies exists|j: int|
                        0 <= j < i + 1 && #[trigger] all[j].0@ == (#[trigger] out@[k]).0@ by {
                        if k < out0.len() {
                            assert(out@[k] == out0[k]);
                            let j = choose|j: int|
                                0 <= j < i && #[trigger] all[j].0@ == out0[k].0@;
                            assert(all[j].0@ == out@[k].0@);
                        } else {
                            assert(all[i as int].0@ == out@[k].0@);
                        }
                    }
                }
            }
            i = i + 1;
        }
        assert(all.take(i as int) =~= all);
        self.entries = out;
    }

    /// Stores a file.
    fn put(&mut self, path: &str, content: &str)
        ensures
            final(self).files() == old(self).files().insert(path@, content@),
    {
        let ghost f0 = self.files();
        self.drop_path(path);
        proof {
            use_type_invariant(&*self);
        }
        let ghost e0 = self.entries@;
        let mut out: Vec<(String, String)> = Vec::new();
        std::mem::swap(&mut out, &mut self.entries);
        out.push((path.to_owned(), content.to_owned()));
        proof {
            assert(out@.drop_last() =~= e0);
            assert(f0.remove(path@).insert(path@, content@) =~= f0.insert(path@, content@));
            assert(distinct_paths(out@)) by {
                assert forall|a: int, b: int| 0 <= a < b < out@.len() implies (
                #[trigger] out@[a]).0@ != (#[trigger] out@[b]).0@ by {
                    assert(out@[a] == e0[a]);
                    if b < e0.len() {
                        assert(out@[b] == e0[b]);
                    }
                }
            }
        }
        self.entries = out;
    }

    /// Create an in-memory filesystem pre-populated with files. Of two entries
    /// with one path, the later one counts.
    pub fn with_files(entries: &[(&str, &str)]) -> (r: InMemoryFs)
        ensures
            r.files() == listed_files(entries@),
    {
        let mut r = InMemoryFs::new();
        let mut i: usize = 0;
        assert(entries@.take(0).len() == 0);
        while i < entries.len()
            invariant
                i <= entries@.len(),
                r.files() == listed_files(entries@.take(i as int)),
            decreases entries@.len() - i,
        {
            proof {
                assert(entries@.take(i + 1).drop_last() =~= entries@.take(i as int));
                assert(entries@.take(i + 1).last() == entries@[i as int]);
            }
            r.put(entries[i].0, entries[i].1);
            i = i + 1;
        }
        assert(entries@.take(i as int) =~= entries@);
        r
    }
}

/// The files that are listed.
pub open spec fn listed_files(entries: Seq<(&str, &str)>) -> Files
    decreases entries.len(),
{
    if entries.len() == 0 {
        Map::empty()
    } else {
        listed_files(entries.drop_last()).insert(entries.last().0@, entries.last().1@)
    }
}

impl Default for InMemoryFs {
    fn default() -> (r: InMemoryFs)
        ensures
            r.files() == Files::empty(),
    {
        InMemoryFs::new()
    }
}

/// The error for a file that does not exist.
pub open spec fn not_found(path: Seq<char>) -> ErrorView {
    ErrorView::FileNotFound { path }
}

impl EditFs for InMemoryFs {
    type State = Files;

    open spec fn state(&self) -> Files {
        self.files()
    }

    open spec fn exists_in(state: Files, path: Seq<char>) -> Result<bool, ErrorView> {
        Ok(state.contains_key(path))
    }

    open spec fn read_in(state: Files, path: Seq<char>) -> Result<Seq<char>, ErrorView> {
        if state.contains_key(path) {
            Ok(state[path])
        } else {
            Err(not_found(path))
        }
    }

    open spec fn write_in(state: Files, path: Seq<char>, content: Seq<char>) -> (
        Result<(), ErrorView>,
        Files,
    ) {
        (Ok(()), state.insert(path, content))
    }

    open spec fn delete_in(state: Files, path: Seq<char>) -> (Result<(), ErrorView>, Files) {
        if state.contains_key(path) {
            (Ok(()), state.remove(path))
        } else {
            (Err(not_found(path)), state)
        }
    }

    open spec fn mkdir_in(state: Files, path: Seq<char>) -> (Result<(), ErrorView>, Files) {
        (Ok(()), state)
    }

    fn file_exists(&self, path: &str) -> (r: Result<bool, EditError>) {
        Ok(self.position(path).is_some())
    }

    fn read(&self, path: &str) -> (r: Result<String, EditError>) {
        match self.position(path) {
            Some(i) => Ok(self.entries[i].1.clone()),
            None => Err(EditError::FileNotFound { path: path.to_owned() }),
        }
    }

    fn write(&mut self, path: &str, content: &str) -> (r: Result<(), EditError>) {
        self.put(path, content);
        Ok(())
    }

    fn delete(&mut self, path: &str) -> (r: Result<(), EditError>) {
        match self.position(path) {
            Some(_) => {
                self.drop_path(path);
                Ok(())
            },
            None => Err(EditError::FileNotFound { path: path.to_owned() }),
        }
    }

    fn mkdir(&mut self, path: &str) -> (r: Result<(), EditError>) {
        Ok(())
    }
}

/// A file reads as it was written, and every other file as before.
pub proof fn law_read_after_write(files: Files, path: Seq<char>, content: Seq<char>, other: Seq<char>)
    ensures
        ({
            let (r, after) = InMemoryFs::write_in(files, path, content);
            &&& r is Ok
            &&& InMemoryFs::exists_in(after, path) == Ok::<bool, ErrorView>(true)
            &&& InMemoryFs::read_in(after, path) == Ok::<Seq<char>, ErrorView>(content)
            &&& other != path ==> InMemoryFs::read_in(after, other) == InMemoryFs::read_in(
                files,
                other,
            )
        }),
{
}

/// A deleted file is gone, every other file reads as before, and what was not
/// there cannot be deleted.
pub proof fn law_read_after_delete(files: Files, path: Seq<char>, other: Seq<char>)
    ensures
        ({
            let (r, after) = InMemoryFs::delete_in(files, path);
            &&& r is Ok <==> InMemoryFs::exists_in(files, path) == Ok::<bool, ErrorView>(true)
            &&& InMemoryFs::exists_in(after, path) == Ok::<bool, ErrorView>(false)
            &&& InMemoryFs::read_in(after, path) == Err::<Seq<char>, ErrorView>(not_found(path))
            &&& other != path ==> InMemoryFs::read_in(after, other) == InMemoryFs::read_in(
                files,
                other,
            )
        }),
{
}

} // verus!
