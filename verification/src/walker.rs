//! The walk over a directory tree: which directories are entered, and which
//! files become scan tasks.
//!
//! The walker never touches the file system. It hands out the directories
//! to list, one at a time, and is told what each one holds.

use crate::config::{same_bytes, Config, Language, ScanPath};
use vstd::prelude::*;
use vstd::slice::slice_subrange;
use vstd::string::StringSliceAdditionalSpecFns;

verus! {

/// The byte that sets a file name's extension off.
pub const DOT: u8 = 0x2e;

/// One entry of a directory: its name, and whether it is a directory.
#[derive(Debug)]
pub struct DirEntry {
    pub name: Vec<u8>,
    pub is_dir: bool,
}

impl View for DirEntry {
    type V = (Seq<u8>, bool);

    open spec fn view(&self) -> (Seq<u8>, bool) {
        (self.name@, self.is_dir)
    }
}

impl DeepView for DirEntry {
    type V = (Seq<u8>, bool);

    open spec fn deep_view(&self) -> (Seq<u8>, bool) {
        self@
    }
}

/// A file to scan, and the language to scan it as.
#[derive(Debug)]
pub struct ScanTask {
    pub path: ScanPath,
    pub language: Language,
}

impl View for ScanTask {
    type V = (Seq<Seq<u8>>, Language);

    open spec fn view(&self) -> (Seq<Seq<u8>>, Language) {
        (self.path@, self.language)
    }
}

impl DeepView for ScanTask {
    type V = (Seq<Seq<u8>>, Language);

    open spec fn deep_view(&self) -> (Seq<Seq<u8>>, Language) {
        self@
    }
}

/// The walk was given up: this directory could not be listed.
#[derive(Debug)]
pub struct FatalWalkError {
    pub directory: ScanPath,
}

/// The index of the last dot of `name`, -1 if it has none.
pub open spec fn last_dot(name: Seq<u8>) -> int
    decreases name.len(),
{
    if name.len() == 0 {
        -1
    } else if name.last() == DOT {
        name.len() - 1
    } else {
        last_dot(name.drop_last())
    }
}

/// The extension of a file name: what follows its last dot. A name without
/// a dot has none, nor has one whose only dot is its first byte.
pub open spec fn extension_of(name: Seq<u8>) -> Option<Seq<u8>> {
    if last_dot(name) > 0 {
        Some(name.skip(last_dot(name) + 1))
    } else {
        None
    }
}

/// The language that an extension stands for.
pub open spec fn language_of_extension(extension: Seq<u8>) -> Option<Language> {
    if extension == "js".spec_bytes() || extension == "jsx".spec_bytes() {
        Some(Language::Javascript)
    } else if extension == "ts".spec_bytes() || extension == "tsx".spec_bytes() {
        Some(Language::Typescript)
    } else {
        None
    }
}

/// The language that the file at `path` is scanned as, if any: the one
/// that the extension of its name stands for.
pub open spec fn language_of(path: Seq<Seq<u8>>) -> Option<Language> {
    if path.len() == 0 {
        None
    } else {
        match extension_of(path.last()) {
            Some(extension) => language_of_extension(extension),
            None => None,
        }
    }
}

/// Whether `dir` is left out: whether it lies at or below one of the
/// `excluded` paths.
pub open spec fn is_excluded(dir: Seq<Seq<u8>>, excluded: Seq<Seq<Seq<u8>>>) -> bool {
    exists|i: int| 0 <= i < excluded.len() && (#[trigger] excluded[i]).is_prefix_of(dir)
}

/// The scan tasks among the entries of the directory `dir`, in the order of
/// the listing: its files of a known language.
pub open spec fn found_tasks(dir: Seq<Seq<u8>>, entries: Seq<(Seq<u8>, bool)>) -> Seq<
    (Seq<Seq<u8>>, Language),
>
    decreases entries.len(),
{
    if entries.len() == 0 {
        Seq::empty()
    } else {
        let before = found_tasks(dir, entries.drop_last());
        let path = dir.push(entries.last().0);
        if !entries.last().1 && language_of(path) is Some {
            before.push((path, language_of(path)->0))
        } else {
            before
        }
    }
}

/// The directories to enter among the entries of the directory `dir`, in
/// the order of the listing: its subdirectories that are not left out.
pub open spec fn found_dirs(
    dir: Seq<Seq<u8>>,
    entries: Seq<(Seq<u8>, bool)>,
    excluded: Seq<Seq<Seq<u8>>>,
) -> Seq<Seq<Seq<u8>>>
    decreases entries.len(),
{
    if entries.len() == 0 {
        Seq::empty()
    } else {
        let before = found_dirs(dir, entries.drop_last(), excluded);
        let path = dir.push(entries.last().0);
        if entries.last().1 && !is_excluded(path, excluded) {
            before.push(path)
        } else {
            before
        }
    }
}

/// Whether a task may come out of a walk that leaves `excluded` out: its
/// file has a name whose extension stands for the task's language, and the
/// directory that holds the file is not left out.
pub open spec fn eligible(task: (Seq<Seq<u8>>, Language), excluded: Seq<Seq<Seq<u8>>>) -> bool {
    &&& task.0.len() > 0
    &&& language_of(task.0) == Some(task.1)
    &&& !is_excluded(task.0.drop_last(), excluded)
}

/// A walk in progress: the directories still to list, and the scan tasks
/// found so far.
///
/// Every task it holds is eligible, and none of the directories it still
/// has to list is left out: the walker keeps this true by itself, whatever
/// it is told.
#[derive(Debug)]
pub struct TreeWalker {
    excluded: Vec<ScanPath>,
    pending: Vec<ScanPath>,
    tasks: Vec<ScanTask>,
}

impl TreeWalker {
    #[verifier::type_invariant]
    spec fn well_formed(self) -> bool {
        &&& forall|i: int|
            0 <= i < self.tasks@.len() ==> eligible(
                #[trigger] self.tasks@[i]@,
                self.excluded.deep_view(),
            )
        &&& forall|i: int|
            0 <= i < self.pending@.len() ==> !is_excluded(
                #[trigger] self.pending@[i]@,
                self.excluded.deep_view(),
            )
    }

    /// The paths that the walk leaves out.
    pub closed spec fn excluded(self) -> Seq<Seq<Seq<u8>>> {
        self.excluded.deep_view()
    }

    /// The directories still to list; the last one is listed next.
    pub closed spec fn pending(self) -> Seq<Seq<Seq<u8>>> {
        self.pending.deep_view()
    }

    /// The scan tasks found so far, in the order in which they were found.
    pub closed spec fn tasks(self) -> Seq<(Seq<Seq<u8>>, Language)> {
        self.tasks.deep_view()
    }

    /// A walk of the directory that `config` names. `is_dir` says whether
    /// that path is a directory at all: if it is not, or if it is left out,
    /// there is nothing to list.
    pub fn new(config: Config, is_dir: bool) -> (walker: TreeWalker)
        ensures
            walker.excluded() == config.excluded_dirs.deep_view(),
            walker.tasks() == Seq::<(Seq<Seq<u8>>, Language)>::empty(),
            walker.pending() == if is_dir && !is_excluded(
                config.directory@,
                config.excluded_dirs.deep_view(),
            ) {
                seq![config.directory@]
            } else {
                Seq::empty()
            },
    {
        let Config { directory, excluded_dirs } = config;
        let mut pending: Vec<ScanPath> = Vec::new();
        if is_dir && !is_dir_excluded(&directory, &excluded_dirs) {
            pending.push(directory);
        }
        let walker = TreeWalker { excluded: excluded_dirs, pending, tasks: Vec::new() };
        assert(walker.tasks() =~= Seq::<(Seq<Seq<u8>>, Language)>::empty());
        assert(walker.pending() =~= if is_dir && !is_excluded(
            config.directory@,
            config.excluded_dirs.deep_view(),
        ) {
            seq![config.directory@]
        } else {
            Seq::empty()
        });
        walker
    }

    /// The directory to list next, if any is left. It is never one that is
    /// left out.
    pub fn next_directory(&mut self) -> (next: Option<ScanPath>)
        ensures
            final(self).excluded() == old(self).excluded(),
            final(self).tasks() == old(self).tasks(),
            match next {
                Some(dir) => {
                    &&& old(self).pending().len() > 0
                    &&& dir@ == old(self).pending().last()
                    &&& final(self).pending() == old(self).pending().drop_last()
                    &&& !is_excluded(dir@, old(self).excluded())
                },
                None => old(self).pending().len() == 0 && final(self).pending() == old(
                    self,
                ).pending(),
            },
    {
        proof {
            use_type_invariant(&*self);
        }
        let mut pending: Vec<ScanPath> = Vec::new();
        core::mem::swap(&mut self.pending, &mut pending);
        let next = pending.pop();
        core::mem::swap(&mut self.pending, &mut pending);
        proof {
            if next is Some {
                assert(self.pending() =~= old(self).pending().drop_last());
            }
        }
        next
    }

    /// Takes in what the directory `dir` holds: its files of a known
    /// language become scan tasks, and its subdirectories are listed later,
    /// unless they are left out. `listing` is `None` if the directory could
    /// not be listed, which ends the walk: the walker is gone, and with it
    /// the tasks found so far. Of a directory that is left out nothing is
    /// taken in, whatever `listing` holds.
    pub fn record_listing(self, dir: ScanPath, listing: Option<Vec<DirEntry>>) -> (res: Result<
        TreeWalker,
        FatalWalkError,
    >)
        ensures
            match res {
                Ok(walker) => {
                    &&& walker.excluded() == self.excluded()
                    &&& if is_excluded(dir@, self.excluded()) {
                        walker.tasks() == self.tasks() && walker.pending() == self.pending()
                    } else {
                        &&& listing is Some
                        &&& walker.tasks() == self.tasks() + found_tasks(
                            dir@,
                            listing->0.deep_view(),
                        )
                        &&& walker.pending() == self.pending() + found_dirs(
                            dir@,
                            listing->0.deep_view(),
                            self.excluded(),
                        )
                    }
                },
                Err(error) => {
                    &&& !is_excluded(dir@, self.excluded())
                    &&& listing is None
                    &&& error.directory@ == dir@
                },
            },
    {
        proof {
            use_type_invariant(&self);
        }
        if is_dir_excluded(&dir, &self.excluded) {
            return Ok(self);
        }
        let entries = match listing {
            Some(entries) => entries,
            None => {
                return Err(FatalWalkError { directory: dir });
            },
        };
        let TreeWalker { excluded, mut pending, mut tasks } = self;
        let ghost listed = entries.deep_view();
        let mut i: usize = 0;
        proof {
            assert(listed.take(0) =~= Seq::<(Seq<u8>, bool)>::empty());
            assert(tasks.deep_view() =~= self.tasks() + found_tasks(dir@, listed.take(0)));
            assert(pending.deep_view() =~= self.pending() + found_dirs(
                dir@,
                listed.take(0),
                excluded.deep_view(),
            ));
        }
        while i < entries.len()
            invariant
                i <= entries@.len(),
                listed == entries.deep_view(),
                !is_excluded(dir@, excluded.deep_view()),
                tasks.deep_view() == self.tasks() + found_tasks(dir@, listed.take(i as int)),
                pending.deep_view() == self.pending() + found_dirs(
                    dir@,
                    listed.take(i as int),
                    excluded.deep_view(),
                ),
                forall|k: int|
                    0 <= k < tasks@.len() ==> eligible(#[trigger] tasks@[k]@, excluded.deep_view()),
                forall|k: int|
                    0 <= k < pending@.len() ==> !is_excluded(
                        #[trigger] pending@[k]@,
                        excluded.deep_view(),
                    ),
            decreases entries@.len() - i,
        {
            let ghost tasks_before = tasks.deep_view();
            let ghost pending_before = pending.deep_view();
            let path = dir.join(entries[i].name.as_slice());
            proof {
                assert(listed.take(i as int + 1).drop_last() =~= listed.take(i as int));
                assert(listed.take(i as int + 1).last() == entries@[i as int]@);
                assert(path@.drop_last() =~= dir@);
            }
            if entries[i].is_dir {
                if !is_dir_excluded(&path, &excluded) {
                    pending.push(path);
                    assert(pending.deep_view() =~= pending_before.push(path@));
                }
            } else {
                match get_language_by_extension(&path) {
                    Some(language) => {
                        tasks.push(ScanTask { path, language });
                        assert(tasks.deep_view() =~= tasks_before.push((path@, language)));
                    },
                    None => {},
                }
            }
            i += 1;
        }
        proof {
            assert(listed.take(i as int) =~= listed);
        }
        Ok(TreeWalker { excluded, pending, tasks })
    }

    /// Ends the walk and hands out the scan tasks found, in the order in
    /// which they were found. Each of them is eligible: its file has an
    /// extension that stands for the task's language, and lies in no
    /// directory that is left out.
    pub fn into_tasks(self) -> (tasks: Vec<ScanTask>)
        ensures
            tasks.deep_view() == self.tasks(),
            forall|i: int|
                0 <= i < tasks@.len() ==> eligible(#[trigger] tasks@[i]@, self.excluded()),
    {
        proof {
            use_type_invariant(&self);
        }
        self.tasks
    }
}

/// Whether `dir` lies at or below one of `excluded_dirs`.
pub fn is_dir_excluded(dir: &ScanPath, excluded_dirs: &Vec<ScanPath>) -> (excluded: bool)
    ensures
        excluded == is_excluded(dir@, excluded_dirs.deep_view()),
{
    let mut i: usize = 0;
    while i < excluded_dirs.len()
        invariant
            i <= excluded_dirs@.len(),
            forall|k: int| 0 <= k < i ==> !(#[trigger] excluded_dirs.deep_view()[k]).is_prefix_of(dir@),
        decreases excluded_dirs@.len() - i,
    {
        if dir.starts_with(&excluded_dirs[i]) {
            assert(excluded_dirs.deep_view()[i as int].is_prefix_of(dir@));
            return true;
        }
        i += 1;
    }
    false
}

/// The language that the file at `path` is scanned as, by the extension of
/// its name; `None` for a file that is not scanned.
pub fn get_language_by_extension(path: &ScanPath) -> (language: Option<Language>)
    ensures
        language == language_of(path@),
{
    let depth = path.components.len();
    if depth == 0 {
        return None;
    }
    let name = path.components[depth - 1].as_slice();
    assert(name@ == path@.last());
    let mut start: usize = name.len();
    while start > 0 && name[start - 1] != DOT
        invariant
            start <= name@.len(),
            forall|k: int| start <= k < name@.len() ==> name@[k] != DOT,
        decreases start,
    {
        start -= 1;
    }
    proof {
        lemma_last_dot(name@, start as int - 1);
    }
    if start <= 1 {
        return None;
    }
    let extension = slice_subrange(name, start, name.len());
    assert(extension@ =~= name@.skip(start as int));
    if same_bytes(extension, "js".as_bytes()) || same_bytes(extension, "jsx".as_bytes()) {
        Some(Language::Javascript)
    } else if same_bytes(extension, "ts".as_bytes()) || same_bytes(extension, "tsx".as_bytes()) {
        Some(Language::Typescript)
    } else {
        None
    }
}

/// Leaving a directory out leaves out all that lies below it: no file in
/// that directory, or in a directory anywhere below it, is eligible.
pub proof fn lemma_nothing_below_excluded(
    task: (Seq<Seq<u8>>, Language),
    dir: Seq<Seq<u8>>,
    excluded: Seq<Seq<Seq<u8>>>,
)
    requires
        is_excluded(dir, excluded),
        task.0.len() > 0,
        dir.is_prefix_of(task.0.drop_last()),
    ensures
        !eligible(task, excluded),
{
    let i = choose|i: int| 0 <= i < excluded.len() && (#[trigger] excluded[i]).is_prefix_of(dir);
    let parent = task.0.drop_last();
    assert(excluded[i] =~= parent.subrange(0, excluded[i].len() as int)) by {
        assert(excluded[i] =~= dir.subrange(0, excluded[i].len() as int));
        assert(dir =~= parent.subrange(0, dir.len() as int));
    }
    assert(excluded[i].is_prefix_of(parent));
}

/// `last_dot` is the index of a dot that no dot follows.
proof fn lemma_last_dot(name: Seq<u8>, dot: int)
    requires
        -1 <= dot < name.len(),
        dot >= 0 ==> name[dot] == DOT,
        forall|k: int| dot < k < name.len() ==> name[k] != DOT,
    ensures
        last_dot(name) == dot,
    decreases name.len(),
{
    if name.len() > 0 && dot < name.len() - 1 {
        lemma_last_dot(name.drop_last(), dot);
    }
}

} // verus!
