//! What is scanned: the supported languages, paths, and the configuration
//! of a run.

use vstd::prelude::*;
use vstd::slice::slice_to_vec;
use vstd::string::StringSliceAdditionalSpecFns;

verus! {

/// The languages whose files are scanned. Both write comments as C does:
/// `//` to the end of the line, and `/*` to the next `*/`.
#[derive(Debug, Clone, Copy, PartialEq, Eq, Hash, Structural)]
pub enum Language {
    Javascript,
    Typescript,
}

/// A path as its components, the outermost first. A component is the name
/// of one directory or file, in the bytes the platform knows it by.
#[derive(Debug)]
pub struct ScanPath {
    pub components: Vec<Vec<u8>>,
}

impl View for ScanPath {
    type V = Seq<Seq<u8>>;

    open spec fn view(&self) -> Seq<Seq<u8>> {
        Seq::new(self.components@.len(), |i: int| self.components@[i]@)
    }
}

impl DeepView for ScanPath {
    type V = Seq<Seq<u8>>;

    open spec fn deep_view(&self) -> Seq<Seq<u8>> {
        self@
    }
}

/// Whether two byte strings are the same.
pub fn same_bytes(a: &[u8], b: &[u8]) -> (same: bool)
    ensures
        same == (a@ == b@),
{
    if a.len() != b.len() {
        return false;
    }
    let mut i: usize = 0;
    while i < a.len()
        invariant
            a@.len() == b@.len(),
            i <= a@.len(),
            forall|k: int| 0 <= k < i ==> a@[k] == b@[k],
        decreases a@.len() - i,
    {
        if a[i] != b[i] {
            return false;
        }
        i += 1;
    }
    assert(a@ =~= b@);
    true
}

impl ScanPath {
    /// The path of the entry called `name` in the directory `self`.
    pub fn join(&self, name: &[u8]) -> (path: ScanPath)
        ensures
            path@ == self@.push(name@),
    {
        let mut components: Vec<Vec<u8>> = Vec::new();
        let mut i: usize = 0;
        while i < self.components.len()
            invariant
                i <= self.components@.len(),
                components@.len() == i,
                forall|k: int| 0 <= k < i ==> components@[k]@ == self.components@[k]@,
            decreases self.components@.len() - i,
        {
            components.push(slice_to_vec(self.components[i].as_slice()));
            i += 1;
        }
        components.push(slice_to_vec(name));
        let path = ScanPath { components };
        assert(path@ =~= self@.push(name@));
        path
    }

    /// Whether `self` lies at or below `prefix`: whether the components of
    /// `prefix` are the first components of `self`.
    pub fn starts_with(&self, prefix: &ScanPath) -> (found: bool)
        ensures
            found == prefix@.is_prefix_of(self@),
    {
        if prefix.components.len() > self.components.len() {
            return false;
        }
        let mut i: usize = 0;
        while i < prefix.components.len()
            invariant
                prefix.components@.len() <= self.components@.len(),
                i <= prefix.components@.len(),
                forall|k: int| 0 <= k < i ==> prefix@[k] == self@[k],
            decreases prefix.components@.len() - i,
        {
            if !same_bytes(prefix.components[i].as_slice(), self.components[i].as_slice()) {
                assert(prefix@[i as int] != self@[i as int]);
                assert(self@.subrange(0, prefix@.len() as int)[i as int] == self@[i as int]);
                return false;
            }
            i += 1;
        }
        assert(prefix@ =~= self@.subrange(0, prefix@.len() as int));
        true
    }
}

/// The configuration of a run: the directory to scan, and the directories
/// that are left out together with all that lies below them.
#[derive(Debug)]
pub struct Config {
    pub directory: ScanPath,
    pub excluded_dirs: Vec<ScanPath>,
}

impl Config {
    /// The configuration for scanning `directory`: its entries `.git`,
    /// `target` and `node_modules` are left out.
    pub fn new(directory: ScanPath) -> (config: Config)
        ensures
            config.directory@ == directory@,
            config.excluded_dirs.deep_view() == seq![
                directory@.push(".git".spec_bytes()),
                directory@.push("target".spec_bytes()),
                directory@.push("node_modules".spec_bytes()),
            ],
    {
        let mut names: Vec<&str> = Vec::new();
        names.push(".git");
        names.push("target");
        names.push("node_modules");
        let excluded_dirs = create_excluded_paths(&directory, names);
        assert(excluded_dirs.deep_view() =~= seq![
            directory@.push(".git".spec_bytes()),
            directory@.push("target".spec_bytes()),
            directory@.push("node_modules".spec_bytes()),
        ]);
        Config { directory, excluded_dirs }
    }
}

/// The paths of the entries of `root` that are called as `dirs` says, in
/// that order.
pub fn create_excluded_paths(root: &ScanPath, dirs: Vec<&str>) -> (paths: Vec<ScanPath>)
    ensures
        paths.deep_view() == Seq::new(dirs@.len(), |i: int| root@.push(dirs@[i].spec_bytes())),
{
    let mut paths: Vec<ScanPath> = Vec::new();
    let mut i: usize = 0;
    while i < dirs.len()
        invariant
            i <= dirs@.len(),
            paths@.len() == i,
            forall|k: int| 0 <= k < i ==> paths@[k]@ == root@.push(dirs@[k].spec_bytes()),
        decreases dirs@.len() - i,
    {
        paths.push(root.join(dirs[i].as_bytes()));
        i += 1;
    }
    assert(paths.deep_view() =~= Seq::new(
        dirs@.len(),
        |k: int| root@.push(dirs@[k].spec_bytes()),
    ));
    paths
}

} // verus!
