use loc_stats::config::{create_excluded_paths, same_bytes, Config, Language, ScanPath};
use loc_stats::walker::{
    get_language_by_extension, is_dir_excluded, DirEntry, ScanTask, TreeWalker,
};

fn path(components: &[&str]) -> ScanPath {
    ScanPath { components: components.iter().map(|c| c.as_bytes().to_vec()).collect() }
}

fn file(name: &str) -> DirEntry {
    DirEntry { name: name.as_bytes().to_vec(), is_dir: false }
}

fn dir(name: &str) -> DirEntry {
    DirEntry { name: name.as_bytes().to_vec(), is_dir: true }
}

fn names(tasks: &[ScanTask]) -> Vec<(Vec<Vec<u8>>, Language)> {
    tasks.iter().map(|t| (t.path.components.clone(), t.language)).collect()
}

fn language_of_name(name: &str) -> Option<Language> {
    get_language_by_extension(&path(&["src", name]))
}

#[test]
fn same_bytes_compares_contents() {
    assert!(same_bytes(b"", b""));
    assert!(same_bytes(b"abc", b"abc"));
    assert!(!same_bytes(b"abc", b"abd"));
    assert!(!same_bytes(b"abc", b"ab"));
    assert!(!same_bytes(b"", b"a"));
}

#[test]
fn join_appends_one_component() {
    let joined = path(&["/", "home"]).join(b"a.js");
    assert_eq!(joined.components, path(&["/", "home", "a.js"]).components);
    assert_eq!(path(&[]).join(b"x").components, path(&["x"]).components);
}

#[test]
fn starts_with_compares_whole_components() {
    let here = path(&["/", "proj", "node_modules", "x"]);
    assert!(here.starts_with(&path(&[])));
    assert!(here.starts_with(&path(&["/", "proj"])));
    assert!(here.starts_with(&path(&["/", "proj", "node_modules", "x"])));
    assert!(!here.starts_with(&path(&["/", "proj", "node"])));
    assert!(!here.starts_with(&path(&["/", "proj", "node_modules", "x", "y"])));
    assert!(!here.starts_with(&path(&["proj"])));
}

#[test]
fn extensions_map_to_languages() {
    assert_eq!(language_of_name("a.js"), Some(Language::Javascript));
    assert_eq!(language_of_name("a.jsx"), Some(Language::Javascript));
    assert_eq!(language_of_name("a.ts"), Some(Language::Typescript));
    assert_eq!(language_of_name("a.tsx"), Some(Language::Typescript));
    assert_eq!(language_of_name("a.test.ts"), Some(Language::Typescript));
    assert_eq!(language_of_name("..js"), Some(Language::Javascript));
}

#[test]
fn other_names_have_no_language() {
    assert_eq!(language_of_name("a.py"), None);
    assert_eq!(language_of_name("a.JS"), None);
    assert_eq!(language_of_name("a.jsx2"), None);
    assert_eq!(language_of_name("a.j"), None);
    assert_eq!(language_of_name("js"), None);
    assert_eq!(language_of_name(".js"), None);
    assert_eq!(language_of_name(".ts"), None);
    assert_eq!(language_of_name("a."), None);
    assert_eq!(language_of_name("a.js."), None);
    assert_eq!(language_of_name("a.ts.bak"), None);
    assert_eq!(language_of_name(""), None);
    assert_eq!(language_of_name("Makefile"), None);
    assert_eq!(get_language_by_extension(&path(&[])), None);
}

#[test]
fn only_the_file_name_sets_the_language() {
    assert_eq!(get_language_by_extension(&path(&["a.js", "readme"])), None);
    assert_eq!(
        get_language_by_extension(&path(&["a.py", "b.ts"])),
        Some(Language::Typescript)
    );
}

#[test]
fn a_name_that_is_not_utf8_keeps_its_extension() {
    let odd = ScanPath { components: vec![b"\xff\xfe.tsx".to_vec()] };
    assert_eq!(get_language_by_extension(&odd), Some(Language::Typescript));
    let odd_extension = ScanPath { components: vec![b"a.j\xffs".to_vec()] };
    assert_eq!(get_language_by_extension(&odd_extension), None);
}

#[test]
fn excluded_means_at_or_below_a_prefix() {
    let excluded = vec![path(&["p", ".git"]), path(&["p", "target"])];
    assert!(is_dir_excluded(&path(&["p", ".git"]), &excluded));
    assert!(is_dir_excluded(&path(&["p", "target", "debug", "deps"]), &excluded));
    assert!(!is_dir_excluded(&path(&["p"]), &excluded));
    assert!(!is_dir_excluded(&path(&["p", "src"]), &excluded));
    assert!(!is_dir_excluded(&path(&["p", "targets"]), &excluded));
    assert!(!is_dir_excluded(&path(&["q", "target"]), &excluded));
    assert!(!is_dir_excluded(&path(&["p", "src", "target"]), &excluded));
    assert!(!is_dir_excluded(&path(&["p", "src"]), &Vec::new()));
}

#[test]
fn create_excluded_paths_joins_each_name_to_the_root() {
    let paths = create_excluded_paths(&path(&["/", "proj"]), vec!["a", "b.c"]);
    let got: Vec<Vec<Vec<u8>>> = paths.into_iter().map(|p| p.components).collect();
    assert_eq!(
        got,
        vec![path(&["/", "proj", "a"]).components, path(&["/", "proj", "b.c"]).components]
    );
    assert!(create_excluded_paths(&path(&["x"]), Vec::new()).is_empty());
}

#[test]
fn config_leaves_out_the_usual_directories() {
    let config = Config::new(path(&["home", "proj"]));
    assert_eq!(config.directory.components, path(&["home", "proj"]).components);
    let got: Vec<Vec<Vec<u8>>> = config.excluded_dirs.into_iter().map(|p| p.components).collect();
    assert_eq!(
        got,
        vec![
            path(&["home", "proj", ".git"]).components,
            path(&["home", "proj", "target"]).components,
            path(&["home", "proj", "node_modules"]).components,
        ]
    );
}

#[test]
fn walk_lists_the_root_first() {
    let mut walker = TreeWalker::new(Config::new(path(&["proj"])), true);
    let first = walker.next_directory().unwrap();
    assert_eq!(first.components, path(&["proj"]).components);
    assert!(walker.next_directory().is_none());
    assert!(walker.into_tasks().is_empty());
}

#[test]
fn walk_of_a_path_that_is_no_directory_finds_nothing() {
    let mut walker = TreeWalker::new(Config::new(path(&["proj", "a.js"])), false);
    assert!(walker.next_directory().is_none());
    assert!(walker.into_tasks().is_empty());
}

#[test]
fn walk_of_a_root_that_is_left_out_finds_nothing() {
    let config = Config {
        directory: path(&["proj", "target", "x"]),
        excluded_dirs: vec![path(&["proj", "target"])],
    };
    let mut walker = TreeWalker::new(config, true);
    assert!(walker.next_directory().is_none());
    assert!(walker.into_tasks().is_empty());
}

#[test]
fn walk_turns_known_files_into_tasks_in_listing_order() {
    let mut walker = TreeWalker::new(Config::new(path(&["proj"])), true);
    let root = walker.next_directory().unwrap();
    let listing = vec![file("b.ts"), file("notes.txt"), file("a.js"), file("c.jsx"), file(".ts")];
    let walker = walker.record_listing(root, Some(listing)).unwrap();
    let tasks = walker.into_tasks();
    assert_eq!(
        names(&tasks),
        vec![
            (path(&["proj", "b.ts"]).components, Language::Typescript),
            (path(&["proj", "a.js"]).components, Language::Javascript),
            (path(&["proj", "c.jsx"]).components, Language::Javascript),
        ]
    );
}

#[test]
fn walk_enters_subdirectories_last_listed_first() {
    let mut walker = TreeWalker::new(Config::new(path(&["proj"])), true);
    let root = walker.next_directory().unwrap();
    let listing = vec![dir("src"), file("a.js"), dir("lib"), dir("node_modules")];
    let mut walker = walker.record_listing(root, Some(listing)).unwrap();
    let first = walker.next_directory().unwrap();
    assert_eq!(first.components, path(&["proj", "lib"]).components);
    let mut walker = walker.record_listing(first, Some(vec![file("l.ts")])).unwrap();
    let second = walker.next_directory().unwrap();
    assert_eq!(second.components, path(&["proj", "src"]).components);
    let mut walker = walker.record_listing(second, Some(vec![file("s.tsx"), dir("deep")])).unwrap();
    let third = walker.next_directory().unwrap();
    assert_eq!(third.components, path(&["proj", "src", "deep"]).components);
    let mut walker = walker.record_listing(third, Some(Vec::new())).unwrap();
    assert!(walker.next_directory().is_none());
    assert_eq!(
        names(&walker.into_tasks()),
        vec![
            (path(&["proj", "a.js"]).components, Language::Javascript),
            (path(&["proj", "lib", "l.ts"]).components, Language::Typescript),
            (path(&["proj", "src", "s.tsx"]).components, Language::Typescript),
        ]
    );
}

#[test]
fn a_directory_named_like_a_source_file_is_entered_not_scanned() {
    let mut walker = TreeWalker::new(Config::new(path(&["proj"])), true);
    let root = walker.next_directory().unwrap();
    let mut walker = walker.record_listing(root, Some(vec![dir("pkg.js")])).unwrap();
    let next = walker.next_directory().unwrap();
    assert_eq!(next.components, path(&["proj", "pkg.js"]).components);
    assert!(walker.into_tasks().is_empty());
}

#[test]
fn excluded_subdirectory_contributes_nothing() {
    let mut walker = TreeWalker::new(Config::new(path(&["proj"])), true);
    let root = walker.next_directory().unwrap();
    let listing = vec![dir("node_modules"), dir(".git"), dir("target"), file("main.ts")];
    let mut walker = walker.record_listing(root, Some(listing)).unwrap();
    assert!(walker.next_directory().is_none());
    let hidden = vec![file("index.ts"), file("util.ts"), dir("nested")];
    let walker = walker
        .record_listing(path(&["proj", "node_modules"]), Some(hidden))
        .unwrap();
    let walker = walker
        .record_listing(path(&["proj", "node_modules", "nested"]), Some(vec![file("deep.ts")]))
        .unwrap();
    let mut walker = walker.record_listing(path(&["proj", "target"]), None).unwrap();
    assert!(walker.next_directory().is_none());
    assert_eq!(
        names(&walker.into_tasks()),
        vec![(path(&["proj", "main.ts"]).components, Language::Typescript)]
    );
}

#[test]
fn walk_fails_when_a_directory_cannot_be_listed() {
    let mut walker = TreeWalker::new(Config::new(path(&["proj"])), true);
    let root = walker.next_directory().unwrap();
    let mut walker = walker
        .record_listing(root, Some(vec![file("a.js"), dir("locked")]))
        .unwrap();
    let locked = walker.next_directory().unwrap();
    let error = walker.record_listing(locked, None).unwrap_err();
    assert_eq!(error.directory.components, path(&["proj", "locked"]).components);
}

#[test]
fn walk_fails_when_the_root_cannot_be_listed() {
    let mut walker = TreeWalker::new(Config::new(path(&["proj"])), true);
    let root = walker.next_directory().unwrap();
    let error = walker.record_listing(root, None).unwrap_err();
    assert_eq!(error.directory.components, path(&["proj"]).components);
}

#[test]
fn every_task_of_a_walk_is_eligible() {
    let config = Config::new(path(&["r"]));
    let excluded: Vec<ScanPath> =
        config.excluded_dirs.iter().map(|p| ScanPath { components: p.components.clone() }).collect();
    let mut walker = TreeWalker::new(config, true);
    let root = walker.next_directory().unwrap();
    let listing = vec![file("a.js"), file("b.css"), dir("src"), dir("target"), file("c")];
    let mut walker = walker.record_listing(root, Some(listing)).unwrap();
    while let Some(next) = walker.next_directory() {
        let listing = vec![file("x.ts"), file("y.md"), file("z.jsx")];
        walker = walker.record_listing(next, Some(listing)).unwrap();
    }
    let tasks = walker.into_tasks();
    assert_eq!(tasks.len(), 3);
    for task in &tasks {
        assert_eq!(get_language_by_extension(&task.path), Some(task.language));
        let mut parent = ScanPath { components: task.path.components.clone() };
        parent.components.pop();
        assert!(!is_dir_excluded(&parent, &excluded));
    }
}
