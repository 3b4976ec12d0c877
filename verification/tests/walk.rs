//! Walking trees that live in memory.

use std::collections::BTreeMap;

use searchlight::error::{IoError, IoErrorKind};
use searchlight::filters::FileFilter;
use searchlight::stats::Stats;
use searchlight::walk::{
    is_hidden_name, load_ignore_sets, needs_target, walk, DirJob, EntryInfo, EntryKind, Listing,
    Next, Root, RootStatus, Target, WalkOptions, WalkOutcome, IGNORE_FILES, MAX_WALK_DEPTH,
};

/// What stands at a path.
enum Node {
    Dir,
    File(String),
    Link(String),
}

/// A file system.
struct Tree {
    nodes: BTreeMap<String, Node>,
    /// Every path that was handed out, found again by its index.
    handles: Vec<String>,
}

impl Tree {
    fn new() -> Tree {
        let mut tree = Tree { nodes: BTreeMap::new(), handles: Vec::new() };
        tree.dir("root");
        tree
    }

    fn dir(&mut self, path: &str) {
        let mut end = 0;
        while let Some(found) = path[end..].find('/') {
            self.nodes.entry(path[..end + found].to_string()).or_insert(Node::Dir);
            end += found + 1;
        }
        self.nodes.insert(path.to_string(), Node::Dir);
    }

    /// Write `content` to `path`, creating parent directories.
    fn write(&mut self, path: &str, content: &str) {
        let parent = path.rfind('/').expect("a parent");
        self.dir(&path[..parent].to_string());
        self.nodes.insert(path.to_string(), Node::File(content.to_string()));
    }

    fn link(&mut self, path: &str, target: &str) {
        self.nodes.insert(path.to_string(), Node::Link(target.to_string()));
    }

    fn handle(&mut self, path: &str) -> usize {
        self.handles.push(path.to_string());
        self.handles.len() - 1
    }

    /// Where a path really is, links followed.
    fn resolve(&self, path: &str) -> String {
        let mut real = String::new();
        for part in path.split('/') {
            if !real.is_empty() {
                real.push('/');
            }
            real.push_str(part);
            if let Some(Node::Link(target)) = self.nodes.get(&real) {
                real = target.clone();
            }
        }
        real
    }

    fn list(&mut self, job: &DirJob, options: &WalkOptions) -> Result<Listing, IoError> {
        let dir = self.handles[job.id].clone();
        let real = self.resolve(&dir);
        let mut found: Vec<(String, EntryKind, u64, String)> = Vec::new();
        for (path, node) in &self.nodes {
            let Some(rest) = path.strip_prefix(&format!("{}/", real)) else { continue };
            if rest.contains('/') {
                continue;
            }
            let (kind, size) = match node {
                Node::Dir => (EntryKind::Dir, 0),
                Node::File(content) => (EntryKind::File, content.len() as u64),
                Node::Link(_) => (EntryKind::Symlink, 0),
            };
            found.push((rest.to_string(), kind, size, path.clone()));
        }
        // The system lists entries in no particular order.
        found.reverse();
        let mut entries = Vec::new();
        for (name, kind, size, path) in found {
            let target = if needs_target(options, &name, kind) {
                match self.nodes.get(&self.resolve(&path)) {
                    Some(Node::Dir) => Target::Dir,
                    Some(Node::File(content)) => Target::File(content.len() as u64),
                    _ => Target::Failed(IoError::of_kind(IoErrorKind::NotFound)),
                }
            } else {
                Target::Unknown
            };
            let id = self.handle(&format!("{}/{}", dir, name));
            entries.push(EntryInfo { id, name, kind, size, target });
        }
        Ok(Listing { entries, failures: Vec::new() })
    }

    fn root(&mut self, path: &str) -> Root {
        let id = self.handle(path);
        let (status, ignore) = match self.nodes.get(path) {
            Some(Node::Dir) => {
                let mut texts = Vec::new();
                for name in IGNORE_FILES {
                    if let Some(Node::File(text)) = self.nodes.get(&format!("{}/{}", path, name)) {
                        texts.push(text.clone());
                    }
                }
                (RootStatus::Directory, texts)
            }
            Some(Node::File(content)) => (RootStatus::File(content.len() as u64), Vec::new()),
            _ => (RootStatus::Failed(IoError::of_kind(IoErrorKind::NotFound)), Vec::new()),
        };
        Root { id, path: path.to_string(), status, ignore }
    }

    /// Walk some roots. The workers take jobs in turn and complete them the
    /// other way round.
    fn walk(
        &mut self,
        paths: &[&str],
        options: WalkOptions,
        filter: &FileFilter,
        stats: &mut Stats,
    ) -> WalkOutcome {
        let roots: Vec<Root> = paths.iter().map(|path| self.root(path)).collect();
        let (scope, mut progress) = walk(&roots, options, filter, stats);
        let mut finished = false;
        loop {
            let mut reports = Vec::new();
            let mut done = false;
            for _ in 0..options.workers() {
                match progress.next() {
                    Next::Scan(job) => {
                        let listing = self.list(&job, &options);
                        reports.push(scope.process_dir(&job, listing));
                    }
                    Next::Wait => assert!(!reports.is_empty(), "somebody is at work"),
                    Next::Done => done = true,
                }
            }
            if done {
                assert!(reports.is_empty(), "nobody is at work");
                break;
            }
            assert!(!finished, "nothing was left");
            while let Some(report) = reports.pop() {
                finished = progress.complete(report, stats);
            }
        }
        let outcome = progress.finish();
        for found in &outcome.files {
            assert_eq!(self.handles[found.id], found.path);
        }
        outcome
    }
}

fn opts() -> WalkOptions {
    WalkOptions {
        max_depth: None,
        follow: false,
        hidden: false,
        no_ignore: false,
        threads: 1,
    }
}

/// The file name of a path.
fn file_name(path: &str) -> String {
    path.rsplit('/').next().expect("a name").to_string()
}

/// Walk the root and return the sorted file names (no directories).
fn names(tree: &mut Tree, options: WalkOptions) -> Vec<String> {
    let mut stats = Stats::new();
    let outcome = tree.walk(&["root"], options, &FileFilter::empty(), &mut stats);
    let mut names: Vec<String> =
        outcome.files.iter().map(|found| file_name(&found.path)).collect();
    names.sort();
    names
}

/// Walk the root and return the paths in the order of the outcome.
fn paths(tree: &mut Tree, options: WalkOptions) -> Vec<String> {
    let mut stats = Stats::new();
    let outcome = tree.walk(&["root"], options, &FileFilter::empty(), &mut stats);
    outcome.files.into_iter().map(|found| found.path).collect()
}

#[test]
fn discovers_files_recursively() {
    let mut tree = Tree::new();
    tree.write("root/top.txt", "1");
    tree.write("root/src/main.rs", "2");
    tree.write("root/src/deep/util.rs", "3");
    tree.write("root/docs/readme.md", "4");

    let found = names(&mut tree, opts());
    assert_eq!(
        found,
        vec!["main.rs", "readme.md", "top.txt", "util.rs"],
        "results must be sorted and complete"
    );
}

#[test]
fn files_are_sorted_by_path() {
    let mut tree = Tree::new();
    tree.write("root/top.txt", "1");
    tree.write("root/src/main.rs", "2");
    tree.write("root/src/deep/util.rs", "3");
    tree.write("root/src.txt", "4");
    tree.write("root/docs/readme.md", "5");

    assert_eq!(
        paths(&mut tree, opts()),
        vec![
            "root/docs/readme.md",
            "root/src/deep/util.rs",
            "root/src/main.rs",
            "root/src.txt",
            "root/top.txt",
        ]
    );
}

#[test]
fn max_depth_limits_recursion() {
    let mut tree = Tree::new();
    tree.write("root/top.txt", "1");
    tree.write("root/one/mid.txt", "2");
    tree.write("root/one/two/deep.txt", "3");

    let mut options = opts();
    options.max_depth = Some(1);
    assert_eq!(names(&mut tree, options), vec!["top.txt"]);

    options.max_depth = Some(2);
    assert_eq!(names(&mut tree, options), vec!["mid.txt", "top.txt"]);
}

#[test]
fn hidden_entries_are_skipped_unless_requested() {
    let mut tree = Tree::new();
    tree.write("root/visible.txt", "1");
    tree.write("root/.hidden.txt", "2");
    tree.write("root/.config/settings.txt", "3");

    assert_eq!(names(&mut tree, opts()), vec!["visible.txt"]);

    let mut options = opts();
    options.hidden = true;
    assert_eq!(
        names(&mut tree, options),
        vec![".hidden.txt", "settings.txt", "visible.txt"]
    );
    assert!(is_hidden_name(".x") && !is_hidden_name("x.") && !is_hidden_name(""));
}

#[test]
fn well_known_directories_are_never_descended() {
    let mut tree = Tree::new();
    tree.write("root/app.rs", "1");
    tree.write("root/node_modules/lib/index.js", "2");
    tree.write("root/target/debug/app", "3");
    tree.write("root/__pycache__/mod.pyc", "4");

    assert_eq!(names(&mut tree, opts()), vec!["app.rs"]);

    // --no-ignore lifts ignore files but not the built-in skip list.
    let mut options = opts();
    options.no_ignore = true;
    assert_eq!(names(&mut tree, options), vec!["app.rs"]);
}

#[test]
fn gitignore_rules_are_respected_and_can_be_disabled() {
    let mut tree = Tree::new();
    tree.write("root/.gitignore", "*.log\n!keep.log\n");
    tree.write("root/app.rs", "1");
    tree.write("root/debug.log", "2");
    tree.write("root/keep.log", "3");

    assert_eq!(names(&mut tree, opts()), vec!["app.rs", "keep.log"]);

    let mut options = opts();
    options.no_ignore = true;
    assert_eq!(names(&mut tree, options), vec!["app.rs", "debug.log", "keep.log"]);
}

#[test]
fn ignore_files_apply_below_the_root_and_in_order() {
    let mut tree = Tree::new();
    tree.write("root/.ignore", "*.log\nsub/only.txt\nout/\n");
    tree.write("root/.gitignore", "!keep.log\n");
    tree.write("root/sub/a.log", "1");
    tree.write("root/sub/keep.log", "2");
    tree.write("root/sub/only.txt", "3");
    tree.write("root/only.txt", "4");
    tree.write("root/out/x.txt", "5");

    assert_eq!(paths(&mut tree, opts()), vec!["root/only.txt", "root/sub/keep.log"]);

    let set = load_ignore_sets(&vec!["*.log\n".to_string(), "!keep.log\n".to_string()]);
    assert!(set.matches("a.log", false));
    assert!(!set.matches("keep.log", false));
}

#[test]
fn size_and_glob_filters_apply_during_the_walk() {
    let mut tree = Tree::new();
    tree.write("root/small.txt", "1");
    tree.write("root/big.txt", "12345678");
    tree.write("root/other.md", "1234");

    let filter =
        FileFilter::new(&["*.txt".to_string()], &[], Some(4), None).expect("valid filter");
    let mut stats = Stats::new();
    let outcome = tree.walk(&["root"], opts(), &filter, &mut stats);
    let found: Vec<String> = outcome.files.iter().map(|found| file_name(&found.path)).collect();
    assert_eq!(found, vec!["big.txt"]);
    assert_eq!(outcome.errors.len(), 0);
    assert_eq!(stats.snapshot().files_found, 1);
}

#[test]
fn multi_threaded_walk_matches_single_threaded() {
    let mut tree = Tree::new();
    for index in 0..40 {
        tree.write(&format!("root/dir{}/file{}.txt", index % 5, index), "content");
    }

    let mut options = opts();
    options.threads = 1;
    let single = paths(&mut tree, options);

    options.threads = 8;
    let parallel = paths(&mut tree, options);

    assert_eq!(single, parallel, "order must be deterministic");
    assert_eq!(single.len(), 40);
}

#[test]
fn missing_roots_are_recorded_as_errors() {
    let mut tree = Tree::new();
    let mut stats = Stats::new();
    let missing = "searchlight-does-not-exist-xyz";
    let outcome = tree.walk(&[missing], opts(), &FileFilter::empty(), &mut stats);
    assert!(outcome.files.is_empty());
    assert_eq!(outcome.errors.len(), 1);
    assert_eq!(outcome.errors[0].path, missing);
    assert_eq!(outcome.errors[0].message, "no such file or directory");
}

#[test]
fn plain_file_roots_bypass_the_queue() {
    let mut tree = Tree::new();
    let file = "root/direct.txt";
    tree.write(file, "content");
    tree.write("root/ignored-by-filter.log", "content");

    let filter = FileFilter::new(&["*.txt".to_string()], &[], None, None).expect("valid filter");
    let mut stats = Stats::new();
    let outcome =
        tree.walk(&[file, "root/ignored-by-filter.log"], opts(), &filter, &mut stats);
    assert_eq!(outcome.files.len(), 1);
    assert_eq!(outcome.files[0].path, file);
    assert_eq!(outcome.errors.len(), 0);
    assert_eq!(stats.snapshot().files_found, 1);
}

#[test]
fn explicit_files_are_honored_even_when_hidden() {
    let mut tree = Tree::new();
    tree.write("root/.env", "content");
    let mut stats = Stats::new();
    let outcome = tree.walk(&["root/.env"], opts(), &FileFilter::empty(), &mut stats);
    assert_eq!(outcome.files[0].path, "root/.env");
}

#[test]
fn empty_directories_yield_nothing() {
    let mut tree = Tree::new();
    tree.dir("root/a/b/c");
    let mut stats = Stats::new();
    let outcome = tree.walk(&["root"], opts(), &FileFilter::empty(), &mut stats);
    assert!(outcome.files.is_empty());
    assert!(outcome.errors.is_empty());
}

#[test]
fn symlinks_are_skipped_unless_following() {
    let mut tree = Tree::new();
    tree.write("root/real.txt", "content");
    tree.write("root/subdir/inner.txt", "content");
    tree.link("root/link", "root/subdir");

    // Without --follow the link is invisible; inner.txt is found only
    // through the real directory.
    assert_eq!(names(&mut tree, opts()), vec!["inner.txt", "real.txt"]);

    let mut options = opts();
    options.follow = true;
    let found = names(&mut tree, options);
    assert!(found.contains(&"inner.txt".to_string()));
    assert!(found.contains(&"real.txt".to_string()));
    assert_eq!(found.len(), 3, "once through the directory, once through the link");
}

#[test]
fn broken_links_are_reported() {
    let mut tree = Tree::new();
    tree.link("root/gone", "root/nowhere");
    let mut options = opts();
    options.follow = true;
    let mut stats = Stats::new();
    let outcome = tree.walk(&["root"], options, &FileFilter::empty(), &mut stats);
    assert_eq!(outcome.errors.len(), 1);
    assert_eq!(outcome.errors[0].path, "root/gone");
    assert_eq!(outcome.errors[0].message, "no such file or directory");
}

#[test]
fn link_loops_end_at_the_ceiling() {
    let mut tree = Tree::new();
    tree.write("root/a.txt", "content");
    tree.link("root/loop", "root");
    let mut options = opts();
    options.follow = true;
    let mut stats = Stats::new();
    let outcome = tree.walk(&["root"], options, &FileFilter::empty(), &mut stats);
    assert_eq!(outcome.files.len(), MAX_WALK_DEPTH + 1);
    assert_eq!(outcome.errors.len(), 1);
    assert_eq!(
        outcome.errors[0].message,
        "maximum walk depth (256) exceeded; refusing to descend"
    );
    assert_eq!(stats.snapshot().files_found, 257);
}

#[test]
fn unreadable_directories_and_entries_are_reported() {
    let roots = vec![Root {
        id: 7,
        path: "root/".to_string(),
        status: RootStatus::Directory,
        ignore: Vec::new(),
    }];
    let mut stats = Stats::new();
    let (scope, mut progress) = walk(&roots, opts(), &FileFilter::empty(), &mut stats);
    let Next::Scan(job) = progress.next() else { panic!("a job") };
    assert_eq!((job.root, job.id, job.depth), (0, 7, 0));
    assert!(matches!(progress.next(), Next::Wait));

    let denied = scope.process_dir(&job, Err(IoError::of_kind(IoErrorKind::PermissionDenied)));
    assert_eq!(denied.errors[0].path, "root/");
    assert_eq!(denied.errors[0].message, "permission denied");

    let listing = Listing {
        entries: vec![
            EntryInfo {
                id: 9,
                name: "b".to_string(),
                kind: EntryKind::File,
                size: 1,
                target: Target::Unknown,
            },
            EntryInfo {
                id: 8,
                name: "a".to_string(),
                kind: EntryKind::Dir,
                size: 0,
                target: Target::Unknown,
            },
            EntryInfo {
                id: 10,
                name: "pipe".to_string(),
                kind: EntryKind::Other,
                size: 0,
                target: Target::Unknown,
            },
        ],
        failures: vec![IoError::new(IoErrorKind::Other, "disk on fire")],
    };
    let report = scope.process_dir(&job, Ok(listing));
    assert_eq!(report.errors.len(), 1);
    assert_eq!(report.errors[0].path, "root/");
    assert_eq!(report.errors[0].message, "disk on fire");
    assert_eq!(report.files[0].path, "root/b");
    assert_eq!(report.files[0].id, 9);
    assert_eq!(report.jobs[0].dir, "root/a");
    assert_eq!(report.jobs[0].relative, "a");
    assert_eq!(report.jobs[0].depth, 1);

    assert!(!progress.complete(report, &mut stats), "a directory is left");
    let Next::Scan(job) = progress.next() else { panic!("another job") };
    assert_eq!(job.dir, "root/a");
    assert!(progress.complete(denied, &mut stats), "nothing is left");
    assert!(matches!(progress.next(), Next::Done));
    assert_eq!(stats.files_found, 1);
}

#[test]
fn worker_numbers_are_capped() {
    let mut options = opts();
    options.threads = 0;
    assert_eq!(options.workers(), 1);
    options.threads = 5;
    assert_eq!(options.workers(), 5);
    options.threads = 1000;
    assert_eq!(options.workers(), 64);
}
