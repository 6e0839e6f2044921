use signature_scrubber::dirwalker::{
    DirEntryInfo, DirectoryInfo, DirectoryWalker, MAX_CONCURRENT, MIN_CONCURRENT,
};
use signature_scrubber::limiter::{InFlightSet, WalkStep};

fn dir(path: &str) -> DirEntryInfo {
    DirEntryInfo { path: path.to_string(), is_dir: true }
}

fn file(path: &str) -> DirEntryInfo {
    DirEntryInfo { path: path.to_string(), is_dir: false }
}

fn spawn(path: &str) -> WalkStep {
    WalkStep::Spawn(path.to_string())
}

fn drain(dw: &mut DirectoryWalker) -> Vec<String> {
    let mut out = Vec::new();
    while let Some(next) = dw.pop() {
        out.push(next.path().to_string());
    }
    out
}

fn in_flight_never_exceeds(steps: &[WalkStep], limit: usize) -> bool {
    let mut in_flight: usize = 0;
    for step in steps {
        match step {
            WalkStep::Spawn(_) => in_flight += 1,
            WalkStep::AwaitOne => {
                if in_flight == 0 {
                    return false;
                }
                in_flight -= 1;
            }
        }
        if in_flight > limit {
            return false;
        }
    }
    in_flight == 0
}

#[test]
fn new_walker_holds_the_root() {
    let mut dw = DirectoryWalker::new("root", 100).unwrap();
    assert_eq!(dw.len(), 1);
    assert_eq!(dw.max_concurrent(), 100);
    assert_eq!(dw.pop().unwrap().path(), "root");
    assert!(dw.pop().is_none());
    assert_eq!(dw.len(), 0);
}

#[test]
fn new_walker_turns_down_zero_concurrency() {
    let e = DirectoryWalker::new("root", 0).unwrap_err();
    assert_eq!(e.kind(), std::io::ErrorKind::InvalidInput);
}

#[test]
fn new_walker_takes_the_whole_valid_range() {
    assert_eq!((MIN_CONCURRENT, MAX_CONCURRENT), (1, 255));
    assert!(DirectoryWalker::new("root", 1).is_ok());
    assert!(DirectoryWalker::new("root", 255).is_ok());
    assert!(DirectoryWalker::new("root", 256).is_err());
    assert!(DirectoryWalker::new("root", usize::MAX).is_err());
}

#[test]
fn pop_returns_the_directory_pushed_last() {
    let mut dw = DirectoryWalker::new("root", 4).unwrap();
    dw.push(DirectoryInfo::new("a".to_string()));
    dw.push(DirectoryInfo::new("b".to_string()));
    assert_eq!(dw.len(), 3);
    assert_eq!(drain(&mut dw), vec!["b", "a", "root"]);
}

#[test]
fn pop_on_empty_stack_is_none() {
    let mut dw = DirectoryWalker::new("root", 4).unwrap();
    assert!(dw.pop().is_some());
    assert!(dw.pop().is_none());
    assert!(dw.pop().is_none());
    assert_eq!(dw.max_concurrent(), 4);
}

#[test]
fn directory_info_keeps_its_path() {
    assert_eq!(DirectoryInfo::new("some/dir".to_string()).path(), "some/dir");
}

#[test]
fn visit_entry_pushes_directories_and_hands_back_files() {
    let mut dw = DirectoryWalker::new("root", 4).unwrap();
    assert_eq!(dw.visit_entry(file("root/a.txt")), Some("root/a.txt".to_string()));
    assert_eq!(dw.len(), 1);
    assert_eq!(dw.visit_entry(dir("root/sub")), None);
    assert_eq!(dw.len(), 2);
    assert_eq!(dw.pop().unwrap().path(), "root/sub");
}

#[test]
fn dir_walk_sorts_entries_into_stack_and_files() {
    let mut dw = DirectoryWalker::new("root", 4).unwrap();
    let _ = dw.pop();
    let listing = vec![file("r/a.txt"), dir("r/x"), file("r/b.bin"), dir("r/y"), file("r/c.txt")];
    let files = dw.dir_walk(&listing);
    assert_eq!(files, vec!["r/a.txt", "r/b.bin", "r/c.txt"]);
    assert_eq!(drain(&mut dw), vec!["r/y", "r/x"]);
}

#[test]
fn dir_walk_of_empty_listing_changes_nothing() {
    let mut dw = DirectoryWalker::new("root", 4).unwrap();
    assert!(dw.dir_walk(&Vec::new()).is_empty());
    assert_eq!(drain(&mut dw), vec!["root"]);
}

#[test]
fn dir_walk_does_not_fold_duplicates() {
    let mut dw = DirectoryWalker::new("root", 4).unwrap();
    let files = dw.dir_walk(&vec![dir("d"), dir("d"), file("f"), file("f")]);
    assert_eq!(files, vec!["f", "f"]);
    assert_eq!(drain(&mut dw), vec!["d", "d", "root"]);
}

#[test]
fn dir_walk_async_below_the_ceiling_spawns_all_then_drains() {
    let mut dw = DirectoryWalker::new("root", 3).unwrap();
    let steps = dw.dir_walk_async(&vec![file("a"), dir("sub"), file("b")]);
    assert_eq!(steps, vec![spawn("a"), spawn("b"), WalkStep::AwaitOne, WalkStep::AwaitOne]);
    assert_eq!(drain(&mut dw), vec!["sub", "root"]);
}

#[test]
fn dir_walk_async_at_the_ceiling_awaits_before_each_further_file() {
    let mut dw = DirectoryWalker::new("root", 2).unwrap();
    let steps = dw.dir_walk_async(&vec![file("a"), file("b"), file("c"), file("d")]);
    assert_eq!(
        steps,
        vec![
            spawn("a"),
            spawn("b"),
            WalkStep::AwaitOne,
            spawn("c"),
            WalkStep::AwaitOne,
            spawn("d"),
            WalkStep::AwaitOne,
            WalkStep::AwaitOne,
        ]
    );
    assert!(in_flight_never_exceeds(&steps, 2));
}

#[test]
fn one_at_a_time_completes_five_files() {
    let mut dw = DirectoryWalker::new("root", 1).unwrap();
    let listing = vec![file("1.txt"), file("2.txt"), file("3.txt"), file("4.txt"), file("5.txt")];
    let steps = dw.dir_walk_async(&listing);
    assert_eq!(
        steps,
        vec![
            spawn("1.txt"),
            WalkStep::AwaitOne,
            spawn("2.txt"),
            WalkStep::AwaitOne,
            spawn("3.txt"),
            WalkStep::AwaitOne,
            spawn("4.txt"),
            WalkStep::AwaitOne,
            spawn("5.txt"),
            WalkStep::AwaitOne,
        ]
    );
    assert!(in_flight_never_exceeds(&steps, 1));
    assert!(!in_flight_never_exceeds(&steps, 0));
}

#[test]
fn dir_walk_async_without_files_takes_no_step() {
    let mut dw = DirectoryWalker::new("root", 1).unwrap();
    assert!(dw.dir_walk_async(&vec![dir("x"), dir("y")]).is_empty());
    assert!(dw.dir_walk_async(&Vec::new()).is_empty());
    assert_eq!(drain(&mut dw), vec!["y", "x", "root"]);
}

#[test]
fn dir_walk_async_keeps_the_bound_for_every_ceiling() {
    let listing: Vec<DirEntryInfo> = (0..40).map(|i| file(&format!("f{}", i))).collect();
    for limit in [1usize, 2, 3, 7, 39, 40, 41, 255] {
        let mut dw = DirectoryWalker::new("root", limit).unwrap();
        let steps = dw.dir_walk_async(&listing);
        assert!(in_flight_never_exceeds(&steps, limit));
        let spawned: Vec<&str> = steps
            .iter()
            .filter_map(|s| match s {
                WalkStep::Spawn(p) => Some(p.as_str()),
                WalkStep::AwaitOne => None,
            })
            .collect();
        let listed: Vec<&str> = listing.iter().map(|e| e.path.as_str()).collect();
        assert_eq!(spawned, listed);
        assert_eq!(steps.len(), 80);
    }
}

#[test]
fn traversal_visits_every_file_of_a_tree_once() {
    // root/{a.txt, sub/{b.txt, deep/{c.txt}}, other/{}}
    let list = |path: &str| -> Vec<DirEntryInfo> {
        match path {
            "root" => vec![file("root/a.txt"), dir("root/sub"), dir("root/other")],
            "root/sub" => vec![file("root/sub/b.txt"), dir("root/sub/deep")],
            "root/sub/deep" => vec![file("root/sub/deep/c.txt")],
            _ => Vec::new(),
        }
    };
    let mut dw = DirectoryWalker::new("root", 2).unwrap();
    let mut visited = Vec::new();
    let mut listed = Vec::new();
    while let Some(next) = dw.pop() {
        listed.push(next.path().to_string());
        for step in dw.dir_walk_async(&list(next.path())) {
            if let WalkStep::Spawn(path) = step {
                visited.push(path);
            }
        }
    }
    assert_eq!(listed, vec!["root", "root/other", "root/sub", "root/sub/deep"]);
    assert_eq!(visited, vec!["root/a.txt", "root/sub/b.txt", "root/sub/deep/c.txt"]);
}

#[test]
fn in_flight_set_needs_a_positive_ceiling() {
    assert!(InFlightSet::new(0).is_none());
    let set = InFlightSet::new(3).unwrap();
    assert_eq!(set.len(), 0);
    assert_eq!(set.max_concurrent(), 3);
    assert!(set.is_empty());
    assert!(!set.is_full());
}

#[test]
fn in_flight_set_admits_up_to_the_ceiling() {
    let mut set = InFlightSet::new(2).unwrap();
    assert!(set.acquire());
    assert!(!set.is_full());
    assert!(set.acquire());
    assert!(set.is_full());
    assert!(!set.acquire());
    assert_eq!(set.len(), 2);
    assert!(set.release());
    assert_eq!(set.len(), 1);
    assert!(set.acquire());
    assert_eq!(set.len(), 2);
}

#[test]
fn in_flight_set_release_on_empty_set_does_nothing() {
    let mut set = InFlightSet::new(1).unwrap();
    assert!(!set.release());
    assert_eq!(set.len(), 0);
    assert!(set.acquire());
    assert!(set.release());
    assert!(!set.release());
    assert!(set.is_empty());
}
