//! The work list of directories and the rule of bounded admission.
//!
//! A walker keeps a stack of directories that were found and not yet listed.
//! Listing a directory hands each subdirectory to the stack and each file to
//! the caller. Where files are processed concurrently, at most
//! `max_concurrent` of them are in flight at any time.

use crate::limiter::{
    admissions, at_most, drain, schedule, steps_of, InFlightSet, Step, WalkStep,
};
use vstd::multiset::{lemma_multiset_empty_len, Multiset};
use vstd::prelude::*;
use vstd::seq_lib::{lemma_multiset_commutative, to_multiset_build, to_multiset_len};

verus! {

/// `std::io::Error`, which the library hands on and never looks into.
#[verifier::external_type_specification]
#[verifier::external_body]
pub struct ExIoError(std::io::Error);

/// `std::io::Error::new` with the kind `InvalidInput`. Nothing is claimed of
/// the error that comes back.
#[verifier::external_body]
fn invalid_input(msg: &str) -> std::io::Error {
    std::io::Error::new(std::io::ErrorKind::InvalidInput, msg)
}

/// A directory that waits to be listed.
#[derive(Debug)]
pub struct DirectoryInfo {
    path: String,
}

impl View for DirectoryInfo {
    type V = Seq<char>;

    closed spec fn view(&self) -> Seq<char> {
        self.path@
    }
}

impl DirectoryInfo {
    /// The directory at `path`.
    pub fn new(path: String) -> (dir: DirectoryInfo)
        ensures
            dir@ == path@,
    {
        DirectoryInfo { path }
    }

    /// The path of the directory.
    pub fn path(&self) -> (path: &str)
        ensures
            path@ == self@,
    {
        self.path.as_str()
    }
}

/// One child of a directory, as its listing reports it.
#[derive(Debug)]
pub struct DirEntryInfo {
    pub path: String,
    pub is_dir: bool,
}

/// The least ceiling on the number of files in flight.
pub const MIN_CONCURRENT: usize = 1;

/// The greatest ceiling on the number of files in flight.
pub const MAX_CONCURRENT: usize = 255;

/// The path of `entry` if it is a directory.
pub open spec fn dir_of(entry: DirEntryInfo) -> Option<Seq<char>> {
    if entry.is_dir {
        Some(entry.path@)
    } else {
        None
    }
}

/// The path of `entry` if it is a file.
pub open spec fn file_of(entry: DirEntryInfo) -> Option<Seq<char>> {
    if entry.is_dir {
        None
    } else {
        Some(entry.path@)
    }
}

/// The subdirectories among `entries`, in listing order.
pub open spec fn listed_dirs(entries: Seq<DirEntryInfo>) -> Seq<Seq<char>> {
    entries.filter_map(|e: DirEntryInfo| dir_of(e))
}

/// The files among `entries`, in listing order.
pub open spec fn listed_files(entries: Seq<DirEntryInfo>) -> Seq<Seq<char>> {
    entries.filter_map(|e: DirEntryInfo| file_of(e))
}

/// The paths held by `files`.
pub open spec fn paths_of(files: Seq<String>) -> Seq<Seq<char>> {
    files.map_values(|f: String| f@)
}

/// The traversal's work list: a stack of directories, last in, first out.
#[derive(Debug)]
pub struct DirectoryWalker {
    dir_list: Vec<DirectoryInfo>,
    max_concurrent: usize,
}

impl DirectoryWalker {
    /// The ceiling lies within `MIN_CONCURRENT..=MAX_CONCURRENT`.
    pub open spec fn wf(&self) -> bool {
        MIN_CONCURRENT <= self.limit() <= MAX_CONCURRENT
    }

    /// The directories that wait to be listed, the next one last.
    pub closed spec fn pending(&self) -> Seq<Seq<char>> {
        self.dir_list@.map_values(|d: DirectoryInfo| d@)
    }

    /// The ceiling on the number of files in flight.
    pub closed spec fn limit(&self) -> nat {
        self.max_concurrent as nat
    }

    /// A walker whose stack holds the root directory alone. A ceiling
    /// outside `MIN_CONCURRENT..=MAX_CONCURRENT` is turned down. Below that
    /// range lies zero, with which no file could ever start: none is in
    /// flight, so there is no completion to wait for.
    pub fn new(root_dir: &str, max_concurrent: usize) -> (r: Result<DirectoryWalker, std::io::Error>)
        ensures
            MIN_CONCURRENT <= max_concurrent <= MAX_CONCURRENT ==> (r matches Ok(w) && w.wf()
                && w.pending() == seq![root_dir@] && w.limit() == max_concurrent),
            !(MIN_CONCURRENT <= max_concurrent <= MAX_CONCURRENT) ==> r is Err,
    {
        if max_concurrent < MIN_CONCURRENT || max_concurrent > MAX_CONCURRENT {
            return Err(invalid_input("max_concurrent must lie between 1 and 255"));
        }
        let mut dir_list = Vec::<DirectoryInfo>::new();
        dir_list.push(DirectoryInfo { path: root_dir.to_owned() });
        let dw = DirectoryWalker { dir_list: dir_list, max_concurrent: max_concurrent };
        Ok(dw)
    }

    /// The ceiling on the number of files in flight.
    pub fn max_concurrent(&self) -> (n: usize)
        requires
            self.wf(),
        ensures
            n == self.limit(),
            MIN_CONCURRENT <= n <= MAX_CONCURRENT,
    {
        self.max_concurrent
    }

    /// The number of directories that wait to be listed.
    pub fn len(&self) -> (n: usize)
        ensures
            n == self.pending().len(),
    {
        self.dir_list.len()
    }

    /// Puts `dir` on top of the stack.
    pub fn push(&mut self, dir: DirectoryInfo)
        ensures
            final(self).pending() == old(self).pending().push(dir@),
            final(self).limit() == old(self).limit(),
    {
        self.dir_list.push(dir);
    }

    /// Takes the directory that was pushed last off the stack, if there is
    /// one. `None` says that the traversal is over.
    pub fn pop(&mut self) -> (r: Option<DirectoryInfo>)
        ensures
            final(self).limit() == old(self).limit(),
            old(self).pending().len() == 0 ==> r is None && final(self).pending() == old(
                self,
            ).pending(),
            old(self).pending().len() > 0 ==> (r matches Some(dir) && dir@ == old(
                self,
            ).pending().last() && final(self).pending() == old(self).pending().drop_last()),
    {
        let r = self.dir_list.pop();
        r
    }

    /// Takes in one child of the directory that is being listed: a
    /// subdirectory goes on top of the stack, a file is handed back.
    pub fn visit_entry(&mut self, entry: DirEntryInfo) -> (file: Option<String>)
        ensures
            final(self).limit() == old(self).limit(),
            match dir_of(entry) {
                Some(dir) => file is None && final(self).pending() == old(self).pending().push(
                    dir,
                ),
                None => file matches Some(path) && path@ == entry.path@ && final(self).pending()
                    == old(self).pending(),
            },
    {
        if entry.is_dir {
            self.push(DirectoryInfo { path: entry.path });
            None
        } else {
            Some(entry.path)
        }
    }

    /// Takes in the listing of one directory: every subdirectory goes on the
    /// stack, in listing order, and the files are handed back, each once and
    /// in listing order.
    pub fn dir_walk(&mut self, entries: &Vec<DirEntryInfo>) -> (files: Vec<String>)
        ensures
            final(self).limit() == old(self).limit(),
            final(self).pending() == old(self).pending() + listed_dirs(entries@),
            paths_of(files@) == listed_files(entries@),
    {
        let mut files: Vec<String> = Vec::new();
        let mut i: usize = 0;
        while i < entries.len()
            invariant
                i <= entries.len(),
                self.limit() == old(self).limit(),
                self.pending() == old(self).pending() + listed_dirs(entries@.take(i as int)),
                paths_of(files@) == listed_files(entries@.take(i as int)),
            decreases entries.len() - i,
        {
            proof {
                entries@.lemma_filter_map_take_succ(|e: DirEntryInfo| dir_of(e), i as int);
                entries@.lemma_filter_map_take_succ(|e: DirEntryInfo| file_of(e), i as int);
            }
            let entry = DirEntryInfo { path: entries[i].path.clone(), is_dir: entries[i].is_dir };
            if let Some(path) = self.visit_entry(entry) {
                files.push(path);
            }
            i += 1;
        }
        assert(entries@.take(i as int) == entries@);
        files
    }

    /// Takes in the listing of one directory whose files are to be
    /// processed concurrently: every subdirectory goes on the stack, in
    /// listing order, and the steps to take for the files are handed back.
    /// Each file is spawned once, in listing order; where the ceiling is
    /// reached, one completion is awaited before the next file is spawned;
    /// at the end every unit still in flight is awaited, so that none is
    /// left when the next directory is listed.
    pub fn dir_walk_async(&mut self, entries: &Vec<DirEntryInfo>) -> (steps: Vec<WalkStep>)
        requires
            old(self).wf(),
        ensures
            final(self).limit() == old(self).limit(),
            final(self).pending() == old(self).pending() + listed_dirs(entries@),
            steps_of(steps@) == schedule(listed_files(entries@), old(self).limit()),
    {
        let mut steps: Vec<WalkStep> = Vec::new();
        let mut in_flight = match InFlightSet::new(self.max_concurrent) {
            Some(set) => set,
            None => {
                return steps;
            },
        };
        let ghost limit = self.limit();
        let mut i: usize = 0;
        while i < entries.len()
            invariant
                i <= entries.len(),
                limit == old(self).limit(),
                self.limit() == limit,
                in_flight.wf(),
                in_flight.limit() == limit,
                in_flight.size() == at_most(listed_files(entries@.take(i as int)).len(), limit),
                self.pending() == old(self).pending() + listed_dirs(entries@.take(i as int)),
                steps_of(steps@) == admissions(listed_files(entries@.take(i as int)), limit),
            decreases entries.len() - i,
        {
            proof {
                entries@.lemma_filter_map_take_succ(|e: DirEntryInfo| dir_of(e), i as int);
                entries@.lemma_filter_map_take_succ(|e: DirEntryInfo| file_of(e), i as int);
            }
            let ghost seen = listed_files(entries@.take(i as int));
            let entry = DirEntryInfo { path: entries[i].path.clone(), is_dir: entries[i].is_dir };
            if let Some(path) = self.visit_entry(entry) {
                let ghost files = seen.push(path@);
                assert(files.drop_last() == seen);
                if in_flight.is_full() {
                    steps.push(WalkStep::AwaitOne);
                    in_flight.release();
                }
                in_flight.acquire();
                steps.push(WalkStep::Spawn(path));
                assert(listed_files(entries@.take(i + 1)) == files);
            }
            i += 1;
        }
        assert(entries@.take(i as int) == entries@);
        let ghost admitted = steps@;
        let ghost held = in_flight.size();
        while !in_flight.is_empty()
            invariant
                in_flight.wf(),
                in_flight.size() <= held,
                steps_of(steps@) == steps_of(admitted) + drain(
                    (held - in_flight.size()) as nat,
                ),
            decreases in_flight.size(),
        {
            let ghost before = steps@;
            steps.push(WalkStep::AwaitOne);
            in_flight.release();
            assert(steps_of(steps@) == steps_of(before).push(Step::AwaitOne));
        }
        steps
    }
}

/// The stack after one round of the traversal: the directory on top was
/// taken off and listed, and its subdirectories were put on. This is what
/// `pop`, followed by `dir_walk` or `dir_walk_async` on the listing, makes
/// of the stack.
pub open spec fn after_round(pending: Seq<Seq<char>>, entries: Seq<DirEntryInfo>) -> Seq<
    Seq<char>,
> {
    pending.drop_last() + listed_dirs(entries)
}

/// The stack after a run of rounds that began with the stack `start`; each
/// round listed the directory on top and was given one of `listings`.
pub open spec fn pending_after(start: Seq<Seq<char>>, listings: Seq<Seq<DirEntryInfo>>) -> Seq<
    Seq<char>,
>
    decreases listings.len(),
{
    if listings.len() == 0 {
        start
    } else {
        after_round(pending_after(start, listings.drop_last()), listings.last())
    }
}

/// Every round of the run found a directory on the stack.
pub open spec fn runs(start: Seq<Seq<char>>, listings: Seq<Seq<DirEntryInfo>>) -> bool
    decreases listings.len(),
{
    listings.len() == 0 || (runs(start, listings.drop_last()) && pending_after(
        start,
        listings.drop_last(),
    ).len() > 0)
}

/// The directories that the rounds of the run took off the stack, in order.
pub open spec fn taken(start: Seq<Seq<char>>, listings: Seq<Seq<DirEntryInfo>>) -> Seq<Seq<char>>
    decreases listings.len(),
{
    if listings.len() == 0 {
        Seq::empty()
    } else {
        taken(start, listings.drop_last()).push(
            pending_after(start, listings.drop_last()).last(),
        )
    }
}

/// The subdirectories that the listings of the run report, in order.
pub open spec fn found_dirs(listings: Seq<Seq<DirEntryInfo>>) -> Seq<Seq<char>>
    decreases listings.len(),
{
    if listings.len() == 0 {
        Seq::empty()
    } else {
        found_dirs(listings.drop_last()) + listed_dirs(listings.last())
    }
}

/// A sequence without elements counts nothing.
proof fn lemma_nothing_counted(s: Seq<Seq<char>>)
    requires
        s.len() == 0,
    ensures
        s.to_multiset() == Multiset::<Seq<char>>::empty(),
{
    to_multiset_len(s);
    lemma_multiset_empty_len(s.to_multiset());
}

/// Nothing is lost and nothing is listed twice: at any point of a run, the
/// directories taken off the stack and those still on it are, counted with
/// their number, the directories that the run began with and those that
/// its listings have reported.
pub proof fn lemma_run_keeps_count(start: Seq<Seq<char>>, listings: Seq<Seq<DirEntryInfo>>)
    requires
        runs(start, listings),
    ensures
        taken(start, listings).to_multiset().add(pending_after(start, listings).to_multiset())
            == start.to_multiset().add(found_dirs(listings).to_multiset()),
    decreases listings.len(),
{
    broadcast use vstd::multiset::group_multiset_axioms;

    let counted = taken(start, listings).to_multiset().add(
        pending_after(start, listings).to_multiset(),
    );
    let expected = start.to_multiset().add(found_dirs(listings).to_multiset());
    if listings.len() == 0 {
        lemma_nothing_counted(taken(start, listings));
        lemma_nothing_counted(found_dirs(listings));
        assert(counted =~= expected);
    } else {
        let earlier = listings.drop_last();
        let before = pending_after(start, earlier);
        let top = before.last();
        let dirs = listed_dirs(listings.last());
        lemma_run_keeps_count(start, earlier);
        // The directory on top moves from the stack to those taken off,
        // and the listed subdirectories join the stack.
        let below = before.drop_last();
        assert(before == below.push(top));
        to_multiset_build(below, top);
        to_multiset_build(taken(start, earlier), top);
        lemma_multiset_commutative(below, dirs);
        lemma_multiset_commutative(found_dirs(earlier), dirs);
        let was_counted = taken(start, earlier).to_multiset().add(before.to_multiset());
        let was_expected = start.to_multiset().add(found_dirs(earlier).to_multiset());
        assert forall|dir: Seq<char>| counted.count(dir) == expected.count(dir) by {
            assert(was_counted.count(dir) == was_expected.count(dir));
            assert(before.to_multiset().count(dir) == below.to_multiset().insert(top).count(dir));
        }
        assert(counted =~= expected);
    }
}

/// A traversal that began with the root alone and has emptied the stack
/// has listed the root and every directory that a listing reported, each
/// as often as it was reported: once, where no listing names it twice.
pub proof fn lemma_traversal_lists_each_directory_once(
    root: Seq<char>,
    listings: Seq<Seq<DirEntryInfo>>,
)
    requires
        runs(seq![root], listings),
        pending_after(seq![root], listings).len() == 0,
    ensures
        taken(seq![root], listings).to_multiset() == found_dirs(listings).to_multiset().insert(
            root,
        ),
{
    broadcast use vstd::multiset::group_multiset_axioms;

    lemma_run_keeps_count(seq![root], listings);
    lemma_nothing_counted(pending_after(seq![root], listings));
    lemma_nothing_counted(Seq::empty());
    assert(seq![root] == Seq::<Seq<char>>::empty().push(root));
    to_multiset_build(Seq::<Seq<char>>::empty(), root);
    let listed = taken(seq![root], listings).to_multiset();
    let counted = listed.add(pending_after(seq![root], listings).to_multiset());
    let expected = seq![root].to_multiset().add(found_dirs(listings).to_multiset());
    assert forall|dir: Seq<char>| listed.count(dir) == found_dirs(
        listings,
    ).to_multiset().insert(root).count(dir) by {
        assert(counted.count(dir) == expected.count(dir));
    }
    assert(listed =~= found_dirs(listings).to_multiset().insert(root));
}

} // verus!
