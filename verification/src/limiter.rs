//! Bounded admission: no more than a fixed number of files in flight.
//!
//! Before a file is admitted while the set is full, one completion is
//! awaited. Which file completes is of no account: only their number counts.

use vstd::prelude::*;

verus! {

/// The number of file units that were admitted and have not completed yet.
#[derive(Debug)]
pub struct InFlightSet {
    admitted: usize,
    max_concurrent: usize,
}

impl InFlightSet {
    /// The number of units in flight.
    pub closed spec fn size(&self) -> nat {
        self.admitted as nat
    }

    /// The ceiling that the set was made with.
    pub closed spec fn limit(&self) -> nat {
        self.max_concurrent as nat
    }

    /// The ceiling is positive, and the set holds no more than it allows.
    pub open spec fn wf(&self) -> bool {
        1 <= self.limit() && self.size() <= self.limit()
    }

    /// An empty set with the given ceiling; none where the ceiling is zero,
    /// since nothing could ever be admitted.
    pub fn new(max_concurrent: usize) -> (r: Option<InFlightSet>)
        ensures
            max_concurrent == 0 ==> r is None,
            max_concurrent > 0 ==> (r matches Some(set) && set.wf() && set.size() == 0
                && set.limit() == max_concurrent),
    {
        if max_concurrent == 0 {
            None
        } else {
            Some(InFlightSet { admitted: 0, max_concurrent })
        }
    }

    pub fn len(&self) -> (n: usize)
        ensures
            n == self.size(),
    {
        self.admitted
    }

    pub fn max_concurrent(&self) -> (n: usize)
        ensures
            n == self.limit(),
    {
        self.max_concurrent
    }

    /// No unit is in flight.
    pub fn is_empty(&self) -> (b: bool)
        ensures
            b == (self.size() == 0),
    {
        self.admitted == 0
    }

    /// The ceiling is reached: a completion must be awaited before the next
    /// unit is admitted.
    pub fn is_full(&self) -> (b: bool)
        ensures
            b == (self.size() >= self.limit()),
    {
        self.admitted >= self.max_concurrent
    }

    /// Admits one unit if the set has room for it, and says whether it did.
    /// A full set is left as it was.
    pub fn acquire(&mut self) -> (admitted: bool)
        requires
            old(self).wf(),
        ensures
            final(self).wf(),
            final(self).limit() == old(self).limit(),
            admitted == (old(self).size() < old(self).limit()),
            admitted ==> final(self).size() == old(self).size() + 1,
            !admitted ==> final(self).size() == old(self).size(),
    {
        if self.admitted < self.max_concurrent {
            self.admitted = self.admitted + 1;
            true
        } else {
            false
        }
    }

    /// Takes note that one unit has completed, and says whether there was
    /// one in flight. An empty set is left as it was.
    pub fn release(&mut self) -> (completed: bool)
        requires
            old(self).wf(),
        ensures
            final(self).wf(),
            final(self).limit() == old(self).limit(),
            completed == (old(self).size() > 0),
            completed ==> final(self).size() == old(self).size() - 1,
            !completed ==> final(self).size() == old(self).size(),
    {
        if self.admitted > 0 {
            self.admitted = self.admitted - 1;
            true
        } else {
            false
        }
    }
}

/// One step of the traversal of a directory's files, as contracts see it.
pub enum Step {
    /// Start the processing of the file at this path.
    Spawn(Seq<char>),
    /// Wait until one of the files in flight has completed.
    AwaitOne,
}

/// One step of the traversal of a directory's files.
#[derive(Debug, PartialEq, Eq)]
pub enum WalkStep {
    /// Start the processing of the file at this path.
    Spawn(String),
    /// Wait until one of the files in flight has completed.
    AwaitOne,
}

impl View for WalkStep {
    type V = Step;

    open spec fn view(&self) -> Step {
        match self {
            WalkStep::Spawn(path) => Step::Spawn(path@),
            WalkStep::AwaitOne => Step::AwaitOne,
        }
    }
}

/// The steps held by `steps`, as contracts see them.
pub open spec fn steps_of(steps: Seq<WalkStep>) -> Seq<Step> {
    steps.map_values(|s: WalkStep| s@)
}

/// The smaller of two numbers.
pub open spec fn at_most(n: nat, limit: nat) -> nat {
    if n <= limit {
        n
    } else {
        limit
    }
}

/// The steps that admit the file of index `i`: with `limit` or more files
/// before it the set is full, and one completion is awaited first.
pub open spec fn admission(files: Seq<Seq<char>>, limit: nat, i: int) -> Seq<Step> {
    if i >= limit {
        seq![Step::AwaitOne, Step::Spawn(files[i])]
    } else {
        seq![Step::Spawn(files[i])]
    }
}

/// The steps that admit all of `files`, in order.
pub open spec fn admissions(files: Seq<Seq<char>>, limit: nat) -> Seq<Step>
    decreases files.len(),
{
    if files.len() == 0 {
        Seq::empty()
    } else {
        admissions(files.drop_last(), limit) + admission(files, limit, files.len() - 1)
    }
}

/// As many waits as units are in flight.
pub open spec fn drain(in_flight: nat) -> Seq<Step> {
    Seq::new(in_flight, |i: int| Step::AwaitOne)
}

/// The steps for the files of one directory: each file is admitted in turn,
/// then every unit still in flight is awaited.
pub open spec fn schedule(files: Seq<Seq<char>>, limit: nat) -> Seq<Step> {
    admissions(files, limit) + drain(at_most(files.len(), limit))
}

/// The number of units in flight after `steps`: one more for each spawn, one
/// less for each wait.
pub open spec fn in_flight_after(steps: Seq<Step>) -> int
    decreases steps.len(),
{
    if steps.len() == 0 {
        0
    } else {
        in_flight_after(steps.drop_last()) + match steps.last() {
            Step::Spawn(_) => 1int,
            Step::AwaitOne => -1int,
        }
    }
}

/// The paths that `steps` spawn, in order.
pub open spec fn spawned(steps: Seq<Step>) -> Seq<Seq<char>>
    decreases steps.len(),
{
    if steps.len() == 0 {
        Seq::empty()
    } else {
        match steps.last() {
            Step::Spawn(path) => spawned(steps.drop_last()).push(path),
            Step::AwaitOne => spawned(steps.drop_last()),
        }
    }
}

/// The units in flight after two runs of steps are those after the first
/// and those after the second, added.
pub proof fn lemma_in_flight_after_concat(a: Seq<Step>, b: Seq<Step>)
    ensures
        in_flight_after(a + b) == in_flight_after(a) + in_flight_after(b),
    decreases b.len(),
{
    if b.len() > 0 {
        assert((a + b).drop_last() == a + b.drop_last());
        lemma_in_flight_after_concat(a, b.drop_last());
    }
}

/// What two runs of steps spawn is what the first spawns, then what the
/// second spawns.
pub proof fn lemma_spawned_concat(a: Seq<Step>, b: Seq<Step>)
    ensures
        spawned(a + b) == spawned(a) + spawned(b),
    decreases b.len(),
{
    if b.len() > 0 {
        assert((a + b).drop_last() == a + b.drop_last());
        lemma_spawned_concat(a, b.drop_last());
    }
}

/// Draining `n` units takes `n` units out of flight and spawns nothing.
pub proof fn lemma_drain(n: nat)
    ensures
        in_flight_after(drain(n)) == -(n as int),
        spawned(drain(n)) == Seq::<Seq<char>>::empty(),
    decreases n,
{
    if n > 0 {
        assert(drain(n).drop_last() == drain((n - 1) as nat));
        lemma_drain((n - 1) as nat);
    }
}

/// The steps that admit one file leave one unit more in flight if the set
/// had room, and as many as before if it was full; they spawn that file.
pub proof fn lemma_admission(files: Seq<Seq<char>>, limit: nat, i: int)
    requires
        0 <= i < files.len(),
    ensures
        in_flight_after(admission(files, limit, i)) == if i >= limit {
            0int
        } else {
            1int
        },
        spawned(admission(files, limit, i)) == seq![files[i]],
{
    // One or two steps: the definitions are unfolded once for each.
    reveal_with_fuel(in_flight_after, 3);
    reveal_with_fuel(spawned, 3);
}

/// Once all files are admitted, as many units are in flight as there are
/// files, or as the ceiling allows if that is less; each file was spawned
/// once, in listing order.
pub proof fn lemma_admissions(files: Seq<Seq<char>>, limit: nat)
    requires
        limit >= 1,
    ensures
        in_flight_after(admissions(files, limit)) == at_most(files.len(), limit),
        spawned(admissions(files, limit)) == files,
    decreases files.len(),
{
    if files.len() > 0 {
        let before = files.drop_last();
        let i = files.len() - 1;
        lemma_admissions(before, limit);
        lemma_admission(files, limit, i);
        lemma_in_flight_after_concat(admissions(before, limit), admission(files, limit, i));
        lemma_spawned_concat(admissions(before, limit), admission(files, limit, i));
    }
}

/// While the files of a directory are admitted, the number of units in
/// flight never exceeds the ceiling, and never falls below zero: this holds
/// after every step of the admissions.
pub proof fn lemma_admissions_bounded(files: Seq<Seq<char>>, limit: nat, k: int)
    requires
        limit >= 1,
        0 <= k <= admissions(files, limit).len(),
    ensures
        0 <= in_flight_after(admissions(files, limit).take(k)) <= limit,
    decreases files.len(),
{
    if files.len() > 0 {
        let before = admissions(files.drop_last(), limit);
        let i = files.len() - 1;
        let last = admission(files, limit, i);
        if k <= before.len() {
            assert((before + last).take(k) == before.take(k));
            lemma_admissions_bounded(files.drop_last(), limit, k);
        } else {
            let j = k - before.len();
            assert((before + last).take(k) == before + last.take(j));
            lemma_admissions(files.drop_last(), limit);
            lemma_in_flight_after_concat(before, last.take(j));
            if j == last.len() {
                assert(last.take(j) == last);
                lemma_admission(files, limit, i);
            } else {
                // The set was full, and so far one completion was awaited.
                reveal_with_fuel(in_flight_after, 2);
            }
        }
    }
}

/// The bound of admission: after every step of the schedule of a directory,
/// the number of units in flight lies between zero and the ceiling.
pub proof fn lemma_schedule_bounded(files: Seq<Seq<char>>, limit: nat, k: int)
    requires
        limit >= 1,
        0 <= k <= schedule(files, limit).len(),
    ensures
        0 <= in_flight_after(schedule(files, limit).take(k)) <= limit,
{
    let adm = admissions(files, limit);
    let held = at_most(files.len(), limit);
    if k <= adm.len() {
        assert((adm + drain(held)).take(k) == adm.take(k));
        lemma_admissions_bounded(files, limit, k);
    } else {
        let j = (k - adm.len()) as nat;
        assert((adm + drain(held)).take(k) == adm + drain(j));
        lemma_admissions(files, limit);
        lemma_drain(j);
        lemma_in_flight_after_concat(adm, drain(j));
    }
}

/// The schedule of a directory spawns each of its files once, in listing
/// order, and leaves no unit in flight.
pub proof fn lemma_schedule_complete(files: Seq<Seq<char>>, limit: nat)
    requires
        limit >= 1,
    ensures
        spawned(schedule(files, limit)) == files,
        in_flight_after(schedule(files, limit)) == 0,
{
    let adm = admissions(files, limit);
    let held = at_most(files.len(), limit);
    lemma_admissions(files, limit);
    lemma_drain(held);
    lemma_in_flight_after_concat(adm, drain(held));
    lemma_spawned_concat(adm, drain(held));
}

} // verus!
