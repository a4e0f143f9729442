//! The scheduler: which unit may be built next.
//!
//! An edge from a dependency to its dependent is early or done. Over an early edge the dependent
//! may start as soon as the dependency signals in the middle of its build; over a done edge it
//! waits until the dependency is committed.
use crate::counts;
use crate::topo;
use vstd::prelude::*;

verus! {

/// Where a unit stands.
#[derive(Clone, Copy, PartialEq, Eq, Structural, Debug)]
pub enum Status {
    /// Not scheduled: it was cached from the start.
    Idle,
    /// Something it depends on is not far enough.
    Waiting,
    /// It can be taken.
    Ready,
    /// A worker has taken it and not yet decided what to do.
    Taken,
    /// It is being built.
    Running,
    /// It is built, or was found in the cache.
    Done,
    /// Its build failed.
    Failed,
}

/// The state that all workers share. Units are numbered.
pub struct SharedState {
    pub status: Vec<Status>,
    /// The units that can be taken; the last is taken first.
    pub ready: Vec<usize>,
    /// For each unit, how many early edges it waits for.
    pub pending_early: Vec<usize>,
    /// For each unit, how many done edges it waits for.
    pub pending_done: Vec<usize>,
    /// For each unit, the dependencies over early edges.
    pub early_deps: Vec<Vec<usize>>,
    /// For each unit, the dependencies over done edges.
    pub done_deps: Vec<Vec<usize>>,
    /// For each unit, those that wait for its signal.
    pub early_dependents: Vec<Vec<usize>>,
    /// For each unit, those that wait for its completion.
    pub done_dependents: Vec<Vec<usize>>,
    /// The units that have signalled. A unit may signal in the middle of its build and again at
    /// its end; its dependents count it once.
    pub early_fired: Vec<bool>,
    pub succeeded: usize,
    pub late_cached: usize,
    pub failed: usize,
    pub abort: bool,
    pub in_flight: usize,
}

/// The numbers at which a flag is set.
pub open spec fn flagged(v: Seq<bool>) -> Set<usize> {
    Set::new(|x: usize| x < v.len() && v[x as int])
}

/// The units with a status.
pub open spec fn with_status(v: Seq<Status>, k: Status) -> Set<usize> {
    Set::new(|x: usize| x < v.len() && v[x as int] == k)
}

/// Nothing holds unit `x` back where the units in `ef` have signalled and those in `df` are done.
pub open spec fn free(
    ed: Seq<Seq<usize>>,
    dd: Seq<Seq<usize>>,
    ef: Set<usize>,
    df: Set<usize>,
    x: usize,
) -> bool {
    counts::missing(ed[x as int], ef) == 0 && counts::missing(dd[x as int], df) == 0
}

impl SharedState {
    /// The edges fit together.
    pub open spec fn shape(&self) -> bool {
        let n = self.status@.len();
        let ed = topo::lists(self.early_deps@);
        let dd = topo::lists(self.done_deps@);
        &&& self.pending_early@.len() == n
        &&& self.pending_done@.len() == n
        &&& self.early_fired@.len() == n
        &&& ed.len() == n
        &&& dd.len() == n
        &&& topo::closed_graph(ed)
        &&& topo::closed_graph(dd)
        &&& topo::is_reverse(ed, topo::lists(self.early_dependents@))
        &&& topo::is_reverse(dd, topo::lists(self.done_dependents@))
        &&& topo::rows_ascend(topo::lists(self.early_dependents@))
        &&& topo::rows_ascend(topo::lists(self.done_dependents@))
    }

    /// The counts and the ready list are what they should be where the units in `ef` have
    /// signalled and those in `df` are done.
    pub open spec fn counted(&self, ef: Set<usize>, df: Set<usize>) -> bool {
        let n = self.status@.len();
        let ed = topo::lists(self.early_deps@);
        let dd = topo::lists(self.done_deps@);
        &&& forall|x: usize|
            x < n && #[trigger] self.status@[x as int] == Status::Waiting ==> {
                &&& self.pending_early@[x as int] == counts::missing(ed[x as int], ef)
                &&& self.pending_done@[x as int] == counts::missing(dd[x as int], df)
                &&& !free(ed, dd, ef, df, x)
            }
        &&& forall|x: usize|
            x < n && #[trigger] self.status@[x as int] != Status::Waiting ==> free(ed, dd, ef, df, x)
        &&& self.ready@.no_duplicates()
        &&& forall|k: int| 0 <= k < self.ready@.len() ==> (#[trigger] self.ready@[k]) < n
        &&& forall|x: usize|
            x < n ==> (#[trigger] self.ready@.contains(x) <==> self.status@[x as int]
                == Status::Ready)
    }

    /// Nothing but the ready list, the counts and the status of units that have become ready
    /// has changed.
    pub open spec fn released(&self, from: &Self, ef: Set<usize>, df: Set<usize>) -> bool {
        let n = from.status@.len();
        let ed = topo::lists(from.early_deps@);
        let dd = topo::lists(from.done_deps@);
        let k = from.ready@.len();
        &&& self.early_deps == from.early_deps
        &&& self.done_deps == from.done_deps
        &&& self.early_dependents == from.early_dependents
        &&& self.done_dependents == from.done_dependents
        &&& self.succeeded == from.succeeded
        &&& self.late_cached == from.late_cached
        &&& self.failed == from.failed
        &&& self.abort == from.abort
        &&& self.in_flight == from.in_flight
        &&& self.status@.len() == n
        &&& forall|x: usize|
            x < n ==> #[trigger] self.status@[x as int] == if from.status@[x as int]
                == Status::Waiting && free(ed, dd, ef, df, x) {
                Status::Ready
            } else {
                from.status@[x as int]
            }
        &&& self.ready@.len() >= k
        &&& self.ready@.take(k as int) == from.ready@
        &&& forall|i: int, j: int|
            k <= i < j < self.ready@.len() ==> #[trigger] self.ready@[i] < #[trigger] self.ready@[j]
    }

    /// Moves a waiting unit to the ready list if nothing holds it back.
    fn maybe_ready(&mut self, x: usize)
        requires
            x < old(self).status@.len(),
            old(self).pending_early@.len() == old(self).status@.len(),
            old(self).pending_done@.len() == old(self).status@.len(),
        ensures
            *final(self) == (SharedState {
                status: final(self).status,
                ready: final(self).ready,
                ..*old(self)
            }),
            if old(self).status@[x as int] == Status::Waiting && old(self).pending_early@[x as int]
                == 0 && old(self).pending_done@[x as int] == 0 {
                &&& final(self).status@ == old(self).status@.update(x as int, Status::Ready)
                &&& final(self).ready@ == old(self).ready@.push(x)
            } else {
                &&& final(self).status@ == old(self).status@
                &&& final(self).ready@ == old(self).ready@
            },
    {
        if self.status[x] == Status::Waiting && self.pending_early[x] == 0 && self.pending_done[x]
            == 0 {
            self.status.set(x, Status::Ready);
            self.ready.push(x);
        }
    }
}

impl SharedState {
    /// Counts unit `d` as signalled with all that wait for it.
    fn release_early(&mut self, d: usize, Ghost(ef): Ghost<Set<usize>>, Ghost(df): Ghost<Set<usize>>)
        requires
            old(self).shape(),
            old(self).counted(ef, df),
            d < old(self).status@.len(),
            !ef.contains(d),
        ensures
            final(self).shape(),
            final(self).early_fired == old(self).early_fired,
            final(self).counted(ef.insert(d), df),
            final(self).released(old(self), ef.insert(d), df),
    {
        let n: usize = self.status.len();
        let ghost ed = topo::lists(self.early_deps@);
        let ghost dd = topo::lists(self.done_deps@);
        let ghost l = topo::lists(self.early_dependents@)[d as int];
        let ghost r0 = self.ready@.len();
        let m: usize = self.early_dependents[d].len();
        let mut j: usize = 0;
        proof {
            assert(l.take(0) =~= Seq::empty());
            assert(self.ready@.take(r0 as int) =~= self.ready@);
            assert forall|x: usize|
                x < n && #[trigger] self.status@[x as int] != Status::Waiting implies free(ed, dd, ef.insert(d), df, x)
                && counts::occurrences(l, x) == 0 by {
                counts::missing_less(ed[x as int], ef, d);
                assert(counts::occurrences(l, x) == counts::occurrences(ed[x as int], d));
            }
        }
        while j < m
            invariant
                j <= m,
                m == l.len(),
                n == self.status@.len(),
                d < n,
                !ef.contains(d),
                self.shape(),
                ed == topo::lists(self.early_deps@),
                dd == topo::lists(self.done_deps@),
                l == topo::lists(self.early_dependents@)[d as int],
                r0 == old(self).ready@.len(),
                old(self).status@.len() == n,
                *self == (SharedState {
                    status: self.status,
                    ready: self.ready,
                    pending_early: self.pending_early,
                    ..*old(self)
                }),
                forall|x: usize|
                    x < n && #[trigger] self.status@[x as int] == Status::Waiting ==> {
                        &&& self.pending_early@[x as int] + counts::occurrences(l.take(j as int), x)
                            == counts::missing(ed[x as int], ef)
                        &&& self.pending_done@[x as int] == counts::missing(dd[x as int], df)
                        &&& !(self.pending_early@[x as int] == 0 && self.pending_done@[x as int] == 0)
                    },
                forall|x: usize|
                    x < n && #[trigger] self.status@[x as int] != Status::Waiting ==> free(ed, dd, ef.insert(d), df, x)
                        && counts::occurrences(l.take(j as int), x) == counts::occurrences(l, x),
                self.ready@.no_duplicates(),
                forall|k: int| 0 <= k < self.ready@.len() ==> (#[trigger] self.ready@[k]) < n,
                forall|x: usize|
                    x < n ==> (#[trigger] self.ready@.contains(x) <==> self.status@[x as int]
                        == Status::Ready),
                forall|x: usize|
                    x < n ==> (#[trigger] self.status@[x as int] == old(self).status@[x as int] || (
                    old(self).status@[x as int] == Status::Waiting && self.status@[x as int]
                        == Status::Ready)),
                self.ready@.len() >= r0,
                self.ready@.take(r0 as int) == old(self).ready@,
                forall|a: int, b: int|
                    r0 <= a < b < self.ready@.len() ==> #[trigger] self.ready@[a]
                        < #[trigger] self.ready@[b],
                forall|a: int, b: int|
                    r0 <= a < self.ready@.len() && j <= b < l.len() ==> #[trigger] self.ready@[a]
                        < #[trigger] l[b],
            decreases m - j,
        {
            let x: usize = self.early_dependents[d][j];
            let ghost s0 = *self;
            proof {
                assert(l[j as int] == x);
                counts::occurrences_step(l, j as int, x);
                counts::occurrences_of_prefix(l, j + 1, x);
                counts::missing_less(ed[x as int], ef, d);
                assert(counts::occurrences(l, x) == counts::occurrences(ed[x as int], d));
                assert(self.status@[x as int] == Status::Waiting);
            }
            let c: usize = self.pending_early[x];
            self.pending_early.set(x, c - 1);
            self.maybe_ready(x);
            proof {
                let s1 = *self;
                let now = s1.status@[x as int] == Status::Ready;
                assert forall|y: usize| y < n && #[trigger] s1.status@[y as int] == Status::Waiting implies {
                    &&& s1.pending_early@[y as int] + counts::occurrences(l.take(j + 1), y)
                        == counts::missing(ed[y as int], ef)
                    &&& s1.pending_done@[y as int] == counts::missing(dd[y as int], df)
                    &&& !(s1.pending_early@[y as int] == 0 && s1.pending_done@[y as int] == 0)
                } by {
                    assert(s0.status@[y as int] == Status::Waiting);
                    counts::occurrences_step(l, j as int, y);
                }
                assert forall|y: usize| y < n && #[trigger] s1.status@[y as int] != Status::Waiting implies free(ed, dd, ef.insert(d), df, y)
                    && counts::occurrences(l.take(j + 1), y) == counts::occurrences(l, y) by {
                    counts::occurrences_step(l, j as int, y);
                    counts::occurrences_of_prefix(l, j + 1, y);
                    if y != x {
                        assert(s0.status@[y as int] != Status::Waiting);
                    }
                }
                if now {
                    assert(s1.ready@ == s0.ready@.push(x));
                    assert(!s0.ready@.contains(x)) by {
                        assert(s0.status@[x as int] == Status::Waiting);
                    }
                    assert forall|y: usize| y < n implies (#[trigger] s1.ready@.contains(y)
                        <==> s1.status@[y as int] == Status::Ready) by {
                        assert(s0.ready@.contains(y) <==> s0.status@[y as int] == Status::Ready);
                        crate::graph::pushed(s0.ready@, x, y);
                    }
                    assert forall|a: int, b: int|
                        r0 <= a < s1.ready@.len() && j + 1 <= b < l.len() implies #[trigger] s1.ready@[a]
                        < #[trigger] l[b] by {
                        if a < s0.ready@.len() {
                            assert(s0.ready@[a] < l[b]);
                        } else {
                            assert(topo::lists(s0.early_dependents@)[d as int][j as int] <= topo::lists(
                                s0.early_dependents@,
                            )[d as int][b]);
                            assert(s1.status@[x as int] != Status::Waiting);
                            counts::no_more(l, j + 1, b, x);
                        }
                    }
                    assert forall|a: int, b: int| r0 <= a < b < s1.ready@.len() implies
                        #[trigger] s1.ready@[a] < #[trigger] s1.ready@[b] by {
                        if b == s0.ready@.len() {
                            assert(s0.ready@[a] < l[j as int]);
                        }
                    }
                    assert(s1.ready@.take(r0 as int) =~= s0.ready@.take(r0 as int));
                }
            }
            j = j + 1;
        }
        proof {
            assert(l.take(m as int) =~= l);
            assert forall|x: usize| x < n && #[trigger] self.status@[x as int] == Status::Waiting implies {
                &&& self.pending_early@[x as int] == counts::missing(ed[x as int], ef.insert(d))
                &&& !free(ed, dd, ef.insert(d), df, x)
            } by {
                counts::missing_less(ed[x as int], ef, d);
                assert(counts::occurrences(l, x) == counts::occurrences(ed[x as int], d));
            }
        }
    }

    /// Counts unit `d` as done with all that wait for it.
    fn release_done(&mut self, d: usize, Ghost(ef): Ghost<Set<usize>>, Ghost(df): Ghost<Set<usize>>)
        requires
            old(self).shape(),
            old(self).counted(ef, df),
            d < old(self).status@.len(),
            !df.contains(d),
        ensures
            final(self).shape(),
            final(self).early_fired == old(self).early_fired,
            final(self).counted(ef, df.insert(d)),
            final(self).released(old(self), ef, df.insert(d)),
    {
        let n: usize = self.status.len();
        let ghost ed = topo::lists(self.early_deps@);
        let ghost dd = topo::lists(self.done_deps@);
        let ghost l = topo::lists(self.done_dependents@)[d as int];
        let ghost r0 = self.ready@.len();
        let m: usize = self.done_dependents[d].len();
        let mut j: usize = 0;
        proof {
            assert(l.take(0) =~= Seq::empty());
            assert(self.ready@.take(r0 as int) =~= self.ready@);
            assert forall|x: usize|
                x < n && #[trigger] self.status@[x as int] != Status::Waiting implies free(ed, dd, ef, df.insert(d), x)
                && counts::occurrences(l, x) == 0 by {
                counts::missing_less(dd[x as int], df, d);
                assert(counts::occurrences(l, x) == counts::occurrences(dd[x as int], d));
            }
        }
        while j < m
            invariant
                j <= m,
                m == l.len(),
                n == self.status@.len(),
                d < n,
                !df.contains(d),
                self.shape(),
                ed == topo::lists(self.early_deps@),
                dd == topo::lists(self.done_deps@),
                l == topo::lists(self.done_dependents@)[d as int],
                r0 == old(self).ready@.len(),
                old(self).status@.len() == n,
                *self == (SharedState {
                    status: self.status,
                    ready: self.ready,
                    pending_done: self.pending_done,
                    ..*old(self)
                }),
                forall|x: usize|
                    x < n && #[trigger] self.status@[x as int] == Status::Waiting ==> {
                        &&& self.pending_done@[x as int] + counts::occurrences(l.take(j as int), x)
                            == counts::missing(dd[x as int], df)
                        &&& self.pending_early@[x as int] == counts::missing(ed[x as int], ef)
                        &&& !(self.pending_done@[x as int] == 0 && self.pending_early@[x as int] == 0)
                    },
                forall|x: usize|
                    x < n && #[trigger] self.status@[x as int] != Status::Waiting ==> free(ed, dd, ef, df.insert(d), x)
                        && counts::occurrences(l.take(j as int), x) == counts::occurrences(l, x),
                self.ready@.no_duplicates(),
                forall|k: int| 0 <= k < self.ready@.len() ==> (#[trigger] self.ready@[k]) < n,
                forall|x: usize|
                    x < n ==> (#[trigger] self.ready@.contains(x) <==> self.status@[x as int]
                        == Status::Ready),
                forall|x: usize|
                    x < n ==> (#[trigger] self.status@[x as int] == old(self).status@[x as int] || (
                    old(self).status@[x as int] == Status::Waiting && self.status@[x as int]
                        == Status::Ready)),
                self.ready@.len() >= r0,
                self.ready@.take(r0 as int) == old(self).ready@,
                forall|a: int, b: int|
                    r0 <= a < b < self.ready@.len() ==> #[trigger] self.ready@[a]
                        < #[trigger] self.ready@[b],
                forall|a: int, b: int|
                    r0 <= a < self.ready@.len() && j <= b < l.len() ==> #[trigger] self.ready@[a]
                        < #[trigger] l[b],
            decreases m - j,
        {
            let x: usize = self.done_dependents[d][j];
            let ghost s0 = *self;
            proof {
                assert(l[j as int] == x);
                counts::occurrences_step(l, j as int, x);
                counts::occurrences_of_prefix(l, j + 1, x);
                counts::missing_less(dd[x as int], df, d);
                assert(counts::occurrences(l, x) == counts::occurrences(dd[x as int], d));
                assert(self.status@[x as int] == Status::Waiting);
            }
            let c: usize = self.pending_done[x];
            self.pending_done.set(x, c - 1);
            self.maybe_ready(x);
            proof {
                let s1 = *self;
                let now = s1.status@[x as int] == Status::Ready;
                assert forall|y: usize| y < n && #[trigger] s1.status@[y as int] == Status::Waiting implies {
                    &&& s1.pending_done@[y as int] + counts::occurrences(l.take(j + 1), y)
                        == counts::missing(dd[y as int], df)
                    &&& s1.pending_early@[y as int] == counts::missing(ed[y as int], ef)
                    &&& !(s1.pending_done@[y as int] == 0 && s1.pending_early@[y as int] == 0)
                } by {
                    assert(s0.status@[y as int] == Status::Waiting);
                    counts::occurrences_step(l, j as int, y);
                }
                assert forall|y: usize| y < n && #[trigger] s1.status@[y as int] != Status::Waiting implies free(ed, dd, ef, df.insert(d), y)
                    && counts::occurrences(l.take(j + 1), y) == counts::occurrences(l, y) by {
                    counts::occurrences_step(l, j as int, y);
                    counts::occurrences_of_prefix(l, j + 1, y);
                    if y != x {
                        assert(s0.status@[y as int] != Status::Waiting);
                    }
                }
                if now {
                    assert(s1.ready@ == s0.ready@.push(x));
                    assert(!s0.ready@.contains(x)) by {
                        assert(s0.status@[x as int] == Status::Waiting);
                    }
                    assert forall|y: usize| y < n implies (#[trigger] s1.ready@.contains(y)
                        <==> s1.status@[y as int] == Status::Ready) by {
                        assert(s0.ready@.contains(y) <==> s0.status@[y as int] == Status::Ready);
                        crate::graph::pushed(s0.ready@, x, y);
                    }
                    assert forall|a: int, b: int|
                        r0 <= a < s1.ready@.len() && j + 1 <= b < l.len() implies #[trigger] s1.ready@[a]
                        < #[trigger] l[b] by {
                        if a < s0.ready@.len() {
                            assert(s0.ready@[a] < l[b]);
                        } else {
                            assert(topo::lists(s0.done_dependents@)[d as int][j as int] <= topo::lists(
                                s0.done_dependents@,
                            )[d as int][b]);
                            assert(s1.status@[x as int] != Status::Waiting);
                            counts::no_more(l, j + 1, b, x);
                        }
                    }
                    assert forall|a: int, b: int| r0 <= a < b < s1.ready@.len() implies
                        #[trigger] s1.ready@[a] < #[trigger] s1.ready@[b] by {
                        if b == s0.ready@.len() {
                            assert(s0.ready@[a] < l[j as int]);
                        }
                    }
                    assert(s1.ready@.take(r0 as int) =~= s0.ready@.take(r0 as int));
                }
            }
            j = j + 1;
        }
        proof {
            assert(l.take(m as int) =~= l);
            assert forall|x: usize| x < n && #[trigger] self.status@[x as int] == Status::Waiting implies {
                &&& self.pending_done@[x as int] == counts::missing(dd[x as int], df.insert(d))
                &&& !free(ed, dd, ef, df.insert(d), x)
            } by {
                counts::missing_less(dd[x as int], df, d);
                assert(counts::occurrences(l, x) == counts::occurrences(dd[x as int], d));
            }
        }
    }
}

/// What a worker is told.
#[derive(Clone, Copy, PartialEq, Eq, Structural, Debug)]
pub enum Next {
    /// Nothing is left to do, or a build failed.
    Stop,
    /// Others are building; something may become ready.
    Wait,
    /// The unit to look at.
    Unit(usize),
}

/// A unit that has signalled is being built or has been.
pub open spec fn begun(k: Status) -> bool {
    k == Status::Running || k == Status::Done || k == Status::Failed
}

impl SharedState {
    /// The units that have signalled.
    pub open spec fn fired(&self) -> Set<usize> {
        flagged(self.early_fired@)
    }

    /// The units that are done.
    pub open spec fn done(&self) -> Set<usize> {
        with_status(self.status@, Status::Done)
    }

    /// Only scheduled units have edges, and only to scheduled units. Only a unit whose build began
    /// has signalled, and every done unit has. The counters count.
    pub open spec fn consistent(&self) -> bool {
        let n = self.status@.len();
        let ed = topo::lists(self.early_deps@);
        let dd = topo::lists(self.done_deps@);
        &&& forall|x: usize|
            x < n && #[trigger] self.status@[x as int] == Status::Idle ==> ed[x as int].len() == 0
                && dd[x as int].len() == 0
        &&& forall|x: usize, d: usize|
            x < n && (#[trigger] topo::depends(ed, x, d)) ==> self.status@[d as int] != Status::Idle
        &&& forall|x: usize, d: usize|
            x < n && (#[trigger] topo::depends(dd, x, d)) ==> self.status@[d as int] != Status::Idle
        &&& forall|x: usize|
            x < n && #[trigger] self.early_fired@[x as int] ==> begun(self.status@[x as int])
        &&& forall|x: usize|
            x < n && #[trigger] self.status@[x as int] == Status::Done
                ==> self.early_fired@[x as int]
        &&& self.in_flight == counts::tally(self.status@, Status::Running)
        &&& self.failed == counts::tally(self.status@, Status::Failed)
        &&& self.succeeded + self.late_cached == counts::tally(self.status@, Status::Done)
        &&& self.abort == (self.failed > 0)
    }

    /// The state is well-formed.
    pub open spec fn wf(&self) -> bool {
        &&& self.shape()
        &&& self.counted(self.fired(), self.done())
        &&& self.consistent()
    }

    /// Nothing is left to do: a build failed, or nothing is ready and nothing is being built.
    pub open spec fn is_over(&self) -> bool {
        self.abort || (self.ready@.len() == 0 && self.in_flight == 0)
    }

    /// Tells whether nothing is left to do.
    pub fn all_done(&self) -> (r: bool)
        ensures
            r == self.is_over(),
    {
        self.abort || (self.ready.len() == 0 && self.in_flight == 0)
    }

    /// Tells a worker what to do, and hands it the last ready unit if there is one.
    pub fn next(&mut self) -> (r: Next)
        requires
            old(self).wf(),
        ensures
            final(self).wf(),
            match r {
                Next::Stop => old(self).is_over() && *final(self) == *old(self),
                Next::Wait => !old(self).is_over() && old(self).ready@.len() == 0 && *final(self)
                    == *old(self),
                Next::Unit(x) => {
                    &&& !old(self).is_over()
                    &&& old(self).ready@.len() > 0
                    &&& x == old(self).ready@.last()
                    &&& x < old(self).status@.len()
                    &&& final(self).ready@ == old(self).ready@.drop_last()
                    &&& final(self).status@ == old(self).status@.update(x as int, Status::Taken)
                    &&& *final(self) == (SharedState {
                        status: final(self).status,
                        ready: final(self).ready,
                        ..*old(self)
                    })
                },
            },
    {
        if self.all_done() {
            return Next::Stop;
        }
        if self.ready.len() == 0 {
            return Next::Wait;
        }
        match self.ready.pop() {
            None => Next::Wait,
            Some(x) => {
                let ghost s0 = *old(self);
                proof {
                    assert(s0.ready@[s0.ready@.len() - 1] == x);
                    assert(s0.ready@.contains(x));
                }
                self.status.set(x, Status::Taken);
                proof {
                    retally(s0.status@, x as int, Status::Taken);
                    assert(self.done() =~= s0.done());
                    assert forall|y: usize| y < self.status@.len() implies (
                    #[trigger] self.ready@.contains(y) <==> self.status@[y as int]
                        == Status::Ready) by {
                        assert(s0.ready@.contains(y) <==> s0.status@[y as int] == Status::Ready);
                        assert(s0.ready@ =~= self.ready@.push(x));
                        crate::graph::pushed(self.ready@, x, y);
                        if y == x && self.ready@.contains(x) {
                            let i = choose|i: int| 0 <= i < self.ready@.len() && self.ready@[i] == x;
                            assert(s0.ready@[i] == s0.ready@[s0.ready@.len() - 1]);
                        }
                    }
                    assert forall|y: usize| y < self.status@.len() && #[trigger] self.status@[y as int]
                        != Status::Waiting implies free(
                        topo::lists(self.early_deps@),
                        topo::lists(self.done_deps@),
                        self.fired(),
                        self.done(),
                        y,
                    ) by {
                        assert(s0.status@[y as int] != Status::Waiting);
                    }
                }
                Next::Unit(x)
            },
        }
    }
}

/// What one changed status does to the tallies.
proof fn retally(s: Seq<Status>, i: int, v: Status)
    requires
        0 <= i < s.len(),
    ensures
        forall|k: Status| #[trigger]
            counts::tally(s.update(i, v), k) + (if s[i] == k { 1nat } else { 0nat }) == counts::tally(
                s,
                k,
            ) + (if v == k { 1nat } else { 0nat }),
        forall|k: Status| #[trigger] counts::tally(s.update(i, v), k) <= s.len(),
{
    assert forall|k: Status| #[trigger]
        counts::tally(s.update(i, v), k) + (if s[i] == k { 1nat } else { 0nat }) == counts::tally(
        s,
        k,
    ) + (if v == k { 1nat } else { 0nat }) by {
        counts::tally_update(s, i, v, k);
    }
    assert forall|k: Status| #[trigger] counts::tally(s.update(i, v), k) <= s.len() by {
        counts::tally_none(s.update(i, v), k);
    }
}

/// Making units ready keeps what is consistent.
proof fn release_is_consistent(
    a: &SharedState,
    b: &SharedState,
    ef: Set<usize>,
    df: Set<usize>,
)
    requires
        a.shape(),
        a.consistent(),
        b.released(a, ef, df),
        b.early_fired == a.early_fired,
    ensures
        b.consistent(),
        b.done() == a.done(),
{
    let s = a.status@;
    let t = b.status@;
    assert(s.len() == a.status.len());
    assert forall|i: int, k: Status|
        0 <= i < s.len() && k != Status::Waiting && k != Status::Ready implies (#[trigger] s[i] == k
        <==> #[trigger] same(t[i], k)) by {
        assert(t[i as usize as int] == if s[i as usize as int] == Status::Waiting && free(
            topo::lists(a.early_deps@),
            topo::lists(a.done_deps@),
            ef,
            df,
            i as usize,
        ) {
            Status::Ready
        } else {
            s[i as usize as int]
        });
    }
    tally_kept(s, t, Status::Running);
    tally_kept(s, t, Status::Failed);
    tally_kept(s, t, Status::Done);
    assert forall|x: usize| #[trigger] b.done().contains(x) <==> a.done().contains(x) by {
        if x < s.len() {
            assert(s[x as int] == Status::Done <==> same(t[x as int], Status::Done));
        }
    }
    assert(b.done() =~= a.done());
    assert forall|x: usize| x < t.len() && #[trigger] t[x as int] == Status::Idle implies
        topo::lists(b.early_deps@)[x as int].len() == 0 && topo::lists(
        b.done_deps@,
    )[x as int].len() == 0 by {
        assert(s[x as int] == Status::Idle <==> same(t[x as int], Status::Idle));
    }
    assert forall|x: usize, d: usize|
        x < t.len() && (#[trigger] topo::depends(
            topo::lists(b.early_deps@),
            x,
            d,
        )) implies t[d as int] != Status::Idle by {
        dependency_is_unit(topo::lists(b.early_deps@), x, d);
        assert(s[d as int] == Status::Idle <==> same(t[d as int], Status::Idle));
    }
    assert forall|x: usize, d: usize|
        x < t.len() && (#[trigger] topo::depends(
            topo::lists(b.done_deps@),
            x,
            d,
        )) implies t[d as int] != Status::Idle by {
        dependency_is_unit(topo::lists(b.done_deps@), x, d);
        assert(s[d as int] == Status::Idle <==> same(t[d as int], Status::Idle));
    }
    assert forall|x: usize| x < t.len() && #[trigger] b.early_fired@[x as int] implies begun(
        t[x as int],
    ) by {
        assert(a.early_fired@[x as int]);
        assert(s[x as int] == Status::Running <==> same(t[x as int], Status::Running));
        assert(s[x as int] == Status::Done <==> same(t[x as int], Status::Done));
        assert(s[x as int] == Status::Failed <==> same(t[x as int], Status::Failed));
    }
    assert forall|x: usize| x < t.len() && #[trigger] t[x as int] == Status::Done implies
        b.early_fired@[x as int] by {
        assert(s[x as int] == Status::Done <==> same(t[x as int], Status::Done));
    }
}

/// Two statuses are the same.
spec fn same(a: Status, b: Status) -> bool {
    a == b
}

proof fn tally_kept(s: Seq<Status>, t: Seq<Status>, k: Status)
    requires
        s.len() == t.len(),
        forall|i: int| 0 <= i < s.len() ==> (#[trigger] s[i] == k <==> #[trigger] same(t[i], k)),
    ensures
        counts::tally(s, k) == counts::tally(t, k),
{
    assert forall|i: int| 0 <= i < s.len() implies (#[trigger] s[i] == k <==> t[i] == k) by {
        assert(same(t[i], k) <==> t[i] == k);
    }
    counts::tally_same(s, t, k);
}

proof fn dependency_is_unit(deps: Seq<Seq<usize>>, x: usize, d: usize)
    requires
        topo::closed_graph(deps),
        topo::depends(deps, x, d),
    ensures
        d < deps.len(),
{
    let row = deps[x as int];
    let j = choose|j: int| 0 <= j < row.len() && row[j] == d;
    assert(deps[x as int][j] == d);
}

impl SharedState {
    /// Starts to build a unit that was taken.
    pub fn start(&mut self, x: usize)
        requires
            old(self).wf(),
            x < old(self).status@.len(),
            old(self).status@[x as int] == Status::Taken,
        ensures
            final(self).wf(),
            final(self).status@ == old(self).status@.update(x as int, Status::Running),
            final(self).in_flight == old(self).in_flight + 1,
            *final(self) == (SharedState {
                status: final(self).status,
                in_flight: final(self).in_flight,
                ..*old(self)
            }),
    {
        let ghost s0 = *self;
        proof {
            retally(s0.status@, x as int, Status::Running);
            assert(counts::tally(s0.status@.update(x as int, Status::Running), Status::Running)
                <= s0.status@.len());
        }
        let n: usize = self.status.len();
        self.status.set(x, Status::Running);
        self.in_flight = self.in_flight + 1;
        proof {
            assert(self.done() =~= s0.done());
            status_moved(&s0, self, x);
        }
    }

    /// Notes the signal of a unit that is being built: over early edges its dependents need wait
    /// no longer. A second signal changes nothing.
    pub fn fire_early(&mut self, x: usize)
        requires
            old(self).wf(),
            x < old(self).status@.len(),
            begun(old(self).status@[x as int]),
        ensures
            final(self).wf(),
            old(self).early_fired@[x as int] ==> *final(self) == *old(self),
            final(self).early_fired@ == old(self).early_fired@.update(x as int, true),
            final(self).released(old(self), old(self).fired().insert(x), old(self).done()),
    {
        let ghost s0 = *self;
        if self.early_fired[x] {
            proof {
                assert(s0.fired().insert(x) =~= s0.fired());
                assert(s0.ready@.take(s0.ready@.len() as int) =~= s0.ready@);
                assert(s0.early_fired@.update(x as int, true) =~= s0.early_fired@);
            }
            return;
        }
        let ghost ef = self.fired();
        let ghost df = self.done();
        self.early_fired.set(x, true);
        let ghost s1 = *self;
        assert(s1.fired() =~= ef.insert(x));
        assert(s1.counted(ef, df));
        self.release_early(x, Ghost(ef), Ghost(df));
        proof {
            release_is_consistent(&s1, self, ef.insert(x), df);
        }
    }
}

/// A change from one status to another that is neither waiting nor ready keeps the counts.
proof fn status_moved(a: &SharedState, b: &SharedState, x: usize)
    requires
        a.shape(),
        a.counted(a.fired(), a.done()),
        x < a.status@.len(),
        b.status@ == a.status@.update(x as int, b.status@[x as int]),
        a.status@[x as int] != Status::Waiting,
        a.status@[x as int] != Status::Ready,
        b.status@[x as int] != Status::Waiting,
        b.status@[x as int] != Status::Ready,
        b.early_deps == a.early_deps,
        b.done_deps == a.done_deps,
        b.pending_early == a.pending_early,
        b.pending_done == a.pending_done,
        b.ready == a.ready,
    ensures
        b.counted(a.fired(), a.done()),
{
    assert forall|y: usize| y < b.status@.len() && #[trigger] b.status@[y as int]
        != Status::Waiting implies free(
        topo::lists(b.early_deps@),
        topo::lists(b.done_deps@),
        a.fired(),
        a.done(),
        y,
    ) by {
        assert(a.status@[y as int] != Status::Waiting);
    }
    assert forall|y: usize| y < b.status@.len() implies (#[trigger] b.ready@.contains(y)
        <==> b.status@[y as int] == Status::Ready) by {
        assert(a.ready@.contains(y) <==> a.status@[y as int] == Status::Ready);
    }
}

/// What is free stays free when another unit is done.
proof fn free_stays(
    ed: Seq<Seq<usize>>,
    dd: Seq<Seq<usize>>,
    ef: Set<usize>,
    df: Set<usize>,
    d: usize,
    x: usize,
)
    requires
        !df.contains(d),
        free(ed, dd, ef, df, x),
    ensures
        free(ed, dd, ef, df.insert(d), x),
{
    counts::missing_less(dd[x as int], df, d);
}

/// The units behind position `k` of a ready list came in two waves, the second from position `m`
/// on, each in ascending order. The first wave was held back by signals alone: where the units in
/// `ef` have signalled and those in `df` are done, it is free. The second is not.
pub open spec fn in_two_waves(
    ready: Seq<usize>,
    k: int,
    m: int,
    ed: Seq<Seq<usize>>,
    dd: Seq<Seq<usize>>,
    ef: Set<usize>,
    df: Set<usize>,
) -> bool {
    &&& k <= m <= ready.len()
    &&& forall|i: int, j: int| k <= i < j < m ==> #[trigger] ready[i] < #[trigger] ready[j]
    &&& forall|i: int, j: int|
        m <= i < j < ready.len() ==> #[trigger] ready[i] < #[trigger] ready[j]
    &&& forall|i: int| k <= i < m ==> free(ed, dd, ef, df, #[trigger] ready[i])
    &&& forall|i: int| m <= i < ready.len() ==> !free(ed, dd, ef, df, #[trigger] ready[i])
}

/// What became ready was waiting and is free.
proof fn newly_ready(a: &SharedState, b: &SharedState, ef: Set<usize>, df: Set<usize>, i: int)
    requires
        a.shape(),
        b.shape(),
        b.released(a, ef, df),
        b.ready@.no_duplicates(),
        forall|k: int| 0 <= k < b.ready@.len() ==> (#[trigger] b.ready@[k]) < b.status@.len(),
        forall|x: usize|
            x < b.status@.len() ==> (#[trigger] b.ready@.contains(x) <==> b.status@[x as int]
                == Status::Ready),
        forall|x: usize|
            x < a.status@.len() ==> (#[trigger] a.ready@.contains(x) <==> a.status@[x as int]
                == Status::Ready),
        a.ready@.len() <= i < b.ready@.len(),
    ensures
        a.status@[b.ready@[i] as int] == Status::Waiting,
        free(topo::lists(a.early_deps@), topo::lists(a.done_deps@), ef, df, b.ready@[i]),
{
    let x = b.ready@[i];
    assert(b.ready@.contains(x));
    assert(b.status@[x as int] == Status::Ready);
    if a.status@[x as int] == Status::Ready {
        assert(a.ready@.contains(x));
        let j = choose|j: int| 0 <= j < a.ready@.len() && a.ready@[j] == x;
        assert(b.ready@.take(a.ready@.len() as int)[j] == x);
        assert(b.ready@[j] == x);
    }
}

impl SharedState {
    /// Unit `x` has become done, and with it every unit that waited for nothing else ready: first
    /// those that its signal frees, then those that its completion frees.
    pub open spec fn completed(&self, from: &Self, x: usize) -> bool {
        let n = from.status@.len();
        let ed = topo::lists(from.early_deps@);
        let dd = topo::lists(from.done_deps@);
        let ef = from.fired().insert(x);
        let df = from.done().insert(x);
        let k = from.ready@.len();
        &&& self.early_deps == from.early_deps
        &&& self.done_deps == from.done_deps
        &&& self.early_dependents == from.early_dependents
        &&& self.done_dependents == from.done_dependents
        &&& self.failed == from.failed
        &&& self.abort == from.abort
        &&& self.early_fired@ == from.early_fired@.update(x as int, true)
        &&& self.status@.len() == n
        &&& forall|y: usize|
            y < n ==> #[trigger] self.status@[y as int] == if y == x {
                Status::Done
            } else if from.status@[y as int] == Status::Waiting && free(ed, dd, ef, df, y) {
                Status::Ready
            } else {
                from.status@[y as int]
            }
        &&& self.ready@.len() >= k
        &&& self.ready@.take(k as int) == from.ready@
        &&& exists|m: int| #[trigger]
            in_two_waves(self.ready@, k as int, m, ed, dd, ef, from.done())
    }

    fn complete(&mut self, x: usize, built: bool)
        requires
            old(self).wf(),
            x < old(self).status@.len(),
            old(self).status@[x as int] == if built { Status::Running } else { Status::Taken },
        ensures
            final(self).wf(),
            final(self).completed(old(self), x),
            final(self).succeeded == old(self).succeeded + if built { 1int } else { 0int },
            final(self).late_cached == old(self).late_cached + if built { 0int } else { 1int },
            final(self).in_flight == old(self).in_flight - if built { 1int } else { 0int },
    {
        let ghost s0 = *self;
        let ghost ef = self.fired();
        let ghost df = self.done();
        let ghost ed = topo::lists(self.early_deps@);
        let ghost dd = topo::lists(self.done_deps@);
        let n: usize = self.status.len();
        proof {
            retally(s0.status@, x as int, Status::Done);
            assert(counts::tally(s0.status@.update(x as int, Status::Done), Status::Done)
                <= s0.status@.len());
            counts::tally_none(s0.status@, Status::Running);
            if built {
                assert(s0.status@.contains(s0.status@[x as int]));
            }
        }
        let signalled = self.early_fired[x];
        self.status.set(x, Status::Done);
        self.early_fired.set(x, true);
        if built {
            self.in_flight = self.in_flight - 1;
            self.succeeded = self.succeeded + 1;
        } else {
            self.late_cached = self.late_cached + 1;
        }
        let ghost s1 = *self;
        proof {
            assert(s1.fired() =~= ef.insert(x));
            assert(s1.done() =~= df.insert(x));
            assert(!df.contains(x));
            status_moved(&s0, &s1, x);
            assert forall|y: usize, d: usize|
                y < n && (#[trigger] topo::depends(ed, y, d)) implies s1.status@[d as int]
                != Status::Idle by {
                assert(s0.status@[d as int] != Status::Idle);
            }
            assert forall|y: usize, d: usize|
                y < n && (#[trigger] topo::depends(dd, y, d)) implies s1.status@[d as int]
                != Status::Idle by {
                assert(s0.status@[d as int] != Status::Idle);
            }
            assert(s1.consistent());
        }
        if !signalled {
            self.release_early(x, Ghost(ef), Ghost(df));
            proof {
                release_is_consistent(&s1, self, ef.insert(x), df);
            }
        } else {
            proof {
                assert(ef.insert(x) =~= ef);
                assert(s1.ready@.take(s1.ready@.len() as int) =~= s1.ready@);
            }
        }
        let ghost s2 = *self;
        assert(s2.released(&s1, ef.insert(x), df));
        self.release_done(x, Ghost(ef.insert(x)), Ghost(df));
        proof {
            release_is_consistent(&s2, self, ef.insert(x), df.insert(x));
            assert forall|y: usize| y < n implies #[trigger] self.status@[y as int] == if y == x {
                Status::Done
            } else if s0.status@[y as int] == Status::Waiting && free(
                ed,
                dd,
                ef.insert(x),
                df.insert(x),
                y,
            ) {
                Status::Ready
            } else {
                s0.status@[y as int]
            } by {
                assert(s2.status@[y as int] == if s1.status@[y as int] == Status::Waiting && free(
                    ed,
                    dd,
                    ef.insert(x),
                    df,
                    y,
                ) {
                    Status::Ready
                } else {
                    s1.status@[y as int]
                });
                if free(ed, dd, ef.insert(x), df, y) {
                    free_stays(ed, dd, ef.insert(x), df, x, y);
                }
            }
            assert(self.ready@.take(s0.ready@.len() as int) =~= self.ready@.take(
                s2.ready@.len() as int,
            ).take(s0.ready@.len() as int));
            let k = s0.ready@.len() as int;
            let m = s2.ready@.len() as int;
            assert forall|i: int| 0 <= i < m implies self.ready@[i] == s2.ready@[i] by {
                assert(self.ready@.take(m)[i] == s2.ready@[i]);
            }
            assert forall|i: int| k <= i < m implies free(
                ed,
                dd,
                ef.insert(x),
                df,
                #[trigger] self.ready@[i],
            ) by {
                newly_ready(&s1, &s2, ef.insert(x), df, i);
                assert(self.ready@[i] == s2.ready@[i]);
            }
            assert forall|i: int| m <= i < self.ready@.len() implies !free(
                ed,
                dd,
                ef.insert(x),
                df,
                #[trigger] self.ready@[i],
            ) by {
                newly_ready(&s2, self, ef.insert(x), df.insert(x), i);
                let y = self.ready@[i];
                assert(s2.status@[y as int] == Status::Waiting);
            }
            assert forall|i: int, j: int| k <= i < j < m implies #[trigger] self.ready@[i]
                < #[trigger] self.ready@[j] by {
                assert(s2.ready@[i] < s2.ready@[j]);
            }
            assert(in_two_waves(self.ready@, k, m, ed, dd, ef.insert(x), df));
        }
    }

    /// Completes a unit that was taken and found in the cache.
    pub fn late_hit(&mut self, x: usize)
        requires
            old(self).wf(),
            x < old(self).status@.len(),
            old(self).status@[x as int] == Status::Taken,
        ensures
            final(self).wf(),
            final(self).completed(old(self), x),
            final(self).late_cached == old(self).late_cached + 1,
            final(self).succeeded == old(self).succeeded,
            final(self).in_flight == old(self).in_flight,
    {
        self.complete(x, false);
    }

    /// Completes a unit whose build succeeded.
    pub fn succeed(&mut self, x: usize)
        requires
            old(self).wf(),
            x < old(self).status@.len(),
            old(self).status@[x as int] == Status::Running,
        ensures
            final(self).wf(),
            final(self).completed(old(self), x),
            final(self).succeeded == old(self).succeeded + 1,
            final(self).late_cached == old(self).late_cached,
            final(self).in_flight == old(self).in_flight - 1,
    {
        self.complete(x, true);
    }

    /// Notes that the build of a unit failed: nothing more is started.
    pub fn fail(&mut self, x: usize)
        requires
            old(self).wf(),
            x < old(self).status@.len(),
            old(self).status@[x as int] == Status::Running,
        ensures
            final(self).wf(),
            final(self).status@ == old(self).status@.update(x as int, Status::Failed),
            final(self).failed == old(self).failed + 1,
            final(self).abort,
            final(self).in_flight == old(self).in_flight - 1,
            *final(self) == (SharedState {
                status: final(self).status,
                failed: final(self).failed,
                abort: final(self).abort,
                in_flight: final(self).in_flight,
                ..*old(self)
            }),
    {
        let ghost s0 = *self;
        let n: usize = self.status.len();
        proof {
            retally(s0.status@, x as int, Status::Failed);
            assert(counts::tally(s0.status@.update(x as int, Status::Failed), Status::Failed)
                <= s0.status@.len());
            counts::tally_none(s0.status@, Status::Running);
            assert(s0.status@.contains(s0.status@[x as int]));
        }
        self.status.set(x, Status::Failed);
        self.failed = self.failed + 1;
        self.abort = true;
        self.in_flight = self.in_flight - 1;
        proof {
            assert(self.done() =~= s0.done());
            status_moved(&s0, self, x);
        }
    }
}

/// All units in an order in which each comes behind those that it has edges to.
pub open spec fn edges_ordered(s: &SharedState, o: Seq<usize>) -> bool {
    let ed = topo::lists(s.early_deps@);
    let dd = topo::lists(s.done_deps@);
    &&& forall|x: usize| x < s.status@.len() ==> #[trigger] o.contains(x)
    &&& forall|k: int, d: usize|
        0 <= k < o.len() && (#[trigger] topo::depends(ed, o[k], d)) ==> o.take(k).contains(d)
    &&& forall|k: int, d: usize|
        0 <= k < o.len() && (#[trigger] topo::depends(dd, o[k], d)) ==> o.take(k).contains(d)
}

proof fn done_up_to(s: &SharedState, o: Seq<usize>, k: int)
    requires
        s.wf(),
        edges_ordered(s, o),
        s.is_over(),
        !s.abort,
        counts::tally(s.status@, Status::Taken) == 0,
        0 <= k <= o.len(),
    ensures
        forall|i: int|
            0 <= i < k && (#[trigger] o[i]) < s.status@.len() && s.status@[o[i] as int]
                != Status::Idle ==> s.status@[o[i] as int] == Status::Done,
    decreases k,
{
    if k > 0 {
        done_up_to(s, o, k - 1);
        let x = o[k - 1];
        let ed = topo::lists(s.early_deps@);
        let dd = topo::lists(s.done_deps@);
        if x < s.status@.len() && s.status@[x as int] != Status::Idle {
            counts::tally_none(s.status@, Status::Taken);
            counts::tally_none(s.status@, Status::Running);
            counts::tally_none(s.status@, Status::Failed);
            assert(s.status@.contains(s.status@[x as int]));
            if s.status@[x as int] == Status::Ready {
                assert(s.ready@.contains(x));
            }
            if s.status@[x as int] == Status::Waiting {
                let t = o.take(k - 1);
                assert forall|j: int| 0 <= j < ed[x as int].len() implies s.fired().contains(
                    #[trigger] ed[x as int][j],
                ) by {
                    let d = ed[x as int][j];
                    assert(topo::depends(ed, x, d));
                    assert(t.contains(d));
                    let i = choose|i: int| 0 <= i < t.len() && t[i] == d;
                    assert(o[i] == d);
                    dependency_is_unit(ed, x, d);
                    assert(s.status@[d as int] == Status::Done);
                }
                counts::missing_none(ed[x as int], s.fired());
                assert forall|j: int| 0 <= j < dd[x as int].len() implies s.done().contains(
                    #[trigger] dd[x as int][j],
                ) by {
                    let d = dd[x as int][j];
                    assert(topo::depends(dd, x, d));
                    assert(t.contains(d));
                    let i = choose|i: int| 0 <= i < t.len() && t[i] == d;
                    assert(o[i] == d);
                    dependency_is_unit(dd, x, d);
                }
                counts::missing_none(dd[x as int], s.done());
            }
        }
    }
}

/// No deadlock: where the graph has no cycle and no build failed, the run is over only when every
/// scheduled unit is done.
pub proof fn run_ends_with_all_done(s: &SharedState, o: Seq<usize>)
    requires
        s.wf(),
        edges_ordered(s, o),
        s.is_over(),
        !s.abort,
        counts::tally(s.status@, Status::Taken) == 0,
    ensures
        forall|x: usize|
            x < s.status@.len() && #[trigger] s.status@[x as int] != Status::Idle
                ==> s.status@[x as int] == Status::Done,
{
    done_up_to(s, o, o.len() as int);
    assert forall|x: usize|
        x < s.status@.len() && #[trigger] s.status@[x as int] != Status::Idle implies s.status@[x as int]
        == Status::Done by {
        assert(o.contains(x));
        let i = choose|i: int| 0 <= i < o.len() && o[i] == x;
        assert(o[i] == x);
    }
}

/// A unit that can be taken, or that was, waits for nothing: all it has early edges to have
/// signalled, and all it has done edges to are done.
pub proof fn ready_units_wait_for_nothing(s: &SharedState, x: usize, d: usize)
    requires
        s.wf(),
        x < s.status@.len(),
        s.status@[x as int] != Status::Waiting,
    ensures
        topo::depends(topo::lists(s.early_deps@), x, d) ==> s.early_fired@[d as int],
        topo::depends(topo::lists(s.done_deps@), x, d) ==> s.status@[d as int] == Status::Done,
{
    let ed = topo::lists(s.early_deps@);
    let dd = topo::lists(s.done_deps@);
    counts::missing_none(ed[x as int], s.fired());
    counts::missing_none(dd[x as int], s.done());
    if topo::depends(ed, x, d) {
        let row = ed[x as int];
        let j = choose|j: int| 0 <= j < row.len() && row[j] == d;
        assert(s.fired().contains(ed[x as int][j]));
    }
    if topo::depends(dd, x, d) {
        let row = dd[x as int];
        let j = choose|j: int| 0 <= j < row.len() && row[j] == d;
        assert(s.done().contains(dd[x as int][j]));
    }
}

/// The first signal of `x` counts down what a waiting unit waits for by as many early edges as it
/// has to `x`, and nothing else. The unit is then ready exactly if nothing is left to wait for, and
/// stands in the ready list exactly then.
pub proof fn signals_count_down(a: &SharedState, b: &SharedState, x: usize, y: usize)
    requires
        a.wf(),
        b.wf(),
        x < a.status@.len(),
        y < a.status@.len(),
        !a.early_fired@[x as int],
        b.early_fired@ == a.early_fired@.update(x as int, true),
        b.released(a, a.fired().insert(x), a.done()),
        a.status@[y as int] == Status::Waiting,
    ensures
        b.status@[y as int] == Status::Waiting ==> {
            &&& b.pending_early@[y as int] + counts::occurrences(a.early_deps@[y as int]@, x)
                == a.pending_early@[y as int]
            &&& b.pending_done@[y as int] == a.pending_done@[y as int]
        },
        b.status@[y as int] == Status::Ready <==> a.pending_early@[y as int]
            == counts::occurrences(a.early_deps@[y as int]@, x) && a.pending_done@[y as int] == 0,
        b.status@[y as int] == Status::Waiting || b.status@[y as int] == Status::Ready,
        b.ready@.contains(y) <==> b.status@[y as int] == Status::Ready,
        b.ready@.no_duplicates(),
{
    let ed = topo::lists(a.early_deps@);
    assert(b.fired() =~= a.fired().insert(x));
    assert(b.done() =~= a.done());
    assert(ed[y as int] == a.early_deps@[y as int]@);
    assert(!a.fired().contains(x));
    counts::missing_less(ed[y as int], a.fired(), x);
}

/// What is known of the units before a run.
pub struct Facts {
    /// For each unit, those it depends on.
    pub deps: Vec<Vec<usize>>,
    /// Whether the key of the unit takes in the outputs of its dependencies.
    pub keyed: Vec<bool>,
    /// Whether the unit is in the cache under the key of its derivation.
    pub cached: Vec<bool>,
    /// Whether dependents of the unit may start on its signal.
    pub pipelineable: Vec<bool>,
    /// Whether the unit links what it depends on, so that its key needs their full outputs.
    pub links: Vec<bool>,
}

impl Facts {
    /// The facts are of the same units.
    pub open spec fn wf(&self) -> bool {
        let n = self.deps@.len();
        &&& topo::closed_graph(topo::lists(self.deps@))
        &&& self.keyed@.len() == n
        &&& self.cached@.len() == n
        &&& self.pipelineable@.len() == n
        &&& self.links@.len() == n
    }

    /// A unit is scheduled unless it is in the cache under a key that is known from the start.
    pub open spec fn scheduled(&self, x: usize) -> bool {
        self.keyed@[x as int] || !self.cached@[x as int]
    }

    /// Whether `x` may start on the signal of `d`: `d` is built so that it can, and the key of `x`
    /// does not take in the full output of `d`.
    pub open spec fn early_ok(&self, d: usize, x: usize) -> bool {
        self.pipelineable@[d as int] && !(self.keyed@[d as int] && self.keyed@[x as int]
            && self.links@[x as int])
    }

    /// The dependencies among `l` that `x` has edges of one kind to.
    pub open spec fn edges(&self, l: Seq<usize>, x: usize, early: bool) -> Seq<usize>
        decreases l.len(),
    {
        if l.len() == 0 {
            Seq::empty()
        } else {
            let rest = self.edges(l.drop_last(), x, early);
            let d = l.last();
            if self.scheduled(d) && self.early_ok(d, x) == early {
                rest.push(d)
            } else {
                rest
            }
        }
    }

    /// The edges of one kind of a unit: none if it is not scheduled.
    pub open spec fn edges_of(&self, x: usize, early: bool) -> Seq<usize> {
        if self.scheduled(x) {
            self.edges(self.deps@[x as int]@, x, early)
        } else {
            Seq::empty()
        }
    }
}

/// The edges of one kind lead to scheduled units among the dependencies.
pub proof fn edges_are_scheduled(f: &Facts, l: Seq<usize>, x: usize, early: bool, d: usize)
    ensures
        f.edges(l, x, early).contains(d) <==> l.contains(d) && f.scheduled(d) && f.early_ok(d, x)
            == early,
    decreases l.len(),
{
    if l.len() > 0 {
        let r = l.drop_last();
        edges_are_scheduled(f, r, x, early, d);
        assert(l =~= r.push(l.last()));
        crate::graph::pushed(r, l.last(), d);
        crate::graph::pushed(f.edges(r, x, early), l.last(), d);
    }
}

impl Facts {
    fn is_scheduled(&self, x: usize) -> (r: bool)
        requires
            self.wf(),
            x < self.deps@.len(),
        ensures
            r == self.scheduled(x),
    {
        self.keyed[x] || !self.cached[x]
    }

    fn edges_to(&self, x: usize, early: bool) -> (r: Vec<usize>)
        requires
            self.wf(),
            x < self.deps@.len(),
        ensures
            r@ == self.edges_of(x, early),
            forall|j: int| 0 <= j < r@.len() ==> (#[trigger] r@[j]) < self.deps@.len(),
    {
        let mut out: Vec<usize> = Vec::new();
        if !self.is_scheduled(x) {
            return out;
        }
        let ghost l = self.deps@[x as int]@;
        let m: usize = self.deps[x].len();
        assert(out@ =~= self.edges(l.take(0), x, early));
        for j in 0..m
            invariant
                self.wf(),
                x < self.deps@.len(),
                l == self.deps@[x as int]@,
                m == l.len(),
                out@ == self.edges(l.take(j as int), x, early),
                forall|k: int| 0 <= k < out@.len() ==> (#[trigger] out@[k]) < self.deps@.len(),
        {
            let d: usize = self.deps[x][j];
            proof {
                assert(topo::lists(self.deps@)[x as int][j as int] == d);
                assert(l.take(j + 1).drop_last() =~= l.take(j as int));
            }
            let ok = self.pipelineable[d] && !(self.keyed[d] && self.keyed[x] && self.links[x]);
            if self.is_scheduled(d) && ok == early {
                out.push(d);
            }
        }
        assert(l.take(m as int) =~= l);
        out
    }
}

impl SharedState {
    /// The state before a run: every scheduled unit without a scheduled dependency is ready, in
    /// order, and the others wait.
    pub fn plan(f: &Facts) -> (r: Self)
        requires
            f.wf(),
        ensures
            r.wf(),
            r.status@.len() == f.deps@.len(),
            forall|x: usize|
                x < f.deps@.len() ==> (#[trigger] r.early_deps@[x as int])@ == f.edges_of(x, true),
            forall|x: usize|
                x < f.deps@.len() ==> (#[trigger] r.done_deps@[x as int])@ == f.edges_of(x, false),
            forall|x: usize|
                x < f.deps@.len() ==> #[trigger] r.status@[x as int] == if !f.scheduled(x) {
                    Status::Idle
                } else if f.edges_of(x, true).len() == 0 && f.edges_of(x, false).len() == 0 {
                    Status::Ready
                } else {
                    Status::Waiting
                },
            forall|i: int, j: int|
                0 <= i < j < r.ready@.len() ==> #[trigger] r.ready@[i] < #[trigger] r.ready@[j],
            forall|x: int| 0 <= x < f.deps@.len() ==> !(#[trigger] r.early_fired@[x]),
            r.succeeded == 0,
            r.late_cached == 0,
            r.failed == 0,
            r.in_flight == 0,
            !r.abort,
    {
        let n: usize = f.deps.len();
        let mut status: Vec<Status> = Vec::new();
        let mut ready: Vec<usize> = Vec::new();
        let mut pending_early: Vec<usize> = Vec::new();
        let mut pending_done: Vec<usize> = Vec::new();
        let mut early_deps: Vec<Vec<usize>> = Vec::new();
        let mut done_deps: Vec<Vec<usize>> = Vec::new();
        let mut early_fired: Vec<bool> = Vec::new();
        for x in 0..n
            invariant
                f.wf(),
                n == f.deps@.len(),
                status@.len() == x,
                pending_early@.len() == x,
                pending_done@.len() == x,
                early_deps@.len() == x,
                done_deps@.len() == x,
                early_fired@.len() == x,
                forall|y: usize|
                    y < x ==> (#[trigger] early_deps@[y as int])@ == f.edges_of(y, true)
                        && pending_early@[y as int] == early_deps@[y as int]@.len(),
                forall|y: usize|
                    y < x ==> (#[trigger] done_deps@[y as int])@ == f.edges_of(y, false)
                        && pending_done@[y as int] == done_deps@[y as int]@.len(),
                forall|y: int, j: int|
                    0 <= y < x && 0 <= j < early_deps@[y]@.len() ==> (#[trigger] early_deps@[y]@[j])
                        < n,
                forall|y: int, j: int|
                    0 <= y < x && 0 <= j < done_deps@[y]@.len() ==> (#[trigger] done_deps@[y]@[j])
                        < n,
                forall|y: usize|
                    y < x ==> #[trigger] status@[y as int] == if !f.scheduled(y) {
                        Status::Idle
                    } else if f.edges_of(y, true).len() == 0 && f.edges_of(y, false).len() == 0 {
                        Status::Ready
                    } else {
                        Status::Waiting
                    },
                forall|y: int| 0 <= y < x ==> !(#[trigger] early_fired@[y]),
                forall|k: int| 0 <= k < ready@.len() ==> (#[trigger] ready@[k]) < x,
                forall|i: int, j: int|
                    0 <= i < j < ready@.len() ==> #[trigger] ready@[i] < #[trigger] ready@[j],
                forall|y: usize|
                    y < x ==> (#[trigger] ready@.contains(y) <==> status@[y as int]
                        == Status::Ready),
        {
            let e = f.edges_to(x, true);
            let d = f.edges_to(x, false);
            let ghost r0 = ready@;
            let k = if !f.is_scheduled(x) {
                Status::Idle
            } else if e.len() == 0 && d.len() == 0 {
                Status::Ready
            } else {
                Status::Waiting
            };
            if k == Status::Ready {
                ready.push(x);
            }
            pending_early.push(e.len());
            pending_done.push(d.len());
            early_deps.push(e);
            done_deps.push(d);
            status.push(k);
            early_fired.push(false);
            proof {
                assert forall|y: usize| y < x + 1 implies (#[trigger] ready@.contains(y)
                    <==> status@[y as int] == Status::Ready) by {
                    if y < x {
                        assert(r0.contains(y) <==> status@[y as int] == Status::Ready);
                    } else if r0.contains(y) {
                        let i = choose|i: int| 0 <= i < r0.len() && r0[i] == y;
                        assert(r0[i] < x);
                    }
                    if k == Status::Ready {
                        crate::graph::pushed(r0, x, y);
                    }
                }
            }
        }
        proof {
            let ed = topo::lists(early_deps@);
            let dd = topo::lists(done_deps@);
            assert forall|x: int, j: int| 0 <= x < ed.len() && 0 <= j < ed[x].len() implies (
            #[trigger] ed[x][j]) < ed.len() by {
                assert(early_deps@[x]@[j] < n);
            }
            assert forall|x: int, j: int| 0 <= x < dd.len() && 0 <= j < dd[x].len() implies (
            #[trigger] dd[x][j]) < dd.len() by {
                assert(done_deps@[x]@[j] < n);
            }
        }
        let early_dependents = topo::dependents_of(&early_deps);
        let done_dependents = topo::dependents_of(&done_deps);
        let r = SharedState {
            status,
            ready,
            pending_early,
            pending_done,
            early_deps,
            done_deps,
            early_dependents,
            done_dependents,
            early_fired,
            succeeded: 0,
            late_cached: 0,
            failed: 0,
            abort: false,
            in_flight: 0,
        };
        proof {
            plan_is_wf(f, &r);
        }
        r
    }
}

/// The state before a run is well-formed.
proof fn plan_is_wf(f: &Facts, r: &SharedState)
    requires
        f.wf(),
        r.shape(),
        r.status@.len() == f.deps@.len(),
        forall|x: usize|
            x < f.deps@.len() ==> (#[trigger] r.early_deps@[x as int])@ == f.edges_of(x, true)
                && r.pending_early@[x as int] == r.early_deps@[x as int]@.len(),
        forall|x: usize|
            x < f.deps@.len() ==> (#[trigger] r.done_deps@[x as int])@ == f.edges_of(x, false)
                && r.pending_done@[x as int] == r.done_deps@[x as int]@.len(),
        forall|x: usize|
            x < f.deps@.len() ==> #[trigger] r.status@[x as int] == if !f.scheduled(x) {
                Status::Idle
            } else if f.edges_of(x, true).len() == 0 && f.edges_of(x, false).len() == 0 {
                Status::Ready
            } else {
                Status::Waiting
            },
        forall|k: int| 0 <= k < r.ready@.len() ==> (#[trigger] r.ready@[k]) < f.deps@.len(),
        forall|i: int, j: int|
            0 <= i < j < r.ready@.len() ==> #[trigger] r.ready@[i] < #[trigger] r.ready@[j],
        forall|x: usize|
            x < f.deps@.len() ==> (#[trigger] r.ready@.contains(x) <==> r.status@[x as int]
                == Status::Ready),
        forall|x: int| 0 <= x < f.deps@.len() ==> !(#[trigger] r.early_fired@[x]),
        r.succeeded == 0,
        r.late_cached == 0,
        r.failed == 0,
        r.in_flight == 0,
        !r.abort,
    ensures
        r.wf(),
{
    let n = f.deps@.len();
    let ed = topo::lists(r.early_deps@);
    let dd = topo::lists(r.done_deps@);
    assert(r.status@.len() == r.status.len());
    let none = Set::<usize>::empty();
    assert(r.fired() =~= none);
    assert(r.done() =~= none) by {
        assert forall|x: usize| !r.done().contains(x) by {
            if x < n {
                assert(r.status@[x as int] != Status::Done);
            }
        }
    }
    assert forall|x: usize| x < n implies counts::missing(#[trigger] ed[x as int], none)
        == f.edges_of(x, true).len() && counts::missing(dd[x as int], none) == f.edges_of(
        x,
        false,
    ).len() by {
        assert(r.early_deps@[x as int]@ == f.edges_of(x, true));
        assert(r.done_deps@[x as int]@ == f.edges_of(x, false));
        counts::missing_all(ed[x as int]);
        counts::missing_all(dd[x as int]);
    }
    assert forall|x: usize| x < n && #[trigger] r.status@[x as int] == Status::Waiting implies {
        &&& r.pending_early@[x as int] == counts::missing(ed[x as int], none)
        &&& r.pending_done@[x as int] == counts::missing(dd[x as int], none)
        &&& !free(ed, dd, none, none, x)
    } by {
        assert(r.early_deps@[x as int]@ == ed[x as int]);
        assert(r.done_deps@[x as int]@ == dd[x as int]);
    }
    assert forall|x: usize| x < n && #[trigger] r.status@[x as int] != Status::Waiting implies free(
        ed,
        dd,
        none,
        none,
        x,
    ) by {
        assert(r.early_deps@[x as int]@ == ed[x as int]);
        assert(r.done_deps@[x as int]@ == dd[x as int]);
    }
    assert forall|x: usize| x < n && #[trigger] r.status@[x as int] == Status::Idle implies ed[x as int].len()
        == 0 && dd[x as int].len() == 0 by {
        assert(r.early_deps@[x as int]@ == ed[x as int]);
        assert(r.done_deps@[x as int]@ == dd[x as int]);
    }
    assert forall|x: usize, d: usize| x < n && (#[trigger] topo::depends(ed, x, d)) implies r.status@[d as int]
        != Status::Idle by {
        assert(r.early_deps@[x as int]@ == ed[x as int]);
        dependency_is_unit(ed, x, d);
        edges_are_scheduled(f, f.deps@[x as int]@, x, true, d);
        assert(r.status@[d as int] != Status::Idle);
    }
    assert forall|x: usize, d: usize| x < n && (#[trigger] topo::depends(dd, x, d)) implies r.status@[d as int]
        != Status::Idle by {
        assert(r.done_deps@[x as int]@ == dd[x as int]);
        dependency_is_unit(dd, x, d);
        edges_are_scheduled(f, f.deps@[x as int]@, x, false, d);
        assert(r.status@[d as int] != Status::Idle);
    }
    assert forall|k: Status| k == Status::Running || k == Status::Failed || k == Status::Done implies
        #[trigger] counts::tally(r.status@, k) == 0 by {
        counts::tally_none(r.status@, k);
        if r.status@.contains(k) {
            let i = choose|i: int| 0 <= i < r.status@.len() && r.status@[i] == k;
            assert(r.status@[i as usize as int] == k);
        }
    }
}

/// In a graph without a cycle the edges that a run plans follow the order of the graph, so that
/// [`run_ends_with_all_done`] holds of it.
pub proof fn planned_edges_follow_the_order(f: &Facts, s: &SharedState, o: Seq<usize>)
    requires
        f.wf(),
        s.status@.len() == f.deps@.len(),
        s.early_deps@.len() == f.deps@.len(),
        s.done_deps@.len() == f.deps@.len(),
        forall|x: usize|
            x < f.deps@.len() ==> (#[trigger] s.early_deps@[x as int])@ == f.edges_of(x, true),
        forall|x: usize|
            x < f.deps@.len() ==> (#[trigger] s.done_deps@[x as int])@ == f.edges_of(x, false),
        topo::in_sequence(topo::lists(f.deps@), o),
        forall|x: usize| x < f.deps@.len() ==> #[trigger] o.contains(x),
    ensures
        edges_ordered(s, o),
{
    let g = topo::lists(f.deps@);
    let ed = topo::lists(s.early_deps@);
    let dd = topo::lists(s.done_deps@);
    assert forall|k: int, d: usize|
        0 <= k < o.len() && (#[trigger] topo::depends(ed, o[k], d)) implies o.take(k).contains(d) by {
        let x = o[k];
        assert(s.early_deps@[x as int]@ == ed[x as int]);
        edges_are_scheduled(f, f.deps@[x as int]@, x, true, d);
        assert(topo::depends(g, o[k], d));
    }
    assert forall|k: int, d: usize|
        0 <= k < o.len() && (#[trigger] topo::depends(dd, o[k], d)) implies o.take(k).contains(d) by {
        let x = o[k];
        assert(s.done_deps@[x as int]@ == dd[x as int]);
        edges_are_scheduled(f, f.deps@[x as int]@, x, false, d);
        assert(topo::depends(g, o[k], d));
    }
}

/// Where the key of every unit that takes in outputs needs full outputs, no edge between two such
/// units is early: the dependent waits until the dependency is committed.
pub proof fn linked_keys_wait_for_commit(f: &Facts, x: usize, d: usize)
    requires
        f.wf(),
        x < f.deps@.len(),
        d < f.deps@.len(),
        f.keyed@[x as int],
        f.keyed@[d as int],
        f.links@[x as int],
        f.deps@[x as int]@.contains(d),
    ensures
        !f.edges_of(x, true).contains(d),
        f.edges_of(x, false).contains(d),
{
    edges_are_scheduled(f, f.deps@[x as int]@, x, true, d);
    edges_are_scheduled(f, f.deps@[x as int]@, x, false, d);
}

/// A unit that is in the cache under a key known from the start is not built, and nobody waits for
/// it; any other is.
pub proof fn cached_units_are_not_waited_for(f: &Facts, x: usize, d: usize, early: bool)
    requires
        f.wf(),
        x < f.deps@.len(),
        d < f.deps@.len(),
    ensures
        f.cached@[d as int] && !f.keyed@[d as int] ==> !f.edges_of(x, early).contains(d),
        f.cached@[x as int] && !f.keyed@[x as int] ==> f.edges_of(x, early).len() == 0,
        f.deps@[x as int]@.contains(d) && (!f.cached@[d as int] || f.keyed@[d as int]) && (
        !f.cached@[x as int] || f.keyed@[x as int]) ==> f.edges_of(x, true).contains(d)
            != f.edges_of(x, false).contains(d),
        f.edges_of(x, early).contains(d) ==> f.deps@[x as int]@.contains(d),
{
    edges_are_scheduled(f, f.deps@[x as int]@, x, true, d);
    edges_are_scheduled(f, f.deps@[x as int]@, x, false, d);
}

/// A unit starts on the signal of a dependency exactly if that can be built so that it may, and the
/// key of the unit does not take in the full output: it does where the keys of both take in outputs
/// and the unit links.
pub proof fn signals_suffice_unless_outputs_count(f: &Facts, x: usize, d: usize)
    requires
        f.wf(),
        x < f.deps@.len(),
        d < f.deps@.len(),
        f.deps@[x as int]@.contains(d),
        !f.cached@[d as int] || f.keyed@[d as int],
        !f.cached@[x as int] || f.keyed@[x as int],
    ensures
        !f.pipelineable@[d as int] ==> f.edges_of(x, false).contains(d),
        f.pipelineable@[d as int] && !f.links@[x as int] ==> f.edges_of(x, true).contains(d),
        f.pipelineable@[d as int] && !f.keyed@[x as int] ==> f.edges_of(x, true).contains(d),
        f.pipelineable@[d as int] && !f.keyed@[d as int] ==> f.edges_of(x, true).contains(d),
        f.keyed@[x as int] && f.keyed@[d as int] && f.links@[x as int] ==> f.edges_of(
            x,
            false,
        ).contains(d),
{
    edges_are_scheduled(f, f.deps@[x as int]@, x, true, d);
    edges_are_scheduled(f, f.deps@[x as int]@, x, false, d);
}

/// Once a build failed nothing more is started. Before that, a run goes on as long as a unit is ready
/// or being built, and no longer.
pub proof fn failures_end_the_run(s: &SharedState, x: usize)
    requires
        s.wf(),
        x < s.status@.len(),
    ensures
        s.status@[x as int] == Status::Failed ==> s.is_over(),
        s.failed > 0 ==> s.is_over(),
        s.failed == 0 && s.ready@.len() > 0 ==> !s.is_over(),
        s.failed == 0 && s.status@[x as int] == Status::Running ==> !s.is_over(),
        s.failed == 0 && s.ready@.len() == 0 && s.in_flight == 0 ==> s.is_over(),
{
    if s.status@[x as int] == Status::Failed {
        counts::tally_none(s.status@, Status::Failed);
        assert(s.status@.contains(s.status@[x as int]));
    }
    if s.status@[x as int] == Status::Running {
        counts::tally_none(s.status@, Status::Running);
        assert(s.status@.contains(s.status@[x as int]));
    }
}

} // verus!
