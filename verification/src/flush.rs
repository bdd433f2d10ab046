//! Publishing finished parts: when a temporary file counts as written out,
//! and when all parts are accounted for.
//!
//! The caller polls the file's size, sleeps, renames and reports; the library
//! keeps the counts and decides.

use vstd::prelude::*;

verus! {

/// What a worker has seen of a temporary file: the size at the last poll that
/// found the file, and how many polls in a row found that size.
#[derive(Clone, Copy, Debug, PartialEq, Eq)]
pub struct Stability {
    pub last_size: u64,
    pub stable_count: u32,
    /// How many polls in a row have to find the same size.
    pub needed: u32,
}

/// The watch after one more poll, which found the size `size` or no file. A
/// poll that finds the size of the poll before counts; one that finds another
/// size, or no file, starts the count again. A stable watch stays as it is.
pub open spec fn polled(w: Stability, size: Option<u64>) -> Stability {
    if w.stable_count >= w.needed {
        w
    } else {
        match size {
            Some(s) => if s == w.last_size {
                Stability { stable_count: (w.stable_count + 1) as u32, ..w }
            } else {
                Stability { stable_count: 0, last_size: s, ..w }
            },
            None => Stability { stable_count: 0, ..w },
        }
    }
}

/// The watch after the polls `polls`, in their order.
pub open spec fn watched(needed: u32, polls: Seq<Option<u64>>) -> Stability
    decreases polls.len(),
{
    if polls.len() == 0 {
        Stability { last_size: 0, stable_count: 0, needed }
    } else {
        polled(watched(needed, polls.drop_last()), polls.last())
    }
}

/// The `count` polls before `end` all found the file at the size `size`.
pub open spec fn unchanged_run(polls: Seq<Option<u64>>, end: int, count: int, size: u64) -> bool {
    &&& 0 <= count <= end <= polls.len()
    &&& forall|k: int| end - count <= k < end ==> polls[k] == Some(size)
}

/// A watch never counts beyond what is needed. The polls that it counts came
/// in a row and all found the file at one size; while the watch is not stable
/// they are the latest polls. So a watch is stable only after `needed` polls in
/// a row that found the same size.
pub proof fn lemma_stable_means_unchanged(needed: u32, polls: Seq<Option<u64>>)
    ensures
        watched(needed, polls).needed == needed,
        watched(needed, polls).stable_count <= needed,
        exists|end: int|
            unchanged_run(
                polls,
                end,
                watched(needed, polls).stable_count as int,
                watched(needed, polls).last_size,
            ),
        watched(needed, polls).stable_count < needed ==> unchanged_run(
            polls,
            polls.len() as int,
            watched(needed, polls).stable_count as int,
            watched(needed, polls).last_size,
        ),
    decreases polls.len(),
{
    let w = watched(needed, polls);
    if polls.len() == 0 {
        assert(unchanged_run(polls, 0, w.stable_count as int, w.last_size));
    } else {
        let front = polls.drop_last();
        lemma_stable_means_unchanged(needed, front);
        let before = watched(needed, front);
        let len = polls.len() as int;
        if before.stable_count >= needed {
            let end = choose|end: int|
                unchanged_run(front, end, before.stable_count as int, before.last_size);
            assert forall|k: int| end - w.stable_count <= k < end implies polls[k] == Some(
                w.last_size,
            ) by {
                assert(front[k] == polls[k]);
            }
            assert(unchanged_run(polls, end, w.stable_count as int, w.last_size));
        } else {
            assert forall|k: int| len - w.stable_count <= k < len implies polls[k] == Some(
                w.last_size,
            ) by {
                if k < front.len() {
                    assert(front[k] == polls[k]);
                }
            }
            assert(unchanged_run(polls, len, w.stable_count as int, w.last_size));
        }
    }
}

impl Stability {
    /// A watch that has seen nothing yet. A file that stays empty counts as
    /// unchanged from the first poll on.
    pub fn new(needed: u32) -> (w: Stability)
        ensures
            w == watched(needed, Seq::empty()),
    {
        Stability { last_size: 0, stable_count: 0, needed }
    }

    /// Whether enough polls in a row found the same size: the file is written
    /// out and can be published.
    pub fn is_stable(&self) -> (b: bool)
        ensures
            b == (self.stable_count >= self.needed),
    {
        self.stable_count >= self.needed
    }

    /// Takes in one poll of the file's size, `None` where the file could not
    /// be found, and says whether the file is stable now.
    pub fn observe(&mut self, size: Option<u64>) -> (stable: bool)
        ensures
            *final(self) == polled(*old(self), size),
            stable == (final(self).stable_count >= final(self).needed),
    {
        if self.stable_count < self.needed {
            match size {
                Some(s) => {
                    if s == self.last_size {
                        self.stable_count = self.stable_count + 1;
                    } else {
                        self.stable_count = 0;
                        self.last_size = s;
                    }
                },
                None => {
                    self.stable_count = 0;
                },
            }
        }
        self.stable_count >= self.needed
    }
}

/// The count of the jobs that were handed to the workers and of the results
/// that came back. Results are counted, not told apart: they may come back
/// in any order.
#[derive(Clone, Copy, Debug, PartialEq, Eq)]
pub struct FlushTally {
    /// Jobs handed out.
    pub submitted: u64,
    /// Results that came back, failures among them.
    pub completed: u64,
    /// Results that reported a failure.
    pub failed: u64,
}

impl FlushTally {
    /// The count is well formed: no more failures than results, no more
    /// results than jobs.
    pub open spec fn wf(&self) -> bool {
        self.failed <= self.completed <= self.submitted
    }

    /// A count for `submitted` jobs, none of which has reported yet.
    pub fn new(submitted: u64) -> (t: FlushTally)
        ensures
            t.wf(),
            t == (FlushTally { submitted, completed: 0, failed: 0 }),
    {
        FlushTally { submitted, completed: 0, failed: 0 }
    }

    /// Whether every job has reported, so that waiting can end.
    pub fn all_reported(&self) -> (b: bool)
        ensures
            b == (self.completed >= self.submitted),
    {
        self.completed >= self.submitted
    }

    /// Takes in the result of one job. A failure is counted as a result like
    /// any other: it holds up no other job and does not end the waiting.
    pub fn record(&mut self, succeeded: bool)
        requires
            old(self).wf(),
            old(self).completed < old(self).submitted,
        ensures
            final(self).wf(),
            *final(self) == (FlushTally {
                completed: (old(self).completed + 1) as u64,
                failed: if succeeded {
                    old(self).failed
                } else {
                    (old(self).failed + 1) as u64
                },
                ..*old(self)
            }),
    {
        self.completed = self.completed + 1;
        if !succeeded {
            self.failed = self.failed + 1;
        }
    }
}

/// The growth of an output file while it is flushed.
#[derive(Clone, Copy, Debug, PartialEq, Eq)]
pub struct SizeMonitor {
    pub last_size: u64,
}

impl SizeMonitor {
    /// A monitor of a file that was not looked at yet.
    pub fn new() -> (m: SizeMonitor)
        ensures
            m.last_size == 0,
    {
        SizeMonitor { last_size: 0 }
    }

    /// Takes in the size of the file. Where it differs from the size seen
    /// before, the growth is returned, which is zero where the file shrank.
    pub fn observe(&mut self, size: u64) -> (growth: Option<u64>)
        ensures
            final(self).last_size == size,
            growth == if size == old(self).last_size {
                None
            } else if size > old(self).last_size {
                Some((size - old(self).last_size) as u64)
            } else {
                Some(0u64)
            },
    {
        let last = self.last_size;
        self.last_size = size;
        if size == last {
            None
        } else if size > last {
            Some(size - last)
        } else {
            Some(0)
        }
    }
}

} // verus!
