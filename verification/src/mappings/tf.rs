//! The frame transform graph: static and time-sampled edges between named
//! frames, and the choice of the samples along a chain of frames.
//!
//! Times are integer nanoseconds. Translations and rotations are carried as
//! the bit patterns of their components and are never interpreted here.

use vstd::prelude::*;
use crate::graph::{
    arcs_within, is_route, lemma_route_other_arcs, lemma_route_push, reaches, search,
};
use crate::names::{
    distinct_names, holds_each, intern, lemma_numbered_grows, lemma_route_ends_on_arcs,
    lemma_route_named, lemma_route_numbered, lists, numbered, order_by_key, position,
};
use crate::text::str_eq;
use crate::wire::{
    advanced, bits_at, parse_quaternion, parse_vector3, read_string, skip_bytes, string_at,
    DecodeError, Field,
};

verus! {

/// One transform sample: a time, a translation `[x, y, z]` and a rotation
/// quaternion `[x, y, z, w]`, each component as the bits of a 64-bit float.
#[derive(Clone, Copy, Debug, PartialEq, Eq)]
pub struct TfSample {
    pub t: i64,
    pub trans: [u64; 3],
    pub quat: [u64; 4],
}

/// How a sample is chosen on a time-sampled edge when a pose is asked for.
#[derive(Clone, Copy, Debug, PartialEq, Eq, Structural)]
pub enum TfMode {
    /// The sample closest in time.
    Nearest,
    /// Between the samples on either side of the time asked for.
    Interpolate,
    /// Only a sample at exactly the time asked for.
    Exact,
}

/// A mode name that is none of `nearest`, `interpolate`, `none`.
#[derive(Clone, Copy, Debug, PartialEq, Eq, Structural)]
pub struct InvalidTfMode;

/// The mode that `s` names, if it names one.
pub open spec fn tf_mode_named(s: Seq<char>) -> Option<TfMode> {
    if s == "nearest"@ {
        Some(TfMode::Nearest)
    } else if s == "interpolate"@ {
        Some(TfMode::Interpolate)
    } else if s == "none"@ {
        Some(TfMode::Exact)
    } else {
        None
    }
}

/// Reads a mode from its name: `nearest`, `interpolate` or `none`.
pub fn parse_tf_mode(s: &str) -> (r: Result<TfMode, InvalidTfMode>)
    ensures
        match r {
            Ok(mode) => tf_mode_named(s@) == Some(mode),
            Err(_) => tf_mode_named(s@) is None,
        },
{
    if str_eq(s, "nearest") {
        Ok(TfMode::Nearest)
    } else if str_eq(s, "interpolate") {
        Ok(TfMode::Interpolate)
    } else if str_eq(s, "none") {
        Ok(TfMode::Exact)
    } else {
        Err(InvalidTfMode)
    }
}

/// What was chosen on a time-sampled edge.
#[derive(Clone, Copy, Debug, PartialEq, Eq)]
pub enum Pick {
    /// One sample, taken as it is.
    Single(TfSample),
    /// The two samples around the time asked for, which lie at different
    /// times: the pose is to be interpolated at the fraction
    /// `(at - before.t) / (after.t - before.t)` of the way from `before` to
    /// `after`.
    Between { before: TfSample, after: TfSample },
}

/// The distance in time between `t` and `at`.
pub open spec fn time_gap(t: i64, at: i64) -> int {
    if t >= at {
        t - at
    } else {
        at - t
    }
}

/// Sample `i` is the first at exactly the time `at`.
pub open spec fn is_first_exact(samples: Seq<TfSample>, at: i64, i: int) -> bool {
    &&& 0 <= i < samples.len()
    &&& samples[i].t == at
    &&& forall|j: int| 0 <= j < i ==> (#[trigger] samples[j]).t != at
}

/// Sample `i` is as close to `at` as any, and the first that is.
pub open spec fn is_nearest(samples: Seq<TfSample>, at: i64, i: int) -> bool {
    &&& 0 <= i < samples.len()
    &&& forall|j: int|
        0 <= j < samples.len() ==> time_gap(samples[i].t, at) <= time_gap(
            (#[trigger] samples[j]).t,
            at,
        )
    &&& forall|j: int|
        0 <= j < i ==> time_gap(samples[i].t, at) < time_gap((#[trigger] samples[j]).t, at)
}

/// Sample `i` is the latest at or before `at`, and the first of those at its time.
pub open spec fn is_latest_before(samples: Seq<TfSample>, at: i64, i: int) -> bool {
    &&& 0 <= i < samples.len()
    &&& samples[i].t <= at
    &&& forall|j: int|
        0 <= j < samples.len() && (#[trigger] samples[j]).t <= at ==> samples[j].t <= samples[i].t
    &&& forall|j: int| 0 <= j < i && (#[trigger] samples[j]).t <= at ==> samples[j].t < samples[i].t
}

/// Sample `i` is the earliest at or after `at`, and the first of those at its time.
pub open spec fn is_earliest_after(samples: Seq<TfSample>, at: i64, i: int) -> bool {
    &&& 0 <= i < samples.len()
    &&& samples[i].t >= at
    &&& forall|j: int|
        0 <= j < samples.len() && (#[trigger] samples[j]).t >= at ==> samples[j].t >= samples[i].t
    &&& forall|j: int| 0 <= j < i && (#[trigger] samples[j]).t >= at ==> samples[j].t > samples[i].t
}

/// Some sample lies at or before `at`.
pub open spec fn any_before(samples: Seq<TfSample>, at: i64) -> bool {
    exists|j: int| 0 <= j < samples.len() && (#[trigger] samples[j]).t <= at
}

/// Some sample lies at or after `at`.
pub open spec fn any_after(samples: Seq<TfSample>, at: i64) -> bool {
    exists|j: int| 0 <= j < samples.len() && (#[trigger] samples[j]).t >= at
}

/// Whether `mode` finds anything among `samples` for the time `at`: a sample
/// at exactly that time where the mode is exact, any sample at all otherwise.
pub open spec fn resolvable(samples: Seq<TfSample>, at: i64, mode: TfMode) -> bool {
    match mode {
        TfMode::Exact => exists|j: int| 0 <= j < samples.len() && (#[trigger] samples[j]).t == at,
        TfMode::Nearest => samples.len() > 0,
        TfMode::Interpolate => samples.len() > 0,
    }
}

/// `pick` is what `mode` chooses among `samples` for the time `at`.
pub open spec fn picked(samples: Seq<TfSample>, at: i64, mode: TfMode, pick: Option<Pick>) -> bool {
    match pick {
        None => !resolvable(samples, at, mode),
        Some(Pick::Single(s)) => match mode {
            TfMode::Exact => exists|i: int| is_first_exact(samples, at, i) && s == samples[i],
            TfMode::Nearest => exists|i: int| is_nearest(samples, at, i) && s == samples[i],
            TfMode::Interpolate => {
                ||| exists|i: int|
                    is_latest_before(samples, at, i) && s == samples[i] && (any_after(samples, at)
                        ==> s.t == at)
                ||| !any_before(samples, at) && exists|i: int|
                    is_earliest_after(samples, at, i) && s == samples[i]
            },
        },
        Some(Pick::Between { before, after }) => {
            &&& mode == TfMode::Interpolate
            &&& before.t < at < after.t
            &&& exists|i: int| is_latest_before(samples, at, i) && before == samples[i]
            &&& exists|i: int| is_earliest_after(samples, at, i) && after == samples[i]
        },
    }
}

fn first_exact(samples: &Vec<TfSample>, at_time: i64) -> (r: Option<usize>)
    ensures
        match r {
            Some(i) => is_first_exact(samples@, at_time, i as int),
            None => forall|j: int| 0 <= j < samples@.len() ==> (#[trigger] samples@[j]).t != at_time,
        },
{
    let mut i: usize = 0;
    while i < samples.len()
        invariant
            i <= samples@.len(),
            forall|j: int| 0 <= j < i ==> (#[trigger] samples@[j]).t != at_time,
        decreases samples@.len() - i,
    {
        if samples[i].t == at_time {
            return Some(i);
        }
        i = i + 1;
    }
    None
}

fn gap(t: i64, at: i64) -> (d: i128)
    ensures
        d == time_gap(t, at),
{
    if t >= at {
        t as i128 - at as i128
    } else {
        at as i128 - t as i128
    }
}

fn nearest(samples: &Vec<TfSample>, at_time: i64) -> (r: Option<usize>)
    ensures
        match r {
            Some(i) => is_nearest(samples@, at_time, i as int),
            None => samples@.len() == 0,
        },
{
    if samples.len() == 0 {
        return None;
    }
    let mut best: usize = 0;
    let mut i: usize = 1;
    while i < samples.len()
        invariant
            1 <= i <= samples@.len(),
            best < i,
            forall|j: int|
                0 <= j < i ==> time_gap(samples@[best as int].t, at_time) <= time_gap(
                    (#[trigger] samples@[j]).t,
                    at_time,
                ),
            forall|j: int|
                0 <= j < best ==> time_gap(samples@[best as int].t, at_time) < time_gap(
                    (#[trigger] samples@[j]).t,
                    at_time,
                ),
        decreases samples@.len() - i,
    {
        if gap(samples[i].t, at_time) < gap(samples[best].t, at_time) {
            best = i;
        }
        i = i + 1;
    }
    Some(best)
}

fn latest_before(samples: &Vec<TfSample>, at_time: i64) -> (r: Option<usize>)
    ensures
        match r {
            Some(i) => is_latest_before(samples@, at_time, i as int),
            None => !any_before(samples@, at_time),
        },
{
    let mut best: Option<usize> = None;
    let mut i: usize = 0;
    while i < samples.len()
        invariant
            i <= samples@.len(),
            match best {
                Some(b) => b < i && is_latest_before(samples@.take(i as int), at_time, b as int),
                None => forall|j: int| 0 <= j < i ==> (#[trigger] samples@[j]).t > at_time,
            },
        decreases samples@.len() - i,
    {
        let ghost before = samples@.take(i as int);
        let ghost now = samples@.take(i + 1);
        assert(forall|j: int| 0 <= j < i ==> before[j] == now[j]);
        let t = samples[i].t;
        if t <= at_time {
            match best {
                Some(b) => {
                    assert(before[b as int] == samples@[b as int]);
                    if t > samples[b].t {
                        best = Some(i);
                    }
                },
                None => {
                    best = Some(i);
                },
            }
        }
        i = i + 1;
    }
    assert(samples@.take(i as int) =~= samples@);
    best
}

fn earliest_after(samples: &Vec<TfSample>, at_time: i64) -> (r: Option<usize>)
    ensures
        match r {
            Some(i) => is_earliest_after(samples@, at_time, i as int),
            None => !any_after(samples@, at_time),
        },
{
    let mut best: Option<usize> = None;
    let mut i: usize = 0;
    while i < samples.len()
        invariant
            i <= samples@.len(),
            match best {
                Some(b) => b < i && is_earliest_after(samples@.take(i as int), at_time, b as int),
                None => forall|j: int| 0 <= j < i ==> (#[trigger] samples@[j]).t < at_time,
            },
        decreases samples@.len() - i,
    {
        let ghost before = samples@.take(i as int);
        let ghost now = samples@.take(i + 1);
        assert(forall|j: int| 0 <= j < i ==> before[j] == now[j]);
        let t = samples[i].t;
        if t >= at_time {
            match best {
                Some(b) => {
                    assert(before[b as int] == samples@[b as int]);
                    if t < samples[b].t {
                        best = Some(i);
                    }
                },
                None => {
                    best = Some(i);
                },
            }
        }
        i = i + 1;
    }
    assert(samples@.take(i as int) =~= samples@);
    best
}

/// Chooses among the samples of one edge for the time `at_time`.
///
/// Exact: the first sample at that very time. Nearest: the first of the
/// samples closest in time. Interpolate: the latest sample at or before and the
/// earliest at or after; both, where they lie at different times, else the one
/// before, else the one after.
pub fn interpolate_samples(samples: &Vec<TfSample>, at_time: i64, mode: TfMode) -> (r: Option<Pick>)
    ensures
        picked(samples@, at_time, mode, r),
        r is Some <==> resolvable(samples@, at_time, mode),
{
    match mode {
        TfMode::Exact => match first_exact(samples, at_time) {
            Some(i) => Some(Pick::Single(samples[i])),
            None => None,
        },
        TfMode::Nearest => match nearest(samples, at_time) {
            Some(i) => Some(Pick::Single(samples[i])),
            None => None,
        },
        TfMode::Interpolate => {
            let before = latest_before(samples, at_time);
            let after = earliest_after(samples, at_time);
            match (before, after) {
                (Some(b), Some(a)) => {
                    if samples[a].t != samples[b].t {
                        Some(Pick::Between { before: samples[b], after: samples[a] })
                    } else {
                        Some(Pick::Single(samples[b]))
                    }
                },
                (Some(b), None) => Some(Pick::Single(samples[b])),
                (None, Some(a)) => Some(Pick::Single(samples[a])),
                (None, None) => {
                    assert(samples@.len() == 0) by {
                        if samples@.len() > 0 {
                            let s = samples@[0];
                            assert(s.t <= at_time || s.t >= at_time);
                        }
                    }
                    None
                },
            }
        },
    }
}

/// The position of the first entry of `entries` under the key `(parent,
/// child)`, or the length of `entries` where there is none.
pub open spec fn key_index<V>(
    entries: Seq<(Seq<char>, Seq<char>, V)>,
    parent: Seq<char>,
    child: Seq<char>,
) -> int
    decreases entries.len(),
{
    if entries.len() == 0 {
        0
    } else if entries[0].0 == parent && entries[0].1 == child {
        0
    } else {
        1 + key_index(entries.drop_first(), parent, child)
    }
}

/// `key_index` finds the first entry under the key, and only that.
pub proof fn lemma_key_index<V>(
    entries: Seq<(Seq<char>, Seq<char>, V)>,
    parent: Seq<char>,
    child: Seq<char>,
)
    ensures
        0 <= key_index(entries, parent, child) <= entries.len(),
        key_index(entries, parent, child) < entries.len() ==> {
            &&& entries[key_index(entries, parent, child)].0 == parent
            &&& entries[key_index(entries, parent, child)].1 == child
        },
        forall|i: int|
            0 <= i < key_index(entries, parent, child) ==> !((#[trigger] entries[i]).0 == parent
                && entries[i].1 == child),
    decreases entries.len(),
{
    if entries.len() != 0 && !(entries[0].0 == parent && entries[0].1 == child) {
        let rest = entries.drop_first();
        lemma_key_index(rest, parent, child);
        assert forall|i: int| 0 <= i < key_index(entries, parent, child) implies !((
        #[trigger] entries[i]).0 == parent && entries[i].1 == child) by {
            if i > 0 {
                assert(entries[i] == rest[i - 1]);
            }
        }
    }
}

/// An entry under the key with none under it before is the first.
pub proof fn lemma_key_index_is<V>(
    entries: Seq<(Seq<char>, Seq<char>, V)>,
    parent: Seq<char>,
    child: Seq<char>,
    at: int,
)
    requires
        0 <= at <= entries.len(),
        at < entries.len() ==> entries[at].0 == parent && entries[at].1 == child,
        forall|i: int|
            0 <= i < at ==> !((#[trigger] entries[i]).0 == parent && entries[i].1 == child),
    ensures
        key_index(entries, parent, child) == at,
{
    lemma_key_index(entries, parent, child);
}

/// What is stored under the key `(parent, child)`, if anything.
pub open spec fn stored_at<V>(
    entries: Seq<(Seq<char>, Seq<char>, V)>,
    parent: Seq<char>,
    child: Seq<char>,
) -> Option<V> {
    let i = key_index(entries, parent, child);
    if i < entries.len() {
        Some(entries[i].2)
    } else {
        None
    }
}

/// No two entries stand under the same key.
pub open spec fn distinct_keys<V>(entries: Seq<(Seq<char>, Seq<char>, V)>) -> bool {
    forall|i: int, j: int|
        0 <= i < j < entries.len() ==> !((#[trigger] entries[i]).0 == (#[trigger] entries[j]).0
            && entries[i].1 == entries[j].1)
}

/// The samples at or after the time `cutoff`, in their order.
pub open spec fn retained(samples: Seq<TfSample>, cutoff: int) -> Seq<TfSample>
    decreases samples.len(),
{
    if samples.len() == 0 {
        samples
    } else {
        let rest = retained(samples.drop_last(), cutoff);
        if samples.last().t >= cutoff {
            rest.push(samples.last())
        } else {
            rest
        }
    }
}

/// Every edge with only its samples at or after `cutoff`.
pub open spec fn pruned(
    edges: Seq<(Seq<char>, Seq<char>, Seq<TfSample>)>,
    cutoff: int,
) -> Seq<(Seq<char>, Seq<char>, Seq<TfSample>)> {
    Seq::new(edges.len(), |i: int| (edges[i].0, edges[i].1, retained(edges[i].2, cutoff)))
}

/// The edges after `sample` was added at the end of the edge `(parent,
/// child)`, which is added at the end of the edges where it was missing.
pub open spec fn appended(
    edges: Seq<(Seq<char>, Seq<char>, Seq<TfSample>)>,
    parent: Seq<char>,
    child: Seq<char>,
    sample: TfSample,
) -> Seq<(Seq<char>, Seq<char>, Seq<TfSample>)> {
    let i = key_index(edges, parent, child);
    if i < edges.len() {
        edges.update(i, (parent, child, edges[i].2.push(sample)))
    } else {
        edges.push((parent, child, seq![sample]))
    }
}

/// What is retained lies at or after the cutoff.
pub proof fn lemma_retained_recent(samples: Seq<TfSample>, cutoff: int)
    ensures
        retained(samples, cutoff).len() <= samples.len(),
        forall|k: int|
            0 <= k < retained(samples, cutoff).len() ==> (#[trigger] retained(
                samples,
                cutoff,
            )[k]).t >= cutoff,
    decreases samples.len(),
{
    if samples.len() != 0 {
        lemma_retained_recent(samples.drop_last(), cutoff);
    }
}

/// A sample is retained exactly if it was there and lies at or after the cutoff.
pub proof fn lemma_retained_members(samples: Seq<TfSample>, cutoff: int, s: TfSample)
    ensures
        retained(samples, cutoff).contains(s) <==> samples.contains(s) && s.t >= cutoff,
    decreases samples.len(),
{
    if samples.len() != 0 {
        let front = samples.drop_last();
        let last = samples.last();
        lemma_retained_members(front, cutoff, s);
        let kept = retained(samples, cutoff);
        let kept_front = retained(front, cutoff);
        if samples.contains(s) {
            let i = choose|i: int| 0 <= i < samples.len() && samples[i] == s;
            if i < front.len() {
                assert(front[i] == s);
            }
        }
        if front.contains(s) {
            let i = choose|i: int| 0 <= i < front.len() && front[i] == s;
            assert(samples[i] == s);
        }
        if kept_front.contains(s) {
            let i = choose|i: int| 0 <= i < kept_front.len() && kept_front[i] == s;
            assert(kept[i] == s);
        }
        if last.t >= cutoff {
            assert(kept.last() == last);
            assert(samples[samples.len() - 1] == last);
            if kept.contains(s) {
                let i = choose|i: int| 0 <= i < kept.len() && kept[i] == s;
                if i < kept_front.len() {
                    assert(kept_front[i] == s);
                }
            }
        } else {
            assert(samples[samples.len() - 1] == last);
        }
    }
}

/// A time-invariant edge.
#[derive(Clone, Debug)]
pub struct StaticEdge {
    pub parent: String,
    pub child: String,
    pub sample: TfSample,
}

/// A time-sampled edge, its samples in the order in which they came.
#[derive(Clone, Debug)]
pub struct DynamicEdge {
    pub parent: String,
    pub child: String,
    pub samples: Vec<TfSample>,
}

/// The transform graph. Edges are keyed by `(parent, child)`; the static edges
/// never form a cycle.
#[derive(Clone, Debug)]
pub struct TfGraph {
    static_edges: Vec<StaticEdge>,
    dynamic: Vec<DynamicEdge>,
}

/// Each arc can be given a rank that grows from its start to its end.
pub open spec fn has_ranking<N>(arcs: Seq<(N, N)>) -> bool {
    exists|rank: spec_fn(N) -> int| ranks(arcs, rank)
}

/// `rank` grows along every arc.
pub open spec fn ranks<N>(arcs: Seq<(N, N)>, rank: spec_fn(N) -> int) -> bool {
    forall|i: int| 0 <= i < arcs.len() ==> rank((#[trigger] arcs[i]).0) < rank(arcs[i].1)
}

/// Only the empty route leads from a node back to itself.
pub open spec fn acyclic<N>(arcs: Seq<(N, N)>) -> bool {
    forall|a: N, hops: Seq<(N, N)>| #[trigger] is_route(arcs, a, hops, a) ==> hops.len() == 0
}

/// The keys of `entries`, as arcs from parent to child.
pub open spec fn arcs_of<V>(entries: Seq<(Seq<char>, Seq<char>, V)>) -> Seq<(Seq<char>, Seq<char>)> {
    Seq::new(entries.len(), |i: int| (entries[i].0, entries[i].1))
}

/// Each of `arcs`, followed by the same arc turned round.
pub open spec fn both_ways<N>(arcs: Seq<(N, N)>) -> Seq<(N, N)> {
    Seq::new(
        2 * arcs.len(),
        |i: int|
            if i % 2 == 0 {
                arcs[i / 2]
            } else {
                (arcs[i / 2].1, arcs[i / 2].0)
            },
    )
}

impl TfGraph {
    /// The static edges, in the order in which they were stored.
    pub closed spec fn static_view(&self) -> Seq<(Seq<char>, Seq<char>, TfSample)> {
        Seq::new(
            self.static_edges@.len(),
            |i: int|
                (
                    self.static_edges@[i].parent@,
                    self.static_edges@[i].child@,
                    self.static_edges@[i].sample,
                ),
        )
    }

    /// The time-sampled edges, in the order in which they first came.
    pub closed spec fn dynamic_view(&self) -> Seq<(Seq<char>, Seq<char>, Seq<TfSample>)> {
        Seq::new(
            self.dynamic@.len(),
            |i: int| (self.dynamic@[i].parent@, self.dynamic@[i].child@, self.dynamic@[i].samples@),
        )
    }

    /// The static edges as arcs from parent to child.
    pub open spec fn static_arcs(&self) -> Seq<(Seq<char>, Seq<char>)> {
        arcs_of(self.static_view())
    }

    /// All edges, static ones first, each in both directions.
    pub open spec fn links(&self) -> Seq<(Seq<char>, Seq<char>)> {
        both_ways(arcs_of(self.static_view()) + arcs_of(self.dynamic_view()))
    }

    /// The graph is well formed: one edge for each key, and no cycle of static
    /// edges.
    pub closed spec fn wf(&self) -> bool {
        &&& distinct_keys(self.static_view())
        &&& distinct_keys(self.dynamic_view())
        &&& has_ranking(self.static_arcs())
    }

    /// A graph without edges.
    pub fn new() -> (g: TfGraph)
        ensures
            g.wf(),
            g.static_view() == Seq::<(Seq<char>, Seq<char>, TfSample)>::empty(),
            g.dynamic_view() == Seq::<(Seq<char>, Seq<char>, Seq<TfSample>)>::empty(),
    {
        let g = TfGraph { static_edges: Vec::new(), dynamic: Vec::new() };
        proof {
            assert(g.static_view() =~= Seq::<(Seq<char>, Seq<char>, TfSample)>::empty());
            assert(g.dynamic_view() =~= Seq::<(Seq<char>, Seq<char>, Seq<TfSample>)>::empty());
            let rank = |name: Seq<char>| 0int;
            assert(ranks(g.static_arcs(), rank));
        }
        g
    }

    /// The static edges.
    pub fn static_edges(&self) -> (edges: &Vec<StaticEdge>)
        ensures
            edges@.len() == self.static_view().len(),
            forall|i: int|
                0 <= i < edges@.len() ==> (#[trigger] self.static_view()[i]) == (
                    edges@[i].parent@,
                    edges@[i].child@,
                    edges@[i].sample,
                ),
    {
        &self.static_edges
    }

    /// The time-sampled edges.
    pub fn dynamic_edges(&self) -> (edges: &Vec<DynamicEdge>)
        ensures
            edges@.len() == self.dynamic_view().len(),
            forall|i: int|
                0 <= i < edges@.len() ==> (#[trigger] self.dynamic_view()[i]) == (
                    edges@[i].parent@,
                    edges@[i].child@,
                    edges@[i].samples@,
                ),
    {
        &self.dynamic
    }

    /// Where the static edge `(parent, child)` stands.
    fn static_position(&self, parent: &str, child: &str) -> (r: Option<usize>)
        ensures
            match r {
                Some(i) => i < self.static_edges@.len() && i == key_index(
                    self.static_view(),
                    parent@,
                    child@,
                ),
                None => key_index(self.static_view(), parent@, child@)
                    == self.static_view().len(),
            },
    {
        let mut i: usize = 0;
        while i < self.static_edges.len()
            invariant
                i <= self.static_edges@.len(),
                forall|k: int|
                    0 <= k < i ==> !((#[trigger] self.static_view()[k]).0 == parent@
                        && self.static_view()[k].1 == child@),
            decreases self.static_edges@.len() - i,
        {
            let edge = &self.static_edges[i];
            if str_eq(edge.parent.as_str(), parent) && str_eq(edge.child.as_str(), child) {
                proof {
                    lemma_key_index_is(self.static_view(), parent@, child@, i as int);
                }
                return Some(i);
            }
            i = i + 1;
        }
        proof {
            lemma_key_index_is(self.static_view(), parent@, child@, i as int);
        }
        None
    }

    /// Where the time-sampled edge `(parent, child)` stands.
    fn dynamic_position(&self, parent: &str, child: &str) -> (r: Option<usize>)
        ensures
            match r {
                Some(i) => i < self.dynamic@.len() && i == key_index(
                    self.dynamic_view(),
                    parent@,
                    child@,
                ),
                None => key_index(self.dynamic_view(), parent@, child@)
                    == self.dynamic_view().len(),
            },
    {
        let mut i: usize = 0;
        while i < self.dynamic.len()
            invariant
                i <= self.dynamic@.len(),
                forall|k: int|
                    0 <= k < i ==> !((#[trigger] self.dynamic_view()[k]).0 == parent@
                        && self.dynamic_view()[k].1 == child@),
            decreases self.dynamic@.len() - i,
        {
            let edge = &self.dynamic[i];
            if str_eq(edge.parent.as_str(), parent) && str_eq(edge.child.as_str(), child) {
                proof {
                    lemma_key_index_is(self.dynamic_view(), parent@, child@, i as int);
                }
                return Some(i);
            }
            i = i + 1;
        }
        proof {
            lemma_key_index_is(self.dynamic_view(), parent@, child@, i as int);
        }
        None
    }

    /// The sample of the static edge `(parent, child)`.
    pub fn static_sample(&self, parent: &str, child: &str) -> (r: Option<TfSample>)
        ensures
            r == stored_at(self.static_view(), parent@, child@),
    {
        match self.static_position(parent, child) {
            Some(i) => Some(self.static_edges[i].sample),
            None => None,
        }
    }

    /// The samples of the time-sampled edge `(parent, child)`.
    pub fn dynamic_samples(&self, parent: &str, child: &str) -> (r: Option<&Vec<TfSample>>)
        ensures
            match r {
                Some(samples) => stored_at(self.dynamic_view(), parent@, child@) == Some(samples@),
                None => stored_at(self.dynamic_view(), parent@, child@) is None,
            },
    {
        match self.dynamic_position(parent, child) {
            Some(i) => Some(&self.dynamic[i].samples),
            None => None,
        }
    }
}

fn retain_recent(samples: &Vec<TfSample>, cutoff: i128) -> (kept: Vec<TfSample>)
    ensures
        kept@ == retained(samples@, cutoff as int),
{
    let mut kept: Vec<TfSample> = Vec::new();
    let mut i: usize = 0;
    while i < samples.len()
        invariant
            i <= samples@.len(),
            kept@ == retained(samples@.take(i as int), cutoff as int),
        decreases samples@.len() - i,
    {
        let s = samples[i];
        assert(samples@.take(i + 1).drop_last() =~= samples@.take(i as int));
        if s.t as i128 >= cutoff {
            kept.push(s);
        }
        i = i + 1;
    }
    assert(samples@.take(i as int) =~= samples@);
    kept
}

impl TfGraph {
    /// Drops, on every time-sampled edge, the samples before `latest_ts -
    /// buffer`.
    pub fn prune_dynamic(&mut self, latest_ts: i64, buffer: i64)
        requires
            old(self).wf(),
        ensures
            final(self).wf(),
            final(self).static_view() == old(self).static_view(),
            final(self).dynamic_view() == pruned(old(self).dynamic_view(), latest_ts - buffer),
    {
        let cutoff: i128 = latest_ts as i128 - buffer as i128;
        let ghost before = self.dynamic_view();
        let mut i: usize = 0;
        while i < self.dynamic.len()
            invariant
                i <= self.dynamic@.len(),
                self.static_edges == old(self).static_edges,
                self.dynamic@.len() == before.len(),
                before == old(self).dynamic_view(),
                cutoff == latest_ts - buffer,
                forall|k: int|
                    0 <= k < i ==> (#[trigger] self.dynamic_view()[k]) == (
                        before[k].0,
                        before[k].1,
                        retained(before[k].2, cutoff as int),
                    ),
                forall|k: int| i <= k < before.len() ==> (#[trigger] self.dynamic_view()[k]) == before[k],
            decreases self.dynamic@.len() - i,
        {
            let kept = retain_recent(&self.dynamic[i].samples, cutoff);
            let ghost view_before = self.dynamic_view();
            self.dynamic[i].samples = kept;
            proof {
                assert forall|k: int| 0 <= k < i + 1 implies (#[trigger] self.dynamic_view()[k]) == (
                    before[k].0,
                    before[k].1,
                    retained(before[k].2, cutoff as int),
                ) by {
                    assert(view_before[k] == view_before[k]);
                }
                assert forall|k: int| i + 1 <= k < before.len() implies (
                #[trigger] self.dynamic_view()[k]) == before[k] by {
                    assert(view_before[k] == before[k]);
                }
            }
            i = i + 1;
        }
        proof {
            assert(self.dynamic_view() =~= pruned(before, cutoff as int));
            assert(self.static_view() =~= old(self).static_view());
            assert(distinct_keys(self.dynamic_view()));
        }
    }

    /// Adds `sample` at the end of the time-sampled edge `(parent, child)`,
    /// then drops every sample, on any edge, that lies more than `buffer`
    /// before the time of `sample`.
    pub fn ingest_dynamic(&mut self, parent: &str, child: &str, sample: TfSample, buffer: i64)
        requires
            old(self).wf(),
        ensures
            final(self).wf(),
            final(self).static_view() == old(self).static_view(),
            final(self).dynamic_view() == pruned(
                appended(old(self).dynamic_view(), parent@, child@, sample),
                sample.t - buffer,
            ),
            forall|i: int, k: int|
                0 <= i < final(self).dynamic_view().len()
                    && 0 <= k < final(self).dynamic_view()[i].2.len()
                    ==> (#[trigger] final(self).dynamic_view()[i].2[k]).t >= sample.t - buffer,
    {
        self.append_dynamic(parent, child, sample);
        self.prune_dynamic(sample.t, buffer);
        proof {
            let edges = appended(old(self).dynamic_view(), parent@, child@, sample);
            assert forall|i: int, k: int|
                0 <= i < self.dynamic_view().len() && 0 <= k < self.dynamic_view()[i].2.len() implies (
            #[trigger] self.dynamic_view()[i].2[k]).t >= sample.t - buffer by {
                lemma_retained_recent(edges[i].2, sample.t - buffer);
            }
        }
    }

    fn append_dynamic(&mut self, parent: &str, child: &str, sample: TfSample)
        requires
            old(self).wf(),
        ensures
            final(self).wf(),
            final(self).static_view() == old(self).static_view(),
            final(self).dynamic_view() == appended(
                old(self).dynamic_view(),
                parent@,
                child@,
                sample,
            ),
    {
        let ghost before = self.dynamic_view();
        proof {
            lemma_key_index(before, parent@, child@);
        }
        match self.dynamic_position(parent, child) {
            Some(i) => {
                self.dynamic[i].samples.push(sample);
                proof {
                    assert(self.dynamic_view() =~= appended(before, parent@, child@, sample));
                }
            },
            None => {
                let mut samples: Vec<TfSample> = Vec::new();
                samples.push(sample);
                self.dynamic.push(
                    DynamicEdge { parent: parent.to_owned(), child: child.to_owned(), samples },
                );
                proof {
                    assert(self.dynamic_view() =~= appended(before, parent@, child@, sample));
                }
            },
        }
        proof {
            assert(self.static_view() =~= old(self).static_view());
        }
    }
}

/// Along a route with at least one hop the rank grows.
pub proof fn lemma_rank_grows<N>(
    arcs: Seq<(N, N)>,
    rank: spec_fn(N) -> int,
    a: N,
    hops: Seq<(N, N)>,
    b: N,
)
    requires
        ranks(arcs, rank),
        is_route(arcs, a, hops, b),
        hops.len() > 0,
    ensures
        rank(a) < rank(b),
    decreases hops.len(),
{
    let i = choose|i: int| 0 <= i < arcs.len() && arcs[i] == hops[0];
    assert(rank(arcs[i].0) < rank(arcs[i].1));
    if hops.len() == 1 {
        reveal_with_fuel(is_route, 2);
        assert(hops.drop_first().len() == 0);
    } else {
        lemma_rank_grows(arcs, rank, hops[0].1, hops.drop_first(), b);
    }
}

/// Arcs that can be ranked hold no cycle.
pub proof fn lemma_ranking_acyclic<N>(arcs: Seq<(N, N)>)
    requires
        has_ranking(arcs),
    ensures
        acyclic(arcs),
{
    let rank = choose|rank: spec_fn(N) -> int| ranks(arcs, rank);
    assert forall|a: N, hops: Seq<(N, N)>| #[trigger] is_route(arcs, a, hops, a) implies hops.len()
        == 0 by {
        if hops.len() > 0 {
            lemma_rank_grows(arcs, rank, a, hops, a);
        }
    }
}

/// Ranked arcs stay ranked when an arc is added whose end does not reach its
/// start.
pub proof fn lemma_ranking_push<N>(arcs: Seq<(N, N)>, p: N, c: N)
    requires
        has_ranking(arcs),
        !reaches(arcs, c, p),
    ensures
        has_ranking(arcs.push((p, c))),
{
    let rank = choose|rank: spec_fn(N) -> int| ranks(arcs, rank);
    let lift: int = if rank(p) >= rank(c) {
        rank(p) - rank(c) + 1
    } else {
        0
    };
    let lifted = |x: N|
        if reaches(arcs, c, x) {
            rank(x) + lift
        } else {
            rank(x)
        };
    let more = arcs.push((p, c));
    assert forall|i: int| 0 <= i < more.len() implies lifted((#[trigger] more[i]).0) < lifted(
        more[i].1,
    ) by {
        if i < arcs.len() {
            let u = arcs[i].0;
            let v = arcs[i].1;
            assert(more[i] == arcs[i]);
            assert(rank(arcs[i].0) < rank(arcs[i].1));
            if reaches(arcs, c, u) {
                let hops = choose|hops: Seq<(N, N)>| is_route(arcs, c, hops, u);
                assert(arcs.contains((u, v)));
                lemma_route_push(arcs, c, hops, u, v);
                assert(reaches(arcs, c, v));
            }
        } else {
            assert(is_route(arcs, c, Seq::empty(), c));
            assert(reaches(arcs, c, c));
        }
    }
    assert(ranks(more, lifted));
}

/// An arc leads from its start to its end.
pub proof fn lemma_arc_reaches<N>(arcs: Seq<(N, N)>, a: N, b: N)
    requires
        arcs.contains((a, b)),
    ensures
        reaches(arcs, a, b),
{
    let hops = seq![(a, b)];
    assert(hops.drop_first() =~= Seq::<(N, N)>::empty());
    assert(is_route(arcs, b, hops.drop_first(), b));
    assert(is_route(arcs, a, hops, b));
}

/// Once the static edge from `a` to `b` is stored, an edge from `b` to `a` is
/// dropped for the cycle that it would close.
pub proof fn lemma_reverse_edge_rejected(
    edges: Seq<(Seq<char>, Seq<char>, TfSample)>,
    a: Seq<char>,
    b: Seq<char>,
    i: int,
)
    requires
        0 <= i < edges.len(),
        edges[i].0 == a,
        edges[i].1 == b,
    ensures
        static_outcome(edges, b, a) == StaticIngest::WouldCycle,
        forall|sample: TfSample| static_after(edges, b, a, sample) == edges,
{
    assert(arcs_of(edges)[i] == (a, b));
    lemma_arc_reaches(arcs_of(edges), a, b);
}

/// What became of a static edge that was handed in.
#[derive(Clone, Copy, Debug, PartialEq, Eq, Structural)]
pub enum StaticIngest {
    /// The edge was stored.
    Stored,
    /// An edge with this parent and child was there already and was kept.
    AlreadyPresent,
    /// The child already reaches the parent over static edges: the edge was
    /// dropped.
    WouldCycle,
}

/// What `ingest_static` answers for the edge `(parent, child)` on the static
/// edges `edges`.
pub open spec fn static_outcome(
    edges: Seq<(Seq<char>, Seq<char>, TfSample)>,
    parent: Seq<char>,
    child: Seq<char>,
) -> StaticIngest {
    if reaches(arcs_of(edges), child, parent) {
        StaticIngest::WouldCycle
    } else if key_index(edges, parent, child) < edges.len() {
        StaticIngest::AlreadyPresent
    } else {
        StaticIngest::Stored
    }
}

/// The static edges after `ingest_static` for the edge `(parent, child)`.
pub open spec fn static_after(
    edges: Seq<(Seq<char>, Seq<char>, TfSample)>,
    parent: Seq<char>,
    child: Seq<char>,
    sample: TfSample,
) -> Seq<(Seq<char>, Seq<char>, TfSample)> {
    if static_outcome(edges, parent, child) == StaticIngest::Stored {
        edges.push((parent, child, sample))
    } else {
        edges
    }
}

impl TfGraph {
    /// The static edges hold no cycle.
    pub proof fn lemma_static_acyclic(self)
        requires
            self.wf(),
        ensures
            acyclic(self.static_arcs()),
    {
        lemma_ranking_acyclic(self.static_arcs());
    }

    /// The static arcs over the positions of their frames in `names`, which
    /// gets the frames that it lacked.
    fn number_static(&self, names: &mut Vec<String>) -> (arcs: Vec<(usize, usize)>)
        requires
            distinct_names(old(names)@),
        ensures
            distinct_names(final(names)@),
            old(names)@.len() <= final(names)@.len(),
            forall|k: int| 0 <= k < old(names)@.len() ==> final(names)@[k] == old(names)@[k],
            numbered(final(names)@, arcs@, self.static_arcs()),
    {
        let mut arcs: Vec<(usize, usize)> = Vec::new();
        let mut i: usize = 0;
        while i < self.static_edges.len()
            invariant
                i <= self.static_edges@.len(),
                distinct_names(names@),
                old(names)@.len() <= names@.len(),
                forall|k: int| 0 <= k < old(names)@.len() ==> names@[k] == old(names)@[k],
                numbered(names@, arcs@, self.static_arcs().take(i as int)),
            decreases self.static_edges@.len() - i,
        {
            let ghost names_before = names@;
            let p = intern(names, self.static_edges[i].parent.as_str());
            let c = intern(names, self.static_edges[i].child.as_str());
            arcs.push((p, c));
            proof {
                let name_arcs = self.static_arcs().take(i + 1);
                assert(name_arcs[i as int] == (
                    self.static_edges@[i as int].parent@,
                    self.static_edges@[i as int].child@,
                ));
                assert forall|j: int| 0 <= j < arcs@.len() implies {
                    &&& (#[trigger] arcs@[j]).0 < names@.len()
                    &&& arcs@[j].1 < names@.len()
                    &&& names@[arcs@[j].0 as int]@ == name_arcs[j].0
                    &&& names@[arcs@[j].1 as int]@ == name_arcs[j].1
                } by {
                    if j < i {
                        assert(name_arcs[j] == self.static_arcs().take(i as int)[j]);
                        assert(names@[arcs@[j].0 as int] == names_before[arcs@[j].0 as int]);
                        assert(names@[arcs@[j].1 as int] == names_before[arcs@[j].1 as int]);
                    }
                }
            }
            i = i + 1;
        }
        proof {
            assert(self.static_arcs().take(i as int) =~= self.static_arcs());
        }
        arcs
    }

    /// Whether a static edge from `parent` to `child` would close a cycle:
    /// whether `child` already reaches `parent` over static edges.
    pub fn would_create_cycle(&self, parent: &str, child: &str) -> (r: bool)
        ensures
            r == reaches(self.static_arcs(), child@, parent@),
    {
        if str_eq(parent, child) {
            assert(is_route(self.static_arcs(), child@, Seq::empty(), parent@));
            return true;
        }
        let mut names: Vec<String> = Vec::new();
        let arcs = self.number_static(&mut names);
        let at_child = position(&names, child);
        let at_parent = position(&names, parent);
        let ghost name_arcs = self.static_arcs();
        match (at_child, at_parent) {
            (Some(c), Some(p)) => {
                let found = search(names.len(), &arcs, c);
                let r = found.reached[p];
                proof {
                    if r {
                        let hops = choose|hops: Seq<(usize, usize)>| is_route(arcs@, c, hops, p);
                        lemma_route_named(names@, arcs@, name_arcs, c, hops, p);
                    }
                    if reaches(name_arcs, child@, parent@) {
                        let hops = choose|hops: Seq<(Seq<char>, Seq<char>)>|
                            is_route(name_arcs, child@, hops, parent@);
                        lemma_route_numbered(names@, arcs@, name_arcs, c, hops, parent@);
                        let (b, numbers) = choose|b: usize, numbers: Seq<(usize, usize)>|
                            b < names@.len() && names@[b as int]@ == parent@ && #[trigger] is_route(
                                arcs@,
                                c,
                                numbers,
                                b,
                            ) && numbers.len() == hops.len();
                        assert(b == p) by {
                            if b != p {
                                if (b as int) < (p as int) {
                                    assert(names@[b as int]@ != names@[p as int]@);
                                } else {
                                    assert(names@[p as int]@ != names@[b as int]@);
                                }
                            }
                        }
                    }
                }
                r
            },
            _ => {
                proof {
                    if reaches(name_arcs, child@, parent@) {
                        let hops = choose|hops: Seq<(Seq<char>, Seq<char>)>|
                            is_route(name_arcs, child@, hops, parent@);
                        lemma_route_ends_on_arcs(name_arcs, child@, hops, parent@);
                        let i = choose|i: int|
                            0 <= i < name_arcs.len() && (#[trigger] name_arcs[i]).0 == child@;
                        let k = choose|k: int|
                            0 <= k < name_arcs.len() && (#[trigger] name_arcs[k]).1 == parent@;
                        assert(names@[arcs@[i].0 as int]@ == child@);
                        assert(names@[arcs@[k].1 as int]@ == parent@);
                    }
                }
                false
            },
        }
    }

    /// Takes in the static edge `(parent, child)` with its one sample. The
    /// edge is dropped where `child` already reaches `parent` over static
    /// edges, and where the key is already there; otherwise it is stored.
    pub fn ingest_static(&mut self, parent: &str, child: &str, sample: TfSample) -> (r:
        StaticIngest)
        requires
            old(self).wf(),
        ensures
            final(self).wf(),
            final(self).dynamic_view() == old(self).dynamic_view(),
            r == static_outcome(old(self).static_view(), parent@, child@),
            final(self).static_view() == static_after(
                old(self).static_view(),
                parent@,
                child@,
                sample,
            ),
    {
        if self.would_create_cycle(parent, child) {
            return StaticIngest::WouldCycle;
        }
        if self.static_position(parent, child).is_some() {
            return StaticIngest::AlreadyPresent;
        }
        let ghost before = self.static_view();
        let ghost arcs_before = self.static_arcs();
        self.static_edges.push(
            StaticEdge { parent: parent.to_owned(), child: child.to_owned(), sample },
        );
        proof {
            assert(self.static_view() =~= before.push((parent@, child@, sample)));
            assert(self.dynamic_view() =~= old(self).dynamic_view());
            assert(self.static_arcs() =~= arcs_before.push((parent@, child@)));
            lemma_ranking_push(arcs_before, parent@, child@);
            lemma_key_index(before, parent@, child@);
            assert(distinct_keys(self.static_view()));
        }
        StaticIngest::Stored
    }
}

/// The transform of one hop: which sample or samples to use, and whether the
/// transform they give is to be inverted.
#[derive(Clone, Copy, Debug, PartialEq, Eq)]
pub struct EdgeTransform {
    /// The hop runs from the edge's child to its parent.
    pub inverted: bool,
    /// The edge is a static one.
    pub fixed: bool,
    pub pick: Pick,
}

/// One hop of a resolved chain, from the frame `from` to the frame `to`.
#[derive(Clone, Debug)]
pub struct Hop {
    pub from: String,
    pub to: String,
    pub transform: EdgeTransform,
}

/// One transform of a transform message, its numbers as bit patterns.
#[derive(Clone, Debug)]
pub struct TransformStamped {
    /// The parent frame.
    pub frame_id: String,
    pub child_frame_id: String,
    pub translation: [u64; 3],
    pub rotation: [u64; 4],
}

/// Whether the hop from `from` to `to` has a transform at the time `at`: a
/// static edge in either direction has one always; without one, the
/// time-sampled edge `(from, to)` decides, and only where that is missing the
/// edge `(to, from)`.
pub open spec fn edge_resolvable(
    fixed: Seq<(Seq<char>, Seq<char>, TfSample)>,
    sampled: Seq<(Seq<char>, Seq<char>, Seq<TfSample>)>,
    from: Seq<char>,
    to: Seq<char>,
    at: i64,
    mode: TfMode,
) -> bool {
    if stored_at(fixed, from, to) is Some || stored_at(fixed, to, from) is Some {
        true
    } else {
        match stored_at(sampled, from, to) {
            Some(samples) => resolvable(samples, at, mode),
            None => match stored_at(sampled, to, from) {
                Some(samples) => resolvable(samples, at, mode),
                None => false,
            },
        }
    }
}

/// `tr` is the transform of the hop from `from` to `to` at the time `at`.
pub open spec fn edge_transform_is(
    fixed: Seq<(Seq<char>, Seq<char>, TfSample)>,
    sampled: Seq<(Seq<char>, Seq<char>, Seq<TfSample>)>,
    from: Seq<char>,
    to: Seq<char>,
    at: i64,
    mode: TfMode,
    tr: EdgeTransform,
) -> bool {
    match stored_at(fixed, from, to) {
        Some(s) => tr == (EdgeTransform { inverted: false, fixed: true, pick: Pick::Single(s) }),
        None => match stored_at(fixed, to, from) {
            Some(s) => tr == (EdgeTransform { inverted: true, fixed: true, pick: Pick::Single(s) }),
            None => match stored_at(sampled, from, to) {
                Some(samples) => !tr.inverted && !tr.fixed && picked(
                    samples,
                    at,
                    mode,
                    Some(tr.pick),
                ),
                None => match stored_at(sampled, to, from) {
                    Some(samples) => tr.inverted && !tr.fixed && picked(
                        samples,
                        at,
                        mode,
                        Some(tr.pick),
                    ),
                    None => false,
                },
            },
        }
    }
}

/// No route from `a` to `b` has fewer than `len` hops.
pub open spec fn shortest<N>(arcs: Seq<(N, N)>, a: N, len: int, b: N) -> bool {
    forall|other: Seq<(N, N)>| #[trigger] is_route(arcs, a, other, b) ==> len <= other.len()
}

/// The hops as pairs of frame names.
pub open spec fn hop_names(hops: Seq<Hop>) -> Seq<(Seq<char>, Seq<char>)> {
    Seq::new(hops.len(), |i: int| (hops[i].from@, hops[i].to@))
}

/// Pairs of strings as pairs of frame names.
pub open spec fn pair_names(pairs: Seq<(String, String)>) -> Seq<(Seq<char>, Seq<char>)> {
    Seq::new(pairs.len(), |i: int| (pairs[i].0@, pairs[i].1@))
}

/// The time-sampled edges after each of `transforms` was added with the time
/// `ts`, in their order.
pub open spec fn appended_all(
    edges: Seq<(Seq<char>, Seq<char>, Seq<TfSample>)>,
    transforms: Seq<TransformStamped>,
    ts: i64,
) -> Seq<(Seq<char>, Seq<char>, Seq<TfSample>)>
    decreases transforms.len(),
{
    if transforms.len() == 0 {
        edges
    } else {
        let last = transforms.last();
        appended(
            appended_all(edges, transforms.drop_last(), ts),
            last.frame_id@,
            last.child_frame_id@,
            TfSample { t: ts, trans: last.translation, quat: last.rotation },
        )
    }
}

/// The static edges after each of `transforms` was handed in, in their order.
pub open spec fn static_after_all(
    edges: Seq<(Seq<char>, Seq<char>, TfSample)>,
    transforms: Seq<TransformStamped>,
) -> Seq<(Seq<char>, Seq<char>, TfSample)>
    decreases transforms.len(),
{
    if transforms.len() == 0 {
        edges
    } else {
        let last = transforms.last();
        static_after(
            static_after_all(edges, transforms.drop_last()),
            last.frame_id@,
            last.child_frame_id@,
            TfSample { t: 0, trans: last.translation, quat: last.rotation },
        )
    }
}

impl TfGraph {
    /// The keys of the static edges, as they are stored.
    fn static_keys(&self) -> (keys: Vec<(&str, &str)>)
        ensures
            keys@.len() == self.static_edges@.len(),
            forall|i: int|
                0 <= i < keys@.len() ==> (#[trigger] keys@[i]).0@ == self.static_edges@[i].parent@
                    && keys@[i].1@ == self.static_edges@[i].child@,
    {
        let mut keys: Vec<(&str, &str)> = Vec::new();
        let mut i: usize = 0;
        while i < self.static_edges.len()
            invariant
                i <= self.static_edges@.len(),
                keys@.len() == i,
                forall|k: int|
                    0 <= k < i ==> (#[trigger] keys@[k]).0@ == self.static_edges@[k].parent@
                        && keys@[k].1@ == self.static_edges@[k].child@,
            decreases self.static_edges@.len() - i,
        {
            keys.push((self.static_edges[i].parent.as_str(), self.static_edges[i].child.as_str()));
            i = i + 1;
        }
        keys
    }

    /// The keys of the time-sampled edges, as they are stored.
    fn dynamic_keys(&self) -> (keys: Vec<(&str, &str)>)
        ensures
            keys@.len() == self.dynamic@.len(),
            forall|i: int|
                0 <= i < keys@.len() ==> (#[trigger] keys@[i]).0@ == self.dynamic@[i].parent@
                    && keys@[i].1@ == self.dynamic@[i].child@,
    {
        let mut keys: Vec<(&str, &str)> = Vec::new();
        let mut i: usize = 0;
        while i < self.dynamic.len()
            invariant
                i <= self.dynamic@.len(),
                keys@.len() == i,
                forall|k: int|
                    0 <= k < i ==> (#[trigger] keys@[k]).0@ == self.dynamic@[k].parent@
                        && keys@[k].1@ == self.dynamic@[k].child@,
            decreases self.dynamic@.len() - i,
        {
            keys.push((self.dynamic[i].parent.as_str(), self.dynamic[i].child.as_str()));
            i = i + 1;
        }
        keys
    }

    /// All arcs, in both directions, over the positions of their frames in
    /// `names`, which gets the frames that it lacked: the static edges first,
    /// then the time-sampled ones, each kind in the order of its keys. Returns
    /// with them the same arcs over the names.
    fn number_links(&self, names: &mut Vec<String>) -> (r: (
        Vec<(usize, usize)>,
        Ghost<Seq<(Seq<char>, Seq<char>)>>,
    ))
        requires
            distinct_names(old(names)@),
        ensures
            distinct_names(final(names)@),
            old(names)@.len() <= final(names)@.len(),
            forall|k: int| 0 <= k < old(names)@.len() ==> final(names)@[k] == old(names)@[k],
            numbered(final(names)@, r.0@, r.1@),
            forall|x: (Seq<char>, Seq<char>)| r.1@.contains(x) <==> self.links().contains(x),
    {
        let ghost keys = arcs_of(self.static_view()) + arcs_of(self.dynamic_view());
        let ghost links = self.links();
        let ghost mut built: Seq<(Seq<char>, Seq<char>)> = Seq::empty();
        let fixed: usize = self.static_edges.len();
        let static_order = order_by_key(&self.static_keys());
        let dynamic_order = order_by_key(&self.dynamic_keys());
        let mut arcs: Vec<(usize, usize)> = Vec::new();
        let mut i: usize = 0;
        while i < static_order.len()
            invariant
                i <= static_order@.len(),
                static_order@.len() == fixed,
                fixed == self.static_edges@.len(),
                holds_each(static_order@, fixed as nat),
                keys == arcs_of(self.static_view()) + arcs_of(self.dynamic_view()),
                links == both_ways(keys),
                distinct_names(names@),
                old(names)@.len() <= names@.len(),
                forall|k: int| 0 <= k < old(names)@.len() ==> names@[k] == old(names)@[k],
                numbered(names@, arcs@, built),
                forall|x: (Seq<char>, Seq<char>)| built.contains(x) ==> links.contains(x),
                forall|j: int|
                    0 <= j < i ==> built.contains(links[2 * (#[trigger] static_order@[j])])
                        && built.contains(links[2 * static_order@[j] + 1]),
            decreases static_order@.len() - i,
        {
            let at = static_order[i];
            let ghost names_before = names@;
            let ghost arcs_before = arcs@;
            let ghost built_before = built;
            let p = intern(names, self.static_edges[at].parent.as_str());
            let c = intern(names, self.static_edges[at].child.as_str());
            arcs.push((p, c));
            arcs.push((c, p));
            proof {
                let forward = (
                    self.static_edges@[at as int].parent@,
                    self.static_edges@[at as int].child@,
                );
                let backward = (forward.1, forward.0);
                built = built.push(forward).push(backward);
                assert(keys[at as int] == forward);
                assert(links[2 * at] == forward && links[2 * at + 1] == backward);
                lemma_numbered_grows(names_before, names@, arcs_before, built_before);
                assert(built[built_before.len() as int] == forward);
                assert(built[built_before.len() as int + 1] == backward);
                assert forall|x: (Seq<char>, Seq<char>)| built.contains(x) implies links.contains(
                    x,
                ) by {
                    let m = choose|m: int| 0 <= m < built.len() && built[m] == x;
                    if m < built_before.len() {
                        assert(built_before[m] == x);
                    }
                }
                assert forall|j: int| 0 <= j < i + 1 implies built.contains(
                    links[2 * (#[trigger] static_order@[j])],
                ) && built.contains(links[2 * static_order@[j] + 1]) by {
                    if j < i {
                        let f = links[2 * static_order@[j]];
                        let g = links[2 * static_order@[j] + 1];
                        let mf = choose|m: int| 0 <= m < built_before.len() && built_before[m] == f;
                        let mg = choose|m: int| 0 <= m < built_before.len() && built_before[m] == g;
                        assert(built[mf] == f && built[mg] == g);
                    }
                }
            }
            i = i + 1;
        }
        let mut k: usize = 0;
        while k < dynamic_order.len()
            invariant
                k <= dynamic_order@.len(),
                dynamic_order@.len() == self.dynamic@.len(),
                fixed == self.static_edges@.len(),
                holds_each(static_order@, fixed as nat),
                holds_each(dynamic_order@, self.dynamic@.len() as nat),
                keys == arcs_of(self.static_view()) + arcs_of(self.dynamic_view()),
                links == both_ways(keys),
                distinct_names(names@),
                old(names)@.len() <= names@.len(),
                forall|j: int| 0 <= j < old(names)@.len() ==> names@[j] == old(names)@[j],
                numbered(names@, arcs@, built),
                forall|x: (Seq<char>, Seq<char>)| built.contains(x) ==> links.contains(x),
                forall|j: int|
                    0 <= j < fixed ==> built.contains(links[2 * (#[trigger] static_order@[j])])
                        && built.contains(links[2 * static_order@[j] + 1]),
                forall|j: int|
                    0 <= j < k ==> built.contains(links[2 * (fixed + #[trigger] dynamic_order@[j])])
                        && built.contains(links[2 * (fixed + dynamic_order@[j]) + 1]),
            decreases dynamic_order@.len() - k,
        {
            let at = dynamic_order[k];
            let ghost names_before = names@;
            let ghost arcs_before = arcs@;
            let ghost built_before = built;
            let p = intern(names, self.dynamic[at].parent.as_str());
            let c = intern(names, self.dynamic[at].child.as_str());
            arcs.push((p, c));
            arcs.push((c, p));
            proof {
                let forward = (self.dynamic@[at as int].parent@, self.dynamic@[at as int].child@);
                let backward = (forward.1, forward.0);
                built = built.push(forward).push(backward);
                assert(keys[fixed + at] == forward);
                assert(links[2 * (fixed + at)] == forward && links[2 * (fixed + at) + 1]
                    == backward);
                lemma_numbered_grows(names_before, names@, arcs_before, built_before);
                assert(built[built_before.len() as int] == forward);
                assert(built[built_before.len() as int + 1] == backward);
                assert forall|x: (Seq<char>, Seq<char>)| built.contains(x) implies links.contains(
                    x,
                ) by {
                    let m = choose|m: int| 0 <= m < built.len() && built[m] == x;
                    if m < built_before.len() {
                        assert(built_before[m] == x);
                    }
                }
                assert forall|j: int| 0 <= j < fixed implies built.contains(
                    links[2 * (#[trigger] static_order@[j])],
                ) && built.contains(links[2 * static_order@[j] + 1]) by {
                    let f = links[2 * static_order@[j]];
                    let g = links[2 * static_order@[j] + 1];
                    let mf = choose|m: int| 0 <= m < built_before.len() && built_before[m] == f;
                    let mg = choose|m: int| 0 <= m < built_before.len() && built_before[m] == g;
                    assert(built[mf] == f && built[mg] == g);
                }
                assert forall|j: int| 0 <= j < k + 1 implies built.contains(
                    links[2 * (fixed + #[trigger] dynamic_order@[j])],
                ) && built.contains(links[2 * (fixed + dynamic_order@[j]) + 1]) by {
                    if j < k {
                        let f = links[2 * (fixed + dynamic_order@[j])];
                        let g = links[2 * (fixed + dynamic_order@[j]) + 1];
                        let mf = choose|m: int| 0 <= m < built_before.len() && built_before[m] == f;
                        let mg = choose|m: int| 0 <= m < built_before.len() && built_before[m] == g;
                        assert(built[mf] == f && built[mg] == g);
                    }
                }
            }
            k = k + 1;
        }
        proof {
            assert forall|x: (Seq<char>, Seq<char>)| links.contains(x) implies built.contains(
                x,
            ) by {
                let m = choose|m: int| 0 <= m < links.len() && links[m] == x;
                let e = m / 2;
                if e < fixed {
                    assert(lists(static_order@, e));
                    let j = choose|j: int| 0 <= j < static_order@.len() && static_order@[j] == e;
                    assert(built.contains(links[2 * static_order@[j]]));
                    assert(built.contains(links[2 * static_order@[j] + 1]));
                } else {
                    let d = e - fixed;
                    assert(lists(dynamic_order@, d));
                    let j = choose|j: int|
                        0 <= j < dynamic_order@.len() && dynamic_order@[j] == d;
                    assert(built.contains(links[2 * (fixed + dynamic_order@[j])]));
                    assert(built.contains(links[2 * (fixed + dynamic_order@[j]) + 1]));
                }
            }
        }
        (arcs, Ghost(built))
    }

    /// A shortest chain of frames from `source` to `target` over the edges,
    /// static and time-sampled, each taken in either direction. Among the
    /// shortest chains the search decides, which goes breadth-first and tries the
    /// static edges before the others, each kind in the order of its keys.
    /// There is no chain exactly if the edges do not connect the two frames.
    pub fn find_path(&self, source: &str, target: &str) -> (r: Option<Vec<(String, String)>>)
        ensures
            match r {
                Some(hops) => {
                    &&& is_route(self.links(), source@, pair_names(hops@), target@)
                    &&& shortest(self.links(), source@, hops@.len() as int, target@)
                },
                None => !reaches(self.links(), source@, target@),
            },
    {
        let mut names: Vec<String> = Vec::new();
        let s = intern(&mut names, source);
        let t = intern(&mut names, target);
        let (arcs, Ghost(ordered)) = self.number_links(&mut names);
        let ghost links = self.links();
        let n = names.len();
        let found = search(n, &arcs, s);
        proof {
            // every chain over the names is a route of the same length over the numbers
            assert forall|other: Seq<(Seq<char>, Seq<char>)>| #[trigger]
                is_route(links, source@, other, target@) implies found.reached@[t as int]
                && found.depth@[t as int] <= other.len() by {
                lemma_route_other_arcs(links, ordered, source@, other, target@);
                lemma_route_numbered(names@, arcs@, ordered, s, other, target@);
                let (b, numbers) = choose|b: usize, numbers: Seq<(usize, usize)>|
                    b < names@.len() && names@[b as int]@ == target@ && #[trigger] is_route(
                        arcs@,
                        s,
                        numbers,
                        b,
                    ) && numbers.len() == other.len();
                assert(b == t) by {
                    if b != t {
                        if (b as int) < (t as int) {
                            assert(names@[b as int]@ != names@[t as int]@);
                        } else {
                            assert(names@[t as int]@ != names@[b as int]@);
                        }
                    }
                }
                assert(reaches(arcs@, s, t));
            }
        }
        if !found.reached[t] {
            return None;
        }
        let mut hops: Vec<(String, String)> = Vec::new();
        let mut cur: usize = t;
        assert(pair_names(hops@) =~= Seq::<(Seq<char>, Seq<char>)>::empty());
        while cur != s
            invariant
                cur < n,
                s < n,
                t < n,
                n == names@.len(),
                found.is_search(n as nat, arcs@, s),
                found.reached@[cur as int],
                numbered(names@, arcs@, ordered),
                is_route(ordered, names@[cur as int]@, pair_names(hops@), target@),
                hops@.len() + found.depth@[cur as int] == found.depth@[t as int],
            decreases found.depth@[cur as int],
        {
            assert(found.enters(arcs@, cur as int));
            let a = found.entered_by[cur].unwrap();
            let arc = arcs[a];
            let ghost before = pair_names(hops@);
            hops.insert(0, (names[arc.0].clone(), names[arc.1].clone()));
            proof {
                let now = pair_names(hops@);
                assert(now[0] == ordered[a as int]);
                assert(now.drop_first() =~= before);
                assert(ordered.contains(now[0]));
            }
            cur = arc.0;
        }
        proof {
            lemma_route_other_arcs(ordered, links, source@, pair_names(hops@), target@);
        }
        Some(hops)
    }

    /// The transform of the hop from `parent` to `child` at the time
    /// `at_time`. A static edge `(parent, child)` comes first, then a static
    /// edge `(child, parent)`, inverted; then the time-sampled edge `(parent,
    /// child)`, and only where there is none the edge `(child, parent)`,
    /// inverted.
    pub fn get_edge_transform(&self, parent: &str, child: &str, at_time: i64, mode: TfMode) -> (r:
        Option<EdgeTransform>)
        ensures
            match r {
                Some(tr) => edge_transform_is(
                    self.static_view(),
                    self.dynamic_view(),
                    parent@,
                    child@,
                    at_time,
                    mode,
                    tr,
                ),
                None => !edge_resolvable(
                    self.static_view(),
                    self.dynamic_view(),
                    parent@,
                    child@,
                    at_time,
                    mode,
                ),
            },
    {
        if let Some(i) = self.static_position(parent, child) {
            return Some(
                EdgeTransform {
                    inverted: false,
                    fixed: true,
                    pick: Pick::Single(self.static_edges[i].sample),
                },
            );
        }
        if let Some(i) = self.static_position(child, parent) {
            return Some(
                EdgeTransform {
                    inverted: true,
                    fixed: true,
                    pick: Pick::Single(self.static_edges[i].sample),
                },
            );
        }
        if let Some(i) = self.dynamic_position(parent, child) {
            return match interpolate_samples(&self.dynamic[i].samples, at_time, mode) {
                Some(pick) => Some(EdgeTransform { inverted: false, fixed: false, pick }),
                None => None,
            };
        }
        if let Some(i) = self.dynamic_position(child, parent) {
            return match interpolate_samples(&self.dynamic[i].samples, at_time, mode) {
                Some(pick) => Some(EdgeTransform { inverted: true, fixed: false, pick }),
                None => None,
            };
        }
        None
    }

    /// The chain of transforms that takes a pose in `source_frame` to
    /// `target_frame` at the time `at_time`: the hops of the chain that
    /// `find_path` gives, a shortest one, each with its transform, to be applied
    /// in this order. There is no result where the frames are not connected, and
    /// where a hop of that chain has no transform at that time.
    pub fn resolve(&self, target_frame: &str, source_frame: &str, at_time: i64, mode: TfMode) -> (r:
        Option<Vec<Hop>>)
        ensures
            match r {
                Some(hops) => {
                    &&& is_route(self.links(), source_frame@, hop_names(hops@), target_frame@)
                    &&& shortest(self.links(), source_frame@, hops@.len() as int, target_frame@)
                    &&& forall|k: int|
                        0 <= k < hops@.len() ==> edge_transform_is(
                            self.static_view(),
                            self.dynamic_view(),
                            (#[trigger] hops@[k]).from@,
                            hops@[k].to@,
                            at_time,
                            mode,
                            hops@[k].transform,
                        )
                },
                None => {
                    ||| !reaches(self.links(), source_frame@, target_frame@)
                    ||| exists|route: Seq<(Seq<char>, Seq<char>)>, k: int|
                        {
                            &&& is_route(self.links(), source_frame@, route, target_frame@)
                            &&& shortest(
                                self.links(),
                                source_frame@,
                                route.len() as int,
                                target_frame@,
                            )
                            &&& 0 <= k < route.len()
                            &&& !edge_resolvable(
                                self.static_view(),
                                self.dynamic_view(),
                                (#[trigger] route[k]).0,
                                route[k].1,
                                at_time,
                                mode,
                            )
                        }
                },
            },
    {
        let path = match self.find_path(source_frame, target_frame) {
            Some(path) => path,
            None => {
                return None;
            },
        };
        let mut hops: Vec<Hop> = Vec::new();
        let mut i: usize = 0;
        while i < path.len()
            invariant
                i <= path@.len(),
                hops@.len() == i,
                is_route(self.links(), source_frame@, pair_names(path@), target_frame@),
                shortest(self.links(), source_frame@, path@.len() as int, target_frame@),
                forall|k: int|
                    0 <= k < i ==> (#[trigger] hops@[k]).from@ == path@[k].0@ && hops@[k].to@
                        == path@[k].1@,
                forall|k: int|
                    0 <= k < i ==> edge_transform_is(
                        self.static_view(),
                        self.dynamic_view(),
                        (#[trigger] hops@[k]).from@,
                        hops@[k].to@,
                        at_time,
                        mode,
                        hops@[k].transform,
                    ),
            decreases path@.len() - i,
        {
            let from = path[i].0.clone();
            let to = path[i].1.clone();
            match self.get_edge_transform(from.as_str(), to.as_str(), at_time, mode) {
                Some(transform) => {
                    hops.push(Hop { from, to, transform });
                },
                None => {
                    proof {
                        let route = pair_names(path@);
                        assert(route[i as int].0 == from@ && route[i as int].1 == to@);
                    }
                    return None;
                },
            }
            i = i + 1;
        }
        proof {
            assert(hop_names(hops@) =~= pair_names(path@));
        }
        Some(hops)
    }

    /// Takes in the transforms of one message of time-sampled transforms, each
    /// with the time `ts`, then drops every sample that lies more than `buffer`
    /// before `ts`.
    pub fn ingest_tf_msg(&mut self, ts: i64, transforms: &Vec<TransformStamped>, buffer: i64)
        requires
            old(self).wf(),
        ensures
            final(self).wf(),
            final(self).static_view() == old(self).static_view(),
            final(self).dynamic_view() == pruned(
                appended_all(old(self).dynamic_view(), transforms@, ts),
                ts - buffer,
            ),
    {
        let mut i: usize = 0;
        while i < transforms.len()
            invariant
                i <= transforms@.len(),
                self.wf(),
                self.static_view() == old(self).static_view(),
                self.dynamic_view() == appended_all(
                    old(self).dynamic_view(),
                    transforms@.take(i as int),
                    ts,
                ),
            decreases transforms@.len() - i,
        {
            let tf = &transforms[i];
            let sample = TfSample { t: ts, trans: tf.translation, quat: tf.rotation };
            assert(transforms@.take(i + 1).drop_last() =~= transforms@.take(i as int));
            self.append_dynamic(tf.frame_id.as_str(), tf.child_frame_id.as_str(), sample);
            i = i + 1;
        }
        assert(transforms@.take(i as int) =~= transforms@);
        self.prune_dynamic(ts, buffer);
    }

    /// Takes in the transforms of one message of static transforms, each as
    /// `ingest_static` does, and says for each what became of it.
    pub fn ingest_tf_static_msg(&mut self, transforms: &Vec<TransformStamped>) -> (outcomes: Vec<
        StaticIngest,
    >)
        requires
            old(self).wf(),
        ensures
            final(self).wf(),
            final(self).dynamic_view() == old(self).dynamic_view(),
            final(self).static_view() == static_after_all(old(self).static_view(), transforms@),
            outcomes@.len() == transforms@.len(),
            forall|i: int|
                0 <= i < outcomes@.len() ==> #[trigger] outcomes@[i] == static_outcome(
                    static_after_all(old(self).static_view(), transforms@.take(i)),
                    transforms@[i].frame_id@,
                    transforms@[i].child_frame_id@,
                ),
    {
        let mut outcomes: Vec<StaticIngest> = Vec::new();
        let mut i: usize = 0;
        while i < transforms.len()
            invariant
                i <= transforms@.len(),
                self.wf(),
                self.dynamic_view() == old(self).dynamic_view(),
                self.static_view() == static_after_all(
                    old(self).static_view(),
                    transforms@.take(i as int),
                ),
                outcomes@.len() == i,
                forall|k: int|
                    0 <= k < i ==> #[trigger] outcomes@[k] == static_outcome(
                        static_after_all(old(self).static_view(), transforms@.take(k)),
                        transforms@[k].frame_id@,
                        transforms@[k].child_frame_id@,
                    ),
            decreases transforms@.len() - i,
        {
            let tf = &transforms[i];
            let sample = TfSample { t: 0, trans: tf.translation, quat: tf.rotation };
            assert(transforms@.take(i + 1).drop_last() =~= transforms@.take(i as int));
            let outcome = self.ingest_static(
                tf.frame_id.as_str(),
                tf.child_frame_id.as_str(),
                sample,
            );
            outcomes.push(outcome);
            i = i + 1;
        }
        assert(transforms@.take(i as int) =~= transforms@);
        outcomes
    }
}

/// A transform of a message as plain values.
pub struct TransformStampedView {
    pub frame_id: Seq<char>,
    pub child_frame_id: Seq<char>,
    pub translation: Seq<u64>,
    pub rotation: Seq<u64>,
}

impl View for TransformStamped {
    type V = TransformStampedView;

    open spec fn view(&self) -> TransformStampedView {
        TransformStampedView {
            frame_id: self.frame_id@,
            child_frame_id: self.child_frame_id@,
            translation: self.translation@,
            rotation: self.rotation@,
        }
    }
}

/// The transform that starts at `pos`, and the position after it: twelve bytes
/// of sequence number and time stamp, passed over; the parent frame and the
/// child frame, each a string; the translation, three floats; the rotation,
/// four floats.
pub open spec fn transform_stamped_at(s: Seq<u8>, pos: int) -> Result<
    (TransformStampedView, int),
    DecodeError,
> {
    match string_at(s, advanced(s, pos, 12), Field::FrameIdLength, Field::FrameId) {
        Err(e) => Err(e),
        Ok((frame_id, after_parent)) => match string_at(
            s,
            after_parent,
            Field::ChildFrameIdLength,
            Field::ChildFrameId,
        ) {
            Err(e) => Err(e),
            Ok((child_frame_id, after_child)) => match bits_at(s, after_child, 3, Field::Translation) {
                Err(e) => Err(e),
                Ok(translation) => match bits_at(s, after_child + 24, 4, Field::Rotation) {
                    Err(e) => Err(e),
                    Ok(rotation) => Ok(
                        (
                            TransformStampedView { frame_id, child_frame_id, translation, rotation },
                            after_child + 56,
                        ),
                    ),
                },
            },
        },
    }
}

/// The transforms that fill `s` from `pos` to its end, one after another.
pub open spec fn transforms_from(s: Seq<u8>, pos: int) -> Result<
    Seq<TransformStampedView>,
    DecodeError,
>
    decreases s.len() - pos,
{
    if pos < 0 || pos >= s.len() {
        Ok(Seq::empty())
    } else {
        match transform_stamped_at(s, pos) {
            Err(e) => Err(e),
            Ok((first, next)) => if next <= pos {
                Ok(seq![first])
            } else {
                match transforms_from(s, next) {
                    Err(e) => Err(e),
                    Ok(rest) => Ok(seq![first] + rest),
                }
            },
        }
    }
}

/// A transform never ends where it starts.
pub proof fn lemma_transform_advances(s: Seq<u8>, pos: int)
    requires
        0 <= pos,
    ensures
        match transform_stamped_at(s, pos) {
            Ok((_, next)) => pos < next <= s.len(),
            Err(_) => true,
        },
{
}

/// The views of the transforms.
pub open spec fn transform_views(transforms: Seq<TransformStamped>) -> Seq<TransformStampedView> {
    Seq::new(transforms.len(), |i: int| transforms[i]@)
}

/// Reads one transform of a transform message.
pub fn parse_transform_stamped(payload: &[u8], cursor: &mut usize) -> (r: Result<
    TransformStamped,
    DecodeError,
>)
    ensures
        match r {
            Ok(tf) => transform_stamped_at(payload@, *old(cursor) as int) == Ok::<
                (TransformStampedView, int),
                DecodeError,
            >((tf@, *final(cursor) as int)),
            Err(e) => transform_stamped_at(payload@, *old(cursor) as int) == Err::<
                (TransformStampedView, int),
                DecodeError,
            >(e),
        },
{
    skip_bytes(payload, cursor, 12);
    let frame_id = match read_string(payload, cursor, Field::FrameIdLength, Field::FrameId) {
        Ok(s) => s,
        Err(e) => {
            return Err(e);
        },
    };
    let child_frame_id = match read_string(
        payload,
        cursor,
        Field::ChildFrameIdLength,
        Field::ChildFrameId,
    ) {
        Ok(s) => s,
        Err(e) => {
            return Err(e);
        },
    };
    let translation = match parse_vector3(payload, cursor, Field::Translation) {
        Ok(v) => v,
        Err(e) => {
            return Err(e);
        },
    };
    let rotation = match parse_quaternion(payload, cursor, Field::Rotation) {
        Ok(v) => v,
        Err(e) => {
            return Err(e);
        },
    };
    Ok(TransformStamped { frame_id, child_frame_id, translation, rotation })
}

/// Reads a transform message: transforms one after another up to the end of
/// the payload.
pub fn parse_tf_message(payload: &[u8]) -> (r: Result<Vec<TransformStamped>, DecodeError>)
    ensures
        match r {
            Ok(transforms) => transforms_from(payload@, 0) == Ok::<
                Seq<TransformStampedView>,
                DecodeError,
            >(transform_views(transforms@)),
            Err(e) => transforms_from(payload@, 0) == Err::<Seq<TransformStampedView>, DecodeError>(
                e,
            ),
        },
{
    let mut transforms: Vec<TransformStamped> = Vec::new();
    let mut cursor: usize = 0;
    while cursor < payload.len()
        invariant
            transforms_from(payload@, 0) == match transforms_from(payload@, cursor as int) {
                Ok(rest) => Ok::<Seq<TransformStampedView>, DecodeError>(
                    transform_views(transforms@) + rest,
                ),
                Err(e) => Err(e),
            },
        decreases payload@.len() - cursor,
    {
        let ghost at = cursor as int;
        let ghost done = transform_views(transforms@);
        proof {
            lemma_transform_advances(payload@, at);
        }
        match parse_transform_stamped(payload, &mut cursor) {
            Ok(tf) => {
                proof {
                    match transforms_from(payload@, cursor as int) {
                        Ok(rest) => {
                            assert(done + (seq![tf@] + rest) =~= done.push(tf@) + rest);
                        },
                        Err(_) => {},
                    }
                }
                transforms.push(tf);
                assert(transform_views(transforms@) =~= done.push(tf@));
            },
            Err(e) => {
                return Err(e);
            },
        }
    }
    proof {
        assert(transform_views(transforms@) + Seq::<TransformStampedView>::empty()
            =~= transform_views(transforms@));
    }
    Ok(transforms)
}

} // verus!
