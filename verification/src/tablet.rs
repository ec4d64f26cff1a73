//! Tablets: the version graph of a tablet, the tablet itself and the
//! registry of all tablets.

use crate::common::{CompactionType, OlapError, RowsetId, SchemaHash, TabletId, Version};
use crate::meta::{
    RowsetMeta, RowsetState, RowsetView, TabletMeta, TabletSchema, TabletSchemaView,
};
use crate::text::{push_signed_decimal, signed_decimal};
use std::cmp::Ordering;
use std::collections::{HashMap, HashSet};
use vstd::prelude::*;
use vstd::std_specs::hash::*;
use vstd::std_specs::iter::IteratorSpec;
use vstd::string::StringExecFns;

verus! {

broadcast use vstd::std_specs::hash::group_hash_axioms;

/// Whether `path` covers the versions from `lo` to `hi` with edges of a
/// graph: it starts at `lo`, ends at `hi`, every edge starts right after the
/// one before it ends, and no edge but the last reaches `hi`.
pub open spec fn is_cover(edges: Set<Version>, path: Seq<Version>, lo: i64, hi: i64) -> bool {
    &&& path.len() > 0
    &&& path[0].start == lo
    &&& path.last().end == hi
    &&& forall|i: int| 0 <= i < path.len() ==> edges.contains(#[trigger] path[i])
    &&& forall|i: int|
        0 <= i < path.len() - 1 ==> (#[trigger] path[i]).end < hi && path[i + 1].start == path[i].end
            + 1
}

/// Whether the versions from `lo` to `hi` can be covered with edges of a
/// graph.
pub open spec fn has_cover(edges: Set<Version>, lo: i64, hi: i64) -> bool {
    exists|path: Seq<Version>| is_cover(edges, path, lo, hi)
}

/// Whether `path` leads from `lo` to `node` over edges that all end before
/// `hi`: the empty path leads from `lo` to `lo`.
pub open spec fn leads_to(edges: Set<Version>, path: Seq<Version>, lo: i64, hi: i64, node: i64)
    -> bool {
    if path.len() == 0 {
        node == lo
    } else {
        &&& path[0].start == lo
        &&& path.last().end + 1 == node
        &&& forall|i: int|
            0 <= i < path.len() ==> edges.contains(#[trigger] path[i]) && path[i].end < hi
        &&& forall|i: int|
            0 <= i < path.len() - 1 ==> (#[trigger] path[i + 1]).start == path[i].end + 1
    }
}

/// How many entries of a list of flags are not set.
pub open spec fn unset_count(flags: Seq<bool>) -> nat
    decreases flags.len(),
{
    if flags.len() == 0 {
        0
    } else {
        unset_count(flags.drop_last()) + (if flags.last() {
            0nat
        } else {
            1nat
        })
    }
}

/// What holds of the order of the queue of a search: of two paths of one
/// length the earlier is preferred, and the path that stands with a version
/// is the path of its length that is preferred to every other.
pub open spec fn ranked(
    edges: Set<Version>,
    nodes: Seq<i64>,
    paths: Seq<Seq<Version>>,
    lo: i64,
    hi: i64,
) -> bool {
    &&& forall|q1: int, q2: int|
        0 <= q1 < q2 < paths.len() && (#[trigger] paths[q1]).len() == (#[trigger] paths[q2]).len()
            ==> prefers(paths[q1], paths[q2])
    &&& forall|q: int, c: Seq<Version>|
        0 <= q < nodes.len() && #[trigger] leads_to(edges, c, lo, hi, nodes[q]) && c.len()
            == paths[q].len() ==> c == paths[q] || prefers(paths[q], c)
}

proof fn lemma_prefers_push(a: Seq<Version>, b: Seq<Version>, e1: Version, e2: Version)
    requires
        prefers(a, b),
    ensures
        prefers(a.push(e1), b.push(e2)),
{
    let i = choose|i: int| #[trigger] differs_at(a, b, i);
    assert(a.push(e1).subrange(0, i) =~= a.subrange(0, i));
    assert(b.push(e2).subrange(0, i) =~= b.subrange(0, i));
    assert(differs_at(a.push(e1), b.push(e2), i));
}

proof fn lemma_push_greater(a: Seq<Version>, e1: Version, e2: Version)
    requires
        e1.end > e2.end,
    ensures
        prefers(a.push(e1), a.push(e2)),
{
    let i = a.len() as int;
    assert(a.push(e1).subrange(0, i) =~= a.push(e2).subrange(0, i));
    assert(differs_at(a.push(e1), a.push(e2), i));
}

proof fn lemma_prefers_transitive(a: Seq<Version>, b: Seq<Version>, c: Seq<Version>)
    requires
        prefers(a, b),
        prefers(b, c),
    ensures
        prefers(a, c),
{
    let i1 = choose|i: int| #[trigger] differs_at(a, b, i);
    let i2 = choose|i: int| #[trigger] differs_at(b, c, i);
    if i1 <= i2 {
        assert(a.subrange(0, i1) =~= c.subrange(0, i1)) by {
            assert(b.subrange(0, i1) =~= b.subrange(0, i2).subrange(0, i1));
            assert(c.subrange(0, i1) =~= c.subrange(0, i2).subrange(0, i1));
        }
        if i1 < i2 {
            assert(b[i1] == b.subrange(0, i2)[i1]);
            assert(c[i1] == c.subrange(0, i2)[i1]);
        }
        assert(differs_at(a, c, i1));
    } else {
        assert(a.subrange(0, i2) =~= c.subrange(0, i2)) by {
            assert(a.subrange(0, i2) =~= a.subrange(0, i1).subrange(0, i2));
            assert(b.subrange(0, i2) =~= b.subrange(0, i1).subrange(0, i2));
        }
        assert(a[i2] == a.subrange(0, i1)[i2]);
        assert(b[i2] == b.subrange(0, i1)[i2]);
        assert(differs_at(a, c, i2));
    }
}

proof fn lemma_chain_front(
    edges: Set<Version>,
    chain: Seq<Version>,
    lo: i64,
    hi: i64,
    node: i64,
)
    requires
        leads_to(edges, chain, lo, hi, node),
        chain.len() > 0,
    ensures
        leads_to(edges, chain.drop_last(), lo, hi, chain.last().start),
        chain.last().end + 1 == node,
        chain.last().end < hi,
        edges.contains(chain.last()),
{
    let front = chain.drop_last();
    if front.len() > 0 {
        assert(front[0] == chain[0]);
        assert(chain[front.len() - 1 + 1].start == chain[front.len() - 1].end + 1);
        assert forall|i: int| 0 <= i < front.len() implies edges.contains(#[trigger] front[i])
            && front[i].end < hi by {
            assert(front[i] == chain[i]);
        }
        assert forall|i: int| 0 <= i < front.len() - 1 implies (#[trigger] front[i + 1]).start
            == front[i].end + 1 by {
            assert(front[i + 1] == chain[i + 1]);
            assert(front[i] == chain[i]);
        }
    } else {
        assert(chain[0] == chain.last());
    }
    assert(chain[chain.len() - 1] == chain.last());
}

proof fn lemma_cover_front(edges: Set<Version>, p: Seq<Version>, lo: i64, hi: i64)
    requires
        is_cover(edges, p, lo, hi),
    ensures
        leads_to(edges, p.drop_last(), lo, hi, p.last().start),
        p.last().end == hi,
        edges.contains(p.last()),
{
    let front = p.drop_last();
    if front.len() > 0 {
        assert(front[0] == p[0]);
        assert(p[front.len() - 1].end < hi && p[front.len() - 1 + 1].start == p[front.len()
            - 1].end + 1);
        assert forall|i: int| 0 <= i < front.len() implies edges.contains(#[trigger] front[i])
            && front[i].end < hi by {
            assert(front[i] == p[i]);
            assert(p[i].end < hi);
        }
        assert forall|i: int| 0 <= i < front.len() - 1 implies (#[trigger] front[i + 1]).start
            == front[i].end + 1 by {
            assert(front[i + 1] == p[i + 1]);
            assert(front[i] == p[i]);
            assert(p[i + 1].start == p[i].end + 1);
        }
    } else {
        assert(p[0] == p.last());
    }
    assert(p[p.len() - 1] == p.last());
}

proof fn lemma_set_flag(flags: Seq<bool>, j: int)
    requires
        0 <= j < flags.len(),
        !flags[j],
    ensures
        unset_count(flags.update(j, true)) + 1 == unset_count(flags),
    decreases flags.len(),
{
    let after = flags.update(j, true);
    if j == flags.len() - 1 {
        assert(after.drop_last() =~= flags.drop_last());
    } else {
        assert(after.drop_last() =~= flags.drop_last().update(j, true));
        lemma_set_flag(flags.drop_last(), j);
    }
}

/// The versions that wait in the queue of a search.
pub open spec fn search_nodes(queue: Seq<(i64, Vec<Version>)>) -> Seq<i64> {
    queue.map_values(|e: (i64, Vec<Version>)| e.0)
}

/// The paths that lead to the versions in the queue of a search.
pub open spec fn search_paths(queue: Seq<(i64, Vec<Version>)>) -> Seq<Seq<Version>> {
    queue.map_values(|e: (i64, Vec<Version>)| e.1@)
}

/// Whether two paths of one length differ first at position `i`, where the
/// edge of `a` reaches further than that of `b`.
pub open spec fn differs_at(a: Seq<Version>, b: Seq<Version>, i: int) -> bool {
    &&& 0 <= i < a.len()
    &&& a.subrange(0, i) == b.subrange(0, i)
    &&& a[i].end > b[i].end
}

/// Whether path `a` is preferred to path `b` of the same length: at the
/// first edge in which they differ, that of `a` reaches further.
pub open spec fn prefers(a: Seq<Version>, b: Seq<Version>) -> bool {
    a.len() == b.len() && exists|i: int| #[trigger] differs_at(a, b, i)
}

/// Whether `path` is the cover that a search gives: a cover of the fewest
/// edges that is preferred to every other cover of as few edges.
pub open spec fn is_chosen_cover(edges: Set<Version>, path: Seq<Version>, lo: i64, hi: i64) -> bool {
    &&& is_cover(edges, path, lo, hi)
    &&& forall|p: Seq<Version>| #[trigger] is_cover(edges, p, lo, hi) ==> path.len() <= p.len()
    &&& forall|p: Seq<Version>|
        #[trigger] is_cover(edges, p, lo, hi) && p.len() == path.len() ==> p == path || prefers(
            path,
            p,
        )
}

/// No two covers are the one that a search gives.
pub proof fn lemma_chosen_cover_is_unique(
    edges: Set<Version>,
    a: Seq<Version>,
    b: Seq<Version>,
    lo: i64,
    hi: i64,
)
    requires
        is_chosen_cover(edges, a, lo, hi),
        is_chosen_cover(edges, b, lo, hi),
    ensures
        a == b,
{
    assert(a.len() == b.len());
    if a != b {
        assert(prefers(a, b));
        assert(prefers(b, a));
        let i = choose|i: int| #[trigger] differs_at(a, b, i);
        let k = choose|k: int| #[trigger] differs_at(b, a, k);
        if i <= k {
            assert(b.subrange(0, k).subrange(0, i) =~= b.subrange(0, i));
            assert(a.subrange(0, k).subrange(0, i) =~= a.subrange(0, i));
            if i < k {
                assert(a[i] == a.subrange(0, k)[i]);
                assert(b[i] == b.subrange(0, k)[i]);
            }
        } else {
            assert(a[k] == a.subrange(0, i)[k]);
            assert(b[k] == b.subrange(0, i)[k]);
        }
    }
}

/// The position in the queue of the version whose edges a search is trying,
/// or was trying last: `active`, or the first position before any was tried.
pub open spec fn active_place(active: int) -> int {
    if active < 0 {
        0
    } else {
        active
    }
}

/// What holds of an edge that a search has tried: it does not end at `hi`,
/// it starts at a version that was reached no later than the active one,
/// and where it ends before `hi` the version after its end was reached over
/// at most one edge more.
pub open spec fn edge_done(
    edges: Seq<Version>,
    nodes: Seq<i64>,
    paths: Seq<Seq<Version>>,
    visited: Set<i64>,
    at: Map<i64, int>,
    hi: i64,
    active: int,
    k: int,
) -> bool {
    &&& edges[k].end != hi
    &&& visited.contains(edges[k].start)
    &&& at[edges[k].start] <= active
    &&& edges[k].end < hi ==> visited.contains((edges[k].end + 1) as i64) && paths[at[(edges[k].end
        + 1) as i64]].len() <= paths[at[edges[k].start]].len() + 1
}

/// What holds of a path in the queue of a search, but the first: it is the
/// path of an earlier version of the queue, no later than the active one,
/// with one edge more that was tried.
pub open spec fn path_extends(
    edges: Seq<Version>,
    used: Seq<bool>,
    nodes: Seq<i64>,
    paths: Seq<Seq<Version>>,
    visited: Set<i64>,
    at: Map<i64, int>,
    active: int,
    q: int,
) -> bool {
    &&& paths[q].len() > 0
    &&& visited.contains(paths[q].last().start)
    &&& at[paths[q].last().start] <= active
    &&& at[paths[q].last().start] < q
    &&& paths[q].drop_last() == paths[at[paths[q].last().start]]
    &&& exists|k: int| 0 <= k < edges.len() && #[trigger] used[k] && edges[k] == paths[q].last()
}

/// What holds during a search from `lo` to `hi`: every version in the queue
/// was reached over the path that stands with it, paths in the queue never
/// get shorter and are at most one edge longer than the path at the active
/// place, every edge tried is done, every edge from the first `done`
/// versions of the queue was tried, and of the edges from the active
/// version those that reach furthest were tried first.
pub open spec fn searching(
    edges: Seq<Version>,
    used: Seq<bool>,
    nodes: Seq<i64>,
    paths: Seq<Seq<Version>>,
    visited: Set<i64>,
    at: Map<i64, int>,
    lo: i64,
    hi: i64,
    done: int,
    active: int,
) -> bool {
    &&& used.len() == edges.len()
    &&& nodes.len() == paths.len()
    &&& nodes.len() > 0
    &&& nodes[0] == lo
    &&& paths[0].len() == 0
    &&& 0 <= done <= nodes.len()
    &&& -1 <= active < nodes.len()
    &&& active < done <= active + 1 || done == active
    &&& forall|q: int|
        0 <= q < nodes.len() ==> visited.contains(#[trigger] nodes[q]) && leads_to(
            edges.to_set(),
            paths[q],
            lo,
            hi,
            nodes[q],
        ) && at.contains_key(nodes[q]) && at[nodes[q]] == q
    &&& forall|v: i64|
        #[trigger] visited.contains(v) ==> at.contains_key(v) && 0 <= at[v] < nodes.len()
            && nodes[at[v]] == v
    &&& forall|q1: int, q2: int|
        0 <= q1 <= q2 < paths.len() ==> (#[trigger] paths[q1]).len() <= (#[trigger] paths[q2]).len()
    &&& forall|q: int|
        0 <= q < paths.len() ==> (#[trigger] paths[q]).len() <= paths[active_place(active)].len()
            + 1
    &&& forall|k: int|
        0 <= k < edges.len() && #[trigger] used[k] ==> edge_done(
            edges,
            nodes,
            paths,
            visited,
            at,
            hi,
            active,
            k,
        )
    &&& forall|q: int, k: int|
        0 <= q < done && 0 <= k < edges.len() && edges[k].start == #[trigger] nodes[q]
            ==> #[trigger] used[k]
    &&& forall|k: int, j: int|
        0 <= k < edges.len() && 0 <= j < edges.len() && #[trigger] used[k] && !#[trigger] used[j]
            && edges[k].start == nodes[active_place(active)] && edges[j].start
            == nodes[active_place(active)] ==> edges[k].end >= edges[j].end
    &&& forall|q: int|
        1 <= q < nodes.len() ==> #[trigger] path_extends(
            edges,
            used,
            nodes,
            paths,
            visited,
            at,
            active,
            q,
        )
}

fn copy_path(path: &Vec<Version>) -> (r: Vec<Version>)
    ensures
        r@ == path@,
{
    let mut r: Vec<Version> = Vec::new();
    let mut i: usize = 0;
    while i < path.len()
        invariant
            i <= path.len(),
            r@ == path@.subrange(0, i as int),
        decreases path.len() - i,
    {
        r.push(path[i]);
        i += 1;
        assert(r@ =~= path@.subrange(0, i as int));
    }
    assert(path@.subrange(0, i as int) =~= path@);
    r
}

/// The graph of the versions of a tablet: one edge for every interval that
/// a rowset covers.
#[derive(Debug)]
pub struct VersionGraph {
    edges: Vec<Version>,
}

impl View for VersionGraph {
    type V = Set<Version>;

    closed spec fn view(&self) -> Set<Version> {
        self.edges@.to_set()
    }
}

impl VersionGraph {
    /// A graph without edges.
    pub fn new() -> (g: Self)
        ensures
            g@ == Set::<Version>::empty(),
    {
        let g = Self { edges: Vec::new() };
        assert(g@ =~= Set::<Version>::empty());
        g
    }

    fn position(&self, v: Version) -> (r: Option<usize>)
        ensures
            match r {
                Some(j) => j < self.edges@.len() && self.edges@[j as int] == v,
                None => !self@.contains(v),
            },
    {
        let mut i: usize = 0;
        while i < self.edges.len()
            invariant
                i <= self.edges.len(),
                forall|k: int| 0 <= k < i ==> self.edges@[k] != v,
            decreases self.edges.len() - i,
        {
            if self.edges[i].start == v.start && self.edges[i].end == v.end {
                return Some(i);
            }
            i += 1;
        }
        None
    }

    /// Adds the edge of an interval; a graph holds each edge once.
    pub fn add_edge(&mut self, v: Version)
        ensures
            final(self)@ == old(self)@.insert(v),
    {
        match self.position(v) {
            Some(j) => {
                assert(self@.contains(self.edges@[j as int]));
                assert(self@ =~= old(self)@.insert(v));
            },
            None => {
                self.edges.push(v);
                assert(self.edges@ == old(self).edges@.push(v));
                assert forall|x: Version| self@.contains(x) <==> old(self)@.insert(v).contains(
                    x,
                ) by {
                    if old(self).edges@.contains(x) {
                        let k = old(self).edges@.index_of(x);
                        assert(self.edges@[k] == x);
                    }
                    if self.edges@.contains(x) {
                        let k = self.edges@.index_of(x);
                        if k < old(self).edges@.len() {
                            assert(old(self).edges@[k] == x);
                        }
                    }
                    assert(self.edges@[self.edges@.len() - 1] == v);
                }
                assert(self@ =~= old(self)@.insert(v));
            },
        }
    }

    /// Removes the edge of an interval, if the graph holds it.
    pub fn remove_edge(&mut self, v: Version)
        ensures
            final(self)@ == old(self)@.remove(v),
    {
        let mut kept: Vec<Version> = Vec::new();
        let mut i: usize = 0;
        while i < self.edges.len()
            invariant
                i <= self.edges.len(),
                self.edges == old(self).edges,
                forall|k: int|
                    0 <= k < kept@.len() ==> (#[trigger] kept@[k]) != v && self.edges@.contains(
                        kept@[k],
                    ),
                forall|s: int|
                    0 <= s < i && (#[trigger] self.edges@[s]) != v ==> kept@.contains(
                        self.edges@[s],
                    ),
            decreases self.edges.len() - i,
        {
            let e = self.edges[i];
            let ghost before = kept@;
            if !(e.start == v.start && e.end == v.end) {
                kept.push(e);
                assert(kept@[kept@.len() - 1] == e);
            }
            proof {
                assert forall|s: int| 0 <= s < i + 1 && (#[trigger] self.edges@[s])
                    != v implies kept@.contains(self.edges@[s]) by {
                    if s < i {
                        let k = before.index_of(self.edges@[s]);
                        assert(kept@[k] == self.edges@[s]);
                    }
                }
                assert forall|k: int| 0 <= k < kept@.len() implies (#[trigger] kept@[k]) != v
                    && self.edges@.contains(kept@[k]) by {
                    if k < before.len() {
                        assert(kept@[k] == before[k]);
                    } else {
                        assert(self.edges@[i as int] == kept@[k]);
                    }
                }
            }
            i += 1;
        }
        proof {
            assert forall|x: Version| kept@.to_set().contains(x) <==> old(self)@.remove(
                v,
            ).contains(x) by {
                if kept@.contains(x) {
                    let k = kept@.index_of(x);
                    assert(kept@[k] == x);
                }
                if old(self).edges@.contains(x) && x != v {
                    let s = old(self).edges@.index_of(x);
                    assert(self.edges@[s] == x);
                }
            }
        }
        self.edges = kept;
        assert(self@ =~= old(self)@.remove(v));
    }

    /// The unused edge from `cur` with the largest end.
    fn pick(&self, cur: i64, used: &Vec<bool>) -> (r: Option<usize>)
        requires
            used@.len() == self.edges@.len(),
        ensures
            match r {
                Some(j) => j < self.edges@.len() && !used@[j as int] && self.edges@[j as int].start
                    == cur && forall|k: int|
                    0 <= k < self.edges@.len() && !used@[k] && self.edges@[k].start == cur
                        ==> self.edges@[k].end <= self.edges@[j as int].end,
                None => forall|k: int|
                    0 <= k < self.edges@.len() && (#[trigger] self.edges@[k]).start == cur
                        ==> used@[k],
            },
    {
        let mut best: Option<usize> = None;
        let mut i: usize = 0;
        while i < self.edges.len()
            invariant
                i <= self.edges.len(),
                used@.len() == self.edges@.len(),
                match best {
                    Some(j) => j < i && !used@[j as int] && self.edges@[j as int].start == cur
                        && forall|k: int|
                        0 <= k < i && !used@[k] && self.edges@[k].start == cur
                            ==> self.edges@[k].end <= self.edges@[j as int].end,
                    None => forall|k: int|
                        0 <= k < i && (#[trigger] self.edges@[k]).start == cur ==> used@[k],
                },
            decreases self.edges.len() - i,
        {
            if !used[i] && self.edges[i].start == cur {
                best = match best {
                    Some(j) => if self.edges[i].end > self.edges[j].end {
                        Some(i)
                    } else {
                        Some(j)
                    },
                    None => Some(i),
                };
            }
            i += 1;
        }
        best
    }

    /// Searches, breadth first, for edges that cover the versions from `lo`
    /// to `hi`; from every version the edges with the largest end are tried
    /// first.
    ///
    /// Gives `None` where no cover exists. Where covers exist, gives one of
    /// the fewest edges, and among these the one that is preferred to every
    /// other: where two of them differ first, its edge reaches further.
    pub fn find_covering_path(&self, lo: i64, hi: i64) -> (r: Option<Vec<Version>>)
        ensures
            r is Some <==> has_cover(self@, lo, hi),
            r is Some ==> is_chosen_cover(self@, r->0@, lo, hi),
    {
        let m = self.edges.len();
        let mut used: Vec<bool> = Vec::new();
        let mut u: usize = 0;
        while u < m
            invariant
                u <= m,
                used@.len() == u,
                forall|k: int| 0 <= k < u ==> !used@[k],
            decreases m - u,
        {
            used.push(false);
            u += 1;
        }
        let mut queue: Vec<(i64, Vec<Version>)> = Vec::new();
        queue.push((lo, Vec::new()));
        let mut visited: HashSet<i64> = HashSet::new();
        visited.insert(lo);
        let ghost mut at: Map<i64, int> = Map::empty().insert(lo, 0int);
        let mut head: usize = 0;
        proof {
            assert(search_nodes(queue@) =~= seq![lo]);
            assert(search_paths(queue@) =~= seq![Seq::<Version>::empty()]);
            assert forall|q: int, c: Seq<Version>|
                0 <= q < 1 && #[trigger] leads_to(self@, c, lo, hi, search_nodes(queue@)[q])
                    && c.len() == search_paths(queue@)[q].len() implies c == search_paths(
                queue@,
            )[q] || prefers(search_paths(queue@)[q], c) by {
                assert(c =~= Seq::<Version>::empty());
            }
        }
        while head < queue.len()
            invariant
                m == self.edges@.len(),
                head <= queue@.len(),
                ranked(self@, search_nodes(queue@), search_paths(queue@), lo, hi),
                searching(
                    self.edges@,
                    used@,
                    search_nodes(queue@),
                    search_paths(queue@),
                    visited@,
                    at,
                    lo,
                    hi,
                    head as int,
                    head - 1,
                ),
            decreases unset_count(used@), queue@.len() - head,
        {
            let cur = queue[head].0;
            let path = copy_path(&queue[head].1);
            let ghost used_before = used@;
            let ghost len_before = queue@.len();
            proof {
                Self::lemma_search_start(
                    self.edges@,
                    used@,
                    search_nodes(queue@),
                    search_paths(queue@),
                    visited@,
                    at,
                    lo,
                    hi,
                    head as int,
                );
            }
            head += 1;
            loop
                invariant
                    m == self.edges@.len(),
                    0 < head <= queue@.len(),
                    len_before <= queue@.len(),
                    cur == queue@[head - 1].0,
                    path@ == queue@[head - 1].1@,
                    unset_count(used@) < unset_count(used_before) || (used@ == used_before
                        && queue@.len() == len_before),
                    ranked(self@, search_nodes(queue@), search_paths(queue@), lo, hi),
                    searching(
                        self.edges@,
                        used@,
                        search_nodes(queue@),
                        search_paths(queue@),
                        visited@,
                        at,
                        lo,
                        hi,
                        head - 1,
                        head - 1,
                    ),
                ensures
                    forall|k: int|
                        0 <= k < m && (#[trigger] self.edges@[k]).start == cur ==> used@[k],
                decreases unset_count(used@),
            {
                let j = match self.pick(cur, &used) {
                    Some(j) => j,
                    None => {
                        break;
                    },
                };
                let ghost flags = used@;
                let ghost nodes = search_nodes(queue@);
                let ghost paths = search_paths(queue@);
                let ghost seen = visited@;
                let ghost places = at;
                proof {
                    lemma_set_flag(flags, j as int);
                    assert(nodes[head - 1] == cur && paths[head - 1] == path@);
                }
                used.set(j, true);
                let end = self.edges[j].end;
                let mut new_path = copy_path(&path);
                new_path.push(self.edges[j]);
                if end == hi {
                    proof {
                        assert(self@.contains(self.edges@[j as int]));
                        Self::lemma_extend_to_cover(self@, path@, self.edges@[j as int], lo, hi);
                        assert forall|p: Seq<Version>| #[trigger]
                            is_cover(self@, p, lo, hi) implies new_path@.len() <= p.len() by {
                            Self::lemma_cover_is_longer(
                                self.edges@,
                                flags,
                                nodes,
                                paths,
                                seen,
                                places,
                                lo,
                                hi,
                                head - 1,
                                p,
                            );
                        }
                        assert forall|p: Seq<Version>| #[trigger]
                            is_cover(self@, p, lo, hi) && p.len() == new_path@.len() implies p
                            == new_path@ || prefers(new_path@, p) by {
                            Self::lemma_cover_is_not_preferred(
                                self.edges@,
                                flags,
                                nodes,
                                paths,
                                seen,
                                places,
                                lo,
                                hi,
                                head - 1,
                                j as int,
                                p,
                            );
                        }
                    }
                    return Some(new_path);
                }
                if end < hi {
                    let next: i64 = end + 1;
                    if !visited.contains(&next) {
                        proof {
                            at = at.insert(next, queue@.len() as int);
                        }
                        visited.insert(next);
                        queue.push((next, new_path));
                        proof {
                            assert(search_nodes(queue@) =~= nodes.push(next));
                            assert(search_paths(queue@) =~= paths.push(
                                path@.push(self.edges@[j as int]),
                            ));
                            Self::lemma_search_push(
                                self.edges@,
                                flags,
                                nodes,
                                paths,
                                seen,
                                places,
                                lo,
                                hi,
                                head - 1,
                                j as int,
                            );
                            Self::lemma_rank_push(
                                self.edges@,
                                flags,
                                nodes,
                                paths,
                                seen,
                                places,
                                lo,
                                hi,
                                head - 1,
                                j as int,
                            );
                        }
                    } else {
                        proof {
                            Self::lemma_search_mark(
                                self.edges@,
                                flags,
                                nodes,
                                paths,
                                seen,
                                places,
                                lo,
                                hi,
                                head - 1,
                                j as int,
                            );
                        }
                    }
                } else {
                    proof {
                        Self::lemma_search_mark(
                            self.edges@,
                            flags,
                            nodes,
                            paths,
                            seen,
                            places,
                            lo,
                            hi,
                            head - 1,
                            j as int,
                        );
                    }
                }
            }
            proof {
                Self::lemma_search_next(
                    self.edges@,
                    used@,
                    search_nodes(queue@),
                    search_paths(queue@),
                    visited@,
                    at,
                    lo,
                    hi,
                    head - 1,
                );
            }
        }
        proof {
            assert forall|p: Seq<Version>| !is_cover(self@, p, lo, hi) by {
                if is_cover(self@, p, lo, hi) {
                    Self::lemma_cover_is_found(
                        self.edges@,
                        used@,
                        search_nodes(queue@),
                        search_paths(queue@),
                        visited@,
                        at,
                        p,
                        lo,
                        hi,
                        p.len() - 1,
                    );
                    let last = p.last();
                    assert(self.edges@.to_set().contains(last));
                    let j = self.edges@.index_of(last);
                    assert(self.edges@[j].start == search_nodes(queue@)[at[last.start]]);
                    assert(used@[j]);
                }
            }
        }
        None
    }

    proof fn lemma_search_start(
        edges: Seq<Version>,
        used: Seq<bool>,
        nodes: Seq<i64>,
        paths: Seq<Seq<Version>>,
        visited: Set<i64>,
        at: Map<i64, int>,
        lo: i64,
        hi: i64,
        head: int,
    )
        requires
            searching(edges, used, nodes, paths, visited, at, lo, hi, head, head - 1),
            0 <= head < nodes.len(),
        ensures
            searching(edges, used, nodes, paths, visited, at, lo, hi, head, head),
    {
        assert forall|q: int| 0 <= q < paths.len() implies (#[trigger] paths[q]).len()
            <= paths[active_place(head)].len() + 1 by {
            assert(paths[q].len() <= paths[active_place(head - 1)].len() + 1);
            assert(paths[active_place(head - 1)].len() <= paths[head].len());
        }
        assert forall|k: int| 0 <= k < edges.len() && #[trigger] used[k] implies edge_done(
            edges,
            nodes,
            paths,
            visited,
            at,
            hi,
            head,
            k,
        ) by {
            assert(edge_done(edges, nodes, paths, visited, at, hi, head - 1, k));
        }
        assert forall|k: int, j: int|
            0 <= k < edges.len() && 0 <= j < edges.len() && #[trigger] used[k] && !#[trigger] used[j]
                && edges[k].start == nodes[active_place(head)] && edges[j].start
                == nodes[active_place(head)] implies edges[k].end >= edges[j].end by {
            assert(edge_done(edges, nodes, paths, visited, at, hi, head - 1, k));
            assert(visited.contains(nodes[head]));
        }
        assert forall|q: int| 1 <= q < nodes.len() implies #[trigger] path_extends(
            edges,
            used,
            nodes,
            paths,
            visited,
            at,
            head,
            q,
        ) by {
            assert(path_extends(edges, used, nodes, paths, visited, at, head - 1, q));
        }
    }

    proof fn lemma_search_mark(
        edges: Seq<Version>,
        used: Seq<bool>,
        nodes: Seq<i64>,
        paths: Seq<Seq<Version>>,
        visited: Set<i64>,
        at: Map<i64, int>,
        lo: i64,
        hi: i64,
        cur: int,
        j: int,
    )
        requires
            searching(edges, used, nodes, paths, visited, at, lo, hi, cur, cur),
            0 <= cur < nodes.len(),
            0 <= j < edges.len(),
            !used[j],
            edges[j].start == nodes[cur],
            forall|k: int|
                0 <= k < edges.len() && !used[k] && edges[k].start == nodes[cur] ==> edges[k].end
                    <= edges[j].end,
            edges[j].end != hi,
            edges[j].end < hi ==> visited.contains((edges[j].end + 1) as i64),
        ensures
            searching(edges, used.update(j, true), nodes, paths, visited, at, lo, hi, cur, cur),
    {
        let after = used.update(j, true);
        assert forall|k: int| 0 <= k < edges.len() && #[trigger] after[k] implies edge_done(
            edges,
            nodes,
            paths,
            visited,
            at,
            hi,
            cur,
            k,
        ) by {
            if k != j {
                assert(used[k]);
            } else if edges[j].end < hi {
                let v = (edges[j].end + 1) as i64;
                assert(visited.contains(v));
                assert(visited.contains(nodes[cur]));
            } else {
                assert(visited.contains(nodes[cur]));
            }
        }
        assert forall|q: int, k: int|
            0 <= q < cur && 0 <= k < edges.len() && edges[k].start == #[trigger] nodes[q] implies #[trigger] after[k] by {
            assert(used[k]);
        }
        assert forall|k: int, i: int|
            0 <= k < edges.len() && 0 <= i < edges.len() && #[trigger] after[k] && !#[trigger] after[i]
                && edges[k].start == nodes[active_place(cur)] && edges[i].start
                == nodes[active_place(cur)] implies edges[k].end >= edges[i].end by {
            assert(!used[i]);
            if k != j {
                assert(used[k]);
            }
        }
        assert forall|q: int| 1 <= q < nodes.len() implies #[trigger] path_extends(
            edges,
            after,
            nodes,
            paths,
            visited,
            at,
            cur,
            q,
        ) by {
            assert(path_extends(edges, used, nodes, paths, visited, at, cur, q));
            let k = choose|k: int| 0 <= k < edges.len() && #[trigger] used[k] && edges[k]
                == paths[q].last();
            assert(after[k]);
        }
    }

    proof fn lemma_search_push(
        edges: Seq<Version>,
        used: Seq<bool>,
        nodes: Seq<i64>,
        paths: Seq<Seq<Version>>,
        visited: Set<i64>,
        at: Map<i64, int>,
        lo: i64,
        hi: i64,
        cur: int,
        j: int,
    )
        requires
            searching(edges, used, nodes, paths, visited, at, lo, hi, cur, cur),
            0 <= cur < nodes.len(),
            0 <= j < edges.len(),
            !used[j],
            edges[j].start == nodes[cur],
            forall|k: int|
                0 <= k < edges.len() && !used[k] && edges[k].start == nodes[cur] ==> edges[k].end
                    <= edges[j].end,
            edges[j].end < hi,
            !visited.contains((edges[j].end + 1) as i64),
        ensures
            searching(
                edges,
                used.update(j, true),
                nodes.push((edges[j].end + 1) as i64),
                paths.push(paths[cur].push(edges[j])),
                visited.insert((edges[j].end + 1) as i64),
                at.insert((edges[j].end + 1) as i64, nodes.len() as int),
                lo,
                hi,
                cur,
                cur,
            ),
    {
        let next = (edges[j].end + 1) as i64;
        let after = used.update(j, true);
        let nodes2 = nodes.push(next);
        let paths2 = paths.push(paths[cur].push(edges[j]));
        let visited2 = visited.insert(next);
        let at2 = at.insert(next, nodes.len() as int);
        let n = nodes.len() as int;
        assert(edges.to_set().contains(edges[j]));
        Self::lemma_extend_path(edges.to_set(), paths[cur], edges[j], lo, hi);
        assert(visited.contains(nodes[cur]) && at[nodes[cur]] == cur);
        assert forall|q: int| 0 <= q < nodes2.len() implies visited2.contains(#[trigger] nodes2[q])
            && leads_to(edges.to_set(), paths2[q], lo, hi, nodes2[q]) && at2.contains_key(nodes2[q])
            && at2[nodes2[q]] == q by {
            if q < n {
                assert(nodes2[q] == nodes[q] && paths2[q] == paths[q]);
                assert(visited.contains(nodes[q]));
            }
        }
        assert forall|v: i64| #[trigger] visited2.contains(v) implies at2.contains_key(v) && 0
            <= at2[v] < nodes2.len() && nodes2[at2[v]] == v by {
            if v != next {
                assert(visited.contains(v));
                assert(nodes2[at[v]] == nodes[at[v]]);
            }
        }
        assert forall|q1: int, q2: int| 0 <= q1 <= q2 < paths2.len() implies (
        #[trigger] paths2[q1]).len() <= (#[trigger] paths2[q2]).len() by {
            if q2 < n {
                assert(paths2[q1] == paths[q1] && paths2[q2] == paths[q2]);
            } else if q1 < n {
                assert(paths2[q1] == paths[q1]);
                assert(paths[q1].len() <= paths[active_place(cur)].len() + 1);
            }
        }
        assert forall|q: int| 0 <= q < paths2.len() implies (#[trigger] paths2[q]).len()
            <= paths2[active_place(cur)].len() + 1 by {
            if q < n {
                assert(paths2[q] == paths[q]);
                assert(paths[q].len() <= paths[active_place(cur)].len() + 1);
            }
        }
        assert forall|k: int| 0 <= k < edges.len() && #[trigger] after[k] implies edge_done(
            edges,
            nodes2,
            paths2,
            visited2,
            at2,
            hi,
            cur,
            k,
        ) by {
            if k != j {
                assert(used[k]);
                assert(edge_done(edges, nodes, paths, visited, at, hi, cur, k));
                if edges[k].end < hi {
                    let a = (edges[k].end + 1) as i64;
                    assert(visited.contains(a));
                    assert(paths2[at[a]] == paths[at[a]]);
                }
                assert(visited.contains(edges[k].start));
                assert(paths2[at[edges[k].start]] == paths[at[edges[k].start]]);
            } else {
                assert(paths2[cur] == paths[cur]);
            }
        }
        assert forall|q: int, k: int|
            0 <= q < cur && 0 <= k < edges.len() && edges[k].start == #[trigger] nodes2[q] implies #[trigger] after[k] by {
            assert(nodes2[q] == nodes[q]);
            assert(used[k]);
        }
        assert forall|k: int, i: int|
            0 <= k < edges.len() && 0 <= i < edges.len() && #[trigger] after[k] && !#[trigger] after[i]
                && edges[k].start == nodes2[active_place(cur)] && edges[i].start
                == nodes2[active_place(cur)] implies edges[k].end >= edges[i].end by {
            assert(nodes2[cur] == nodes[cur]);
            assert(!used[i]);
            if k != j {
                assert(used[k]);
            }
        }
        assert forall|q: int| 1 <= q < nodes2.len() implies #[trigger] path_extends(
            edges,
            after,
            nodes2,
            paths2,
            visited2,
            at2,
            cur,
            q,
        ) by {
            if q < n {
                assert(path_extends(edges, used, nodes, paths, visited, at, cur, q));
                assert(paths2[q] == paths[q]);
                let e = paths[q].last();
                assert(visited.contains(e.start));
                assert(paths2[at[e.start]] == paths[at[e.start]]);
                let k = choose|k: int| 0 <= k < edges.len() && #[trigger] used[k] && edges[k]
                    == paths[q].last();
                assert(after[k]);
            } else {
                assert(paths2[q] == paths[cur].push(edges[j]));
                assert(paths2[q].last() == edges[j]);
                assert(paths2[q].drop_last() =~= paths[cur]);
                assert(paths2[cur] == paths[cur]);
                assert(after[j]);
            }
        }
        assert(nodes2[0] == nodes[0] && paths2[0] == paths[0]);
    }

    proof fn lemma_search_next(
        edges: Seq<Version>,
        used: Seq<bool>,
        nodes: Seq<i64>,
        paths: Seq<Seq<Version>>,
        visited: Set<i64>,
        at: Map<i64, int>,
        lo: i64,
        hi: i64,
        cur: int,
    )
        requires
            searching(edges, used, nodes, paths, visited, at, lo, hi, cur, cur),
            0 <= cur < nodes.len(),
            forall|k: int|
                0 <= k < edges.len() && (#[trigger] edges[k]).start == nodes[cur] ==> used[k],
        ensures
            searching(edges, used, nodes, paths, visited, at, lo, hi, cur + 1, cur),
    {
        assert forall|q: int, k: int|
            0 <= q < cur + 1 && 0 <= k < edges.len() && edges[k].start == #[trigger] nodes[q] implies #[trigger] used[k] by {
            if q == cur {
                assert(edges[k].start == nodes[cur]);
            }
        }
    }

    proof fn lemma_chain_is_near(
        edges: Seq<Version>,
        used: Seq<bool>,
        nodes: Seq<i64>,
        paths: Seq<Seq<Version>>,
        visited: Set<i64>,
        at: Map<i64, int>,
        lo: i64,
        hi: i64,
        cur: int,
        chain: Seq<Version>,
        node: i64,
    )
        requires
            searching(edges, used, nodes, paths, visited, at, lo, hi, cur, cur),
            0 <= cur < nodes.len(),
            leads_to(edges.to_set(), chain, lo, hi, node),
            chain.len() <= paths[cur].len(),
        ensures
            visited.contains(node),
            paths[at[node]].len() <= chain.len(),
        decreases chain.len(),
    {
        if chain.len() == 0 {
            assert(visited.contains(nodes[0]));
        } else {
            let front = chain.drop_last();
            let e = chain.last();
            lemma_chain_front(edges.to_set(), chain, lo, hi, node);
            Self::lemma_chain_is_near(
                edges,
                used,
                nodes,
                paths,
                visited,
                at,
                lo,
                hi,
                cur,
                front,
                e.start,
            );
            let q = at[e.start];
            assert(visited.contains(e.start));
            assert(paths[q].len() < paths[cur].len());
            assert(q < cur) by {
                if q >= cur {
                    assert(paths[cur].len() <= paths[q].len());
                }
            }
            assert(edges.to_set().contains(e));
            let k = edges.index_of(e);
            assert(edges[k].start == nodes[q]);
            assert(used[k]);
            assert(edge_done(edges, nodes, paths, visited, at, hi, cur, k));
        }
    }

    proof fn lemma_cover_is_longer(
        edges: Seq<Version>,
        used: Seq<bool>,
        nodes: Seq<i64>,
        paths: Seq<Seq<Version>>,
        visited: Set<i64>,
        at: Map<i64, int>,
        lo: i64,
        hi: i64,
        cur: int,
        p: Seq<Version>,
    )
        requires
            searching(edges, used, nodes, paths, visited, at, lo, hi, cur, cur),
            0 <= cur < nodes.len(),
            is_cover(edges.to_set(), p, lo, hi),
        ensures
            paths[cur].len() + 1 <= p.len(),
    {
        if p.len() <= paths[cur].len() {
            let front = p.drop_last();
            let e = p.last();
            lemma_cover_front(edges.to_set(), p, lo, hi);
            Self::lemma_chain_is_near(
                edges,
                used,
                nodes,
                paths,
                visited,
                at,
                lo,
                hi,
                cur,
                front,
                e.start,
            );
            let q = at[e.start];
            assert(visited.contains(e.start));
            assert(q < cur) by {
                if q >= cur {
                    assert(paths[cur].len() <= paths[q].len());
                }
            }
            assert(edges.to_set().contains(e));
            let k = edges.index_of(e);
            assert(edges[k].start == nodes[q]);
            assert(used[k]);
            assert(edge_done(edges, nodes, paths, visited, at, hi, cur, k));
        }
    }

    proof fn lemma_front_is_ranked(
        edges: Seq<Version>,
        used: Seq<bool>,
        nodes: Seq<i64>,
        paths: Seq<Seq<Version>>,
        visited: Set<i64>,
        at: Map<i64, int>,
        lo: i64,
        hi: i64,
        cur: int,
        chain: Seq<Version>,
    )
        requires
            searching(edges, used, nodes, paths, visited, at, lo, hi, cur, cur),
            ranked(edges.to_set(), nodes, paths, lo, hi),
            0 <= cur < nodes.len(),
            chain.len() == paths[cur].len() + 1,
            leads_to(edges.to_set(), chain.drop_last(), lo, hi, chain.last().start),
            edges.to_set().contains(chain.last()),
            forall|k: int|
                0 <= k < edges.len() && #[trigger] used[k] ==> edges[k] != chain.last(),
        ensures
            visited.contains(chain.last().start),
            at[chain.last().start] >= cur,
            at[chain.last().start] == cur ==> chain.drop_last() == paths[cur] || prefers(
                paths[cur],
                chain.drop_last(),
            ),
            at[chain.last().start] > cur ==> prefers(paths[cur], chain.drop_last()),
    {
        let front = chain.drop_last();
        let e = chain.last();
        Self::lemma_chain_is_near(
            edges,
            used,
            nodes,
            paths,
            visited,
            at,
            lo,
            hi,
            cur,
            front,
            e.start,
        );
        let q = at[e.start];
        assert(visited.contains(e.start));
        let k = edges.index_of(e);
        assert(edges[k] == e);
        assert(q >= cur) by {
            if q < cur {
                assert(edges[k].start == nodes[q]);
                assert(used[k]);
            }
        }
        assert(paths[cur].len() <= paths[q].len());
        assert(leads_to(edges.to_set(), front, lo, hi, nodes[q]));
        assert(front == paths[q] || prefers(paths[q], front));
        if q > cur {
            assert(prefers(paths[cur], paths[q]));
            if front != paths[q] {
                lemma_prefers_transitive(paths[cur], paths[q], front);
            }
        }
    }

    proof fn lemma_cover_is_not_preferred(
        edges: Seq<Version>,
        used: Seq<bool>,
        nodes: Seq<i64>,
        paths: Seq<Seq<Version>>,
        visited: Set<i64>,
        at: Map<i64, int>,
        lo: i64,
        hi: i64,
        cur: int,
        j: int,
        p: Seq<Version>,
    )
        requires
            searching(edges, used, nodes, paths, visited, at, lo, hi, cur, cur),
            ranked(edges.to_set(), nodes, paths, lo, hi),
            0 <= cur < nodes.len(),
            0 <= j < edges.len(),
            edges[j].start == nodes[cur],
            edges[j].end == hi,
            is_cover(edges.to_set(), p, lo, hi),
            p.len() == paths[cur].len() + 1,
        ensures
            p == paths[cur].push(edges[j]) || prefers(paths[cur].push(edges[j]), p),
    {
        let front = p.drop_last();
        let e = p.last();
        lemma_cover_front(edges.to_set(), p, lo, hi);
        assert forall|k: int| 0 <= k < edges.len() && #[trigger] used[k] implies edges[k] != e by {
            assert(edge_done(edges, nodes, paths, visited, at, hi, cur, k));
        }
        Self::lemma_front_is_ranked(edges, used, nodes, paths, visited, at, lo, hi, cur, p);
        assert(p =~= front.push(e));
        if at[e.start] == cur {
            assert(e == edges[j]);
            if front != paths[cur] {
                lemma_prefers_push(paths[cur], front, edges[j], e);
            }
        } else {
            lemma_prefers_push(paths[cur], front, edges[j], e);
        }
    }

    proof fn lemma_rank_push(
        edges: Seq<Version>,
        used: Seq<bool>,
        nodes: Seq<i64>,
        paths: Seq<Seq<Version>>,
        visited: Set<i64>,
        at: Map<i64, int>,
        lo: i64,
        hi: i64,
        cur: int,
        j: int,
    )
        requires
            searching(edges, used, nodes, paths, visited, at, lo, hi, cur, cur),
            ranked(edges.to_set(), nodes, paths, lo, hi),
            0 <= cur < nodes.len(),
            0 <= j < edges.len(),
            !used[j],
            edges[j].start == nodes[cur],
            forall|k: int|
                0 <= k < edges.len() && !used[k] && edges[k].start == nodes[cur] ==> edges[k].end
                    <= edges[j].end,
            edges[j].end < hi,
            !visited.contains((edges[j].end + 1) as i64),
        ensures
            ranked(
                edges.to_set(),
                nodes.push((edges[j].end + 1) as i64),
                paths.push(paths[cur].push(edges[j])),
                lo,
                hi,
            ),
    {
        let next = (edges[j].end + 1) as i64;
        let grown = paths[cur].push(edges[j]);
        let nodes2 = nodes.push(next);
        let paths2 = paths.push(grown);
        let n = nodes.len() as int;
        assert forall|q1: int, q2: int|
            0 <= q1 < q2 < paths2.len() && (#[trigger] paths2[q1]).len() == (
            #[trigger] paths2[q2]).len() implies prefers(paths2[q1], paths2[q2]) by {
            if q2 < n {
                assert(paths2[q1] == paths[q1] && paths2[q2] == paths[q2]);
            } else {
                assert(paths2[q1] == paths[q1]);
                Self::lemma_earlier_is_preferred(
                    edges,
                    used,
                    nodes,
                    paths,
                    visited,
                    at,
                    lo,
                    hi,
                    cur,
                    j,
                    q1,
                );
            }
        }
        assert forall|q: int, c: Seq<Version>|
            0 <= q < nodes2.len() && #[trigger] leads_to(edges.to_set(), c, lo, hi, nodes2[q])
                && c.len() == paths2[q].len() implies c == paths2[q] || prefers(paths2[q], c) by {
            if q < n {
                assert(nodes2[q] == nodes[q] && paths2[q] == paths[q]);
            } else {
                lemma_chain_front(edges.to_set(), c, lo, hi, next);
                let e = c.last();
                assert forall|k: int| 0 <= k < edges.len() && #[trigger] used[k] implies edges[k]
                    != e by {
                    assert(edge_done(edges, nodes, paths, visited, at, hi, cur, k));
                }
                Self::lemma_front_is_ranked(edges, used, nodes, paths, visited, at, lo, hi, cur, c);
                let front = c.drop_last();
                assert(c =~= front.push(e));
                if at[e.start] == cur {
                    assert(e == edges[j]);
                    if front != paths[cur] {
                        lemma_prefers_push(paths[cur], front, edges[j], e);
                    }
                } else {
                    lemma_prefers_push(paths[cur], front, edges[j], e);
                }
            }
        }
    }

    proof fn lemma_earlier_is_preferred(
        edges: Seq<Version>,
        used: Seq<bool>,
        nodes: Seq<i64>,
        paths: Seq<Seq<Version>>,
        visited: Set<i64>,
        at: Map<i64, int>,
        lo: i64,
        hi: i64,
        cur: int,
        j: int,
        q: int,
    )
        requires
            searching(edges, used, nodes, paths, visited, at, lo, hi, cur, cur),
            ranked(edges.to_set(), nodes, paths, lo, hi),
            0 <= cur < nodes.len(),
            0 <= j < edges.len(),
            !used[j],
            edges[j].start == nodes[cur],
            forall|k: int|
                0 <= k < edges.len() && !used[k] && edges[k].start == nodes[cur] ==> edges[k].end
                    <= edges[j].end,
            edges[j].end < hi,
            !visited.contains((edges[j].end + 1) as i64),
            0 <= q < nodes.len(),
            paths[q].len() == paths[cur].len() + 1,
        ensures
            prefers(paths[q], paths[cur].push(edges[j])),
    {
        assert(q >= 1);
        assert(path_extends(edges, used, nodes, paths, visited, at, cur, q));
        let e = paths[q].last();
        let pq = at[e.start];
        assert(paths[q] =~= paths[pq].push(e));
        assert(visited.contains(nodes[cur]) && at[nodes[cur]] == cur);
        if pq < cur {
            assert(prefers(paths[pq], paths[cur]));
            lemma_prefers_push(paths[pq], paths[cur], e, edges[j]);
        } else {
            let k = choose|k: int| 0 <= k < edges.len() && #[trigger] used[k] && edges[k] == e;
            assert(edge_done(edges, nodes, paths, visited, at, hi, cur, k));
            assert(edges[k].start == nodes[cur]);
            assert(edges[k].end >= edges[j].end);
            assert(leads_to(edges.to_set(), paths[q], lo, hi, nodes[q]));
            assert(e.end < hi);
            assert(e.end != edges[j].end);
            lemma_push_greater(paths[cur], e, edges[j]);
        }
    }

    proof fn lemma_extend_path(
        edges: Set<Version>,
        path: Seq<Version>,
        e: Version,
        lo: i64,
        hi: i64,
    )
        requires
            leads_to(edges, path, lo, hi, e.start),
            edges.contains(e),
            e.end < hi,
        ensures
            leads_to(edges, path.push(e), lo, hi, (e.end + 1) as i64),
    {
        let next = path.push(e);
        assert forall|i: int| 0 <= i < next.len() implies edges.contains(#[trigger] next[i])
            && next[i].end < hi by {
            if i < path.len() {
                assert(next[i] == path[i]);
            }
        }
        assert forall|i: int| 0 <= i < next.len() - 1 implies (#[trigger] next[i + 1]).start
            == next[i].end + 1 by {
            if i < path.len() - 1 {
                assert(next[i + 1] == path[i + 1]);
                assert(next[i] == path[i]);
            } else {
                assert(next[i] == path.last());
            }
        }
        if path.len() > 0 {
            assert(next[0] == path[0]);
        }
    }

    proof fn lemma_extend_to_cover(
        edges: Set<Version>,
        path: Seq<Version>,
        e: Version,
        lo: i64,
        hi: i64,
    )
        requires
            leads_to(edges, path, lo, hi, e.start),
            edges.contains(e),
            e.end == hi,
        ensures
            is_cover(edges, path.push(e), lo, hi),
    {
        let next = path.push(e);
        assert forall|i: int| 0 <= i < next.len() implies edges.contains(#[trigger] next[i]) by {
            if i < path.len() {
                assert(next[i] == path[i]);
            }
        }
        assert forall|i: int| 0 <= i < next.len() - 1 implies (#[trigger] next[i]).end < hi
            && next[i + 1].start == next[i].end + 1 by {
            assert(next[i] == path[i]);
            if i < path.len() - 1 {
                assert(next[i + 1] == path[i + 1]);
            } else {
                assert(next[i] == path.last());
            }
        }
        if path.len() > 0 {
            assert(next[0] == path[0]);
        }
    }

    proof fn lemma_cover_is_found(
        edges: Seq<Version>,
        used: Seq<bool>,
        nodes: Seq<i64>,
        paths: Seq<Seq<Version>>,
        visited: Set<i64>,
        at: Map<i64, int>,
        p: Seq<Version>,
        lo: i64,
        hi: i64,
        i: int,
    )
        requires
            searching(
                edges,
                used,
                nodes,
                paths,
                visited,
                at,
                lo,
                hi,
                nodes.len() as int,
                nodes.len() - 1,
            ),
            is_cover(edges.to_set(), p, lo, hi),
            0 <= i < p.len(),
        ensures
            visited.contains(p[i].start),
        decreases i,
    {
        if i > 0 {
            Self::lemma_cover_is_found(edges, used, nodes, paths, visited, at, p, lo, hi, i - 1);
            let before = p[i - 1];
            assert(edges.to_set().contains(before));
            let j = edges.index_of(before);
            assert(edges[j].start == nodes[at[before.start]]);
            assert(used[j]);
            assert(edge_done(edges, nodes, paths, visited, at, hi, nodes.len() - 1, j));
        } else {
            assert(visited.contains(nodes[0]));
        }
    }

    /// Whether no edges cover the versions from `lo` to `hi`.
    pub fn has_version_holes(&self, lo: i64, hi: i64) -> (r: bool)
        ensures
            r == !has_cover(self@, lo, hi),
    {
        self.find_covering_path(lo, hi).is_none()
    }
}

/// Whether version `v` lies in the interval `e`.
pub open spec fn covers(e: Version, v: i64) -> bool {
    e.start <= v <= e.end
}

/// Whether version `v` lies in some edge of a graph.
pub open spec fn covered(edges: Set<Version>, v: i64) -> bool {
    exists|e: Version| edges.contains(e) && #[trigger] covers(e, v)
}

/// Whether the edges of a graph are intervals that do not overlap and whose
/// union is the versions from 0 to `hi`.
pub open spec fn tiles(edges: Set<Version>, hi: i64) -> bool {
    &&& forall|e: Version| #[trigger]
        edges.contains(e) ==> 0 <= e.start <= e.end <= hi
    &&& forall|v: i64| 0 <= v <= hi ==> #[trigger] covered(edges, v)
    &&& forall|a: Version, b: Version, v: i64|
        edges.contains(a) && edges.contains(b) && #[trigger] covers(a, v) && #[trigger] covers(b, v)
            ==> a == b
}

proof fn lemma_cover_reaches(
    edges: Set<Version>,
    path: Seq<Version>,
    lo: i64,
    hi: i64,
    v: i64,
    k: int,
) -> (i: int)
    requires
        is_cover(edges, path, lo, hi),
        0 <= k < path.len(),
        path[k].start <= v <= hi,
    ensures
        k <= i < path.len(),
        covers(path[i], v),
    decreases path.len() - k,
{
    if path[k].end >= v {
        k
    } else {
        assert(k < path.len() - 1);
        assert(path[k + 1].start == path[k].end + 1);
        lemma_cover_reaches(edges, path, lo, hi, v, k + 1)
    }
}

/// A cover leaves no hole: every version from `lo` to `hi` lies in one of
/// its edges.
pub proof fn lemma_cover_leaves_no_hole(
    edges: Set<Version>,
    path: Seq<Version>,
    lo: i64,
    hi: i64,
    v: i64,
)
    requires
        is_cover(edges, path, lo, hi),
        lo <= v <= hi,
    ensures
        exists|i: int| 0 <= i < path.len() && edges.contains(path[i]) && covers(#[trigger] path[i], v),
{
    let i = lemma_cover_reaches(edges, path, lo, hi, v, 0);
    assert(edges.contains(path[i]) && covers(path[i], v));
}

/// Where some version from `lo` to `hi` lies in no edge of a graph, the
/// graph has no cover from `lo` to `hi`.
pub proof fn lemma_hole_prevents_cover(edges: Set<Version>, lo: i64, hi: i64, v: i64)
    requires
        lo <= v <= hi,
        forall|e: Version| edges.contains(e) ==> !#[trigger] covers(e, v),
    ensures
        !has_cover(edges, lo, hi),
{
    if has_cover(edges, lo, hi) {
        let path = choose|path: Seq<Version>| is_cover(edges, path, lo, hi);
        lemma_cover_leaves_no_hole(edges, path, lo, hi, v);
        let i = choose|i: int|
            0 <= i < path.len() && edges.contains(path[i]) && covers(#[trigger] path[i], v);
        assert(covers(path[i], v));
    }
}

proof fn lemma_tiling_leads_on(edges: Set<Version>, hi: i64, path: Seq<Version>, x: i64)
    requires
        tiles(edges, hi),
        0 <= x <= hi,
        leads_to(edges, path, 0, hi, x),
    ensures
        has_cover(edges, 0, hi),
    decreases hi - x,
{
    assert(covered(edges, x));
    let e = choose|e: Version| edges.contains(e) && #[trigger] covers(e, x);
    assert(edges.contains(e) && covers(e, x));
    if path.len() > 0 {
        let last = path.last();
        assert(edges.contains(last));
        if e.start < x {
            let y = (x - 1) as i64;
            assert(covers(e, y));
            assert(covers(last, y));
        }
    }
    assert(e.start == x);
    if e.end == hi {
        VersionGraph::lemma_extend_to_cover(edges, path, e, 0, hi);
        assert(is_cover(edges, path.push(e), 0, hi));
    } else {
        VersionGraph::lemma_extend_path(edges, path, e, 0, hi);
        lemma_tiling_leads_on(edges, hi, path.push(e), (e.end + 1) as i64);
    }
}

/// Edges that do not overlap and whose union is the versions from 0 to `hi`
/// have a cover from 0 to `hi`.
pub proof fn lemma_tiling_has_cover(edges: Set<Version>, hi: i64)
    requires
        0 <= hi,
        tiles(edges, hi),
    ensures
        has_cover(edges, 0, hi),
{
    lemma_tiling_leads_on(edges, hi, Seq::<Version>::empty(), 0);
}

/// Whether every edge of a graph is an interval that holds a version.
pub open spec fn all_proper(edges: Set<Version>) -> bool {
    forall|e: Version| #[trigger] edges.contains(e) ==> e.start <= e.end
}

proof fn lemma_cover_starts_rise(
    edges: Set<Version>,
    path: Seq<Version>,
    lo: i64,
    hi: i64,
    i: int,
    j: int,
)
    requires
        all_proper(edges),
        is_cover(edges, path, lo, hi),
        0 <= i < j < path.len(),
    ensures
        path[i].end < path[j].start,
    decreases j - i,
{
    let before = path[j - 1];
    assert(edges.contains(before));
    assert(before.start <= before.end);
    assert(path[j - 1 + 1].start == before.end + 1);
    if i < j - 1 {
        lemma_cover_starts_rise(edges, path, lo, hi, i, j - 1);
    }
}

/// A cover over edges that do not overlap and whose union is the versions
/// from 0 to `hi` is a partition of these versions: every one of them lies
/// in exactly one edge of the cover.
pub proof fn lemma_cover_of_tiling_is_partition(
    edges: Set<Version>,
    path: Seq<Version>,
    hi: i64,
    v: i64,
)
    requires
        tiles(edges, hi),
        is_cover(edges, path, 0, hi),
        0 <= v <= hi,
    ensures
        exists|i: int| 0 <= i < path.len() && covers(#[trigger] path[i], v),
        forall|i: int, j: int|
            0 <= i < path.len() && 0 <= j < path.len() && covers(#[trigger] path[i], v) && covers(
                #[trigger] path[j],
                v,
            ) ==> i == j,
{
    lemma_cover_leaves_no_hole(edges, path, 0, hi, v);
    assert(all_proper(edges));
    assert forall|i: int, j: int|
        0 <= i < path.len() && 0 <= j < path.len() && covers(#[trigger] path[i], v) && covers(
            #[trigger] path[j],
            v,
        ) implies i == j by {
        if i < j {
            lemma_cover_starts_rise(edges, path, 0, hi, i, j);
        }
        if j < i {
            lemma_cover_starts_rise(edges, path, 0, hi, j, i);
        }
    }
}

impl Default for VersionGraph {
    fn default() -> (g: Self)
        ensures
            g@ == Set::<Version>::empty(),
    {
        Self::new()
    }
}

/// The intervals that the rowsets of a tablet cover.
pub open spec fn rowset_versions(rowsets: Map<RowsetId, RowsetMeta>) -> Set<Version> {
    Set::new(|v: Version| exists|k: RowsetId| rowsets.contains_key(k) && #[trigger] rowsets[k].version == v)
}

/// The contents of the rowsets of a tablet.
pub open spec fn rowset_views(rowsets: Map<RowsetId, RowsetMeta>) -> Map<RowsetId, RowsetView> {
    Map::new(|k: RowsetId| rowsets.contains_key(k), |k: RowsetId| rowsets[k]@)
}

/// How many of the rowsets with the given ids are visible.
pub open spec fn visible_among(rowsets: Map<RowsetId, RowsetMeta>, ids: Seq<RowsetId>) -> nat
    decreases ids.len(),
{
    if ids.len() == 0 {
        0
    } else {
        visible_among(rowsets, ids.drop_last()) + (if rowsets[ids.last()].state
            == RowsetState::Visible {
            1nat
        } else {
            0nat
        })
    }
}

/// The ids of the visible rowsets.
pub open spec fn visible_ids(rowsets: Map<RowsetId, RowsetMeta>) -> Set<RowsetId> {
    Set::new(
        |k: RowsetId| rowsets.contains_key(k) && rowsets[k].state == RowsetState::Visible,
    )
}

proof fn lemma_visible_among(rowsets: Map<RowsetId, RowsetMeta>, ids: Seq<RowsetId>)
    requires
        ids.no_duplicates(),
        forall|i: int| 0 <= i < ids.len() ==> rowsets.contains_key(#[trigger] ids[i]),
    ensures
        visible_ids(rowsets).intersect(ids.to_set()).finite(),
        visible_among(rowsets, ids) == visible_ids(rowsets).intersect(ids.to_set()).len(),
    decreases ids.len(),
{
    let target = visible_ids(rowsets).intersect(ids.to_set());
    if ids.len() == 0 {
        assert(target =~= Set::<RowsetId>::empty());
    } else {
        let front = ids.drop_last();
        let last = ids.last();
        assert forall|i: int| 0 <= i < front.len() implies rowsets.contains_key(
            #[trigger] front[i],
        ) by {
            assert(front[i] == ids[i]);
        }
        lemma_visible_among(rowsets, front);
        let before = visible_ids(rowsets).intersect(front.to_set());
        assert(!front.contains(last)) by {
            if front.contains(last) {
                let i = front.index_of(last);
                assert(ids[i] == ids[ids.len() - 1]);
            }
        }
        assert forall|k: RowsetId| ids.to_set().contains(k) <==> front.to_set().contains(k) || k
            == last by {
            if ids.contains(k) {
                let i = ids.index_of(k);
                if i < front.len() {
                    assert(front[i] == k);
                }
            }
            if front.contains(k) {
                let i = front.index_of(k);
                assert(ids[i] == k);
            }
            assert(ids[ids.len() - 1] == last);
        }
        if rowsets[last].state == RowsetState::Visible {
            assert(target =~= before.insert(last));
        } else {
            assert(target =~= before);
        }
    }
}

/// A tablet's record with the graph of its versions.
pub struct TabletInner {
    pub meta: TabletMeta,
    pub version_graph: VersionGraph,
}

impl TabletInner {
    /// The state of a tablet whose graph holds the interval of every
    /// rowset of the record.
    pub fn new(meta: TabletMeta) -> (inner: Self)
        ensures
            inner.meta == meta,
            inner.version_graph@ == rowset_versions(meta.rowsets@),
    {
        let mut graph = VersionGraph::new();
        for entry in it: meta.rowsets.iter()
            invariant
                it.seq() == spec_hash_map_iter(&meta.rowsets).remaining(),
                forall|v: Version|
                    graph@.contains(v) <==> exists|j: int|
                        0 <= j < it.index() && #[trigger] (*it.seq()[j].1).version == v,
        {
            let ghost before = graph@;
            let ghost n = it.index();
            graph.add_edge(entry.1.version);
            proof {
                assert forall|v: Version| graph@.contains(v) <==> exists|j: int|
                    0 <= j < n + 1 && #[trigger] (*it.seq()[j].1).version == v by {
                    if before.contains(v) {
                        let j = choose|j: int| 0 <= j < n && #[trigger] (*it.seq()[j].1).version == v;
                        assert((*it.seq()[j].1).version == v);
                    }
                    if v == entry.1.version {
                        assert((*it.seq()[n].1).version == v);
                    }
                }
            }
        }
        proof {
            let all = spec_hash_map_iter(&meta.rowsets).remaining();
            assert forall|v: Version| graph@.contains(v) <==> rowset_versions(
                meta.rowsets@,
            ).contains(v) by {
                if graph@.contains(v) {
                    let j = choose|j: int| 0 <= j < all.len() && #[trigger] (*all[j].1).version == v;
                    assert(meta.rowsets@.contains_key(*all[j].0));
                    assert(meta.rowsets@[*all[j].0].version == v);
                }
                if rowset_versions(meta.rowsets@).contains(v) {
                    let k = choose|k: RowsetId|
                        meta.rowsets@.contains_key(k) && #[trigger] meta.rowsets@[k].version == v;
                    assert(all.contains((&k, &meta.rowsets@[k])));
                    let j = all.index_of((&k, &meta.rowsets@[k]));
                    assert((*all[j].1).version == v);
                }
            }
            assert(graph@ =~= rowset_versions(meta.rowsets@));
        }
        Self { meta, version_graph: graph }
    }
}

/// The state of a tablet.
pub struct TabletState {
    pub tablet_id: TabletId,
    pub schema_hash: SchemaHash,
    pub schema: TabletSchemaView,
    pub rowsets: Map<RowsetId, RowsetView>,
    pub max_version: i64,
    /// The intervals of the rowsets that readers see.
    pub edges: Set<Version>,
}

impl TabletState {
    /// The number of visible rowsets.
    pub open spec fn visible_count(self) -> nat {
        Set::new(
            |k: RowsetId|
                self.rowsets.contains_key(k) && self.rowsets[k].state == RowsetState::Visible,
        ).len()
    }

    /// Whether every edge is the interval of one of the rowsets.
    pub open spec fn wf(self) -> bool {
        forall|v: Version| #[trigger]
            self.edges.contains(v) ==> exists|k: RowsetId|
                self.rowsets.contains_key(k) && #[trigger] self.rowsets[k].version == v
    }

    /// The state of a new tablet with the given record: readers see every
    /// rowset of the record.
    pub open spec fn of_meta(meta: TabletMeta) -> TabletState {
        TabletState {
            tablet_id: meta.tablet_id,
            schema_hash: meta.schema_hash,
            schema: meta.schema@,
            rowsets: rowset_views(meta.rowsets@),
            max_version: meta.max_version,
            edges: rowset_versions(meta.rowsets@),
        }
    }

    /// The state after a rowset was published.
    pub open spec fn published(self, rs: RowsetView) -> TabletState {
        TabletState {
            rowsets: self.rowsets.insert(
                rs.rowset_id,
                RowsetView { state: RowsetState::Visible, ..rs },
            ),
            max_version: if rs.version.end > self.max_version {
                rs.version.end
            } else {
                self.max_version
            },
            edges: self.edges.insert(rs.version),
            ..self
        }
    }

    /// The state after a rowset was marked stale; the same state where the
    /// tablet holds no such rowset.
    pub open spec fn staled(self, rowset_id: RowsetId) -> TabletState {
        if self.rowsets.contains_key(rowset_id) {
            TabletState {
                rowsets: self.rowsets.insert(
                    rowset_id,
                    RowsetView { state: RowsetState::Stale, ..self.rowsets[rowset_id] },
                ),
                edges: self.edges.remove(self.rowsets[rowset_id].version),
                ..self
            }
        } else {
            self
        }
    }

    /// Whether the tablet holds a rowset with the given content.
    pub open spec fn holds(self, rs: RowsetView) -> bool {
        exists|k: RowsetId| self.rowsets.contains_key(k) && #[trigger] self.rowsets[k] == rs
    }

    /// The text of a range of versions: `[lo,hi]`.
    pub open spec fn range_text(lo: i64, hi: i64) -> Seq<char> {
        "["@ + signed_decimal(lo as int) + ","@ + signed_decimal(hi as int) + "]"@
    }
}

/// A tablet: one bucket of one partition of a table, with its rowsets.
pub struct Tablet {
    inner: TabletInner,
}

impl View for Tablet {
    type V = TabletState;

    closed spec fn view(&self) -> TabletState {
        TabletState {
            tablet_id: self.inner.meta.tablet_id,
            schema_hash: self.inner.meta.schema_hash,
            schema: self.inner.meta.schema@,
            rowsets: rowset_views(self.inner.meta.rowsets@),
            max_version: self.inner.meta.max_version,
            edges: self.inner.version_graph@,
        }
    }
}

impl Tablet {
    /// A tablet with the given record; readers see every rowset of it.
    pub fn new(meta: TabletMeta) -> (t: Self)
        ensures
            t@.wf(),
            t@ == TabletState::of_meta(meta),
    {
        let t = Self { inner: TabletInner::new(meta) };
        proof {
            assert forall|v: Version| #[trigger] t@.edges.contains(v) implies exists|k: RowsetId|
                t@.rowsets.contains_key(k) && #[trigger] t@.rowsets[k].version == v by {
                let k = choose|k: RowsetId|
                    meta.rowsets@.contains_key(k) && #[trigger] meta.rowsets@[k].version == v;
                assert(t@.rowsets.contains_key(k) && t@.rowsets[k].version == v);
            }
        }
        t
    }

    pub fn tablet_id(&self) -> (id: TabletId)
        ensures
            id == self@.tablet_id,
    {
        self.inner.meta.tablet_id
    }

    pub fn schema_hash(&self) -> (h: SchemaHash)
        ensures
            h == self@.schema_hash,
    {
        self.inner.meta.schema_hash
    }

    /// A copy of the schema.
    pub fn schema(&self) -> (s: TabletSchema)
        ensures
            s@ == self@.schema,
    {
        self.inner.meta.schema.clone()
    }

    pub fn max_version(&self) -> (v: i64)
        ensures
            v == self@.max_version,
    {
        self.inner.meta.max_version
    }

    /// Publishes a rowset: it becomes visible, its interval joins the graph,
    /// and the largest version follows its end.
    ///
    /// Fails with `VersionExists`, carrying the interval, where the tablet
    /// holds a rowset of the same id; the tablet is then unchanged.
    pub fn add_rowset(&mut self, rs: RowsetMeta) -> (r: Result<(), OlapError>)
        requires
            old(self)@.wf(),
        ensures
            final(self)@.wf(),
            old(self)@.rowsets.contains_key(rs.rowset_id) ==> r == Err::<(), OlapError>(
                OlapError::VersionExists(rs.version),
            ) && final(self)@ == old(self)@,
            !old(self)@.rowsets.contains_key(rs.rowset_id) ==> r is Ok && final(self)@ == old(
                self,
            )@.published(rs@),
    {
        if self.inner.meta.rowsets.contains_key(&rs.rowset_id) {
            return Err(OlapError::VersionExists(rs.version));
        }
        let mut rs = rs;
        rs.state = RowsetState::Visible;
        self.inner.version_graph.add_edge(rs.version);
        if rs.version.end > self.inner.meta.max_version {
            self.inner.meta.max_version = rs.version.end;
        }
        let ghost id = rs.rowset_id;
        let ghost version = rs.version;
        self.inner.meta.rowsets.insert(rs.rowset_id, rs);
        proof {
            assert(self@.rowsets =~= old(self)@.rowsets.insert(
                id,
                RowsetView { state: RowsetState::Visible, ..rs@ },
            ));
            assert forall|v: Version| #[trigger] self@.edges.contains(v) implies exists|
                k: RowsetId,
            |
                self@.rowsets.contains_key(k) && #[trigger] self@.rowsets[k].version == v by {
                if v == version {
                    assert(self@.rowsets.contains_key(id) && self@.rowsets[id].version == v);
                } else {
                    assert(old(self)@.edges.contains(v));
                    let k = choose|k: RowsetId|
                        old(self)@.rowsets.contains_key(k) && #[trigger] old(
                            self,
                        )@.rowsets[k].version == v;
                    assert(self@.rowsets.contains_key(k) && self@.rowsets[k].version == v);
                }
            }
        }
        Ok(())
    }

    fn find_by_version(&self, v: Version) -> (r: Option<RowsetMeta>)
        ensures
            match r {
                Some(rs) => rs.version == v && self@.holds(rs@),
                None => forall|k: RowsetId|
                    self@.rowsets.contains_key(k) ==> (#[trigger] self@.rowsets[k]).version != v,
            },
    {
        let mut found: Option<RowsetMeta> = None;
        let ghost mut key: RowsetId = 0;
        for entry in it: self.inner.meta.rowsets.iter()
            invariant
                it.seq() == spec_hash_map_iter(&self.inner.meta.rowsets).remaining(),
                match found {
                    Some(rs) => rs.version == v && self.inner.meta.rowsets@.contains_key(key)
                        && self.inner.meta.rowsets@[key]@ == rs@,
                    None => forall|j: int|
                        0 <= j < it.index() ==> (#[trigger] it.seq()[j]).1.version != v,
                },
        {
            if found.is_none() && entry.1.version == v {
                found = Some(entry.1.clone());
                proof {
                    key = *entry.0;
                }
            }
        }
        proof {
            let all = spec_hash_map_iter(&self.inner.meta.rowsets).remaining();
            if found is Some {
                assert(self@.rowsets.contains_key(key) && self@.rowsets[key] == found->0@);
            } else {
                {
                    assert forall|k: RowsetId| self@.rowsets.contains_key(k) implies (
                    #[trigger] self@.rowsets[k]).version != v by {
                        let m = self.inner.meta.rowsets@;
                        assert(all.contains((&k, &m[k])));
                        let j = all.index_of((&k, &m[k]));
                        assert(all[j].1.version != v);
                    }
                }
            }
        }
        found
    }

    /// The rowsets whose intervals cover the versions from `lo` to `hi`,
    /// in order: for every edge of the cover that a search of the graph
    /// gives, a rowset of that interval.
    ///
    /// Fails with `MissingVersions`, carrying the range as `[lo,hi]`, where
    /// the graph has no cover.
    pub fn capture_consistent_versions(&self, lo: i64, hi: i64) -> (r: Result<
        Vec<RowsetMeta>,
        OlapError,
    >)
        requires
            self@.wf(),
        ensures
            r is Ok <==> has_cover(self@.edges, lo, hi),
            r is Ok ==> is_chosen_cover(
                self@.edges,
                r->Ok_0@.map_values(|rs: RowsetMeta| rs.version),
                lo,
                hi,
            ) && forall|i: int| 0 <= i < r->Ok_0@.len() ==> self@.holds((#[trigger] r->Ok_0@[i])@),
            r is Err ==> r->Err_0 is MissingVersions && r->Err_0->MissingVersions_0@
                == TabletState::range_text(lo, hi),
    {
        let path = match self.inner.version_graph.find_covering_path(lo, hi) {
            Some(path) => path,
            None => {
                let mut range = String::from_str("[");
                push_signed_decimal(&mut range, lo);
                range.append(",");
                push_signed_decimal(&mut range, hi);
                range.append("]");
                return Err(OlapError::MissingVersions(range));
            },
        };
        let mut rowsets: Vec<RowsetMeta> = Vec::new();
        let mut i: usize = 0;
        while i < path.len()
            invariant
                i <= path.len(),
                self@.wf(),
                is_chosen_cover(self@.edges, path@, lo, hi),
                rowsets@.len() == i,
                forall|j: int| 0 <= j < i ==> (#[trigger] rowsets@[j]).version == path@[j],
                forall|j: int| 0 <= j < i ==> self@.holds((#[trigger] rowsets@[j])@),
            decreases path.len() - i,
        {
            let ghost before = rowsets@;
            match self.find_by_version(path[i]) {
                Some(rs) => {
                    rowsets.push(rs);
                },
                None => {
                    proof {
                        assert(self@.edges.contains(path@[i as int]));
                        let k = choose|k: RowsetId|
                            self@.rowsets.contains_key(k) && #[trigger] self@.rowsets[k].version
                                == path@[i as int];
                        assert(self@.rowsets[k].version == path@[i as int]);
                    }
                    assert(false);
                },
            }
            proof {
                assert forall|j: int| 0 <= j < i + 1 implies self@.holds(
                    (#[trigger] rowsets@[j])@,
                ) by {
                    if j < i {
                        assert(rowsets@[j] == before[j]);
                    }
                }
            }
            i += 1;
        }
        assert(rowsets@.map_values(|rs: RowsetMeta| rs.version) =~= path@);
        Ok(rowsets)
    }

    /// The compaction score of the tablet: the number of visible rowsets,
    /// whatever the kind of compaction.
    pub fn compute_compaction_score(&self, _ctype: CompactionType) -> (score: usize)
        ensures
            score == self@.visible_count(),
    {
        let mut score: usize = 0;
        let ghost mut ids: Seq<RowsetId> = Seq::empty();
        let ghost m = self.inner.meta.rowsets@;
        let total = self.inner.meta.rowsets.len();
        for entry in it: self.inner.meta.rowsets.iter()
            invariant
                m == self.inner.meta.rowsets@,
                it.seq().len() == total,
                it.seq() == spec_hash_map_iter(&self.inner.meta.rowsets).remaining(),
                it.seq().no_duplicates(),
                ids.len() == it.index(),
                forall|j: int| 0 <= j < ids.len() ==> #[trigger] ids[j] == *it.seq()[j].0,
                score == visible_among(m, ids),
                score <= ids.len(),
        {
            let ghost n = it.index();
            proof {
                assert(m.contains_key(*it.seq()[n].0) && m[*it.seq()[n].0] == *it.seq()[n].1);
                let next = ids.push(*entry.0);
                assert(next.drop_last() =~= ids);
                assert(next.last() == *entry.0);
                ids = next;
            }
            if entry.1.state == RowsetState::Visible {
                score += 1;
            }
        }
        proof {
            let all = spec_hash_map_iter(&self.inner.meta.rowsets).remaining();
            assert(ids.len() == all.len());
            assert forall|i: int, j: int| 0 <= i < j < ids.len() implies ids[i] != ids[j] by {
                if ids[i] == ids[j] {
                    assert(m[*all[i].0] == *all[i].1);
                    assert(m[*all[j].0] == *all[j].1);
                    assert(all[i] == all[j]);
                }
            }
            assert forall|i: int| 0 <= i < ids.len() implies m.contains_key(#[trigger] ids[i]) by {
                assert(m.contains_key(*all[i].0));
            }
            lemma_visible_among(m, ids);
            let target = Set::new(
                |k: RowsetId|
                    self@.rowsets.contains_key(k) && self@.rowsets[k].state
                        == RowsetState::Visible,
            );
            assert forall|k: RowsetId| target.contains(k) <==> visible_ids(m).intersect(
                ids.to_set(),
            ).contains(k) by {
                if m.contains_key(k) {
                    assert(all.contains((&k, &m[k])));
                    let j = all.index_of((&k, &m[k]));
                    assert(ids[j] == k);
                }
            }
            assert(target =~= visible_ids(m).intersect(ids.to_set()));
        }
        score
    }

    /// Marks a rowset stale after compaction: readers no longer see its
    /// interval. Does nothing where the tablet holds no such rowset.
    pub fn mark_rowset_stale(&mut self, rowset_id: RowsetId)
        requires
            old(self)@.wf(),
        ensures
            final(self)@.wf(),
            final(self)@ == old(self)@.staled(rowset_id),
    {
        let mut rs = match self.inner.meta.rowsets.remove(&rowset_id) {
            Some(rs) => rs,
            None => {
                assert(self@.rowsets =~= old(self)@.rowsets);
                return ;
            },
        };
        rs.mark_stale();
        let version = rs.version;
        self.inner.meta.rowsets.insert(rowset_id, rs);
        self.inner.version_graph.remove_edge(version);
        proof {
            assert(self@.rowsets =~= old(self)@.rowsets.insert(
                rowset_id,
                RowsetView { state: RowsetState::Stale, ..old(self)@.rowsets[rowset_id] },
            ));
            assert forall|v: Version| #[trigger] self@.edges.contains(v) implies exists|
                k: RowsetId,
            |
                self@.rowsets.contains_key(k) && #[trigger] self@.rowsets[k].version == v by {
                assert(old(self)@.edges.contains(v));
                let k = choose|k: RowsetId|
                    old(self)@.rowsets.contains_key(k) && #[trigger] old(self)@.rowsets[k].version
                        == v;
                assert(self@.rowsets.contains_key(k) && self@.rowsets[k].version == v);
            }
        }
    }
}

/// The number of shards of the registry.
pub const NUM_SHARDS: usize = 64;

/// The key under which a shard holds a tablet: the tablet id in the upper
/// bits, the schema hash in the lower 32.
pub open spec fn tablet_key(tablet_id: TabletId, schema_hash: SchemaHash) -> u128 {
    (tablet_id * 0x1_0000_0000 + schema_hash) as u128
}

/// The shard of a tablet id.
pub open spec fn shard_of(tablet_id: TabletId) -> int {
    tablet_id as int % 64
}

fn key_of(tablet_id: TabletId, schema_hash: SchemaHash) -> (key: u128)
    ensures
        key == tablet_key(tablet_id, schema_hash),
{
    (tablet_id as u128) * 0x1_0000_0000 + (schema_hash as u128)
}

/// A candidate for compaction: tablet id, schema hash and score.
pub type Candidate = (TabletId, SchemaHash, usize);

/// Whether the scores of a list of candidates never rise.
pub open spec fn scores_descend(candidates: Seq<Candidate>) -> bool {
    forall|i: int, j: int| 0 <= i <= j < candidates.len() ==> candidates[i].2 >= candidates[j].2
}

/// The order of two candidates in a list of descending scores: the one with
/// the larger score comes first.
pub fn score_order(a: &Candidate, b: &Candidate) -> (o: Ordering)
    ensures
        a.2 > b.2 ==> o == Ordering::Less,
        a.2 == b.2 ==> o == Ordering::Equal,
        a.2 < b.2 ==> o == Ordering::Greater,
{
    if a.2 > b.2 {
        Ordering::Less
    } else if a.2 == b.2 {
        Ordering::Equal
    } else {
        Ordering::Greater
    }
}

/// Calls `slice::sort_by` with `score_order`. The standard library
/// documents that the slice is sorted by the comparator; the contract says
/// that the candidates are the same, in an order of descending scores.
#[verifier::external_body]
fn sort_by_score(candidates: &mut Vec<Candidate>)
    ensures
        final(candidates)@.to_multiset() == old(candidates)@.to_multiset(),
        scores_descend(final(candidates)@),
{
    candidates.sort_by(|a, b| score_order(a, b));
}

/// The registry of all tablets, in `NUM_SHARDS` shards by tablet id; within
/// a shard a tablet is found by its id and its schema hash.
pub struct TabletManager {
    shards: Vec<HashMap<u128, Tablet>>,
}

impl View for TabletManager {
    type V = Map<(TabletId, SchemaHash), TabletState>;

    closed spec fn view(&self) -> Map<(TabletId, SchemaHash), TabletState> {
        Map::new(
            |k: (TabletId, SchemaHash)|
                self.shards@[shard_of(k.0)]@.contains_key(tablet_key(k.0, k.1)),
            |k: (TabletId, SchemaHash)| self.shards@[shard_of(k.0)]@[tablet_key(k.0, k.1)]@,
        )
    }
}

impl TabletManager {
    /// Whether the registry is in a state that its operations keep: it has
    /// all of its shards, every shard holds tablets of its own ids only, and
    /// every tablet is well-formed.
    pub closed spec fn wf(&self) -> bool {
        &&& self.shards@.len() == NUM_SHARDS
        &&& forall|s: int, key: u128|
            0 <= s < NUM_SHARDS && #[trigger] self.shards@[s]@.contains_key(key) ==> key
                < 0x1_0000_0000_0000_0000_0000_0000 && (key / 0x1_0000_0000) % 64 == s
                && self.shards@[s]@[key]@.wf()
    }

    /// A tablet that was registered is found under its id and schema hash.
    pub proof fn lemma_created_tablet_is_found(
        registry: Map<(TabletId, SchemaHash), TabletState>,
        meta: TabletMeta,
    )
        ensures
            registry.insert(
                (meta.tablet_id, meta.schema_hash),
                TabletState::of_meta(meta),
            ).contains_key((meta.tablet_id, meta.schema_hash)),
            registry.insert((meta.tablet_id, meta.schema_hash), TabletState::of_meta(meta))[(
                meta.tablet_id,
                meta.schema_hash,
            )] == TabletState::of_meta(meta),
    {
    }

    /// A tablet that was dropped is no longer found.
    pub proof fn lemma_dropped_tablet_is_gone(
        registry: Map<(TabletId, SchemaHash), TabletState>,
        tablet_id: TabletId,
        schema_hash: SchemaHash,
    )
        ensures
            !registry.remove((tablet_id, schema_hash)).contains_key((tablet_id, schema_hash)),
    {
    }

    /// Every tablet of a well-formed registry is well-formed.
    pub proof fn lemma_wf_tablets(&self, tablet_id: TabletId, schema_hash: SchemaHash)
        requires
            self.wf(),
            self@.contains_key((tablet_id, schema_hash)),
        ensures
            self@[(tablet_id, schema_hash)].wf(),
    {
    }

    /// A registry without tablets.
    pub fn new() -> (m: Self)
        ensures
            m.wf(),
            m@ == Map::<(TabletId, SchemaHash), TabletState>::empty(),
    {
        let mut shards: Vec<HashMap<u128, Tablet>> = Vec::new();
        let mut i: usize = 0;
        while i < NUM_SHARDS
            invariant
                i <= NUM_SHARDS,
                shards@.len() == i,
                forall|s: int| 0 <= s < i ==> (#[trigger] shards@[s])@ == Map::<
                    u128,
                    Tablet,
                >::empty(),
            decreases NUM_SHARDS - i,
        {
            shards.push(HashMap::new());
            i += 1;
        }
        let m = Self { shards };
        assert(m@ =~= Map::<(TabletId, SchemaHash), TabletState>::empty());
        m
    }

    /// Registers a new tablet with the given record, in place of any tablet
    /// registered under the same id and schema hash.
    pub fn create_tablet(&mut self, meta: TabletMeta) -> (r: Result<(), OlapError>)
        requires
            old(self).wf(),
        ensures
            final(self).wf(),
            r is Ok,
            final(self)@ == old(self)@.insert(
                (meta.tablet_id, meta.schema_hash),
                TabletState::of_meta(meta),
            ),
    {
        let tablet_id = meta.tablet_id;
        let schema_hash = meta.schema_hash;
        let key = key_of(tablet_id, schema_hash);
        let tablet = Tablet::new(meta);
        let shard = (tablet_id % 64) as usize;
        insert_into(&mut self.shards, shard, key, tablet);
        proof {
            assert forall|k: (TabletId, SchemaHash)| #[trigger]
                self@.contains_key(k) <==> old(self)@.insert(
                    (tablet_id, schema_hash),
                    TabletState::of_meta(meta),
                ).contains_key(k) by {}
            assert(self@ =~= old(self)@.insert(
                (tablet_id, schema_hash),
                TabletState::of_meta(meta),
            ));
        }
        Ok(())
    }

    /// The tablet registered under an id and a schema hash.
    ///
    /// Fails with `TabletNotFound`, carrying the id, where there is none.
    pub fn get_tablet(&self, tablet_id: TabletId, schema_hash: SchemaHash) -> (r: Result<
        &Tablet,
        OlapError,
    >)
        requires
            self.wf(),
        ensures
            self@.contains_key((tablet_id, schema_hash)) ==> r is Ok && r->Ok_0@ == self@[(
                tablet_id,
                schema_hash,
            )] && r->Ok_0@.wf(),
            !self@.contains_key((tablet_id, schema_hash)) ==> r == Err::<&Tablet, OlapError>(
                OlapError::TabletNotFound(tablet_id),
            ),
    {
        let key = key_of(tablet_id, schema_hash);
        let shard = (tablet_id % 64) as usize;
        match self.shards[shard].get(&key) {
            Some(t) => Ok(t),
            None => Err(OlapError::TabletNotFound(tablet_id)),
        }
    }

    /// Removes the tablet registered under an id and a schema hash.
    ///
    /// Fails with `TabletNotFound`, carrying the id, where there is none.
    pub fn drop_tablet(&mut self, tablet_id: TabletId, schema_hash: SchemaHash) -> (r: Result<
        (),
        OlapError,
    >)
        requires
            old(self).wf(),
        ensures
            final(self).wf(),
            final(self)@ == old(self)@.remove((tablet_id, schema_hash)),
            old(self)@.contains_key((tablet_id, schema_hash)) ==> r is Ok,
            !old(self)@.contains_key((tablet_id, schema_hash)) ==> r == Err::<(), OlapError>(
                OlapError::TabletNotFound(tablet_id),
            ),
    {
        let key = key_of(tablet_id, schema_hash);
        let shard = (tablet_id % 64) as usize;
        let removed = remove_from(&mut self.shards, shard, key);
        proof {
            assert forall|k: (TabletId, SchemaHash)| #[trigger]
                self@.contains_key(k) <==> old(self)@.remove(
                    (tablet_id, schema_hash),
                ).contains_key(k) by {}
            assert(self@ =~= old(self)@.remove((tablet_id, schema_hash)));
        }
        match removed {
            Some(_) => Ok(()),
            None => Err(OlapError::TabletNotFound(tablet_id)),
        }
    }

    /// The number of tablets in the first `upto` shards.
    closed spec fn population(&self, upto: int) -> nat
        decreases upto,
    {
        if upto <= 0 {
            0
        } else {
            self.population(upto - 1) + self.shards@[upto - 1]@.dom().len()
        }
    }

    /// The tablets of one shard, by id and schema hash.
    closed spec fn shard_tablets(&self, s: int) -> Set<(TabletId, SchemaHash)> {
        self.shards@[s]@.dom().map(
            |key: u128| ((key / 0x1_0000_0000) as u64, (key % 0x1_0000_0000) as u32),
        )
    }

    /// The tablets of the first `upto` shards, by id and schema hash.
    closed spec fn tablets_upto(&self, upto: int) -> Set<(TabletId, SchemaHash)>
        decreases upto,
    {
        if upto <= 0 {
            Set::<(TabletId, SchemaHash)>::empty()
        } else {
            self.tablets_upto(upto - 1) + self.shard_tablets(upto - 1)
        }
    }

    proof fn lemma_shard_tablets(&self, s: int)
        requires
            self.wf(),
            0 <= s < NUM_SHARDS,
        ensures
            self.shard_tablets(s).finite(),
            self.shard_tablets(s).len() == self.shards@[s]@.dom().len(),
            forall|k: (TabletId, SchemaHash)|
                self.shard_tablets(s).contains(k) <==> shard_of(k.0) == s && self@.contains_key(k),
    {
        let keys = self.shards@[s]@.dom();
        let g = |key: u128| ((key / 0x1_0000_0000) as u64, (key % 0x1_0000_0000) as u32);
        assert(vstd::relations::injective_on(g, keys)) by {
            assert forall|a: u128, b: u128|
                keys.contains(a) && keys.contains(b) && #[trigger] g(a) == #[trigger] g(
                    b,
                ) implies a == b by {
                assert(self.shards@[s]@.contains_key(a));
                assert(self.shards@[s]@.contains_key(b));
            }
        }
        vstd::set_lib::lemma_map_size(keys, self.shard_tablets(s), g);
        assert forall|k: (TabletId, SchemaHash)|
            self.shard_tablets(s).contains(k) <==> shard_of(k.0) == s && self@.contains_key(
                k,
            ) by {
            if self.shard_tablets(s).contains(k) {
                let key = choose|key: u128| keys.contains(key) && g(key) == k;
                assert(self.shards@[s]@.contains_key(key));
                assert(tablet_key(k.0, k.1) == key);
            }
            if shard_of(k.0) == s && self@.contains_key(k) {
                let key = tablet_key(k.0, k.1);
                assert(keys.contains(key));
                assert(g(key) == k);
            }
        }
    }

    proof fn lemma_tablets_upto(&self, upto: int)
        requires
            self.wf(),
            0 <= upto <= NUM_SHARDS,
        ensures
            self.tablets_upto(upto).finite(),
            self.tablets_upto(upto).len() == self.population(upto),
            forall|k: (TabletId, SchemaHash)|
                self.tablets_upto(upto).contains(k) <==> shard_of(k.0) < upto
                    && self@.contains_key(k),
        decreases upto,
    {
        if upto > 0 {
            self.lemma_tablets_upto(upto - 1);
            self.lemma_shard_tablets(upto - 1);
            let before = self.tablets_upto(upto - 1);
            let shard = self.shard_tablets(upto - 1);
            assert(before.disjoint(shard));
            vstd::set_lib::lemma_set_disjoint_lens(before, shard);
            vstd::set_lib::lemma_set_union_finite_iff(before, shard);
        }
    }

    proof fn lemma_population(&self)
        requires
            self.wf(),
        ensures
            self@.dom().finite(),
            self.population(NUM_SHARDS as int) == self@.dom().len(),
    {
        self.lemma_tablets_upto(NUM_SHARDS as int);
        assert(self.tablets_upto(NUM_SHARDS as int) =~= self@.dom());
    }

    /// The number of tablets registered, or `usize::MAX` where it does not
    /// fit.
    pub fn tablet_count(&self) -> (n: usize)
        requires
            self.wf(),
        ensures
            self@.dom().finite(),
            n == (if self@.dom().len() <= usize::MAX {
                self@.dom().len()
            } else {
                usize::MAX as nat
            }),
    {
        proof {
            self.lemma_population();
        }
        let mut total: u128 = 0;
        let mut s: usize = 0;
        while s < NUM_SHARDS
            invariant
                s <= NUM_SHARDS,
                self.shards@.len() == NUM_SHARDS,
                total == self.population(s as int),
                total <= s * usize::MAX,
            decreases NUM_SHARDS - s,
        {
            let size = self.shards[s].len();
            assert(size == self.shards@[s as int]@.dom().len());
            assert((s + 1) * usize::MAX == s * usize::MAX + usize::MAX) by (nonlinear_arith);
            total = total + size as u128;
            s += 1;
        }
        if total > usize::MAX as u128 {
            usize::MAX
        } else {
            total as usize
        }
    }

    /// Whether a candidate stands for a tablet of the registry with its
    /// score.
    pub open spec fn is_candidate(&self, c: Candidate) -> bool {
        self@.contains_key((c.0, c.1)) && c.2 == self@[(c.0, c.1)].visible_count()
    }

    /// Whether a list of candidates names the tablet registered under `k`.
    pub open spec fn names(candidates: Seq<Candidate>, k: (TabletId, SchemaHash)) -> bool {
        exists|i: int|
            0 <= i < candidates.len() && (#[trigger] candidates[i]).0 == k.0 && candidates[i].1
                == k.1
    }

    /// Every tablet with its compaction score, in the order of descending
    /// scores; tablets of one score come in any order.
    pub fn collect_compaction_candidates(&self, ctype: CompactionType) -> (r: Vec<Candidate>)
        requires
            self.wf(),
        ensures
            r@.len() == self@.dom().len(),
            forall|i: int| 0 <= i < r@.len() ==> self.is_candidate(#[trigger] r@[i]),
            forall|k: (TabletId, SchemaHash)|
                self@.contains_key(k) ==> #[trigger] Self::names(r@, k),
            scores_descend(r@),
    {
        let mut result: Vec<Candidate> = Vec::new();
        let mut s: usize = 0;
        while s < NUM_SHARDS
            invariant
                s <= NUM_SHARDS,
                self.wf(),
                result@.len() == self.population(s as int),
                forall|i: int| 0 <= i < result@.len() ==> self.is_candidate(#[trigger] result@[i]),
                forall|k: (TabletId, SchemaHash)|
                    self@.contains_key(k) && shard_of(k.0) < s ==> #[trigger] Self::names(
                        result@,
                        k,
                    ),
            decreases NUM_SHARDS - s,
        {
            let ghost before = result@;
            let current = &self.shards[s];
            for entry in it: current.iter()
                invariant
                    s < NUM_SHARDS,
                    self.wf(),
                    *current == self.shards@[s as int],
                    it.seq() == spec_hash_map_iter(current).remaining(),
                    result@.len() == before.len() + it.index(),
                    before.len() <= result@.len(),
                    forall|i: int| 0 <= i < before.len() ==> result@[i] == before[i],
                    forall|i: int|
                        0 <= i < result@.len() ==> self.is_candidate(#[trigger] result@[i]),
                    forall|j: int|
                        0 <= j < it.index() ==> #[trigger] Self::names(
                            result@,
                            (
                                ((*it.seq()[j].0) / 0x1_0000_0000) as u64,
                                ((*it.seq()[j].0) % 0x1_0000_0000) as u32,
                            ),
                        ),
            {
                let key: u128 = *entry.0;
                let ghost n = it.index();
                let ghost earlier = result@;
                proof {
                    let shard = self.shards@[s as int]@;
                    assert(shard.contains_key(key) && shard[key] == *entry.1);
                }
                let tablet_id: u64 = (key / 0x1_0000_0000) as u64;
                let schema_hash: u32 = (key % 0x1_0000_0000) as u32;
                let score = entry.1.compute_compaction_score(ctype);
                assert(tablet_key(tablet_id, schema_hash) == key);
                result.push((tablet_id, schema_hash, score));
                proof {
                    assert(result@[result@.len() - 1] == (tablet_id, schema_hash, score));
                    assert forall|j: int| 0 <= j < n + 1 implies #[trigger] Self::names(
                        result@,
                        (
                            ((*it.seq()[j].0) / 0x1_0000_0000) as u64,
                            ((*it.seq()[j].0) % 0x1_0000_0000) as u32,
                        ),
                    ) by {
                        let k = (
                            ((*it.seq()[j].0) / 0x1_0000_0000) as u64,
                            ((*it.seq()[j].0) % 0x1_0000_0000) as u32,
                        );
                        if j < n {
                            assert(Self::names(earlier, k));
                            let i = choose|i: int|
                                0 <= i < earlier.len() && (#[trigger] earlier[i]).0 == k.0
                                    && earlier[i].1 == k.1;
                            assert(result@[i] == earlier[i]);
                        }
                    }
                }
            }
            proof {
                let all = spec_hash_map_iter(current).remaining();
                let shard = self.shards@[s as int]@;
                assert(result@.len() == before.len() + shard.dom().len());
                assert forall|k: (TabletId, SchemaHash)|
                    self@.contains_key(k) && shard_of(k.0) < s + 1 implies #[trigger] Self::names(
                    result@,
                    k,
                ) by {
                    if shard_of(k.0) < s {
                        assert(Self::names(before, k));
                        let i = choose|i: int|
                            0 <= i < before.len() && (#[trigger] before[i]).0 == k.0 && before[i].1
                                == k.1;
                        assert(result@[i] == before[i]);
                    } else {
                        let key = tablet_key(k.0, k.1);
                        assert(shard.contains_key(key));
                        assert(all.contains((&key, &shard[key])));
                        let j = all.index_of((&key, &shard[key]));
                        assert(*all[j].0 == key);
                        assert((key / 0x1_0000_0000) as u64 == k.0);
                        assert((key % 0x1_0000_0000) as u32 == k.1);
                    }
                }
            }
            s += 1;
        }
        let ghost unsorted = result@;
        sort_by_score(&mut result);
        proof {
            broadcast use vstd::seq_lib::group_to_multiset_ensures;

            self.lemma_population();
            assert(result@.len() == unsorted.len()) by {
                vstd::seq_lib::to_multiset_len(result@);
                vstd::seq_lib::to_multiset_len(unsorted);
            }

            assert forall|i: int| 0 <= i < result@.len() implies self.is_candidate(
                #[trigger] result@[i],
            ) by {
                assert(result@.to_multiset().contains(result@[i]));
                assert(unsorted.contains(result@[i]));
                let j = unsorted.index_of(result@[i]);
                assert(self.is_candidate(unsorted[j]));
            }
            assert forall|k: (TabletId, SchemaHash)| self@.contains_key(k) implies #[trigger] Self::names(
                result@,
                k,
            ) by {
                assert(Self::names(unsorted, k));
                let i = choose|i: int|
                    0 <= i < unsorted.len() && (#[trigger] unsorted[i]).0 == k.0 && unsorted[i].1
                        == k.1;
                assert(unsorted.to_multiset().contains(unsorted[i]));
                assert(result@.contains(unsorted[i]));
                let j = result@.index_of(unsorted[i]);
                assert(result@[j].0 == k.0 && result@[j].1 == k.1);
            }
        }
        result
    }

    /// Publishes a rowset on the tablet registered under an id and a schema
    /// hash.
    ///
    /// Fails with `TabletNotFound` where there is no such tablet, and with
    /// `VersionExists` where the tablet holds a rowset of the same id; the
    /// registry is then unchanged.
    pub fn publish_rowset(
        &mut self,
        tablet_id: TabletId,
        schema_hash: SchemaHash,
        rowset: RowsetMeta,
    ) -> (r: Result<(), OlapError>)
        requires
            old(self).wf(),
        ensures
            final(self).wf(),
            !old(self)@.contains_key((tablet_id, schema_hash)) ==> r == Err::<(), OlapError>(
                OlapError::TabletNotFound(tablet_id),
            ) && final(self)@ == old(self)@,
            old(self)@.contains_key((tablet_id, schema_hash)) && old(self)@[(
                tablet_id,
                schema_hash,
            )].rowsets.contains_key(rowset.rowset_id) ==> r == Err::<(), OlapError>(
                OlapError::VersionExists(rowset.version),
            ) && final(self)@ == old(self)@,
            old(self)@.contains_key((tablet_id, schema_hash)) && !old(self)@[(
                tablet_id,
                schema_hash,
            )].rowsets.contains_key(rowset.rowset_id) ==> r is Ok && final(self)@ == old(
                self,
            )@.insert(
                (tablet_id, schema_hash),
                old(self)@[(tablet_id, schema_hash)].published(rowset@),
            ),
    {
        let key = key_of(tablet_id, schema_hash);
        let shard = (tablet_id % 64) as usize;
        let mut tablet = match remove_from(&mut self.shards, shard, key) {
            Some(t) => t,
            None => {
                assert(self@ =~= old(self)@);
                return Err(OlapError::TabletNotFound(tablet_id));
            },
        };
        let ghost before = tablet@;
        let outcome = tablet.add_rowset(rowset);
        insert_into(&mut self.shards, shard, key, tablet);
        proof {
            let after = if outcome is Ok {
                before.published(rowset@)
            } else {
                before
            };
            assert forall|k: (TabletId, SchemaHash)| #[trigger]
                self@.contains_key(k) <==> old(self)@.insert(
                    (tablet_id, schema_hash),
                    after,
                ).contains_key(k) by {}
            assert(self@ =~= old(self)@.insert((tablet_id, schema_hash), after));
            if outcome is Err {
                assert(self@ =~= old(self)@);
            }
        }
        outcome
    }

    /// Marks a rowset stale on the tablet registered under an id and a
    /// schema hash.
    ///
    /// Fails with `TabletNotFound` where there is no such tablet.
    pub fn mark_rowset_stale(
        &mut self,
        tablet_id: TabletId,
        schema_hash: SchemaHash,
        rowset_id: RowsetId,
    ) -> (r: Result<(), OlapError>)
        requires
            old(self).wf(),
        ensures
            final(self).wf(),
            !old(self)@.contains_key((tablet_id, schema_hash)) ==> r == Err::<(), OlapError>(
                OlapError::TabletNotFound(tablet_id),
            ) && final(self)@ == old(self)@,
            old(self)@.contains_key((tablet_id, schema_hash)) ==> r is Ok && final(self)@ == old(
                self,
            )@.insert(
                (tablet_id, schema_hash),
                old(self)@[(tablet_id, schema_hash)].staled(rowset_id),
            ),
    {
        let key = key_of(tablet_id, schema_hash);
        let shard = (tablet_id % 64) as usize;
        let mut tablet = match remove_from(&mut self.shards, shard, key) {
            Some(t) => t,
            None => {
                assert(self@ =~= old(self)@);
                return Err(OlapError::TabletNotFound(tablet_id));
            },
        };
        let ghost before = tablet@;
        tablet.mark_rowset_stale(rowset_id);
        insert_into(&mut self.shards, shard, key, tablet);
        proof {
            assert forall|k: (TabletId, SchemaHash)| #[trigger]
                self@.contains_key(k) <==> old(self)@.insert(
                    (tablet_id, schema_hash),
                    before.staled(rowset_id),
                ).contains_key(k) by {}
            assert(self@ =~= old(self)@.insert(
                (tablet_id, schema_hash),
                before.staled(rowset_id),
            ));
        }
        Ok(())
    }
}

fn insert_into(shards: &mut Vec<HashMap<u128, Tablet>>, s: usize, key: u128, tablet: Tablet)
    requires
        s < old(shards)@.len(),
    ensures
        final(shards)@.len() == old(shards)@.len(),
        forall|i: int|
            0 <= i < old(shards)@.len() && i != s ==> #[trigger] final(shards)@[i] == old(
                shards,
            )@[i],
        final(shards)@[s as int]@ == old(shards)@[s as int]@.insert(key, tablet),
{
    shards[s].insert(key, tablet);
}

fn remove_from(shards: &mut Vec<HashMap<u128, Tablet>>, s: usize, key: u128) -> (r: Option<Tablet>)
    requires
        s < old(shards)@.len(),
    ensures
        final(shards)@.len() == old(shards)@.len(),
        forall|i: int|
            0 <= i < old(shards)@.len() && i != s ==> #[trigger] final(shards)@[i] == old(
                shards,
            )@[i],
        final(shards)@[s as int]@ == old(shards)@[s as int]@.remove(key),
        match r {
            Some(t) => old(shards)@[s as int]@.contains_key(key) && old(shards)@[s as int]@[key]
                == t,
            None => !old(shards)@[s as int]@.contains_key(key),
        },
{
    shards[s].remove(&key)
}

impl Default for TabletManager {
    fn default() -> (m: Self)
        ensures
            m.wf(),
            m@ == Map::<(TabletId, SchemaHash), TabletState>::empty(),
    {
        Self::new()
    }
}

} // verus!
