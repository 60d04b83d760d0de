//! The offset finder: a search for chains of pointers that lead from known
//! anchor addresses to an address holding a value of interest.

use vstd::prelude::*;
use std::collections::{HashMap, HashSet};
use crate::error::MemoryError;
use crate::tourney::{is_plausible_ptr, spec_addr, spec_is_plausible_ptr};
use crate::text::{
    chars_eq, chars_of, parse_i32, parse_usize, spec_decimal, spec_parse_i32, spec_parse_usize,
    spec_starts_with, spec_words, split_whitespace, starts_with, usize_to_string,
};

verus! {

broadcast use vstd::std_specs::hash::group_hash_axioms;

/// The finder runs only against a live Windows process; here it reports so.
pub fn run_finder() -> (r: Result<(), String>)
    ensures
        r matches Err(msg) && msg@ == "find-offset is only supported on Windows"@,
{
    Err(String::from_str("find-offset is only supported on Windows"))
}

/// The most paths a search collects before it stops looking at a level.
pub const MAX_RESULTS: usize = 12;

/// The most nodes a search carries from one level to the next.
pub const MAX_FRONTIER: usize = 20000;

/// A pointer map sorted by the value held (the first of each pair).
pub open spec fn spec_sorted_by_value(map: Seq<(usize, usize)>) -> bool {
    forall|i: int, j: int| 0 <= i <= j < map.len() ==> (#[trigger] map[i]).0 <= (#[trigger] map[j]).0
}

/// `a - b`, or 0 when `b > a`.
pub open spec fn spec_saturating_sub(a: usize, b: usize) -> usize {
    if a >= b { (a - b) as usize } else { 0 }
}

/// The paths found at `node` (reached from the target through `suffix`):
/// one per anchor at most `max_off` below it, in anchor order.
pub open spec fn spec_anchor_hits<'a>(
    anchors: Seq<(&'a str, usize)>,
    node: usize,
    suffix: Seq<usize>,
    max_off: usize,
) -> Seq<(&'a str, Seq<usize>)>
    decreases anchors.len(),
{
    if anchors.len() == 0 {
        Seq::empty()
    } else {
        let prev = spec_anchor_hits(anchors.drop_last(), node, suffix, max_off);
        let (name, a) = anchors.last();
        if node >= a && node - a <= max_off {
            prev.push((name, seq![(node - a) as usize] + suffix))
        } else {
            prev
        }
    }
}

/// The nodes that point near `node`: for each entry `(value, holder)` of the
/// map, in order, with `lo <= value <= node` and `holder` not yet visited,
/// the holder with the path extended by `node - value`; and the visited set
/// grown by those holders.
pub open spec fn spec_expand(
    map: Seq<(usize, usize)>,
    lo: usize,
    node: usize,
    suffix: Seq<usize>,
    visited: Set<usize>,
) -> (Seq<(usize, Seq<usize>)>, Set<usize>)
    decreases map.len(),
{
    if map.len() == 0 {
        (Seq::empty(), visited)
    } else {
        let (nx, vis) = spec_expand(map.drop_last(), lo, node, suffix, visited);
        let (v, h) = map.last();
        if lo <= v && v <= node && !vis.contains(h) {
            (nx.push((h, seq![(node - v) as usize] + suffix)), vis.insert(h))
        } else {
            (nx, vis)
        }
    }
}

/// Where the search of one level stands after some frontier nodes.
pub struct LevelState<'a> {
    pub results: Seq<(&'a str, Seq<usize>)>,
    pub visited: Set<usize>,
    pub next: Seq<(usize, Seq<usize>)>,
    pub stopped: bool,
}

/// The search of one level over the first `j` frontier nodes: each adds its
/// anchor hits; once there are 12 results the level stops, else the node's
/// pointers are expanded into the next frontier.
pub open spec fn spec_level_upto<'a>(
    frontier: Seq<(usize, Seq<usize>)>,
    j: nat,
    anchors: Seq<(&'a str, usize)>,
    map: Seq<(usize, usize)>,
    max_off: usize,
    visited: Set<usize>,
) -> LevelState<'a>
    decreases j,
{
    if j == 0 {
        LevelState { results: Seq::empty(), visited, next: Seq::empty(), stopped: false }
    } else {
        let s = spec_level_upto(frontier, (j - 1) as nat, anchors, map, max_off, visited);
        if s.stopped || j > frontier.len() {
            s
        } else {
            let (node, suffix) = frontier[j - 1];
            let res = s.results + spec_anchor_hits(anchors, node, suffix, max_off);
            if res.len() >= MAX_RESULTS {
                LevelState { results: res, stopped: true, ..s }
            } else {
                let (nx, vis) = spec_expand(
                    map,
                    spec_saturating_sub(node, max_off),
                    node,
                    suffix,
                    s.visited,
                );
                LevelState { results: res, visited: vis, next: s.next + nx, stopped: false }
            }
        }
    }
}

/// The search from `frontier` at `level`: the first level that finds paths
/// gives them; an empty next frontier, or the last level, gives none. At
/// most 20000 nodes go on to the next level.
pub open spec fn spec_search<'a>(
    frontier: Seq<(usize, Seq<usize>)>,
    level: nat,
    anchors: Seq<(&'a str, usize)>,
    map: Seq<(usize, usize)>,
    max_depth: nat,
    max_off: usize,
    visited: Set<usize>,
) -> Seq<(&'a str, Seq<usize>)>
    decreases max_depth - level,
{
    let st = spec_level_upto(frontier, frontier.len(), anchors, map, max_off, visited);
    if st.results.len() > 0 || level >= max_depth {
        st.results
    } else {
        let next = if st.next.len() > MAX_FRONTIER { st.next.take(MAX_FRONTIER as int) } else { st.next };
        if next.len() == 0 {
            st.results
        } else {
            spec_search(next, level + 1, anchors, map, max_depth, max_off, st.visited)
        }
    }
}

/// The paths that `finder_pointer_paths` finds.
pub open spec fn spec_pointer_paths<'a>(
    map: Seq<(usize, usize)>,
    anchors: Seq<(&'a str, usize)>,
    target: usize,
    max_depth: usize,
    max_off: usize,
) -> Seq<(&'a str, Seq<usize>)> {
    spec_search(seq![(target, Seq::<usize>::empty())], 0, anchors, map, max_depth as nat, max_off, Set::empty())
}

/// The first index of the sorted `map` whose value is at least `lo`.
fn first_at_least(map: &[(usize, usize)], lo: usize) -> (r: usize)
    requires
        spec_sorted_by_value(map@),
    ensures
        r <= map@.len(),
        forall|k: int| 0 <= k < r ==> (#[trigger] map@[k]).0 < lo,
        forall|k: int| r <= k < map@.len() ==> (#[trigger] map@[k]).0 >= lo,
{
    let mut lo_i: usize = 0;
    let mut hi_i: usize = map.len();
    while lo_i < hi_i
        invariant
            spec_sorted_by_value(map@),
            lo_i <= hi_i <= map@.len(),
            forall|k: int| 0 <= k < lo_i ==> (#[trigger] map@[k]).0 < lo,
            forall|k: int| hi_i <= k < map@.len() ==> (#[trigger] map@[k]).0 >= lo,
        decreases hi_i - lo_i,
    {
        let mid = lo_i + (hi_i - lo_i) / 2;
        if map[mid].0 < lo {
            assert forall|k: int| 0 <= k < mid + 1 implies (#[trigger] map@[k]).0 < lo by {
                if k < mid {
                    assert(map@[k].0 <= map@[mid as int].0);
                }
            }
            lo_i = mid + 1;
        } else {
            assert forall|k: int| mid <= k < map@.len() implies (#[trigger] map@[k]).0 >= lo by {
                if k > mid {
                    assert(map@[mid as int].0 <= map@[k].0);
                }
            }
            hi_i = mid;
        }
    }
    lo_i
}

/// `first` followed by `rest`.
fn prepend(first: usize, rest: &Vec<usize>) -> (r: Vec<usize>)
    ensures
        r@ == seq![first] + rest@,
{
    let mut r: Vec<usize> = Vec::new();
    r.push(first);
    let mut i: usize = 0;
    while i < rest.len()
        invariant
            i <= rest@.len(),
            r@ == seq![first] + rest@.take(i as int),
        decreases rest.len() - i,
    {
        r.push(rest[i]);
        assert(r@ =~= seq![first] + rest@.take(i + 1));
        i = i + 1;
    }
    assert(rest@.take(i as int) =~= rest@);
    r
}

/// The abstract view of a list of (node, path) pairs.
pub open spec fn spec_nodes_view(v: Seq<(usize, Vec<usize>)>) -> Seq<(usize, Seq<usize>)> {
    v.map_values(|p: (usize, Vec<usize>)| (p.0, p.1@))
}

/// The abstract view of a list of (anchor name, path) pairs.
pub open spec fn spec_paths_view<'a>(v: Seq<(&'a str, Vec<usize>)>) -> Seq<(&'a str, Seq<usize>)> {
    v.map_values(|p: (&'a str, Vec<usize>)| (p.0, p.1@))
}

/// Appending entries that lie outside `[lo, node]` leaves an expansion as it is.
proof fn lemma_expand_skip(
    map: Seq<(usize, usize)>,
    k1: int,
    k2: int,
    lo: usize,
    node: usize,
    suffix: Seq<usize>,
    visited: Set<usize>,
)
    requires
        0 <= k1 <= k2 <= map.len(),
        forall|k: int| k1 <= k < k2 ==> !(lo <= (#[trigger] map[k]).0 && map[k].0 <= node),
    ensures
        spec_expand(map.take(k2), lo, node, suffix, visited) == spec_expand(map.take(k1), lo, node, suffix, visited),
    decreases k2 - k1,
{
    if k2 > k1 {
        assert(map.take(k2).drop_last() =~= map.take(k2 - 1));
        lemma_expand_skip(map, k1, k2 - 1, lo, node, suffix, visited);
    }
}

/// The anchor hits of one node.
fn anchor_hits<'a>(
    anchors: &[(&'a str, usize)],
    node: usize,
    suffix: &Vec<usize>,
    max_off: usize,
    results: &mut Vec<(&'a str, Vec<usize>)>,
)
    ensures
        spec_paths_view(final(results)@) == spec_paths_view(old(results)@) + spec_anchor_hits(
            anchors@,
            node,
            suffix@,
            max_off,
        ),
{
    let mut i: usize = 0;
    while i < anchors.len()
        invariant
            i <= anchors@.len(),
            spec_paths_view(results@) == spec_paths_view(old(results)@) + spec_anchor_hits(
                anchors@.take(i as int),
                node,
                suffix@,
                max_off,
            ),
        decreases anchors.len() - i,
    {
        let (name, a) = anchors[i];
        assert(anchors@.take(i + 1).drop_last() =~= anchors@.take(i as int));
        if node >= a && node - a <= max_off {
            let offs = prepend(node - a, suffix);
            let ghost before = results@;
            results.push((name, offs));
            assert(spec_paths_view(results@) =~= spec_paths_view(before).push((name, offs@)));
        }
        i = i + 1;
    }
    assert(anchors@.take(anchors@.len() as int) =~= anchors@);
}

/// Expands one node into `next`, marking the holders it reaches as visited.
fn expand(
    map: &[(usize, usize)],
    node: usize,
    suffix: &Vec<usize>,
    max_off: usize,
    visited: &mut HashSet<usize>,
    next: &mut Vec<(usize, Vec<usize>)>,
)
    requires
        spec_sorted_by_value(map@),
    ensures
        ({
            let (nx, vis) = spec_expand(map@, spec_saturating_sub(node, max_off), node, suffix@, old(visited)@);
            &&& spec_nodes_view(final(next)@) == spec_nodes_view(old(next)@) + nx
            &&& final(visited)@ == vis
        }),
{
    let lo = node.saturating_sub(max_off);
    let start = first_at_least(map, lo);
    proof {
        lemma_expand_skip(map@, 0, start as int, lo, node, suffix@, old(visited)@);
        assert(map@.take(0) =~= Seq::<(usize, usize)>::empty());
    }
    let mut k: usize = start;
    while k < map.len()
        invariant
            spec_sorted_by_value(map@),
            start <= k <= map@.len(),
            lo == spec_saturating_sub(node, max_off),
            forall|q: int| start <= q < map@.len() ==> (#[trigger] map@[q]).0 >= lo,
            ({
                let (nx, vis) = spec_expand(map@.take(k as int), lo, node, suffix@, old(visited)@);
                &&& spec_nodes_view(next@) == spec_nodes_view(old(next)@) + nx
                &&& visited@ == vis
            }),
        decreases map.len() - k,
    {
        let (value, holder) = map[k];
        if value > node {
            proof {
                assert forall|q: int| k <= q < map@.len() implies !(lo <= (#[trigger] map@[q]).0 && map@[q].0 <= node) by {
                    assert(map@[k as int].0 <= map@[q].0);
                }
                lemma_expand_skip(map@, k as int, map@.len() as int, lo, node, suffix@, old(visited)@);
                assert(map@.take(map@.len() as int) =~= map@);
            }
            return;
        }
        assert(map@.take(k + 1).drop_last() =~= map@.take(k as int));
        if visited.insert(holder) {
            let offs = prepend(node - value, suffix);
            let ghost before = next@;
            next.push((holder, offs));
            assert(spec_nodes_view(next@) =~= spec_nodes_view(before).push((holder, offs@)));
        }
        k = k + 1;
    }
    assert(map@.take(map@.len() as int) =~= map@);
}

/// Once a level has stopped, later frontier nodes change nothing.
proof fn lemma_level_stopped<'a>(
    frontier: Seq<(usize, Seq<usize>)>,
    j: nat,
    n: nat,
    anchors: Seq<(&'a str, usize)>,
    map: Seq<(usize, usize)>,
    max_off: usize,
    visited: Set<usize>,
)
    requires
        j <= n,
        spec_level_upto(frontier, j, anchors, map, max_off, visited).stopped,
    ensures
        spec_level_upto(frontier, n, anchors, map, max_off, visited) == spec_level_upto(
            frontier,
            j,
            anchors,
            map,
            max_off,
            visited,
        ),
    decreases n - j,
{
    if n > j {
        lemma_level_stopped(frontier, j, (n - 1) as nat, anchors, map, max_off, visited);
    }
}

/// Searches, level by level from `target`, for chains of pointers that end
/// at an anchor: a node within `max_off` above an anchor gives a path; else
/// the map entries `(value, holder)` with `value` at most `max_off` below the
/// node lead to the holders not seen before. The search stops at the first
/// level with paths (looking at no more nodes once it has 12), after
/// `max_depth` levels, or when no node is left; at most 20000 nodes go on to
/// each next level. `map` is sorted by value.
pub fn finder_pointer_paths<'a>(
    map: &[(usize, usize)],
    anchors: &[(&'a str, usize)],
    target: usize,
    max_depth: usize,
    max_off: usize,
) -> (r: Vec<(&'a str, Vec<usize>)>)
    requires
        spec_sorted_by_value(map@),
    ensures
        spec_paths_view(r@) == spec_pointer_paths(map@, anchors@, target, max_depth, max_off),
{
    let mut results: Vec<(&'a str, Vec<usize>)> = Vec::new();
    let mut visited: HashSet<usize> = HashSet::new();
    let mut frontier: Vec<(usize, Vec<usize>)> = Vec::new();
    frontier.push((target, Vec::new()));
    let mut level: usize = 0;
    assert(spec_nodes_view(frontier@) =~= seq![(target, Seq::<usize>::empty())]);
    loop
        invariant
            spec_sorted_by_value(map@),
            level <= max_depth,
            results@.len() == 0,
            spec_pointer_paths(map@, anchors@, target, max_depth, max_off) == spec_search(
                spec_nodes_view(frontier@),
                level as nat,
                anchors@,
                map@,
                max_depth as nat,
                max_off,
                visited@,
            ),
        decreases max_depth - level,
    {
        let ghost gf = spec_nodes_view(frontier@);
        let ghost vis0 = visited@;
        let mut next: Vec<(usize, Vec<usize>)> = Vec::new();
        let mut stopped = false;
        let mut j: usize = 0;
        while j < frontier.len() && !stopped
            invariant
                spec_sorted_by_value(map@),
                gf == spec_nodes_view(frontier@),
                j <= frontier@.len(),
                ({
                    let s = spec_level_upto(gf, j as nat, anchors@, map@, max_off, vis0);
                    &&& spec_paths_view(results@) == s.results
                    &&& visited@ == s.visited
                    &&& spec_nodes_view(next@) == s.next
                    &&& stopped == s.stopped
                }),
            decreases frontier.len() - j,
        {
            let node = frontier[j].0;
            anchor_hits(anchors, node, &frontier[j].1, max_off, &mut results);
            if results.len() >= MAX_RESULTS {
                stopped = true;
            } else {
                expand(map, node, &frontier[j].1, max_off, &mut visited, &mut next);
            }
            j = j + 1;
        }
        proof {
            if stopped {
                lemma_level_stopped(gf, j as nat, gf.len(), anchors@, map@, max_off, vis0);
            }
        }
        if results.len() > 0 || level >= max_depth {
            return results;
        }
        if next.len() > MAX_FRONTIER {
            next.truncate(MAX_FRONTIER);
            assert(spec_nodes_view(next@) =~= spec_level_upto(gf, gf.len(), anchors@, map@, max_off, vis0).next.take(MAX_FRONTIER as int));
        }
        if next.len() == 0 {
            return results;
        }
        frontier = next;
        level = level + 1;
    }
}

/// Whether following `path` from `node` ends at `target`: with no offsets
/// left, `node` is the target; else some map entry has `node` as holder,
/// and its value plus the first offset continues the chain.
pub open spec fn spec_reaches(map: Seq<(usize, usize)>, node: int, path: Seq<usize>, target: usize) -> bool
    decreases path.len(),
{
    if path.len() == 0 {
        node == target
    } else {
        exists|k: int|
            0 <= k < map.len() && (#[trigger] map[k]).1 == node && spec_reaches(
                map,
                map[k].0 + path[0],
                path.drop_first(),
                target,
            )
    }
}

/// Whether every offset of `path` is at most `max_off`.
pub open spec fn spec_offsets_within(path: Seq<usize>, max_off: usize) -> bool {
    forall|i: int| 0 <= i < path.len() ==> #[trigger] path[i] <= max_off
}

/// Whether a frontier node can reach the target through its path.
pub open spec fn spec_node_sound(map: Seq<(usize, usize)>, e: (usize, Seq<usize>), target: usize, max_off: usize, len: nat) -> bool {
    spec_reaches(map, e.0 as int, e.1, target) && spec_offsets_within(e.1, max_off) && e.1.len() == len
}

/// Whether a path found from an anchor is a real pointer chain: the anchor
/// is one of `anchors` under that name, the anchor plus the first offset is
/// a node from which the other offsets lead to the target, and every offset
/// is at most `max_off`.
pub open spec fn spec_path_sound<'a>(
    map: Seq<(usize, usize)>,
    anchors: Seq<(&'a str, usize)>,
    p: (&'a str, Seq<usize>),
    target: usize,
    max_off: usize,
) -> bool {
    &&& p.1.len() >= 1
    &&& spec_offsets_within(p.1, max_off)
    &&& exists|j: int|
        0 <= j < anchors.len() && (#[trigger] anchors[j]).0 == p.0 && spec_reaches(
            map,
            anchors[j].1 + p.1[0],
            p.1.drop_first(),
            target,
        )
}

proof fn lemma_hits_sound<'a>(
    map: Seq<(usize, usize)>,
    anchors: Seq<(&'a str, usize)>,
    node: usize,
    suffix: Seq<usize>,
    target: usize,
    max_off: usize,
    len: nat,
)
    requires
        spec_node_sound(map, (node, suffix), target, max_off, len),
    ensures
        forall|k: int|
            0 <= k < spec_anchor_hits(anchors, node, suffix, max_off).len() ==> spec_path_sound(
                map,
                anchors,
                #[trigger] spec_anchor_hits(anchors, node, suffix, max_off)[k],
                target,
                max_off,
            ) && spec_anchor_hits(anchors, node, suffix, max_off)[k].1.len() == len + 1,
    decreases anchors.len(),
{
    if anchors.len() > 0 {
        let prev_anchors = anchors.drop_last();
        lemma_hits_sound(map, prev_anchors, node, suffix, target, max_off, len);
        let hits = spec_anchor_hits(anchors, node, suffix, max_off);
        let prev = spec_anchor_hits(prev_anchors, node, suffix, max_off);
        assert forall|k: int| 0 <= k < hits.len() implies spec_path_sound(map, anchors, #[trigger] hits[k], target, max_off)
            && hits[k].1.len() == len + 1 by {
            if k < prev.len() {
                assert(hits[k] == prev[k]);
                let j = choose|j: int|
                    0 <= j < prev_anchors.len() && (#[trigger] prev_anchors[j]).0 == prev[k].0 && spec_reaches(
                        map,
                        prev_anchors[j].1 + prev[k].1[0],
                        prev[k].1.drop_first(),
                        target,
                    );
                assert(anchors[j] == prev_anchors[j]);
            } else {
                let (name, a) = anchors.last();
                let offs = seq![(node - a) as usize] + suffix;
                assert(hits[k] == (name, offs));
                assert(offs.drop_first() =~= suffix);
                assert(anchors[anchors.len() - 1].0 == name);
                assert(spec_offsets_within(offs, max_off)) by {
                    assert forall|i: int| 0 <= i < offs.len() implies #[trigger] offs[i] <= max_off by {
                        if i > 0 {
                            assert(offs[i] == suffix[i - 1]);
                        }
                    }
                }
            }
        }
    }
}

proof fn lemma_expand_sound(
    map: Seq<(usize, usize)>,
    full: Seq<(usize, usize)>,
    node: usize,
    suffix: Seq<usize>,
    visited: Set<usize>,
    target: usize,
    max_off: usize,
    len: nat,
)
    requires
        spec_node_sound(full, (node, suffix), target, max_off, len),
        map.len() <= full.len(),
        map == full.take(map.len() as int),
    ensures
        ({
            let nx = spec_expand(map, spec_saturating_sub(node, max_off), node, suffix, visited).0;
            forall|k: int| 0 <= k < nx.len() ==> spec_node_sound(full, #[trigger] nx[k], target, max_off, len + 1)
        }),
    decreases map.len(),
{
    if map.len() > 0 {
        let lo = spec_saturating_sub(node, max_off);
        let prev_map = map.drop_last();
        assert(prev_map =~= full.take(prev_map.len() as int));
        lemma_expand_sound(prev_map, full, node, suffix, visited, target, max_off, len);
        let (pnx, pvis) = spec_expand(prev_map, lo, node, suffix, visited);
        let nx = spec_expand(map, lo, node, suffix, visited).0;
        let (v, h) = map.last();
        assert forall|k: int| 0 <= k < nx.len() implies spec_node_sound(full, #[trigger] nx[k], target, max_off, len + 1) by {
            if k < pnx.len() {
                assert(nx[k] == pnx[k]);
            } else {
                let offs = seq![(node - v) as usize] + suffix;
                assert(nx[k] == (h, offs));
                let q = map.len() - 1;
                assert(full[q] == map[q]);
                assert(offs.drop_first() =~= suffix);
                assert(full[q].0 + offs[0] == node);
                assert(spec_reaches(full, h as int, offs, target));
                assert forall|i: int| 0 <= i < offs.len() implies #[trigger] offs[i] <= max_off by {
                    if i > 0 {
                        assert(offs[i] == suffix[i - 1]);
                    }
                }
            }
        }
    }
}

proof fn lemma_level_sound<'a>(
    frontier: Seq<(usize, Seq<usize>)>,
    j: nat,
    anchors: Seq<(&'a str, usize)>,
    map: Seq<(usize, usize)>,
    max_off: usize,
    visited: Set<usize>,
    target: usize,
    len: nat,
)
    requires
        forall|k: int| 0 <= k < frontier.len() ==> spec_node_sound(map, #[trigger] frontier[k], target, max_off, len),
    ensures
        ({
            let s = spec_level_upto(frontier, j, anchors, map, max_off, visited);
            &&& forall|k: int| 0 <= k < s.results.len() ==> spec_path_sound(map, anchors, #[trigger] s.results[k], target, max_off)
                && s.results[k].1.len() == len + 1
            &&& forall|k: int| 0 <= k < s.next.len() ==> spec_node_sound(map, #[trigger] s.next[k], target, max_off, len + 1)
        }),
    decreases j,
{
    if j > 0 {
        lemma_level_sound(frontier, (j - 1) as nat, anchors, map, max_off, visited, target, len);
        let s0 = spec_level_upto(frontier, (j - 1) as nat, anchors, map, max_off, visited);
        if !s0.stopped && j <= frontier.len() {
            let (node, suffix) = frontier[j - 1];
            assert(spec_node_sound(map, frontier[j - 1], target, max_off, len));
            lemma_hits_sound(map, anchors, node, suffix, target, max_off, len);
            let hits = spec_anchor_hits(anchors, node, suffix, max_off);
            let res = s0.results + hits;
            assert forall|k: int| 0 <= k < res.len() implies spec_path_sound(map, anchors, #[trigger] res[k], target, max_off)
                && res[k].1.len() == len + 1 by {
                if k < s0.results.len() {
                    assert(res[k] == s0.results[k]);
                } else {
                    assert(res[k] == hits[k - s0.results.len()]);
                }
            }
            if res.len() < MAX_RESULTS {
                assert(map =~= map.take(map.len() as int));
                lemma_expand_sound(map, map, node, suffix, s0.visited, target, max_off, len);
                let nx = spec_expand(map, spec_saturating_sub(node, max_off), node, suffix, s0.visited).0;
                let next = s0.next + nx;
                assert forall|k: int| 0 <= k < next.len() implies spec_node_sound(map, #[trigger] next[k], target, max_off, len + 1) by {
                    if k < s0.next.len() {
                        assert(next[k] == s0.next[k]);
                    } else {
                        assert(next[k] == nx[k - s0.next.len()]);
                    }
                }
            }
        }
    }
}

proof fn lemma_search_sound<'a>(
    frontier: Seq<(usize, Seq<usize>)>,
    level: nat,
    anchors: Seq<(&'a str, usize)>,
    map: Seq<(usize, usize)>,
    max_depth: nat,
    max_off: usize,
    visited: Set<usize>,
    target: usize,
)
    requires
        forall|k: int| 0 <= k < frontier.len() ==> spec_node_sound(map, #[trigger] frontier[k], target, max_off, level),
    ensures
        ({
            let r = spec_search(frontier, level, anchors, map, max_depth, max_off, visited);
            forall|k: int| 0 <= k < r.len() ==> spec_path_sound(map, anchors, #[trigger] r[k], target, max_off)
                && r[k].1.len() <= if level > max_depth { level + 1 } else { max_depth + 1 }
        }),
    decreases max_depth - level,
{
    lemma_level_sound(frontier, frontier.len(), anchors, map, max_off, visited, target, level);
    let st = spec_level_upto(frontier, frontier.len(), anchors, map, max_off, visited);
    let r = spec_search(frontier, level, anchors, map, max_depth, max_off, visited);
    if !(st.results.len() > 0 || level >= max_depth) {
        let next = if st.next.len() > MAX_FRONTIER { st.next.take(MAX_FRONTIER as int) } else { st.next };
        if next.len() > 0 {
            assert forall|k: int| 0 <= k < next.len() implies spec_node_sound(map, #[trigger] next[k], target, max_off, level + 1) by {
                assert(next[k] == st.next[k]);
            }
            lemma_search_sound(next, level + 1, anchors, map, max_depth, max_off, st.visited, target);
            assert(r == spec_search(next, level + 1, anchors, map, max_depth, max_off, st.visited));
        } else {
            assert(r == st.results);
        }
    } else {
        assert(r == st.results);
        assert forall|k: int| 0 <= k < r.len() implies spec_path_sound(map, anchors, #[trigger] r[k], target, max_off)
            && r[k].1.len() <= if level > max_depth { level + 1 } else { max_depth + 1 } by {
            assert(r[k].1.len() == level + 1);
        }
    }
}

/// Every path that the pointer search finds is a real chain: it starts at
/// one of the anchors under that anchor's name, each offset is at most
/// `max_off`, following it through the pointer map ends at the target, and
/// it has at most `max_depth + 1` offsets.
pub proof fn lemma_pointer_paths_sound<'a>(
    map: Seq<(usize, usize)>,
    anchors: Seq<(&'a str, usize)>,
    target: usize,
    max_depth: usize,
    max_off: usize,
)
    ensures
        ({
            let r = spec_pointer_paths(map, anchors, target, max_depth, max_off);
            forall|k: int| 0 <= k < r.len() ==> spec_path_sound(map, anchors, #[trigger] r[k], target, max_off)
                && r[k].1.len() <= max_depth + 1
        }),
{
    let f = seq![(target, Seq::<usize>::empty())];
    assert(spec_node_sound(map, f[0], target, max_off, 0));
    lemma_search_sound(f, 0, anchors, map, max_depth as nat, max_off, Set::empty(), target);
}

/// Whether some node of `f` is `x`.
spec fn spec_in_front(f: Seq<(usize, Seq<usize>)>, x: int) -> bool {
    exists|i: int| 0 <= i < f.len() && (#[trigger] f[i]).0 as int == x
}

/// Whether some entry of the map has holder `h`.
spec fn spec_map_holds(map: Seq<(usize, usize)>, h: usize) -> bool {
    exists|k: int| 0 <= k < map.len() && (#[trigger] map[k]).1 == h
}

/// The facts of one expansion: the visited set grows by exactly the new
/// nodes, which are distinct holders of the map not visited before, and
/// every holder of an entry in range is visited afterwards.
proof fn lemma_expand_closure(
    map: Seq<(usize, usize)>,
    lo: usize,
    node: usize,
    suffix: Seq<usize>,
    vis: Set<usize>,
)
    ensures
        ({
            let (nx, v2) = spec_expand(map, lo, node, suffix, vis);
            &&& forall|x: usize| #[trigger] v2.contains(x) <==> vis.contains(x) || spec_in_front(nx, x as int)
            &&& forall|i: int, i2: int| 0 <= i < i2 < nx.len() ==> (#[trigger] nx[i]).0 != (#[trigger] nx[i2]).0
            &&& forall|i: int| 0 <= i < nx.len() ==> !vis.contains(#[trigger] nx[i].0)
            &&& forall|i: int| 0 <= i < nx.len() ==> spec_map_holds(map, #[trigger] nx[i].0)
            &&& forall|k: int| 0 <= k < map.len() && lo <= (#[trigger] map[k]).0 <= node ==> v2.contains(map[k].1)
        }),
    decreases map.len(),
{
    if map.len() > 0 {
        let pm = map.drop_last();
        lemma_expand_closure(pm, lo, node, suffix, vis);
        let (pnx, pv) = spec_expand(pm, lo, node, suffix, vis);
        let (nx, v2) = spec_expand(map, lo, node, suffix, vis);
        let (v, h) = map.last();
        assert(map[map.len() - 1] == map.last());
        assert forall|i: int| 0 <= i < pnx.len() implies spec_map_holds(map, #[trigger] pnx[i].0) by {
            let k = choose|k: int| 0 <= k < pm.len() && (#[trigger] pm[k]).1 == pnx[i].0;
            assert(map[k] == pm[k]);
        }
        if lo <= v && v <= node && !pv.contains(h) {
            let e = (h, seq![(node - v) as usize] + suffix);
            assert(nx == pnx.push(e));
            assert forall|x: usize| #[trigger] v2.contains(x) <==> vis.contains(x) || spec_in_front(nx, x as int) by {
                if spec_in_front(pnx, x as int) {
                    let i = choose|i: int| 0 <= i < pnx.len() && (#[trigger] pnx[i]).0 as int == x as int;
                    assert(nx[i] == pnx[i]);
                }
                if spec_in_front(nx, x as int) && x != h {
                    let i = choose|i: int| 0 <= i < nx.len() && (#[trigger] nx[i]).0 as int == x as int;
                    assert(i < pnx.len());
                    assert(nx[i] == pnx[i]);
                }
                if x == h {
                    assert(nx[pnx.len() as int] == e);
                }
            }
            assert forall|i: int, i2: int| 0 <= i < i2 < nx.len() implies (#[trigger] nx[i]).0 != (#[trigger] nx[i2]).0 by {
                assert(nx[i] == pnx[i]);
                if i2 < pnx.len() {
                    assert(nx[i2] == pnx[i2]);
                } else {
                    assert(pv.contains(pnx[i].0));
                }
            }
            assert forall|i: int| 0 <= i < nx.len() implies !vis.contains(#[trigger] nx[i].0) by {
                if i < pnx.len() {
                    assert(nx[i] == pnx[i]);
                }
            }
            assert forall|i: int| 0 <= i < nx.len() implies spec_map_holds(map, #[trigger] nx[i].0) by {
                if i < pnx.len() {
                    assert(nx[i] == pnx[i]);
                } else {
                    assert(map[map.len() - 1].1 == nx[i].0);
                }
            }
            assert forall|k: int| 0 <= k < map.len() && lo <= (#[trigger] map[k]).0 <= node implies v2.contains(map[k].1) by {
                if k < pm.len() {
                    assert(map[k] == pm[k]);
                }
            }
        } else {
            assert forall|k: int| 0 <= k < map.len() && lo <= (#[trigger] map[k]).0 <= node implies v2.contains(map[k].1) by {
                if k < pm.len() {
                    assert(map[k] == pm[k]);
                }
            }
        }
    }
}

/// The facts of a level that found nothing over its first `j` nodes: none
/// of them had an anchor hit, every holder in range of one of them is
/// visited, and the visited set grew by exactly the next frontier, whose
/// nodes are distinct holders of the map not visited before.
proof fn lemma_level_closure<'a>(
    frontier: Seq<(usize, Seq<usize>)>,
    j: nat,
    anchors: Seq<(&'a str, usize)>,
    map: Seq<(usize, usize)>,
    max_off: usize,
    visited: Set<usize>,
)
    requires
        j <= frontier.len(),
        spec_level_upto(frontier, j, anchors, map, max_off, visited).results.len() == 0,
    ensures
        ({
            let s = spec_level_upto(frontier, j, anchors, map, max_off, visited);
            &&& !s.stopped
            &&& forall|i: int| 0 <= i < j ==> (#[trigger] spec_anchor_hits(anchors, frontier[i].0, frontier[i].1, max_off)).len() == 0
            &&& forall|i: int, k: int|
                0 <= i < j && 0 <= k < map.len() && spec_saturating_sub(frontier[i].0, max_off) <= (#[trigger] map[k]).0
                    <= (#[trigger] frontier[i]).0 ==> s.visited.contains(map[k].1)
            &&& forall|x: usize| #[trigger] s.visited.contains(x) <==> visited.contains(x) || spec_in_front(s.next, x as int)
            &&& forall|i: int, i2: int| 0 <= i < i2 < s.next.len() ==> (#[trigger] s.next[i]).0 != (#[trigger] s.next[i2]).0
            &&& forall|i: int| 0 <= i < s.next.len() ==> !visited.contains(#[trigger] s.next[i].0)
            &&& forall|i: int| 0 <= i < s.next.len() ==> spec_map_holds(map, #[trigger] s.next[i].0)
        }),
    decreases j,
{
    if j > 0 {
        let s0 = spec_level_upto(frontier, (j - 1) as nat, anchors, map, max_off, visited);
        let s = spec_level_upto(frontier, j, anchors, map, max_off, visited);
        assert(s0.stopped || s0.results.len() <= s.results.len());
        lemma_level_closure(frontier, (j - 1) as nat, anchors, map, max_off, visited);
        let (node, suffix) = frontier[j - 1];
        let hits = spec_anchor_hits(anchors, node, suffix, max_off);
        let res = s0.results + hits;
        assert(res.len() == 0);
        let lo = spec_saturating_sub(node, max_off);
        lemma_expand_closure(map, lo, node, suffix, s0.visited);
        let (nx, vis) = spec_expand(map, lo, node, suffix, s0.visited);
        assert(s.visited == vis && s.next == s0.next + nx);
        let next = s.next;
        assert forall|x: usize| #[trigger] s.visited.contains(x) <==> visited.contains(x) || spec_in_front(next, x as int) by {
            if spec_in_front(s0.next, x as int) {
                let i = choose|i: int| 0 <= i < s0.next.len() && (#[trigger] s0.next[i]).0 as int == x as int;
                assert(next[i] == s0.next[i]);
            }
            if spec_in_front(nx, x as int) {
                let i = choose|i: int| 0 <= i < nx.len() && (#[trigger] nx[i]).0 as int == x as int;
                assert(next[s0.next.len() + i] == nx[i]);
            }
            if spec_in_front(next, x as int) {
                let i = choose|i: int| 0 <= i < next.len() && (#[trigger] next[i]).0 as int == x as int;
                if i < s0.next.len() {
                    assert(next[i] == s0.next[i]);
                    assert(spec_in_front(s0.next, x as int));
                } else {
                    assert(next[i] == nx[i - s0.next.len()]);
                    assert(spec_in_front(nx, x as int));
                }
            }
        }
        assert forall|i: int, i2: int| 0 <= i < i2 < next.len() implies (#[trigger] next[i]).0 != (#[trigger] next[i2]).0 by {
            if i2 < s0.next.len() {
                assert(next[i] == s0.next[i]);
                assert(next[i2] == s0.next[i2]);
            } else if i < s0.next.len() {
                assert(next[i] == s0.next[i]);
                assert(next[i2] == nx[i2 - s0.next.len()]);
                assert(s0.visited.contains(s0.next[i].0));
            } else {
                assert(next[i] == nx[i - s0.next.len()]);
                assert(next[i2] == nx[i2 - s0.next.len()]);
            }
        }
        assert forall|i: int| 0 <= i < next.len() implies !visited.contains(#[trigger] next[i].0)
            && spec_map_holds(map, next[i].0) by {
            if i < s0.next.len() {
                assert(next[i] == s0.next[i]);
            } else {
                assert(next[i] == nx[i - s0.next.len()]);
                assert(!s0.visited.contains(nx[i - s0.next.len()].0));
            }
        }
        assert forall|i: int| 0 <= i < j implies (#[trigger] spec_anchor_hits(anchors, frontier[i].0, frontier[i].1, max_off)).len() == 0 by {
            if i == j - 1 {
                assert(hits.len() == 0);
            }
        }
        assert forall|i: int, k: int|
            0 <= i < j && 0 <= k < map.len() && spec_saturating_sub(frontier[i].0, max_off) <= (#[trigger] map[k]).0
                <= (#[trigger] frontier[i]).0 implies s.visited.contains(map[k].1) by {
            if i < j - 1 {
                assert(s0.visited.contains(map[k].1));
            }
        }
    }
}

/// Whether `x` reaches the target through `d` offsets, each at most `max_off`.
spec fn spec_dist(map: Seq<(usize, usize)>, max_off: usize, target: usize, x: int, d: nat) -> bool {
    exists|q: Seq<usize>| q.len() == d && #[trigger] spec_reaches(map, x, q, target) && spec_offsets_within(q, max_off)
}

/// Whether expanding node `y` finds holder `x`: some entry held by `x` has a
/// value at most `max_off` below `y`.
spec fn spec_edge(map: Seq<(usize, usize)>, max_off: usize, y: int, x: int) -> bool {
    exists|k: int| 0 <= k < map.len() && (#[trigger] map[k]).1 as int == x && map[k].0 <= y && y - map[k].0 <= max_off
}

/// Whether some anchor lies at most `max_off` below `x`.
spec fn spec_hit<'a>(anchors: Seq<(&'a str, usize)>, max_off: usize, x: int) -> bool {
    exists|j: int| 0 <= j < anchors.len() && (#[trigger] anchors[j]).1 <= x && x - anchors[j].1 <= max_off
}

proof fn lemma_dist_zero(map: Seq<(usize, usize)>, max_off: usize, target: usize, x: int)
    requires
        spec_dist(map, max_off, target, x, 0),
    ensures
        x == target,
{
    let q = choose|q: Seq<usize>| q.len() == 0 && #[trigger] spec_reaches(map, x, q, target) && spec_offsets_within(q, max_off);
}

proof fn lemma_dist_pred(map: Seq<(usize, usize)>, max_off: usize, target: usize, x: int, d: nat) -> (y: int)
    requires
        spec_dist(map, max_off, target, x, d + 1),
    ensures
        spec_dist(map, max_off, target, y, d),
        spec_edge(map, max_off, y, x),
{
    let q = choose|q: Seq<usize>| q.len() == d + 1 && #[trigger] spec_reaches(map, x, q, target) && spec_offsets_within(q, max_off);
    let k = choose|k: int|
        0 <= k < map.len() && (#[trigger] map[k]).1 == x && spec_reaches(map, map[k].0 + q[0], q.drop_first(), target);
    let y = map[k].0 + q[0];
    let q2 = q.drop_first();
    assert(spec_offsets_within(q2, max_off)) by {
        assert forall|i: int| 0 <= i < q2.len() implies #[trigger] q2[i] <= max_off by {
            assert(q2[i] == q[i + 1]);
        }
    }
    assert(q[0] <= max_off);
    assert(spec_reaches(map, y, q2, target));
    y
}

proof fn lemma_hits_nonempty<'a>(anchors: Seq<(&'a str, usize)>, node: usize, suffix: Seq<usize>, max_off: usize)
    requires
        spec_hit(anchors, max_off, node as int),
    ensures
        spec_anchor_hits(anchors, node, suffix, max_off).len() > 0,
    decreases anchors.len(),
{
    let j = choose|j: int| 0 <= j < anchors.len() && (#[trigger] anchors[j]).1 <= node && node - anchors[j].1 <= max_off;
    if j < anchors.len() - 1 {
        let pa = anchors.drop_last();
        assert(pa[j] == anchors[j]);
        lemma_hits_nonempty(pa, node, suffix, max_off);
    }
}

/// From a set holding the target and closed under expansion, every node
/// that reaches the target is in the set.
proof fn lemma_closed_reach(map: Seq<(usize, usize)>, max_off: usize, target: usize, set: Set<int>, x: int, d: nat)
    requires
        set.contains(target as int),
        forall|y: int, z: int| set.contains(y) && #[trigger] spec_edge(map, max_off, y, z) ==> set.contains(z),
        spec_dist(map, max_off, target, x, d),
    ensures
        set.contains(x),
    decreases d,
{
    if d == 0 {
        lemma_dist_zero(map, max_off, target, x);
    } else {
        let y = lemma_dist_pred(map, max_off, target, x, (d - 1) as nat);
        lemma_closed_reach(map, max_off, target, set, y, (d - 1) as nat);
    }
}

/// A level that collected fewer than `MAX_RESULTS` paths over its first `j`
/// nodes never stopped, and holds every anchor hit of each of them.
proof fn lemma_level_collects<'a>(
    frontier: Seq<(usize, Seq<usize>)>,
    j: nat,
    anchors: Seq<(&'a str, usize)>,
    map: Seq<(usize, usize)>,
    max_off: usize,
    visited: Set<usize>,
)
    requires
        j <= frontier.len(),
        spec_level_upto(frontier, j, anchors, map, max_off, visited).results.len() < MAX_RESULTS,
    ensures
        ({
            let s = spec_level_upto(frontier, j, anchors, map, max_off, visited);
            &&& !s.stopped
            &&& forall|i: int, m: int| 0 <= i < j && 0 <= m < spec_anchor_hits(anchors, frontier[i].0, frontier[i].1, max_off).len()
                ==> s.results.contains(#[trigger] spec_anchor_hits(anchors, frontier[i].0, frontier[i].1, max_off)[m])
        }),
    decreases j,
{
    if j > 0 {
        let s0 = spec_level_upto(frontier, (j - 1) as nat, anchors, map, max_off, visited);
        let s = spec_level_upto(frontier, j, anchors, map, max_off, visited);
        assert(s0.stopped || s0.results.len() <= s.results.len());
        lemma_level_collects(frontier, (j - 1) as nat, anchors, map, max_off, visited);
        let hits = spec_anchor_hits(anchors, frontier[j - 1].0, frontier[j - 1].1, max_off);
        let res = s0.results + hits;
        assert(s.results == res);
        assert forall|i: int, m: int| 0 <= i < j && 0 <= m < spec_anchor_hits(anchors, frontier[i].0, frontier[i].1, max_off).len()
            implies s.results.contains(#[trigger] spec_anchor_hits(anchors, frontier[i].0, frontier[i].1, max_off)[m]) by {
            let e = spec_anchor_hits(anchors, frontier[i].0, frontier[i].1, max_off)[m];
            if i < j - 1 {
                assert(s0.results.contains(e));
                let q = choose|q: int| 0 <= q < s0.results.len() && s0.results[q] == e;
                assert(res[q] == e);
            } else {
                assert(res[s0.results.len() + m] == e);
            }
        }
    }
}

/// An anchor at most `max_off` below a node gives that node's hit for it.
proof fn lemma_hits_contains<'a>(anchors: Seq<(&'a str, usize)>, node: usize, suffix: Seq<usize>, max_off: usize, j: int)
    requires
        0 <= j < anchors.len(),
        anchors[j].1 <= node,
        node - anchors[j].1 <= max_off,
    ensures
        spec_anchor_hits(anchors, node, suffix, max_off).contains(
            (anchors[j].0, seq![(node - anchors[j].1) as usize] + suffix),
        ),
    decreases anchors.len(),
{
    let hits = spec_anchor_hits(anchors, node, suffix, max_off);
    let pa = anchors.drop_last();
    if j < anchors.len() - 1 {
        assert(pa[j] == anchors[j]);
        lemma_hits_contains(pa, node, suffix, max_off, j);
        let prev = spec_anchor_hits(pa, node, suffix, max_off);
        let e = (anchors[j].0, seq![(node - anchors[j].1) as usize] + suffix);
        let q = choose|q: int| 0 <= q < prev.len() && prev[q] == e;
        assert(hits[q] == e);
    } else {
        assert(anchors.last() == anchors[j]);
        let prev = spec_anchor_hits(pa, node, suffix, max_off);
        assert(hits[prev.len() as int] == (anchors[j].0, seq![(node - anchors[j].1) as usize] + suffix));
    }
}

/// A frontier of distinct holders of the map is no longer than the map.
proof fn lemma_next_bound(next: Seq<(usize, Seq<usize>)>, map: Seq<(usize, usize)>)
    requires
        forall|i: int, i2: int| 0 <= i < i2 < next.len() ==> (#[trigger] next[i]).0 != (#[trigger] next[i2]).0,
        forall|i: int| 0 <= i < next.len() ==> spec_map_holds(map, #[trigger] next[i].0),
    ensures
        next.len() <= map.len(),
{
    broadcast use vstd::seq_lib::seq_to_set_is_finite;
    let h = next.map_values(|e: (usize, Seq<usize>)| e.0);
    let mh = map.map_values(|e: (usize, usize)| e.1);
    assert(h.no_duplicates()) by {
        assert forall|i: int, i2: int| 0 <= i < h.len() && 0 <= i2 < h.len() && i != i2 implies h[i] != h[i2] by {
            if i < i2 {
                assert(next[i].0 != next[i2].0);
            } else {
                assert(next[i2].0 != next[i].0);
            }
        }
    }
    h.unique_seq_to_set();
    assert(h.to_set().subset_of(mh.to_set())) by {
        assert forall|a: usize| h.to_set().contains(a) implies mh.to_set().contains(a) by {
            assert(h.contains(a));
            let i = choose|i: int| 0 <= i < h.len() && h[i] == a;
            assert(h[i] == next[i].0);
            assert(spec_map_holds(map, next[i].0));
            let k = choose|k: int| 0 <= k < map.len() && (#[trigger] map[k]).1 == next[i].0;
            assert(mh[k] == a);
            assert(mh.contains(a));
        }
    }
    vstd::set_lib::lemma_len_subset(h.to_set(), mh.to_set());
    mh.lemma_cardinality_of_set();
}

/// The search from a level on, when every node reaching the target within
/// fewer offsets has been looked at without an anchor hit, and those nodes
/// with the frontier are closed under expansion: for every node that an
/// anchor hits and that reaches the target within the depth limit, the
/// search finds paths, none longer than the one through that node.
#[verifier::rlimit(40)]
proof fn lemma_search_complete<'a>(
    frontier: Seq<(usize, Seq<usize>)>,
    level: nat,
    anchors: Seq<(&'a str, usize)>,
    map: Seq<(usize, usize)>,
    max_depth: nat,
    max_off: usize,
    visited: Set<usize>,
    target: usize,
    done: Set<int>,
)
    requires
        map.len() <= MAX_FRONTIER,
        forall|k: int| 0 <= k < frontier.len() ==> spec_node_sound(map, #[trigger] frontier[k], target, max_off, level),
        done.contains(target as int) || spec_in_front(frontier, target as int),
        forall|y: int, x: int|
            done.contains(y) && #[trigger] spec_edge(map, max_off, y, x) ==> done.contains(x) || spec_in_front(frontier, x),
        forall|x: int, d: nat| #[trigger] spec_dist(map, max_off, target, x, d) && d < level ==> done.contains(x),
        forall|x: int| #[trigger] spec_dist(map, max_off, target, x, level) ==> done.contains(x) || spec_in_front(frontier, x),
        forall|x: usize| #[trigger] visited.contains(x) ==> done.contains(x as int) || spec_in_front(frontier, x as int),
        forall|y: int| #[trigger] done.contains(y) ==> !spec_hit(anchors, max_off, y),
    ensures
        ({
            let r = spec_search(frontier, level, anchors, map, max_depth, max_off, visited);
            &&& forall|x: int, d: nat|
                #[trigger] spec_dist(map, max_off, target, x, d) && spec_hit(anchors, max_off, x) && d <= max_depth
                    ==> r.len() > 0 && forall|k: int| 0 <= k < r.len() ==> #[trigger] r[k].1.len() <= d + 1
            &&& forall|x: int, d: nat, j: int|
                #![trigger spec_dist(map, max_off, target, x, d), anchors[j]]
                spec_dist(map, max_off, target, x, d) && 0 <= j < anchors.len() && anchors[j].1 <= x
                    && x - anchors[j].1 <= max_off && 0 < r.len() < MAX_RESULTS && r[0].1.len() == d + 1
                    ==> exists|k: int| 0 <= k < r.len() && (#[trigger] r[k]).0 == anchors[j].0 && r[k].1[0] == x - anchors[j].1
        }),
    decreases max_depth - level,
{
    let st = spec_level_upto(frontier, frontier.len(), anchors, map, max_off, visited);
    let r = spec_search(frontier, level, anchors, map, max_depth, max_off, visited);
    lemma_level_sound(frontier, frontier.len(), anchors, map, max_off, visited, target, level);
    if st.results.len() > 0 {
        assert(r == st.results);
        assert forall|x: int, d: nat, j: int|
            #![trigger spec_dist(map, max_off, target, x, d), anchors[j]]
            spec_dist(map, max_off, target, x, d) && 0 <= j < anchors.len() && anchors[j].1 <= x
                && x - anchors[j].1 <= max_off && 0 < r.len() < MAX_RESULTS && r[0].1.len() == d + 1
                implies exists|k: int| 0 <= k < r.len() && (#[trigger] r[k]).0 == anchors[j].0 && r[k].1[0] == x - anchors[j].1 by {
            assert(spec_hit(anchors, max_off, x));
            assert(r[0].1.len() == level + 1);
            if done.contains(x) {
                assert(false);
            } else {
                assert(spec_in_front(frontier, x));
                let i = choose|i: int| 0 <= i < frontier.len() && (#[trigger] frontier[i]).0 as int == x;
                lemma_level_collects(frontier, frontier.len(), anchors, map, max_off, visited);
                lemma_hits_contains(anchors, frontier[i].0, frontier[i].1, max_off, j);
                let e = (anchors[j].0, seq![(frontier[i].0 - anchors[j].1) as usize] + frontier[i].1);
                let hits = spec_anchor_hits(anchors, frontier[i].0, frontier[i].1, max_off);
                let m = choose|m: int| 0 <= m < hits.len() && hits[m] == e;
                assert(st.results.contains(hits[m]));
                let k = choose|k: int| 0 <= k < st.results.len() && st.results[k] == hits[m];
                assert(r[k].1[0] == e.1[0]);
            }
        }
        assert forall|x: int, d: nat|
            #[trigger] spec_dist(map, max_off, target, x, d) && spec_hit(anchors, max_off, x) && d <= max_depth
                implies r.len() > 0 && forall|k: int| 0 <= k < r.len() ==> #[trigger] r[k].1.len() <= d + 1 by {
            if d < level {
                assert(done.contains(x));
            }
        }
    } else {
        lemma_level_closure(frontier, frontier.len(), anchors, map, max_off, visited);
        // No node looked at so far, nor any node of this frontier, is hit.
        assert forall|x: int| (done.contains(x) || spec_in_front(frontier, x)) implies !spec_hit(anchors, max_off, x) by {
            if spec_in_front(frontier, x) && !done.contains(x) {
                let i = choose|i: int| 0 <= i < frontier.len() && (#[trigger] frontier[i]).0 as int == x;
                if spec_hit(anchors, max_off, x) {
                    lemma_hits_nonempty(anchors, frontier[i].0, frontier[i].1, max_off);
                    assert(spec_anchor_hits(anchors, frontier[i].0, frontier[i].1, max_off).len() == 0);
                }
            }
        }
        // Expanding a node of this frontier lands in the visited set.
        assert forall|y: int, x: int|
            spec_in_front(frontier, y) && #[trigger] spec_edge(map, max_off, y, x) implies st.visited.contains(x as usize)
                && 0 <= x <= usize::MAX by {
            let i = choose|i: int| 0 <= i < frontier.len() && (#[trigger] frontier[i]).0 as int == y;
            let k = choose|k: int| 0 <= k < map.len() && (#[trigger] map[k]).1 as int == x && map[k].0 <= y && y - map[k].0 <= max_off;
            assert(spec_saturating_sub(frontier[i].0, max_off) <= map[k].0 <= frontier[i].0);
        }
        if level >= max_depth {
            assert(r == st.results);
            assert forall|x: int, d: nat|
                #[trigger] spec_dist(map, max_off, target, x, d) && spec_hit(anchors, max_off, x) && d <= max_depth
                    implies r.len() > 0 && forall|k: int| 0 <= k < r.len() ==> #[trigger] r[k].1.len() <= d + 1 by {
                if d < level {
                    assert(done.contains(x));
                } else {
                    assert(d == level);
                    assert(done.contains(x) || spec_in_front(frontier, x));
                }
            }
        } else {
            lemma_next_bound(st.next, map);
            let next = st.next;
            let seen = done.union(Set::new(|x: int| spec_in_front(frontier, x)));
            if next.len() == 0 {
                assert(r == st.results);
                assert forall|y: int, z: int| seen.contains(y) && #[trigger] spec_edge(map, max_off, y, z) implies seen.contains(z) by {
                    if !done.contains(y) {
                        assert(st.visited.contains(z as usize));
                        assert(!spec_in_front(next, z));
                        assert(visited.contains(z as usize));
                    }
                }
                assert forall|x: int, d: nat|
                    #[trigger] spec_dist(map, max_off, target, x, d) && spec_hit(anchors, max_off, x) && d <= max_depth
                        implies r.len() > 0 && forall|k: int| 0 <= k < r.len() ==> #[trigger] r[k].1.len() <= d + 1 by {
                    lemma_closed_reach(map, max_off, target, seen, x, d);
                }
            } else {
                assert(r == spec_search(next, level + 1, anchors, map, max_depth, max_off, st.visited));
                assert forall|y: int, x: int|
                    seen.contains(y) && #[trigger] spec_edge(map, max_off, y, x) implies seen.contains(x) || spec_in_front(next, x) by {
                    if !done.contains(y) {
                        assert(st.visited.contains(x as usize));
                    }
                }
                assert forall|x: int, d: nat| #[trigger] spec_dist(map, max_off, target, x, d) && d < level + 1 implies seen.contains(x) by {
                    if d < level {
                        assert(done.contains(x));
                    } else {
                        assert(spec_dist(map, max_off, target, x, level));
                    }
                }
                assert forall|x: int| #[trigger] spec_dist(map, max_off, target, x, level + 1) implies seen.contains(x) || spec_in_front(next, x) by {
                    let y = lemma_dist_pred(map, max_off, target, x, level);
                    assert(spec_dist(map, max_off, target, y, level));
                    if !done.contains(y) {
                        assert(spec_in_front(frontier, y));
                        assert(st.visited.contains(x as usize));
                    }
                }
                assert forall|x: usize| #[trigger] st.visited.contains(x) implies seen.contains(x as int) || spec_in_front(next, x as int) by {
                    if visited.contains(x) {
                        assert(done.contains(x as int) || spec_in_front(frontier, x as int));
                    }
                }
                assert forall|y: int| #[trigger] seen.contains(y) implies !spec_hit(anchors, max_off, y) by {
                    assert(done.contains(y) || spec_in_front(frontier, y));
                }
                lemma_search_complete(next, level + 1, anchors, map, max_depth, max_off, st.visited, target, seen);
            }
        }
    }
}

/// The pointer search misses no shorter chain: when some anchor starts a
/// real chain of at most `max_depth + 1` offsets to the target, the search
/// finds at least one path, and every path it finds is no longer than that
/// chain. This holds when the map has at most `MAX_FRONTIER` entries, so
/// that no level is cut short; with a larger map a cut level may drop the
/// node that starts the shortest chain.
pub proof fn lemma_pointer_paths_shortest<'a>(
    map: Seq<(usize, usize)>,
    anchors: Seq<(&'a str, usize)>,
    target: usize,
    max_depth: usize,
    max_off: usize,
    p: (&'a str, Seq<usize>),
)
    requires
        map.len() <= MAX_FRONTIER,
        spec_path_sound(map, anchors, p, target, max_off),
        p.1.len() <= max_depth + 1,
    ensures
        ({
            let r = spec_pointer_paths(map, anchors, target, max_depth, max_off);
            &&& r.len() > 0
            &&& forall|k: int| 0 <= k < r.len() ==> #[trigger] r[k].1.len() <= p.1.len()
        }),
{
    let f = seq![(target, Seq::<usize>::empty())];
    let done = Set::<int>::empty();
    assert(spec_node_sound(map, f[0], target, max_off, 0));
    assert(spec_in_front(f, target as int)) by {
        assert(f[0].0 == target);
    }
    assert forall|x: int| #[trigger] spec_dist(map, max_off, target, x, 0) implies done.contains(x) || spec_in_front(f, x) by {
        lemma_dist_zero(map, max_off, target, x);
        assert(f[0].0 == target);
    }
    lemma_search_complete(f, 0, anchors, map, max_depth as nat, max_off, Set::empty(), target, done);
    let j = choose|j: int|
        0 <= j < anchors.len() && (#[trigger] anchors[j]).0 == p.0 && spec_reaches(
            map,
            anchors[j].1 + p.1[0],
            p.1.drop_first(),
            target,
        );
    let x = anchors[j].1 + p.1[0];
    let q = p.1.drop_first();
    assert(spec_offsets_within(q, max_off)) by {
        assert forall|i: int| 0 <= i < q.len() implies #[trigger] q[i] <= max_off by {
            assert(q[i] == p.1[i + 1]);
        }
    }
    assert(spec_dist(map, max_off, target, x, q.len()));
    assert(p.1[0] <= max_off);
    assert(spec_hit(anchors, max_off, x));
}

/// The level that finds paths keeps every one of them up to `MAX_RESULTS`:
/// when the search finds fewer than `MAX_RESULTS` paths, every real chain
/// to the target as long as the found paths appears among them by its
/// anchor's name and first offset (the node it starts at). Like the other
/// completeness law this holds when no level is cut short, i.e. for maps of
/// at most `MAX_FRONTIER` entries.
pub proof fn lemma_pointer_paths_keep_level<'a>(
    map: Seq<(usize, usize)>,
    anchors: Seq<(&'a str, usize)>,
    target: usize,
    max_depth: usize,
    max_off: usize,
    p: (&'a str, Seq<usize>),
)
    requires
        map.len() <= MAX_FRONTIER,
        spec_path_sound(map, anchors, p, target, max_off),
        0 < spec_pointer_paths(map, anchors, target, max_depth, max_off).len() < MAX_RESULTS,
        p.1.len() == spec_pointer_paths(map, anchors, target, max_depth, max_off)[0].1.len(),
    ensures
        ({
            let r = spec_pointer_paths(map, anchors, target, max_depth, max_off);
            exists|k: int| 0 <= k < r.len() && (#[trigger] r[k]).0 == p.0 && r[k].1[0] == p.1[0]
        }),
{
    let r = spec_pointer_paths(map, anchors, target, max_depth, max_off);
    let f = seq![(target, Seq::<usize>::empty())];
    let done = Set::<int>::empty();
    assert(spec_node_sound(map, f[0], target, max_off, 0));
    assert(spec_in_front(f, target as int)) by {
        assert(f[0].0 == target);
    }
    assert forall|x: int| #[trigger] spec_dist(map, max_off, target, x, 0) implies done.contains(x) || spec_in_front(f, x) by {
        lemma_dist_zero(map, max_off, target, x);
        assert(f[0].0 == target);
    }
    lemma_search_complete(f, 0, anchors, map, max_depth as nat, max_off, Set::empty(), target, done);
    lemma_pointer_paths_sound(map, anchors, target, max_depth, max_off);
    let j = choose|j: int|
        0 <= j < anchors.len() && (#[trigger] anchors[j]).0 == p.0 && spec_reaches(
            map,
            anchors[j].1 + p.1[0],
            p.1.drop_first(),
            target,
        );
    let x = anchors[j].1 + p.1[0];
    let q = p.1.drop_first();
    assert(spec_offsets_within(q, max_off)) by {
        assert forall|i: int| 0 <= i < q.len() implies #[trigger] q[i] <= max_off by {
            assert(q[i] == p.1[i + 1]);
        }
    }
    assert(spec_dist(map, max_off, target, x, q.len()));
    assert(p.1[0] <= max_off);
    assert(r[0].1.len() <= max_depth + 1);
    assert(anchors[j].0 == p.0);
}

/// The paths that a search finds all come from one level, so they all have
/// the same length.
proof fn lemma_search_one_level<'a>(
    frontier: Seq<(usize, Seq<usize>)>,
    level: nat,
    anchors: Seq<(&'a str, usize)>,
    map: Seq<(usize, usize)>,
    max_depth: nat,
    max_off: usize,
    visited: Set<usize>,
    target: usize,
)
    requires
        forall|k: int| 0 <= k < frontier.len() ==> spec_node_sound(map, #[trigger] frontier[k], target, max_off, level),
    ensures
        ({
            let r = spec_search(frontier, level, anchors, map, max_depth, max_off, visited);
            forall|k: int, m: int| 0 <= k < r.len() && 0 <= m < r.len() ==> (#[trigger] r[k]).1.len() == (#[trigger] r[m]).1.len()
        }),
    decreases max_depth - level,
{
    lemma_level_sound(frontier, frontier.len(), anchors, map, max_off, visited, target, level);
    let st = spec_level_upto(frontier, frontier.len(), anchors, map, max_off, visited);
    let r = spec_search(frontier, level, anchors, map, max_depth, max_off, visited);
    if !(st.results.len() > 0 || level >= max_depth) {
        let next = if st.next.len() > MAX_FRONTIER { st.next.take(MAX_FRONTIER as int) } else { st.next };
        if next.len() > 0 {
            assert forall|k: int| 0 <= k < next.len() implies spec_node_sound(map, #[trigger] next[k], target, max_off, level + 1) by {
                assert(next[k] == st.next[k]);
            }
            lemma_search_one_level(next, level + 1, anchors, map, max_depth, max_off, st.visited, target);
            assert(r == spec_search(next, level + 1, anchors, map, max_depth, max_off, st.visited));
        } else {
            assert(r == st.results);
        }
    } else {
        assert(r == st.results);
        assert forall|k: int, m: int| 0 <= k < r.len() && 0 <= m < r.len() implies (#[trigger] r[k]).1.len() == (#[trigger] r[m]).1.len() by {
            assert(r[k].1.len() == level + 1);
            assert(r[m].1.len() == level + 1);
        }
    }
}

/// All the paths that the pointer search finds have the same length: they
/// all come from the first level that finds any.
pub proof fn lemma_pointer_paths_same_length<'a>(
    map: Seq<(usize, usize)>,
    anchors: Seq<(&'a str, usize)>,
    target: usize,
    max_depth: usize,
    max_off: usize,
)
    ensures
        ({
            let r = spec_pointer_paths(map, anchors, target, max_depth, max_off);
            forall|k: int, m: int| 0 <= k < r.len() && 0 <= m < r.len() ==> (#[trigger] r[k]).1.len() == (#[trigger] r[m]).1.len()
        }),
{
    let f = seq![(target, Seq::<usize>::empty())];
    assert(spec_node_sound(map, f[0], target, max_off, 0));
    lemma_search_one_level(f, 0, anchors, map, max_depth as nat, max_off, Set::empty(), target);
}

/// What `parse_num` makes of a number typed by the user: hexadecimal after
/// a `0x` prefix, else decimal.
pub open spec fn spec_parse_num(s: Seq<char>) -> Option<usize> {
    if spec_starts_with(s, "0x"@) {
        spec_parse_usize(s.skip(2), 16)
    } else {
        spec_parse_usize(s, 10)
    }
}

/// Parses a number typed by the user: hexadecimal after a `0x` prefix,
/// else decimal.
pub fn parse_num(s: &[char]) -> (r: Option<usize>)
    ensures
        r == spec_parse_num(s@),
{
    let prefix = chars_of("0x");
    proof {
        reveal_strlit("0x");
    }
    if starts_with(s, &prefix) {
        let mut rest: Vec<char> = Vec::new();
        let mut i: usize = 2;
        while i < s.len()
            invariant
                2 <= i <= s@.len(),
                rest@ == s@.subrange(2, i as int),
            decreases s.len() - i,
        {
            rest.push(s[i]);
            assert(rest@ =~= s@.subrange(2, i + 1));
            i = i + 1;
        }
        assert(rest@ =~= s@.skip(2));
        assert(prefix@ =~= "0x"@);
        parse_usize(&rest, 16)
    } else {
        parse_usize(s, 10)
    }
}

/// A command of the interactive finder.
#[derive(Debug, Clone, Copy, PartialEq, Eq, Structural)]
pub enum FinderCommand {
    /// `q`: leave.
    Quit,
    /// An empty line.
    Nothing,
    /// `b`: take a new baseline of candidates.
    Rebaseline,
    /// `r [depth] [off]`: resolve the candidates to offset paths.
    Resolve { depth: usize, max_off: usize },
    /// A number: keep the candidates that now hold it.
    Filter(i32),
    /// Anything else.
    Unknown,
}

/// The search depth of `r` when none is given or it does not parse.
pub const DEFAULT_DEPTH: usize = 6;

/// The largest offset of `r` when none is given or it does not parse.
pub const DEFAULT_MAX_OFF: usize = 0x400;

/// What a (trimmed) command line means: `q`, empty, `b`, `r` with an
/// optional depth (decimal) and largest offset (`parse_num`), a number to
/// filter by, or nothing known.
pub open spec fn spec_finder_command(cmd: Seq<char>) -> FinderCommand {
    if cmd == "q"@ {
        FinderCommand::Quit
    } else if cmd.len() == 0 {
        FinderCommand::Nothing
    } else if cmd == "b"@ {
        FinderCommand::Rebaseline
    } else if cmd == "r"@ || spec_starts_with(cmd, "r "@) {
        let w = spec_words(cmd);
        let depth = if w.len() >= 2 {
            match spec_parse_usize(w[1], 10) {
                Some(d) => d,
                None => DEFAULT_DEPTH,
            }
        } else {
            DEFAULT_DEPTH
        };
        let max_off = if w.len() >= 3 {
            match spec_parse_num(w[2]) {
                Some(o) => o,
                None => DEFAULT_MAX_OFF,
            }
        } else {
            DEFAULT_MAX_OFF
        };
        FinderCommand::Resolve { depth, max_off }
    } else {
        match spec_parse_i32(cmd) {
            Some(t) => FinderCommand::Filter(t),
            None => FinderCommand::Unknown,
        }
    }
}

/// Reads a (trimmed) command line of the interactive finder.
pub fn parse_finder_command(cmd: &str) -> (r: FinderCommand)
    ensures
        r == spec_finder_command(cmd@),
{
    let c = chars_of(cmd);
    let q = chars_of("q");
    let b = chars_of("b");
    let r = chars_of("r");
    let rs = chars_of("r ");
    if chars_eq(&c, &q) {
        FinderCommand::Quit
    } else if c.len() == 0 {
        FinderCommand::Nothing
    } else if chars_eq(&c, &b) {
        FinderCommand::Rebaseline
    } else if chars_eq(&c, &r) || starts_with(&c, &rs) {
        let w = split_whitespace(&c);
        let depth = if w.len() >= 2 {
            match parse_usize(w[1].as_slice(), 10) {
                Some(d) => d,
                None => DEFAULT_DEPTH,
            }
        } else {
            DEFAULT_DEPTH
        };
        let max_off = if w.len() >= 3 {
            match parse_num(w[2].as_slice()) {
                Some(o) => o,
                None => DEFAULT_MAX_OFF,
            }
        } else {
            DEFAULT_MAX_OFF
        };
        FinderCommand::Resolve { depth, max_off }
    } else {
        match parse_i32(&c) {
            Some(t) => FinderCommand::Filter(t),
            None => FinderCommand::Unknown,
        }
    }
}

/// The candidates that still hold `target`: those whose current value (in
/// `current`, `None` when unreadable) is `target`, their value set to it.
pub open spec fn spec_filter_candidates(
    cands: Seq<(usize, i32)>,
    current: Seq<Option<i32>>,
    target: i32,
) -> Seq<(usize, i32)>
    decreases cands.len(),
{
    if cands.len() == 0 {
        Seq::empty()
    } else {
        let prev = spec_filter_candidates(cands.drop_last(), current, target);
        if current[cands.len() - 1] == Some(target) {
            prev.push((cands.last().0, target))
        } else {
            prev
        }
    }
}

/// Keeps the candidates whose current value (`current[i]` for `cands[i]`,
/// `None` when unreadable) is `target`, recording that value.
pub fn filter_candidates(cands: &mut Vec<(usize, i32)>, current: &[Option<i32>], target: i32)
    requires
        current@.len() == old(cands)@.len(),
    ensures
        final(cands)@ == spec_filter_candidates(old(cands)@, current@, target),
{
    let mut kept: Vec<(usize, i32)> = Vec::new();
    let mut i: usize = 0;
    while i < cands.len()
        invariant
            i <= cands@.len(),
            cands@ == old(cands)@,
            current@.len() == cands@.len(),
            kept@ == spec_filter_candidates(cands@.take(i as int), current@, target),
        decreases cands.len() - i,
    {
        assert(cands@.take(i + 1).drop_last() =~= cands@.take(i as int));
        if current[i] == Some(target) {
            kept.push((cands[i].0, target));
        }
        i = i + 1;
    }
    assert(cands@.take(i as int) =~= cands@);
    *cands = kept;
}

/// What filtering keeps: the result is the candidates whose current value is
/// the target, every one of them and no other, in their order, each with the
/// target as its value. The returned `idx` gives, for each kept candidate,
/// its index among the candidates: strictly increasing, each index holding
/// the target now, and every index that holds the target among them.
pub proof fn lemma_filter_candidates_kept(
    cands: Seq<(usize, i32)>,
    current: Seq<Option<i32>>,
    target: i32,
) -> (idx: Seq<int>)
    requires
        current.len() >= cands.len(),
    ensures
        ({
            let r = spec_filter_candidates(cands, current, target);
            &&& idx.len() == r.len()
            &&& forall|m: int| 0 <= m < r.len() ==> 0 <= #[trigger] idx[m] < cands.len()
                && current[idx[m]] == Some(target) && r[m] == (cands[idx[m]].0, target)
            &&& forall|m: int, m2: int| 0 <= m < m2 < idx.len() ==> #[trigger] idx[m] < #[trigger] idx[m2]
            &&& forall|i: int| 0 <= i < cands.len() && current[i] == Some(target) ==> exists|m: int|
                0 <= m < idx.len() && #[trigger] idx[m] == i
        }),
    decreases cands.len(),
{
    if cands.len() == 0 {
        Seq::empty()
    } else {
        let n = cands.len() - 1;
        let pc = cands.drop_last();
        let pidx = lemma_filter_candidates_kept(pc, current, target);
        let prev = spec_filter_candidates(pc, current, target);
        let r = spec_filter_candidates(cands, current, target);
        assert forall|i: int| 0 <= i < n implies cands[i] == #[trigger] pc[i] by {}
        if current[n] == Some(target) {
            let idx = pidx.push(n);
            assert(r == prev.push((cands.last().0, target)));
            assert forall|m: int| 0 <= m < r.len() implies 0 <= #[trigger] idx[m] < cands.len()
                && current[idx[m]] == Some(target) && r[m] == (cands[idx[m]].0, target) by {
                if m < prev.len() {
                    assert(idx[m] == pidx[m]);
                    assert(r[m] == prev[m]);
                    assert(cands[pidx[m]] == pc[pidx[m]]);
                }
            }
            assert forall|m: int, m2: int| 0 <= m < m2 < idx.len() implies #[trigger] idx[m] < #[trigger] idx[m2] by {
                assert(idx[m] == pidx[m]);
                if m2 < pidx.len() {
                    assert(idx[m2] == pidx[m2]);
                }
            }
            assert forall|i: int| 0 <= i < cands.len() && current[i] == Some(target) implies exists|m: int|
                0 <= m < idx.len() && #[trigger] idx[m] == i by {
                if i < n {
                    let m = choose|m: int| 0 <= m < pidx.len() && #[trigger] pidx[m] == i;
                    assert(idx[m] == i);
                } else {
                    assert(idx[pidx.len() as int] == i);
                }
            }
            idx
        } else {
            assert(r == prev);
            assert forall|m: int| 0 <= m < r.len() implies 0 <= #[trigger] pidx[m] < cands.len()
                && current[pidx[m]] == Some(target) && r[m] == (cands[pidx[m]].0, target) by {
                assert(cands[pidx[m]] == pc[pidx[m]]);
            }
            pidx
        }
    }
}

/// The clients the finder offers: the identified tournament clients when
/// there are some, else every pid as slot 0; lazer instances left out.
pub open spec fn spec_finder_clients(
    identified: Result<(u32, Vec<(i32, u32)>), MemoryError>,
    pids: Seq<u32>,
    titles: Map<u32, String>,
) -> Seq<(i32, u32)> {
    let all: Seq<(i32, u32)> = match identified {
        Ok((_, c)) if c@.len() > 0 => c@,
        _ => pids.map_values(|p: u32| (0i32, p)),
    };
    spec_keep_pids(all, titles)
}

/// The clients whose pid is not a lazer instance, in order.
pub open spec fn spec_keep_pids(all: Seq<(i32, u32)>, titles: Map<u32, String>) -> Seq<(i32, u32)>
    decreases all.len(),
{
    if all.len() == 0 {
        Seq::empty()
    } else {
        let prev = spec_keep_pids(all.drop_last(), titles);
        if crate::processes::spec_is_lazer_pid(all.last().1, titles) {
            prev
        } else {
            prev.push(all.last())
        }
    }
}

/// The clients the finder offers to attach to.
pub fn finder_clients(
    identified: Result<(u32, Vec<(i32, u32)>), MemoryError>,
    pids: &[u32],
    titles: &HashMap<u32, String>,
) -> (r: Vec<(i32, u32)>)
    ensures
        r@ == spec_finder_clients(identified, pids@, titles@),
{
    let ghost id = identified;
    let all: Vec<(i32, u32)> = match identified {
        Ok((_, c)) if c.len() > 0 => c,
        _ => {
            let mut v: Vec<(i32, u32)> = Vec::new();
            let mut i: usize = 0;
            while i < pids.len()
                invariant
                    i <= pids@.len(),
                    v@ == pids@.take(i as int).map_values(|p: u32| (0i32, p)),
                decreases pids.len() - i,
            {
                v.push((0i32, pids[i]));
                assert(v@ =~= pids@.take(i + 1).map_values(|p: u32| (0i32, p)));
                i = i + 1;
            }
            assert(pids@.take(i as int) =~= pids@);
            v
        },
    };
    let mut r: Vec<(i32, u32)> = Vec::new();
    let mut i: usize = 0;
    while i < all.len()
        invariant
            i <= all@.len(),
            r@ == spec_keep_pids(all@.take(i as int), titles@),
        decreases all.len() - i,
    {
        assert(all@.take(i + 1).drop_last() =~= all@.take(i as int));
        let lazer = match titles.get(&all[i].1) {
            Some(t) => crate::processes::is_lazer_title(t.as_str()),
            None => false,
        };
        if !lazer {
            r.push(all[i]);
        }
        i = i + 1;
    }
    assert(all@.take(i as int) =~= all@);
    r
}

/// What the finder does with its candidates before resolving them.
#[derive(Debug, Clone, Copy, PartialEq, Eq, Structural)]
pub enum ResolveGate {
    /// More than ten candidates: narrow them first.
    TooMany,
    /// No candidate.
    Empty,
    /// Resolve them.
    Go,
}

/// The most candidates that the finder resolves at once.
pub const MAX_RESOLVE_CANDIDATES: usize = 10;

/// Whether `n` candidates are resolved: not more than ten, and some.
pub fn resolve_gate(n: usize) -> (r: ResolveGate)
    ensures
        r == if n > MAX_RESOLVE_CANDIDATES {
            ResolveGate::TooMany
        } else if n == 0 {
            ResolveGate::Empty
        } else {
            ResolveGate::Go
        },
{
    if n > MAX_RESOLVE_CANDIDATES {
        ResolveGate::TooMany
    } else if n == 0 {
        ResolveGate::Empty
    } else {
        ResolveGate::Go
    }
}

/// The anchors of a resolution, by name and address, those at address 0
/// left out.
pub open spec fn spec_anchors(
    score_base: usize,
    gameplay_base: usize,
    ruleset: usize,
    rulesets_addr: usize,
    base_addr: usize,
) -> Seq<(Seq<char>, usize)> {
    let all = seq![
        ("scoreBase"@, score_base),
        ("gameplayBase"@, gameplay_base),
        ("ruleset"@, ruleset),
        ("rulesetsAddr"@, rulesets_addr),
        ("baseAddr"@, base_addr),
    ];
    all.filter(|a: (Seq<char>, usize)| a.1 != 0)
}

/// The name and address views of a list of anchors.
pub open spec fn spec_anchors_view<'a>(v: Seq<(&'a str, usize)>) -> Seq<(Seq<char>, usize)> {
    v.map_values(|a: (&'a str, usize)| (a.0@, a.1))
}

fn push_anchor(v: &mut Vec<(&'static str, usize)>, name: &'static str, a: usize)
    ensures
        spec_anchors_view(final(v)@) == if a != 0 {
            spec_anchors_view(old(v)@).push((name@, a))
        } else {
            spec_anchors_view(old(v)@)
        },
{
    if a != 0 {
        v.push((name, a));
        assert(spec_anchors_view(final(v)@) =~= spec_anchors_view(old(v)@).push((name@, a)));
    }
}

/// The anchors of a resolution: score base, gameplay base, ruleset,
/// rulesets address and base address, in that order, leaving out those at 0.
pub fn build_anchors(
    score_base: usize,
    gameplay_base: usize,
    ruleset: usize,
    rulesets_addr: usize,
    base_addr: usize,
) -> (r: Vec<(&'static str, usize)>)
    ensures
        spec_anchors_view(r@) == spec_anchors(score_base, gameplay_base, ruleset, rulesets_addr, base_addr),
{
    let mut v: Vec<(&'static str, usize)> = Vec::new();
    push_anchor(&mut v, "scoreBase", score_base);
    push_anchor(&mut v, "gameplayBase", gameplay_base);
    push_anchor(&mut v, "ruleset", ruleset);
    push_anchor(&mut v, "rulesetsAddr", rulesets_addr);
    push_anchor(&mut v, "baseAddr", base_addr);
    proof {
        let all = seq![
            ("scoreBase"@, score_base),
            ("gameplayBase"@, gameplay_base),
            ("ruleset"@, ruleset),
            ("rulesetsAddr"@, rulesets_addr),
            ("baseAddr"@, base_addr),
        ];
        let f = |a: (Seq<char>, usize)| a.1 != 0;
        reveal_with_fuel(Seq::filter, 6);
        assert(all.take(0) =~= Seq::<(Seq<char>, usize)>::empty());
        assert(all.take(1).drop_last() =~= all.take(0));
        assert(all.take(2).drop_last() =~= all.take(1));
        assert(all.take(3).drop_last() =~= all.take(2));
        assert(all.take(4).drop_last() =~= all.take(3));
        assert(all.take(5).drop_last() =~= all.take(4));
        assert(all.take(5) =~= all);
    }
    v
}

/// The distance between two addresses.
pub open spec fn spec_distance(a: int, b: int) -> int {
    if a >= b { a - b } else { b - a }
}

/// The anchor nearest to `addr`: its index (the first among equally near
/// ones) and `addr` minus its address; `None` when there is no anchor.
pub fn nearest_anchor(anchors: &[(&str, usize)], addr: usize) -> (r: Option<(usize, i128)>)
    ensures
        match r {
            None => anchors@.len() == 0,
            Some((j, d)) => {
                &&& j < anchors@.len()
                &&& d == addr - anchors@[j as int].1
                &&& forall|k: int| 0 <= k < anchors@.len() ==> spec_distance(addr as int, (#[trigger] anchors@[k]).1 as int) >= spec_distance(addr as int, anchors@[j as int].1 as int)
                &&& forall|k: int| 0 <= k < j ==> spec_distance(addr as int, (#[trigger] anchors@[k]).1 as int) > spec_distance(addr as int, anchors@[j as int].1 as int)
            },
        },
{
    if anchors.len() == 0 {
        return None;
    }
    let mut best: usize = 0;
    let mut best_dist: u128 = if addr >= anchors[0].1 { (addr - anchors[0].1) as u128 } else { (anchors[0].1 - addr) as u128 };
    let mut i: usize = 1;
    while i < anchors.len()
        invariant
            1 <= i <= anchors@.len(),
            best < i,
            best_dist == spec_distance(addr as int, anchors@[best as int].1 as int),
            forall|k: int| 0 <= k < i ==> spec_distance(addr as int, (#[trigger] anchors@[k]).1 as int) >= best_dist,
            forall|k: int| 0 <= k < best ==> spec_distance(addr as int, (#[trigger] anchors@[k]).1 as int) > best_dist,
        decreases anchors.len() - i,
    {
        let a = anchors[i].1;
        let dist: u128 = if addr >= a { (addr - a) as u128 } else { (a - addr) as u128 };
        if dist < best_dist {
            best = i;
            best_dist = dist;
        }
        i = i + 1;
    }
    let d: i128 = (addr as i128) - (anchors[best].1 as i128);
    Some((best, d))
}

/// The offsets of a path in decimal, separated by `", "`.
pub open spec fn spec_join_decimal(offs: Seq<usize>) -> Seq<char>
    decreases offs.len(),
{
    if offs.len() == 0 {
        Seq::empty()
    } else if offs.len() == 1 {
        spec_decimal(offs[0] as nat)
    } else {
        spec_join_decimal(offs.drop_last()) + ", "@ + spec_decimal(offs.last() as nat)
    }
}

/// The line that shows a path: `    <anchor> + [<offsets>]`, followed by
/// `   <- gameplay_score_spectator = <offset>` for a one-offset path from
/// the ruleset.
pub open spec fn spec_path_line(name: Seq<char>, offs: Seq<usize>) -> Seq<char> {
    let tag = if name == "ruleset"@ && offs.len() == 1 {
        "   <- gameplay_score_spectator = "@ + spec_decimal(offs[0] as nat)
    } else {
        Seq::empty()
    };
    "    "@ + name + " + ["@ + spec_join_decimal(offs) + "]"@ + tag
}

/// The line that shows a path found by the finder.
pub fn path_line(name: &str, offs: &[usize]) -> (r: String)
    ensures
        r@ == spec_path_line(name@, offs@),
{
    let mut line = String::from_str("    ");
    line.append(name);
    line.append(" + [");
    let mut i: usize = 0;
    let ghost start = line@;
    while i < offs.len()
        invariant
            i <= offs@.len(),
            line@ == start + spec_join_decimal(offs@.take(i as int)),
        decreases offs.len() - i,
    {
        assert(offs@.take(i + 1).drop_last() =~= offs@.take(i as int));
        if i > 0 {
            line.append(", ");
        } else {
            assert(offs@.take(0) =~= Seq::<usize>::empty());
        }
        let d = usize_to_string(offs[i]);
        line.append(d.as_str());
        i = i + 1;
    }
    assert(offs@.take(i as int) =~= offs@);
    line.append("]");
    let nc = chars_of(name);
    let rc = chars_of("ruleset");
    if chars_eq(&nc, &rc) && offs.len() == 1 {
        line.append("   <- gameplay_score_spectator = ");
        let d = usize_to_string(offs[0]);
        line.append(d.as_str());
    }
    assert(line@ =~= spec_path_line(name@, offs@));
    line
}

/// How far above an anchor, or above a pointer read near it, a target is
/// looked for, and how far from an anchor those pointers are read.
pub const NEAR_WINDOW: usize = 0x400;

/// The window of each hop of a two-pointer path.
pub const DEEP_WINDOW: usize = 0x100;

/// Where a probe for short pointer paths near the anchors stands: the word
/// it waits for.
#[derive(Debug, Clone, Copy, PartialEq, Eq, Structural)]
pub enum ProbeStage {
    /// The word at `anchors[anchor] + off`, a pointer that may lead to the
    /// target in one hop.
    Near { anchor: usize, off: usize },
    /// The word at `anchors[anchor] + off1`, the first pointer of two.
    Outer { anchor: usize, off1: usize },
    /// The word at `p1 + off2`, where `p1` was read at `anchors[anchor] + off1`.
    Inner { anchor: usize, off1: usize, p1: usize, off2: usize },
    /// Nothing more to read.
    Finished,
}

/// A probe for paths of up to two pointers from the anchors to a target:
/// it says which words to read and collects the paths they show.
pub struct PathProbe<'a> {
    pub anchors: Vec<(&'a str, usize)>,
    pub target: usize,
    pub stage: ProbeStage,
    pub paths: Vec<(&'a str, Vec<usize>)>,
}

/// The address a probe stage reads.
pub open spec fn spec_probe_addr<'a>(stage: ProbeStage, anchors: Seq<(&'a str, usize)>) -> usize {
    match stage {
        ProbeStage::Near { anchor, off } => spec_addr(anchors[anchor as int].1, off),
        ProbeStage::Outer { anchor, off1 } => spec_addr(anchors[anchor as int].1, off1),
        ProbeStage::Inner { p1, off2, .. } => spec_addr(p1, off2),
        ProbeStage::Finished => 0,
    }
}

/// The stage after the first pointer at `off1` of anchor `anchor`: the next
/// offset (in steps of 4 below `DEEP_WINDOW`), the next anchor, or the end.
pub open spec fn spec_next_outer(anchor: usize, off1: usize, n: nat) -> ProbeStage {
    if off1 + 4 < DEEP_WINDOW {
        ProbeStage::Outer { anchor, off1: (off1 + 4) as usize }
    } else if anchor + 1 < n {
        ProbeStage::Outer { anchor: (anchor + 1) as usize, off1: 0 }
    } else {
        ProbeStage::Finished
    }
}

/// The stage after a probe stage reads the word `w` (`None` when it could
/// not be read), with `n` anchors.
pub open spec fn spec_probe_next(stage: ProbeStage, w: Option<u32>, n: nat) -> ProbeStage {
    match stage {
        ProbeStage::Near { anchor, off } => if off + 4 < NEAR_WINDOW {
            ProbeStage::Near { anchor, off: (off + 4) as usize }
        } else if anchor + 1 < n {
            ProbeStage::Near { anchor: (anchor + 1) as usize, off: 0 }
        } else {
            ProbeStage::Outer { anchor: 0, off1: 0 }
        },
        ProbeStage::Outer { anchor, off1 } => match w {
            Some(p1) if spec_is_plausible_ptr(p1 as usize) => ProbeStage::Inner { anchor, off1, p1: p1 as usize, off2: 0 },
            _ => spec_next_outer(anchor, off1, n),
        },
        ProbeStage::Inner { anchor, off1, p1, off2 } => if off2 + 4 < DEEP_WINDOW {
            ProbeStage::Inner { anchor, off1, p1, off2: (off2 + 4) as usize }
        } else {
            spec_next_outer(anchor, off1, n)
        },
        ProbeStage::Finished => ProbeStage::Finished,
    }
}

/// The path that the word `w` read at a probe stage shows, if any: a
/// plausible pointer at most a window below the target.
pub open spec fn spec_probe_hit<'a>(
    stage: ProbeStage,
    anchors: Seq<(&'a str, usize)>,
    target: usize,
    w: Option<u32>,
) -> Option<(&'a str, Seq<usize>)> {
    match (stage, w) {
        (ProbeStage::Near { anchor, off }, Some(p)) => if spec_is_plausible_ptr(p as usize) && target >= p
            && target - p < NEAR_WINDOW {
            Some((anchors[anchor as int].0, seq![off, (target - p) as usize]))
        } else {
            None
        },
        (ProbeStage::Inner { anchor, off1, off2, .. }, Some(p)) => if spec_is_plausible_ptr(p as usize)
            && target >= p && target - p < DEEP_WINDOW {
            Some((anchors[anchor as int].0, seq![off1, off2, (target - p) as usize]))
        } else {
            None
        },
        _ => None,
    }
}

/// The paths found without reading: one per anchor at most a window below
/// the target, in anchor order.
pub open spec fn spec_direct_paths<'a>(anchors: Seq<(&'a str, usize)>, target: usize) -> Seq<(&'a str, Seq<usize>)>
    decreases anchors.len(),
{
    if anchors.len() == 0 {
        Seq::empty()
    } else {
        let prev = spec_direct_paths(anchors.drop_last(), target);
        let (name, a) = anchors.last();
        if target >= a && target - a < NEAR_WINDOW {
            prev.push((name, seq![(target - a) as usize]))
        } else {
            prev
        }
    }
}

/// An upper bound on the reads left from a stage, with `n` anchors.
pub open spec fn spec_probe_rank(stage: ProbeStage, n: nat) -> int {
    let outer_slot = 65int;
    let outer_total = n * 64 * outer_slot;
    match stage {
        ProbeStage::Near { anchor, off } => outer_total + (n - anchor) * 256 - off / 4,
        ProbeStage::Outer { anchor, off1 } => (n - anchor) * 64 * outer_slot - (off1 / 4) * outer_slot,
        ProbeStage::Inner { anchor, off1, off2, .. } => (n - anchor) * 64 * outer_slot - (off1 / 4) * outer_slot - 1 - off2 / 4,
        ProbeStage::Finished => 0,
    }
}

/// Whether a stage is consistent: its anchor exists and its offsets are
/// multiples of 4 inside their windows.
pub open spec fn spec_stage_wf(stage: ProbeStage, n: nat) -> bool {
    match stage {
        ProbeStage::Near { anchor, off } => anchor < n && off < NEAR_WINDOW && off % 4 == 0,
        ProbeStage::Outer { anchor, off1 } => anchor < n && off1 < DEEP_WINDOW && off1 % 4 == 0,
        ProbeStage::Inner { anchor, off1, off2, .. } => anchor < n && off1 < DEEP_WINDOW && off1 % 4 == 0
            && off2 < DEEP_WINDOW && off2 % 4 == 0,
        ProbeStage::Finished => true,
    }
}

impl<'a> PathProbe<'a> {
    /// The probe is consistent.
    pub open spec fn wf(&self) -> bool {
        spec_stage_wf(self.stage, self.anchors@.len())
    }

    /// The abstract view of the paths collected so far.
    pub open spec fn paths_view(&self) -> Seq<(&'a str, Seq<usize>)> {
        spec_paths_view(self.paths@)
    }

    /// Starts a probe: collects the paths that need no read and asks for
    /// the first word near the first anchor (`None` when there is no anchor).
    pub fn start(anchors: Vec<(&'a str, usize)>, target: usize) -> (r: (PathProbe<'a>, Option<usize>))
        ensures
            r.0.wf(),
            r.0.anchors@ == anchors@,
            r.0.target == target,
            r.0.paths_view() == spec_direct_paths(anchors@, target),
            anchors@.len() == 0 ==> r.0.stage == ProbeStage::Finished && r.1 is None,
            anchors@.len() > 0 ==> r.0.stage == (ProbeStage::Near { anchor: 0, off: 0 })
                && r.1 == Some(spec_probe_addr(r.0.stage, anchors@)),
    {
        let mut paths: Vec<(&'a str, Vec<usize>)> = Vec::new();
        let mut i: usize = 0;
        while i < anchors.len()
            invariant
                i <= anchors@.len(),
                spec_paths_view(paths@) == spec_direct_paths(anchors@.take(i as int), target),
            decreases anchors.len() - i,
        {
            let (name, a) = anchors[i];
            assert(anchors@.take(i + 1).drop_last() =~= anchors@.take(i as int));
            if target >= a && target - a < NEAR_WINDOW {
                let mut offs: Vec<usize> = Vec::new();
                offs.push(target - a);
                let ghost before = paths@;
                paths.push((name, offs));
                assert(spec_paths_view(paths@) =~= spec_paths_view(before).push((name, offs@)));
                assert(offs@ =~= seq![(target - a) as usize]);
            }
            i = i + 1;
        }
        assert(anchors@.take(i as int) =~= anchors@);
        if anchors.len() == 0 {
            (PathProbe { anchors, target, stage: ProbeStage::Finished, paths }, None)
        } else {
            let first = anchors[0].1.wrapping_add(0);
            (PathProbe { anchors, target, stage: ProbeStage::Near { anchor: 0, off: 0 }, paths }, Some(first))
        }
    }

    /// Takes the word that the last step asked for (`None` when it could not
    /// be read), records the path it shows, and asks for the next word
    /// (`None` once the probe is over).
    pub fn step(&mut self, w: Option<u32>) -> (r: Option<usize>)
        requires
            old(self).wf(),
        ensures
            final(self).wf(),
            final(self).anchors@ == old(self).anchors@,
            final(self).target == old(self).target,
            final(self).stage == spec_probe_next(old(self).stage, w, old(self).anchors@.len()),
            final(self).paths_view() == match spec_probe_hit(old(self).stage, old(self).anchors@, old(self).target, w) {
                Some(p) => old(self).paths_view().push(p),
                None => old(self).paths_view(),
            },
            r == if final(self).stage == ProbeStage::Finished {
                None
            } else {
                Some(spec_probe_addr(final(self).stage, final(self).anchors@))
            },
            old(self).stage != ProbeStage::Finished ==> spec_probe_rank(final(self).stage, old(self).anchors@.len())
                < spec_probe_rank(old(self).stage, old(self).anchors@.len()),
            spec_probe_rank(final(self).stage, old(self).anchors@.len()) >= 0,
    {
        let n = self.anchors.len();
        let target = self.target;
        let ghost before = self.paths@;
        match self.stage {
            ProbeStage::Near { anchor, off } => {
                if let Some(p) = w {
                    let p = p as usize;
                    if is_plausible_ptr(p) && target >= p && target - p < NEAR_WINDOW {
                        let mut offs: Vec<usize> = Vec::new();
                        offs.push(off);
                        offs.push(target - p);
                        assert(offs@ =~= seq![off, (target - p) as usize]);
                        self.paths.push((self.anchors[anchor].0, offs));
                        assert(spec_paths_view(self.paths@) =~= spec_paths_view(before).push((self.anchors@[anchor as int].0, offs@)));
                    }
                }
                self.stage = if off + 4 < NEAR_WINDOW {
                    ProbeStage::Near { anchor, off: off + 4 }
                } else if anchor + 1 < n {
                    ProbeStage::Near { anchor: anchor + 1, off: 0 }
                } else {
                    ProbeStage::Outer { anchor: 0, off1: 0 }
                };
            },
            ProbeStage::Outer { anchor, off1 } => {
                self.stage = match w {
                    Some(p1) if is_plausible_ptr(p1 as usize) => ProbeStage::Inner { anchor, off1, p1: p1 as usize, off2: 0 },
                    _ => next_outer(anchor, off1, n),
                };
            },
            ProbeStage::Inner { anchor, off1, p1, off2 } => {
                if let Some(p) = w {
                    let p = p as usize;
                    if is_plausible_ptr(p) && target >= p && target - p < DEEP_WINDOW {
                        let mut offs: Vec<usize> = Vec::new();
                        offs.push(off1);
                        offs.push(off2);
                        offs.push(target - p);
                        assert(offs@ =~= seq![off1, off2, (target - p) as usize]);
                        self.paths.push((self.anchors[anchor].0, offs));
                        assert(spec_paths_view(self.paths@) =~= spec_paths_view(before).push((self.anchors@[anchor as int].0, offs@)));
                    }
                }
                self.stage = if off2 + 4 < DEEP_WINDOW {
                    ProbeStage::Inner { anchor, off1, p1, off2: off2 + 4 }
                } else {
                    next_outer(anchor, off1, n)
                };
            },
            ProbeStage::Finished => {},
        }
        proof {
            lemma_probe_progress(old(self).stage, w, n as nat);
        }
        match self.stage {
            ProbeStage::Near { anchor, off } => Some(self.anchors[anchor].1.wrapping_add(off)),
            ProbeStage::Outer { anchor, off1 } => Some(self.anchors[anchor].1.wrapping_add(off1)),
            ProbeStage::Inner { p1, off2, .. } => Some(p1.wrapping_add(off2)),
            ProbeStage::Finished => None,
        }
    }
}

/// Every path a probe records is a real chain, found where it was read.
/// Near an anchor: the path `(name, [off, d])` comes from an anchor named
/// `name` whose address plus `off` is the address just read, and that word
/// is a plausible pointer `p` with `p + d` the target. Two hops: the path
/// `(name, [off1, off2, d])` comes from an anchor named `name` whose address
/// plus `off1` is where the first pointer `p1` of the stage was read, the
/// address just read is `p1 + off2`, and that word is a plausible pointer
/// `p` with `p + d` the target. Conversely a plausible pointer read near an
/// anchor within `NEAR_WINDOW` below the target is recorded. And the first
/// pointer of a two-hop stage is the plausible word read at the anchor plus
/// `off1`, kept while the second offset moves on.
pub proof fn lemma_probe_paths_real<'a>(
    stage: ProbeStage,
    anchors: Seq<(&'a str, usize)>,
    target: usize,
    w: Option<u32>,
)
    requires
        spec_stage_wf(stage, anchors.len()),
    ensures
        match spec_probe_hit(stage, anchors, target, w) {
            Some((name, offs)) => match stage {
                ProbeStage::Near { .. } => {
                    &&& offs.len() == 2
                    &&& exists|j: int| 0 <= j < anchors.len() && (#[trigger] anchors[j]).0 == name
                        && spec_addr(anchors[j].1, offs[0]) == spec_probe_addr(stage, anchors)
                    &&& exists|p: u32| w == Some(p) && #[trigger] spec_is_plausible_ptr(p as usize) && p + offs[1] == target
                },
                ProbeStage::Inner { anchor, off1, p1, off2 } => {
                    &&& offs.len() == 3
                    &&& exists|j: int| 0 <= j < anchors.len() && (#[trigger] anchors[j]).0 == name
                        && spec_addr(anchors[j].1, offs[0]) == spec_addr(anchors[anchor as int].1, off1)
                    &&& spec_addr(p1, offs[1]) == spec_probe_addr(stage, anchors)
                    &&& exists|p: u32| w == Some(p) && #[trigger] spec_is_plausible_ptr(p as usize) && p + offs[2] == target
                },
                _ => false,
            },
            None => match (stage, w) {
                (ProbeStage::Near { .. }, Some(p)) => !(spec_is_plausible_ptr(p as usize) && p <= target
                    && target < p + NEAR_WINDOW),
                _ => true,
            },
        },
        match stage {
            ProbeStage::Outer { anchor, off1 } => match spec_probe_next(stage, w, anchors.len()) {
                ProbeStage::Inner { anchor: a2, off1: o2, p1, off2 } => a2 == anchor && o2 == off1 && off2 == 0
                    && w == Some(p1 as u32) && p1 <= u32::MAX && spec_is_plausible_ptr(p1),
                _ => true,
            },
            ProbeStage::Inner { anchor, off1, p1, off2 } => match spec_probe_next(stage, w, anchors.len()) {
                ProbeStage::Inner { anchor: a2, off1: o2, p1: q1, off2: f2 } => a2 == anchor && o2 == off1 && q1 == p1
                    && f2 == off2 + 4,
                _ => true,
            },
            _ => true,
        },
{
    match (stage, w) {
        (ProbeStage::Near { anchor, off }, Some(p)) => {
            if spec_probe_hit(stage, anchors, target, w) is Some {
                assert(anchors[anchor as int].0 == anchors[anchor as int].0);
                assert(spec_is_plausible_ptr(p as usize));
            }
        },
        (ProbeStage::Inner { anchor, off1, p1, off2 }, Some(p)) => {
            if spec_probe_hit(stage, anchors, target, w) is Some {
                assert(anchors[anchor as int].0 == anchors[anchor as int].0);
                assert(spec_is_plausible_ptr(p as usize));
            }
        },
        _ => {},
    }
    match stage {
        ProbeStage::Outer { anchor, off1 } => {
            match w {
                Some(v) => {
                    if spec_is_plausible_ptr(v as usize) {
                        assert((v as usize) as u32 == v);
                    } else {
                        assert(spec_next_outer(anchor, off1, anchors.len()) !is Inner);
                    }
                },
                None => {
                    assert(spec_next_outer(anchor, off1, anchors.len()) !is Inner);
                },
            }
        },
        ProbeStage::Inner { anchor, off1, p1, off2 } => {
            assert(spec_next_outer(anchor, off1, anchors.len()) !is Inner);
        },
        _ => {},
    }
}

proof fn lemma_rank_nonneg(stage: ProbeStage, n: nat)
    requires
        spec_stage_wf(stage, n),
    ensures
        spec_probe_rank(stage, n) >= 0,
{
    match stage {
        ProbeStage::Near { anchor, off } => {
            assert((n - anchor) * 256 >= 256) by (nonlinear_arith)
                requires
                    anchor < n,
            ;
            assert(n * 64 * 65 >= 0) by (nonlinear_arith);
        },
        ProbeStage::Outer { anchor, off1 } => {
            assert((n - anchor) * 64 * 65 - (off1 / 4) * 65 >= 65) by (nonlinear_arith)
                requires
                    anchor < n,
                    off1 < 256,
            ;
        },
        ProbeStage::Inner { anchor, off1, off2, .. } => {
            assert((n - anchor) * 64 * 65 - (off1 / 4) * 65 - 1 - off2 / 4 >= 0) by (nonlinear_arith)
                requires
                    anchor < n,
                    off1 < 256,
                    off2 < 256,
            ;
        },
        ProbeStage::Finished => {},
    }
}

/// Each read of a probe brings it closer to its end, and keeps it consistent.
proof fn lemma_probe_progress(stage: ProbeStage, w: Option<u32>, n: nat)
    requires
        spec_stage_wf(stage, n),
        n <= usize::MAX,
    ensures
        spec_stage_wf(spec_probe_next(stage, w, n), n),
        stage != ProbeStage::Finished ==> spec_probe_rank(spec_probe_next(stage, w, n), n) < spec_probe_rank(stage, n),
        spec_probe_rank(spec_probe_next(stage, w, n), n) >= 0,
{
    let next = spec_probe_next(stage, w, n);
    match stage {
        ProbeStage::Near { anchor, off } => {
            if off + 4 < NEAR_WINDOW {
                assert((off + 4) / 4 == off / 4 + 1);
                assert(spec_probe_rank(next, n) < spec_probe_rank(stage, n));
            } else if anchor + 1 < n {
                assert((n - anchor) * 256 - off / 4 > (n - (anchor + 1)) * 256) by (nonlinear_arith)
                    requires
                        off < 1024,
                ;
                assert(spec_probe_rank(next, n) < spec_probe_rank(stage, n));
            } else {
                assert(n * 64 * 65 - 0 * 65 == n * 64 * 65);
                assert((n - anchor) * 256 - off / 4 > 0) by (nonlinear_arith)
                    requires
                        off < 1024,
                        anchor < n,
                ;
                assert(spec_probe_rank(next, n) < spec_probe_rank(stage, n));
            }
        },
        ProbeStage::Outer { anchor, off1 } => {
            match w {
                Some(p1) if spec_is_plausible_ptr(p1 as usize) => {
                    assert(spec_probe_rank(next, n) < spec_probe_rank(stage, n));
                },
                _ => {
                    if off1 + 4 < DEEP_WINDOW {
                        assert((off1 + 4) / 4 == off1 / 4 + 1);
                        assert(spec_probe_rank(next, n) < spec_probe_rank(stage, n));
                    } else if anchor + 1 < n {
                        assert((n - anchor) * 64 * 65 - (off1 / 4) * 65 > (n - (anchor + 1)) * 64 * 65) by (nonlinear_arith)
                            requires
                                off1 < 256,
                        ;
                    } else {
                        assert((n - anchor) * 64 * 65 - (off1 / 4) * 65 > 0) by (nonlinear_arith)
                            requires
                                off1 < 256,
                                anchor < n,
                        ;
                    }
                },
            }
        },
        ProbeStage::Inner { anchor, off1, off2, .. } => {
            if off2 + 4 < DEEP_WINDOW {
                assert((off2 + 4) / 4 == off2 / 4 + 1);
                assert(spec_probe_rank(next, n) < spec_probe_rank(stage, n));
            } else if off1 + 4 < DEEP_WINDOW {
                assert((off1 + 4) / 4 == off1 / 4 + 1);
                assert((n - anchor) * 64 * 65 - ((off1 / 4) + 1) * 65 == (n - anchor) * 64 * 65 - (off1 / 4) * 65 - 65) by (nonlinear_arith);
                assert(spec_probe_rank(next, n) < spec_probe_rank(stage, n));
            } else if anchor + 1 < n {
                assert((n - anchor) * 64 * 65 - (off1 / 4) * 65 - 1 - off2 / 4 > (n - (anchor + 1)) * 64 * 65) by (nonlinear_arith)
                    requires
                        off1 < 256,
                        off2 < 256,
                ;
            } else {
                assert((n - anchor) * 64 * 65 - (off1 / 4) * 65 - 1 - off2 / 4 > 0) by (nonlinear_arith)
                    requires
                        off1 < 256,
                        off2 < 256,
                        anchor < n,
                ;
            }
        },
        ProbeStage::Finished => {},
    }
    lemma_rank_nonneg(next, n);
    assert(stage != ProbeStage::Finished ==> spec_probe_rank(next, n) < spec_probe_rank(stage, n));
}

fn next_outer(anchor: usize, off1: usize, n: usize) -> (r: ProbeStage)
    requires
        off1 < DEEP_WINDOW,
    ensures
        r == spec_next_outer(anchor, off1, n as nat),
{
    if off1 + 4 < DEEP_WINDOW {
        ProbeStage::Outer { anchor, off1: off1 + 4 }
    } else if anchor < n && anchor + 1 < n {
        ProbeStage::Outer { anchor: anchor + 1, off1: 0 }
    } else {
        ProbeStage::Finished
    }
}

} // verus!
