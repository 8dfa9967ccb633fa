use vstd::prelude::*;

use crate::graph::{
    build_successors, bump, flatten, flatten_records, graph_ok, in_range_only,
    lemma_out_of_range_edges_ignored, neighbor_limit, successors, views,
};
use crate::rotation::{canonical, canonical_rotation, is_least_rotation, lemma_canonical_is_least};

verus! {

/// The bounds of one cycle search.
#[derive(Clone, Copy)]
pub struct CycleLimits {
    pub min_len: u32,
    pub max_len: u32,
    pub max_paths_per_start: u32,
    pub max_neighbors: u32,
}

/// What is recorded when the search from `start` comes back to it along `path`:
/// the canonical form of the cycle, unless it was found before.
pub open spec fn record_cycle(path: Seq<u32>, found: Seq<Seq<u32>>) -> Seq<Seq<u32>> {
    if found.contains(canonical(path)) {
        found
    } else {
        found.push(canonical(path))
    }
}

/// The depth-first search from the tip of `path`: the expansion counter and
/// the cycles found once it returns.
pub open spec fn cycle_dfs(
    g: Seq<Seq<u32>>,
    lim: CycleLimits,
    start: u32,
    path: Seq<u32>,
    count: nat,
    found: Seq<Seq<u32>>,
) -> (nat, Seq<Seq<u32>>)
    decreases lim.max_len + 1 - path.len(), neighbor_limit(g, path.last(), lim.max_neighbors) + 1,
{
    if path.len() > lim.max_len || count > lim.max_paths_per_start {
        (count, found)
    } else {
        cycle_scan(g, lim, start, path, 0, count, found)
    }
}

/// The search over the successors of the tip of `path` from the `i`-th on.
pub open spec fn cycle_scan(
    g: Seq<Seq<u32>>,
    lim: CycleLimits,
    start: u32,
    path: Seq<u32>,
    i: nat,
    count: nat,
    found: Seq<Seq<u32>>,
) -> (nat, Seq<Seq<u32>>)
    decreases lim.max_len + 1 - path.len(), neighbor_limit(g, path.last(), lim.max_neighbors) - i,
{
    if i >= neighbor_limit(g, path.last(), lim.max_neighbors) || path.len() > lim.max_len {
        (count, found)
    } else {
        let next = g[path.last() as int][i as int];
        let after = if next == start && path.len() >= lim.min_len {
            (count, record_cycle(path, found))
        } else if path.contains(next) || path.len() + 1 > lim.max_len {
            (count, found)
        } else {
            cycle_dfs(g, lim, start, path.push(next), bump(count, lim.max_paths_per_start), found)
        };
        cycle_scan(g, lim, start, path, i + 1, after.0, after.1)
    }
}

/// The cycles found by the searches from nodes `0 .. k`, in order.
pub open spec fn cycles_upto(g: Seq<Seq<u32>>, lim: CycleLimits, k: nat) -> Seq<Seq<u32>>
    decreases k,
{
    if k == 0 {
        Seq::empty()
    } else {
        let start = (k - 1) as u32;
        cycle_dfs(g, lim, start, seq![start], 0, cycles_upto(g, lim, (k - 1) as nat)).1
    }
}

/// The result of the cycle detector on these inputs.
pub open spec fn cycles_result(
    node_count: u32,
    senders: Seq<u32>,
    receivers: Seq<u32>,
    lim: CycleLimits,
) -> Seq<u32> {
    flatten(
        cycles_upto(successors(node_count as nat, senders, receivers), lim, node_count as nat),
    )
}

/// Whether `c` is among the records of `found`.
pub fn contains_record(found: &Vec<Vec<u32>>, c: &Vec<u32>) -> (r: bool)
    ensures
        r == views(found@).contains(c@),
{
    let mut k: usize = 0;
    while k < found.len()
        invariant
            k <= found@.len(),
            forall|j: int| 0 <= j < k ==> views(found@)[j] != c@,
        decreases found@.len() - k,
    {
        let f = &found[k];
        let mut same = f.len() == c.len();
        let mut j: usize = 0;
        while same && j < c.len()
            invariant
                j <= c@.len(),
                same ==> f@.len() == c@.len() && f@.take(j as int) == c@.take(j as int),
                !same ==> f@ != c@,
            decreases c@.len() - j,
        {
            if f[j] != c[j] {
                same = false;
                assert(f@[j as int] != c@[j as int]);
            } else {
                assert(f@.take(j + 1) =~= f@.take(j as int).push(f@[j as int]));
                assert(c@.take(j + 1) =~= c@.take(j as int).push(c@[j as int]));
            }
            j = j + 1;
        }
        if same {
            assert(f@ =~= f@.take(j as int));
            assert(c@ =~= c@.take(j as int));
            assert(views(found@)[k as int] == c@);
            return true;
        }
        k = k + 1;
    }
    proof {
        if views(found@).contains(c@) {
            let j = choose|j: int| 0 <= j < views(found@).len() && views(found@)[j] == c@;
            assert(views(found@)[j] != c@);
        }
    }
    false
}

/// The search from the tip of `path`, with the path marked in `visited`.
/// Path and marks are restored on return.
fn cycle_search(
    depth: usize,
    adj: &Vec<Vec<u32>>,
    lim: CycleLimits,
    start: u32,
    visited: &mut Vec<bool>,
    path: &mut Vec<u32>,
    count: &mut u64,
    found: &mut Vec<Vec<u32>>,
)
    requires
        graph_ok(views(adj@), old(visited)@.len() as nat),
        old(visited)@.len() <= u32::MAX,
        old(path)@.len() >= 1,
        old(path)@.len() == depth,
        forall|v: int| 0 <= v < old(path)@.len() ==> #[trigger] old(path)@[v] < old(visited)@.len(),
        forall|v: int|
            0 <= v < old(visited)@.len() ==> #[trigger] old(visited)@[v] == old(path)@.contains(
                v as u32,
            ),
        *old(count) <= lim.max_paths_per_start + 1,
    ensures
        final(path)@ == old(path)@,
        final(visited)@ == old(visited)@,
        *final(count) <= lim.max_paths_per_start + 1,
        (*final(count) as nat, views(final(found)@)) == cycle_dfs(
            views(adj@),
            lim,
            start,
            old(path)@,
            *old(count) as nat,
            views(old(found)@),
        ),
    decreases lim.max_len + 1 - depth,
{
    let ghost g = views(adj@);
    let ghost entry_path = path@;
    let ghost n = visited@.len();
    let ghost v0 = visited@;
    if depth > lim.max_len as usize || *count > lim.max_paths_per_start as u64 {
        return ;
    }
    let cur = path[depth - 1];
    let nb = &adj[cur as usize];
    assert(nb@ == g[cur as int]);
    let limit = if nb.len() > lim.max_neighbors as usize {
        lim.max_neighbors as usize
    } else {
        nb.len()
    };
    let mut i: usize = 0;
    while i < limit
        invariant
            g == views(adj@),
            graph_ok(g, n),
            n == visited@.len(),
            n <= u32::MAX,
            entry_path.len() == depth,
            1 <= depth <= lim.max_len,
            cur == entry_path.last(),
            cur < n,
            nb@ == g[cur as int],
            limit == neighbor_limit(g, cur, lim.max_neighbors),
            i <= limit,
            path@ == entry_path,
            visited@ == v0,
            forall|v: int| 0 <= v < entry_path.len() ==> #[trigger] entry_path[v] < n,
            forall|v: int| 0 <= v < n ==> #[trigger] visited@[v] == entry_path.contains(v as u32),
            *count <= lim.max_paths_per_start + 1,
            cycle_scan(g, lim, start, entry_path, i as nat, *count as nat, views(found@)) == cycle_dfs(
                g,
                lim,
                start,
                entry_path,
                *old(count) as nat,
                views(old(found)@),
            ),
        decreases limit - i,
    {
        let next = nb[i];
        assert(next == g[cur as int][i as int]);
        assert(next < n);
        if next == start && depth >= lim.min_len as usize {
            let ghost before = views(found@);
            let key = canonical_rotation(path);
            if !contains_record(found, &key) {
                found.push(key);
                assert(views(found@) =~= before.push(key@));
            }
            assert(views(found@) == record_cycle(entry_path, before));
        } else if visited[next as usize] || depth >= lim.max_len as usize {
        } else {
            if *count <= lim.max_paths_per_start as u64 {
                *count = *count + 1;
            }
            visited.set(next as usize, true);
            path.push(next);
            proof {
                assert forall|v: int| 0 <= v < n implies #[trigger] visited@[v] == path@.contains(
                    v as u32,
                ) by {
                    if v == next as int {
                        assert(path@[depth as int] == next);
                    } else {
                        if path@.contains(v as u32) {
                            let j = choose|j: int| 0 <= j < path@.len() && path@[j] == v as u32;
                            assert(entry_path[j] == v as u32);
                        }
                        if entry_path.contains(v as u32) {
                            let j = choose|j: int| 0 <= j < entry_path.len() && entry_path[j] == v as u32;
                            assert(path@[j] == v as u32);
                        }
                    }
                }
                assert(path@.last() == next);
            }
            cycle_search(depth + 1, adj, lim, start, visited, path, count, found);
            path.pop();
            visited.set(next as usize, false);
            assert(path@ =~= entry_path);
            assert(visited@ =~= v0);
        }
        i = i + 1;
    }
}

/// Simple cycles of `min_len ..= max_len` edges, each reported once in its
/// canonical rotation and followed by the sentinel. The search from each node
/// explores at most `max_neighbors` successors of each node and stops
/// expanding once it has made more than `max_paths_per_start` expansions.
/// Edges with an endpoint outside `0 .. node_count` are left out.
pub fn detect_cycles(
    node_count: u32,
    senders: &[u32],
    receivers: &[u32],
    min_len: u32,
    max_len: u32,
    max_paths_per_start: u32,
    max_neighbors: u32,
) -> (r: Vec<u32>)
    requires
        senders@.len() == receivers@.len(),
    ensures
        r@ == cycles_result(
            node_count,
            senders@,
            receivers@,
            CycleLimits { min_len, max_len, max_paths_per_start, max_neighbors },
        ),
{
    let lim = CycleLimits { min_len, max_len, max_paths_per_start, max_neighbors };
    let adj = build_successors(node_count, senders, receivers);
    let ghost g = views(adj@);
    let mut visited: Vec<bool> = Vec::new();
    let mut v: u32 = 0;
    while v < node_count
        invariant
            v <= node_count,
            visited@.len() == v,
            forall|u: int| 0 <= u < v ==> !(#[trigger] visited@[u]),
        decreases node_count - v,
    {
        visited.push(false);
        v = v + 1;
    }
    let mut found: Vec<Vec<u32>> = Vec::new();
    let mut start: u32 = 0;
    while start < node_count
        invariant
            g == views(adj@),
            graph_ok(g, node_count as nat),
            visited@.len() == node_count,
            start <= node_count,
            forall|u: int| 0 <= u < node_count ==> !(#[trigger] visited@[u]),
            views(found@) == cycles_upto(g, lim, start as nat),
        decreases node_count - start,
    {
        let mut path: Vec<u32> = Vec::new();
        path.push(start);
        visited.set(start as usize, true);
        let mut count: u64 = 0;
        proof {
            assert forall|u: int| 0 <= u < node_count implies #[trigger] visited@[u]
                == path@.contains(u as u32) by {
                if u == start as int {
                    assert(path@[0] == start);
                }
            }
            assert(path@ == seq![start]);
        }
        cycle_search(1, &adj, lim, start, &mut visited, &mut path, &mut count, &mut found);
        visited.set(start as usize, false);
        proof {
            assert forall|u: int| 0 <= u < node_count implies !(#[trigger] visited@[u]) by {
                if u != start as int {
                    assert(!path@.contains(u as u32) ==> !visited@[u]);
                    if path@.contains(u as u32) {
                        let j = choose|j: int| 0 <= j < path@.len() && path@[j] == u as u32;
                        assert(path@[0] == start);
                    }
                }
            }
        }
        start = start + 1;
    }
    flatten_records(&found)
}

proof fn lemma_root_scan_keeps_found(
    g: Seq<Seq<u32>>,
    lim: CycleLimits,
    start: u32,
    i: nat,
    count: nat,
    found: Seq<Seq<u32>>,
)
    requires
        lim.max_paths_per_start == 0,
        lim.min_len >= 2,
    ensures
        cycle_scan(g, lim, start, seq![start], i, count, found).1 == found,
    decreases neighbor_limit(g, start, lim.max_neighbors) - i,
{
    let path = seq![start];
    if i < neighbor_limit(g, path.last(), lim.max_neighbors) && path.len() <= lim.max_len {
        let next = g[start as int][i as int];
        let after = if next == start && path.len() >= lim.min_len {
            (count, record_cycle(path, found))
        } else if path.contains(next) || path.len() + 1 > lim.max_len {
            (count, found)
        } else {
            cycle_dfs(g, lim, start, path.push(next), bump(count, lim.max_paths_per_start), found)
        };
        assert(after.1 == found);
        lemma_root_scan_keeps_found(g, lim, start, i + 1, after.0, found);
    }
}

/// With an expansion budget of zero and cycles of at least two edges asked
/// for, or with no successor explored per node, no cycle is reported.
pub proof fn lemma_zero_budget_no_cycles(
    node_count: u32,
    senders: Seq<u32>,
    receivers: Seq<u32>,
    lim: CycleLimits,
)
    requires
        (lim.max_paths_per_start == 0 && lim.min_len >= 2) || lim.max_neighbors == 0,
    ensures
        cycles_result(node_count, senders, receivers, lim) == Seq::<u32>::empty(),
{
    let g = successors(node_count as nat, senders, receivers);
    assert forall|k: nat| #[trigger] cycles_upto(g, lim, k) == Seq::<Seq<u32>>::empty() by {
        lemma_no_cycles_upto(g, lim, k);
    }
    assert(flatten(cycles_upto(g, lim, node_count as nat)) == Seq::<u32>::empty());
}

proof fn lemma_no_cycles_upto(g: Seq<Seq<u32>>, lim: CycleLimits, k: nat)
    requires
        (lim.max_paths_per_start == 0 && lim.min_len >= 2) || lim.max_neighbors == 0,
    ensures
        cycles_upto(g, lim, k) == Seq::<Seq<u32>>::empty(),
    decreases k,
{
    if k > 0 {
        lemma_no_cycles_upto(g, lim, (k - 1) as nat);
        let start = (k - 1) as u32;
        if lim.max_neighbors != 0 {
            lemma_root_scan_keeps_found(g, lim, start, 0, 0, Seq::empty());
        }
    }
}

/// Leaving out beforehand the edges with an endpoint outside
/// `0 .. node_count` does not change the cycles reported.
pub proof fn lemma_cycles_ignore_out_of_range(
    node_count: u32,
    senders: Seq<u32>,
    receivers: Seq<u32>,
    lim: CycleLimits,
)
    requires
        senders.len() == receivers.len(),
    ensures
        cycles_result(node_count, senders, receivers, lim) == cycles_result(
            node_count,
            in_range_only(node_count as nat, senders, receivers, senders),
            in_range_only(node_count as nat, senders, receivers, receivers),
            lim,
        ),
{
    lemma_out_of_range_edges_ignored(node_count as nat, senders, receivers);
}

/// Records that are pairwise distinct, each its own least rotation and of
/// `min_len ..= max_len` nodes (as many as the cycle has edges).
pub open spec fn records_canonical(found: Seq<Seq<u32>>, lim: CycleLimits) -> bool {
    &&& found.no_duplicates()
    &&& forall|k: int| 0 <= k < found.len() ==> is_least_rotation(#[trigger] found[k])
    &&& forall|k: int|
        0 <= k < found.len() ==> lim.min_len <= (#[trigger] found[k]).len() <= lim.max_len
}

proof fn lemma_dfs_no_duplicates(
    g: Seq<Seq<u32>>,
    lim: CycleLimits,
    start: u32,
    path: Seq<u32>,
    count: nat,
    found: Seq<Seq<u32>>,
)
    requires
        records_canonical(found, lim),
    ensures
        records_canonical(cycle_dfs(g, lim, start, path, count, found).1, lim),
    decreases lim.max_len + 1 - path.len(), neighbor_limit(g, path.last(), lim.max_neighbors) + 1,
{
    if !(path.len() > lim.max_len || count > lim.max_paths_per_start) {
        lemma_scan_no_duplicates(g, lim, start, path, 0, count, found);
    }
}

proof fn lemma_scan_no_duplicates(
    g: Seq<Seq<u32>>,
    lim: CycleLimits,
    start: u32,
    path: Seq<u32>,
    i: nat,
    count: nat,
    found: Seq<Seq<u32>>,
)
    requires
        records_canonical(found, lim),
    ensures
        records_canonical(cycle_scan(g, lim, start, path, i, count, found).1, lim),
    decreases lim.max_len + 1 - path.len(), neighbor_limit(g, path.last(), lim.max_neighbors) - i,
{
    if !(i >= neighbor_limit(g, path.last(), lim.max_neighbors) || path.len() > lim.max_len) {
        let next = g[path.last() as int][i as int];
        let after = if next == start && path.len() >= lim.min_len {
            (count, record_cycle(path, found))
        } else if path.contains(next) || path.len() + 1 > lim.max_len {
            (count, found)
        } else {
            cycle_dfs(g, lim, start, path.push(next), bump(count, lim.max_paths_per_start), found)
        };
        if next == start && path.len() >= lim.min_len {
            let c = canonical(path);
            lemma_canonical_is_least(path);
            if !found.contains(c) {
                assert forall|k: int| 0 <= k < found.push(c).len() implies is_least_rotation(
                    #[trigger] found.push(c)[k],
                ) && lim.min_len <= found.push(c)[k].len() <= lim.max_len by {
                    if k < found.len() {
                        assert(found.push(c)[k] == found[k]);
                    }
                }
                assert forall|a: int, b: int|
                    0 <= a < b < found.push(c).len() implies found.push(c)[a] != found.push(c)[b] by {
                    if b == found.len() {
                        assert(found[a] == found.push(c)[a]);
                    }
                }
            }
        } else if !(path.contains(next) || path.len() + 1 > lim.max_len) {
            lemma_dfs_no_duplicates(
                g,
                lim,
                start,
                path.push(next),
                bump(count, lim.max_paths_per_start),
                found,
            );
        }
        lemma_scan_no_duplicates(g, lim, start, path, i + 1, after.0, after.1);
    }
}

proof fn lemma_cycles_upto_no_duplicates(g: Seq<Seq<u32>>, lim: CycleLimits, k: nat)
    ensures
        records_canonical(cycles_upto(g, lim, k), lim),
    decreases k,
{
    if k > 0 {
        lemma_cycles_upto_no_duplicates(g, lim, (k - 1) as nat);
        let start = (k - 1) as u32;
        lemma_dfs_no_duplicates(g, lim, start, seq![start], 0, cycles_upto(g, lim, (k - 1) as nat));
    }
}

/// No cycle is reported twice: a cycle met again from another node or in
/// another rotation has the same canonical form and is left out. Each
/// reported cycle is its own lexicographically least rotation and has
/// `min_len ..= max_len` edges.
pub proof fn lemma_cycles_reported_once(
    node_count: u32,
    senders: Seq<u32>,
    receivers: Seq<u32>,
    lim: CycleLimits,
)
    ensures
        records_canonical(
            cycles_upto(successors(node_count as nat, senders, receivers), lim, node_count as nat),
            lim,
        ),
        cycles_result(node_count, senders, receivers, lim) == flatten(
            cycles_upto(successors(node_count as nat, senders, receivers), lim, node_count as nat),
        ),
{
    lemma_cycles_upto_no_duplicates(successors(node_count as nat, senders, receivers), lim, node_count as nat);
}

} // verus!
