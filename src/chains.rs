use vstd::prelude::*;

use crate::graph::{
    build_successors, bump, flatten, flatten_records, graph_ok, in_range_only,
    lemma_out_of_range_edges_ignored, neighbor_limit, successors, views,
};

verus! {

/// The bounds of one chain search.
#[derive(Clone, Copy)]
pub struct ChainLimits {
    pub max_depth: u32,
    pub max_paths_per_start: u32,
    pub max_neighbors: u32,
}

/// A node is a shell node when its supplied degree lies in `2 ..= 3`; a node
/// without a supplied degree has degree 0.
pub open spec fn is_shell(degrees: Seq<u32>, v: u32) -> bool {
    v < degrees.len() && 2 <= degrees[v as int] <= 3
}

/// A path of at least three edges whose interior nodes are all shell nodes
/// and whose last node is not one.
pub open spec fn is_chain(degrees: Seq<u32>, path: Seq<u32>) -> bool {
    &&& path.len() >= 4
    &&& forall|k: int| 1 <= k < path.len() - 1 ==> is_shell(degrees, #[trigger] path[k])
    &&& !is_shell(degrees, path.last())
}

/// The depth-first search from the tip of `path`: the expansion counter and
/// the chains reported once it returns.
pub open spec fn chain_dfs(
    g: Seq<Seq<u32>>,
    degrees: Seq<u32>,
    lim: ChainLimits,
    path: Seq<u32>,
    count: nat,
    out: Seq<Seq<u32>>,
) -> (nat, Seq<Seq<u32>>)
    decreases lim.max_depth + 1 - path.len(), neighbor_limit(
        g,
        path.last(),
        lim.max_neighbors,
    ) + 1,
{
    if path.len() > lim.max_depth || count > lim.max_paths_per_start {
        (count, out)
    } else {
        chain_scan(g, degrees, lim, path, 0, count, out)
    }
}

/// The search over the successors of the tip of `path` from the `i`-th on.
/// Each extension is reported when it forms a chain, and searched further
/// either way.
pub open spec fn chain_scan(
    g: Seq<Seq<u32>>,
    degrees: Seq<u32>,
    lim: ChainLimits,
    path: Seq<u32>,
    i: nat,
    count: nat,
    out: Seq<Seq<u32>>,
) -> (nat, Seq<Seq<u32>>)
    decreases lim.max_depth + 1 - path.len(), neighbor_limit(
        g,
        path.last(),
        lim.max_neighbors,
    ) - i,
{
    if i >= neighbor_limit(g, path.last(), lim.max_neighbors) || path.len()
        > lim.max_depth {
        (count, out)
    } else {
        let next = g[path.last() as int][i as int];
        let after = if path.contains(next) {
            (count, out)
        } else {
            let longer = path.push(next);
            let reported = if is_chain(degrees, longer) {
                out.push(longer)
            } else {
                out
            };
            chain_dfs(g, degrees, lim, longer, bump(count, lim.max_paths_per_start), reported)
        };
        chain_scan(g, degrees, lim, path, i + 1, after.0, after.1)
    }
}

/// The chains reported by the searches from nodes `0 .. k`, in order.
pub open spec fn chains_upto(
    g: Seq<Seq<u32>>,
    degrees: Seq<u32>,
    lim: ChainLimits,
    k: nat,
) -> Seq<Seq<u32>>
    decreases k,
{
    if k == 0 {
        Seq::empty()
    } else {
        let start = (k - 1) as u32;
        chain_dfs(g, degrees, lim, seq![start], 0, chains_upto(g, degrees, lim, (k - 1) as nat)).1
    }
}

/// The result of the shell-chain detector on these inputs.
pub open spec fn chains_result(
    node_count: u32,
    senders: Seq<u32>,
    receivers: Seq<u32>,
    degrees: Seq<u32>,
    lim: ChainLimits,
) -> Seq<u32> {
    flatten(
        chains_upto(
            successors(node_count as nat, senders, receivers),
            degrees,
            lim,
            node_count as nat,
        ),
    )
}

/// Whether `v` is a shell node.
pub fn shell_node(degrees: &[u32], v: u32) -> (r: bool)
    ensures
        r == is_shell(degrees@, v),
{
    let d: u32 = if (v as usize) < degrees.len() {
        degrees[v as usize]
    } else {
        0
    };
    2 <= d && d <= 3
}

/// Whether `path` is a chain.
pub fn chain_path(degrees: &[u32], path: &Vec<u32>) -> (r: bool)
    ensures
        r == is_chain(degrees@, path@),
{
    if path.len() < 4 {
        return false;
    }
    let mut k: usize = 1;
    while k < path.len() - 1
        invariant
            1 <= k <= path@.len() - 1,
            path@.len() >= 4,
            forall|j: int| 1 <= j < k ==> is_shell(degrees@, #[trigger] path@[j]),
        decreases path@.len() - k,
    {
        if !shell_node(degrees, path[k]) {
            return false;
        }
        k = k + 1;
    }
    !shell_node(degrees, path[path.len() - 1])
}

/// The search from the tip of `path`, with the path marked in `visited`.
/// Path and marks are restored on return.
fn chain_search(
    depth: usize,
    adj: &Vec<Vec<u32>>,
    degrees: &[u32],
    lim: ChainLimits,
    visited: &mut Vec<bool>,
    path: &mut Vec<u32>,
    count: &mut u64,
    out: &mut Vec<Vec<u32>>,
)
    requires
        graph_ok(views(adj@), old(visited)@.len() as nat),
        old(visited)@.len() <= u32::MAX,
        old(path)@.len() >= 1,
        old(path)@.len() == depth,
        forall|v: int| 0 <= v < old(path)@.len() ==> #[trigger] old(path)@[v] < old(visited)@.len(),
        forall|v: int|
            0 <= v < old(visited)@.len() ==> #[trigger] old(visited)@[v] == old(path)@.contains(
                v as u32,
            ),
        *old(count) <= lim.max_paths_per_start + 1,
    ensures
        final(path)@ == old(path)@,
        final(visited)@ == old(visited)@,
        *final(count) <= lim.max_paths_per_start + 1,
        (*final(count) as nat, views(final(out)@)) == chain_dfs(
            views(adj@),
            degrees@,
            lim,
            old(path)@,
            *old(count) as nat,
            views(old(out)@),
        ),
    decreases lim.max_depth + 1 - depth,
{
    let ghost g = views(adj@);
    let ghost entry_path = path@;
    let ghost n = visited@.len();
    let ghost v0 = visited@;
    if depth > lim.max_depth as usize || *count > lim.max_paths_per_start as u64 {
        return ;
    }
    let cur = path[depth - 1];
    let nb = &adj[cur as usize];
    assert(nb@ == g[cur as int]);
    let limit = if nb.len() > lim.max_neighbors as usize {
        lim.max_neighbors as usize
    } else {
        nb.len()
    };
    let mut i: usize = 0;
    while i < limit
        invariant
            g == views(adj@),
            graph_ok(g, n),
            n == visited@.len(),
            n <= u32::MAX,
            entry_path.len() == depth,
            1 <= depth <= lim.max_depth,
            cur == entry_path.last(),
            cur < n,
            nb@ == g[cur as int],
            limit == neighbor_limit(g, cur, lim.max_neighbors),
            i <= limit,
            path@ == entry_path,
            visited@ == v0,
            forall|v: int| 0 <= v < entry_path.len() ==> #[trigger] entry_path[v] < n,
            forall|v: int| 0 <= v < n ==> #[trigger] visited@[v] == entry_path.contains(v as u32),
            *count <= lim.max_paths_per_start + 1,
            chain_scan(g, degrees@, lim, entry_path, i as nat, *count as nat, views(out@)) == chain_dfs(
                g,
                degrees@,
                lim,
                entry_path,
                *old(count) as nat,
                views(old(out)@),
            ),
        decreases limit - i,
    {
        let next = nb[i];
        assert(next == g[cur as int][i as int]);
        assert(next < n);
        if !visited[next as usize] {
            if *count <= lim.max_paths_per_start as u64 {
                *count = *count + 1;
            }
            visited.set(next as usize, true);
            path.push(next);
            proof {
                assert forall|v: int| 0 <= v < n implies #[trigger] visited@[v] == path@.contains(
                    v as u32,
                ) by {
                    if v == next as int {
                        assert(path@[depth as int] == next);
                    } else {
                        if path@.contains(v as u32) {
                            let j = choose|j: int| 0 <= j < path@.len() && path@[j] == v as u32;
                            assert(entry_path[j] == v as u32);
                        }
                        if entry_path.contains(v as u32) {
                            let j = choose|j: int| 0 <= j < entry_path.len() && entry_path[j] == v as u32;
                            assert(path@[j] == v as u32);
                        }
                    }
                }
                assert(path@.last() == next);
            }
            if chain_path(degrees, path) {
                let ghost before = views(out@);
                let copy = path.clone();
                assert(copy@ =~= path@);
                out.push(copy);
                assert(views(out@) =~= before.push(path@));
            }
            chain_search(depth + 1, adj, degrees, lim, visited, path, count, out);
            path.pop();
            visited.set(next as usize, false);
            assert(path@ =~= entry_path);
            assert(visited@ =~= v0);
        }
        i = i + 1;
    }
}

/// Paths of at least three edges from a node through shell nodes only to a
/// node that is not a shell node, each followed by the sentinel. A node's
/// degree is `degrees[v]`, and 0 past the end of `degrees`. Paths are at most
/// `max_depth` edges long; the search from each node explores at most
/// `max_neighbors` successors of each node and stops expanding once it has
/// made more than `max_paths_per_start` expansions. A reported path is still
/// extended, so a chain and a longer chain through it may both be reported.
/// Edges with an endpoint outside `0 .. node_count` are left out.
pub fn detect_shell_chains(
    node_count: u32,
    senders: &[u32],
    receivers: &[u32],
    degrees: &[u32],
    max_depth: u32,
    max_paths_per_start: u32,
    max_neighbors: u32,
) -> (r: Vec<u32>)
    requires
        senders@.len() == receivers@.len(),
    ensures
        r@ == chains_result(
            node_count,
            senders@,
            receivers@,
            degrees@,
            ChainLimits { max_depth, max_paths_per_start, max_neighbors },
        ),
{
    let lim = ChainLimits { max_depth, max_paths_per_start, max_neighbors };
    let adj = build_successors(node_count, senders, receivers);
    let ghost g = views(adj@);
    let mut visited: Vec<bool> = Vec::new();
    let mut v: u32 = 0;
    while v < node_count
        invariant
            v <= node_count,
            visited@.len() == v,
            forall|u: int| 0 <= u < v ==> !(#[trigger] visited@[u]),
        decreases node_count - v,
    {
        visited.push(false);
        v = v + 1;
    }
    let mut out: Vec<Vec<u32>> = Vec::new();
    let mut start: u32 = 0;
    while start < node_count
        invariant
            g == views(adj@),
            graph_ok(g, node_count as nat),
            visited@.len() == node_count,
            start <= node_count,
            forall|u: int| 0 <= u < node_count ==> !(#[trigger] visited@[u]),
            views(out@) == chains_upto(g, degrees@, lim, start as nat),
        decreases node_count - start,
    {
        let mut path: Vec<u32> = Vec::new();
        path.push(start);
        visited.set(start as usize, true);
        let mut count: u64 = 0;
        proof {
            assert forall|u: int| 0 <= u < node_count implies #[trigger] visited@[u]
                == path@.contains(u as u32) by {
                if u == start as int {
                    assert(path@[0] == start);
                }
            }
            assert(path@ == seq![start]);
        }
        chain_search(1, &adj, degrees, lim, &mut visited, &mut path, &mut count, &mut out);
        visited.set(start as usize, false);
        proof {
            assert forall|u: int| 0 <= u < node_count implies !(#[trigger] visited@[u]) by {
                if u != start as int {
                    if path@.contains(u as u32) {
                        let j = choose|j: int| 0 <= j < path@.len() && path@[j] == u as u32;
                        assert(path@[0] == start);
                    }
                }
            }
        }
        start = start + 1;
    }
    flatten_records(&out)
}

proof fn lemma_root_scan_keeps_out(
    g: Seq<Seq<u32>>,
    degrees: Seq<u32>,
    lim: ChainLimits,
    start: u32,
    i: nat,
    count: nat,
    out: Seq<Seq<u32>>,
)
    requires
        lim.max_paths_per_start == 0,
    ensures
        chain_scan(g, degrees, lim, seq![start], i, count, out).1 == out,
    decreases neighbor_limit(g, start, lim.max_neighbors) - i,
{
    let path = seq![start];
    if i < neighbor_limit(g, path.last(), lim.max_neighbors) && path.len() <= lim.max_depth {
        let next = g[start as int][i as int];
        let after = if path.contains(next) {
            (count, out)
        } else {
            let longer = path.push(next);
            let reported = if is_chain(degrees, longer) {
                out.push(longer)
            } else {
                out
            };
            chain_dfs(g, degrees, lim, longer, bump(count, lim.max_paths_per_start), reported)
        };
        assert(after.1 == out);
        lemma_root_scan_keeps_out(g, degrees, lim, start, i + 1, after.0, out);
    }
}

proof fn lemma_no_chains_upto(g: Seq<Seq<u32>>, degrees: Seq<u32>, lim: ChainLimits, k: nat)
    requires
        lim.max_paths_per_start == 0 || lim.max_neighbors == 0,
    ensures
        chains_upto(g, degrees, lim, k) == Seq::<Seq<u32>>::empty(),
    decreases k,
{
    if k > 0 {
        lemma_no_chains_upto(g, degrees, lim, (k - 1) as nat);
        let start = (k - 1) as u32;
        if lim.max_neighbors != 0 {
            lemma_root_scan_keeps_out(g, degrees, lim, start, 0, 0, Seq::empty());
        }
    }
}

/// With an expansion budget of zero, or with no successor explored per
/// node, no chain is reported.
pub proof fn lemma_zero_budget_no_chains(
    node_count: u32,
    senders: Seq<u32>,
    receivers: Seq<u32>,
    degrees: Seq<u32>,
    lim: ChainLimits,
)
    requires
        lim.max_paths_per_start == 0 || lim.max_neighbors == 0,
    ensures
        chains_result(node_count, senders, receivers, degrees, lim) == Seq::<u32>::empty(),
{
    let g = successors(node_count as nat, senders, receivers);
    lemma_no_chains_upto(g, degrees, lim, node_count as nat);
}

/// Leaving out beforehand the edges with an endpoint outside
/// `0 .. node_count` does not change the chains reported.
pub proof fn lemma_chains_ignore_out_of_range(
    node_count: u32,
    senders: Seq<u32>,
    receivers: Seq<u32>,
    degrees: Seq<u32>,
    lim: ChainLimits,
)
    requires
        senders.len() == receivers.len(),
    ensures
        chains_result(node_count, senders, receivers, degrees, lim) == chains_result(
            node_count,
            in_range_only(node_count as nat, senders, receivers, senders),
            in_range_only(node_count as nat, senders, receivers, receivers),
            degrees,
            lim,
        ),
{
    lemma_out_of_range_edges_ignored(node_count as nat, senders, receivers);
}

/// Every record is a chain.
pub open spec fn all_chains(degrees: Seq<u32>, recs: Seq<Seq<u32>>) -> bool {
    forall|k: int| 0 <= k < recs.len() ==> is_chain(degrees, #[trigger] recs[k])
}

proof fn lemma_dfs_reports_chains(
    g: Seq<Seq<u32>>,
    degrees: Seq<u32>,
    lim: ChainLimits,
    path: Seq<u32>,
    count: nat,
    out: Seq<Seq<u32>>,
)
    requires
        all_chains(degrees, out),
    ensures
        all_chains(degrees, chain_dfs(g, degrees, lim, path, count, out).1),
    decreases lim.max_depth + 1 - path.len(), neighbor_limit(g, path.last(), lim.max_neighbors) + 1,
{
    if !(path.len() > lim.max_depth || count > lim.max_paths_per_start) {
        lemma_scan_reports_chains(g, degrees, lim, path, 0, count, out);
    } else {
        assert(chain_dfs(g, degrees, lim, path, count, out).1 == out);
    }
}

proof fn lemma_scan_reports_chains(
    g: Seq<Seq<u32>>,
    degrees: Seq<u32>,
    lim: ChainLimits,
    path: Seq<u32>,
    i: nat,
    count: nat,
    out: Seq<Seq<u32>>,
)
    requires
        all_chains(degrees, out),
    ensures
        all_chains(degrees, chain_scan(g, degrees, lim, path, i, count, out).1),
    decreases lim.max_depth + 1 - path.len(), neighbor_limit(g, path.last(), lim.max_neighbors) - i,
{
    if !(i >= neighbor_limit(g, path.last(), lim.max_neighbors) || path.len() > lim.max_depth) {
        let next = g[path.last() as int][i as int];
        if !path.contains(next) {
            let longer = path.push(next);
            let reported = if is_chain(degrees, longer) {
                out.push(longer)
            } else {
                out
            };
            assert forall|k: int| 0 <= k < reported.len() implies is_chain(
                degrees,
                #[trigger] reported[k],
            ) by {
                if k < out.len() {
                    assert(reported[k] == out[k]);
                }
            }
            lemma_dfs_reports_chains(
                g,
                degrees,
                lim,
                longer,
                bump(count, lim.max_paths_per_start),
                reported,
            );
            let after = chain_dfs(
                g,
                degrees,
                lim,
                longer,
                bump(count, lim.max_paths_per_start),
                reported,
            );
            lemma_scan_reports_chains(g, degrees, lim, path, i + 1, after.0, after.1);
        } else {
            lemma_scan_reports_chains(g, degrees, lim, path, i + 1, count, out);
        }
    } else {
        assert(chain_scan(g, degrees, lim, path, i, count, out).1 == out);
    }
}

proof fn lemma_chains_upto_are_chains(
    g: Seq<Seq<u32>>,
    degrees: Seq<u32>,
    lim: ChainLimits,
    k: nat,
)
    ensures
        all_chains(degrees, chains_upto(g, degrees, lim, k)),
    decreases k,
{
    if k > 0 {
        lemma_chains_upto_are_chains(g, degrees, lim, (k - 1) as nat);
        let start = (k - 1) as u32;
        lemma_dfs_reports_chains(
            g,
            degrees,
            lim,
            seq![start],
            0,
            chains_upto(g, degrees, lim, (k - 1) as nat),
        );
    }
}

/// Every reported path is a chain: at least three edges, every interior
/// node a shell node, the last node not one.
pub proof fn lemma_reported_paths_are_chains(
    node_count: u32,
    senders: Seq<u32>,
    receivers: Seq<u32>,
    degrees: Seq<u32>,
    lim: ChainLimits,
)
    ensures
        ({
            let recs = chains_upto(
                successors(node_count as nat, senders, receivers),
                degrees,
                lim,
                node_count as nat,
            );
            &&& chains_result(node_count, senders, receivers, degrees, lim) == flatten(recs)
            &&& all_chains(degrees, recs)
        }),
{
    lemma_chains_upto_are_chains(
        successors(node_count as nat, senders, receivers),
        degrees,
        lim,
        node_count as nat,
    );
}

} // verus!
