use vstd::prelude::*;

verus! {

/// Separator between two records of a flat result list; never a node id,
/// since node ids lie below a `u32` node count.
pub const SENTINEL: u32 = 0xffff_ffff;

/// An edge whose two endpoints are both valid node ids.
pub open spec fn edge_in_range(n: nat, senders: Seq<u32>, receivers: Seq<u32>, i: int) -> bool {
    senders[i] < n && receivers[i] < n
}

/// Successor lists built from the first `k` edges: for each sender, the
/// receivers of its in-range edges, in edge order.
pub open spec fn successors_upto(n: nat, senders: Seq<u32>, receivers: Seq<u32>, k: nat) -> Seq<
    Seq<u32>,
>
    decreases k,
{
    if k == 0 {
        Seq::new(n, |v: int| Seq::<u32>::empty())
    } else {
        let g = successors_upto(n, senders, receivers, (k - 1) as nat);
        let i = k - 1;
        if edge_in_range(n, senders, receivers, i) {
            g.update(senders[i] as int, g[senders[i] as int].push(receivers[i]))
        } else {
            g
        }
    }
}

/// Successor lists of the whole edge list.
pub open spec fn successors(n: nat, senders: Seq<u32>, receivers: Seq<u32>) -> Seq<Seq<u32>> {
    successors_upto(n, senders, receivers, senders.len())
}

/// `g` has one list per node and every listed successor is a node.
pub open spec fn graph_ok(g: Seq<Seq<u32>>, n: nat) -> bool {
    &&& g.len() == n
    &&& forall|v: int, j: int| 0 <= v < n && 0 <= j < g[v].len() ==> #[trigger] g[v][j] < n
}

/// The per-start expansion counter after one more expansion. Only whether
/// it exceeds the budget matters, so it stops one past the budget.
pub open spec fn bump(count: nat, max_paths: u32) -> nat {
    if count > max_paths {
        count
    } else {
        count + 1
    }
}

/// How many successors of `v` are explored.
pub open spec fn neighbor_limit(g: Seq<Seq<u32>>, v: u32, max_neighbors: u32) -> nat {
    if g[v as int].len() > max_neighbors {
        max_neighbors as nat
    } else {
        g[v as int].len()
    }
}

/// The contents of a list of vectors.
pub open spec fn views(v: Seq<Vec<u32>>) -> Seq<Seq<u32>> {
    v.map_values(|x: Vec<u32>| x@)
}

/// Records written one after the other, each followed by the sentinel.
pub open spec fn flatten(recs: Seq<Seq<u32>>) -> Seq<u32>
    decreases recs.len(),
{
    if recs.len() == 0 {
        Seq::empty()
    } else {
        flatten(recs.drop_last()) + recs.last().push(SENTINEL)
    }
}

pub proof fn lemma_successors_ok(n: nat, senders: Seq<u32>, receivers: Seq<u32>, k: nat)
    requires
        k <= senders.len(),
        senders.len() == receivers.len(),
    ensures
        graph_ok(successors_upto(n, senders, receivers, k), n),
    decreases k,
{
    if k > 0 {
        lemma_successors_ok(n, senders, receivers, (k - 1) as nat);
        let g = successors_upto(n, senders, receivers, (k - 1) as nat);
        let g2 = successors_upto(n, senders, receivers, k);
        assert forall|v: int, j: int| 0 <= v < n && 0 <= j < g2[v].len() implies #[trigger] g2[v][j]
            < n by {
            if v != senders[k - 1] as int || !edge_in_range(n, senders, receivers, k - 1) {
                assert(g2[v] == g[v]);
            } else if j < g[v].len() {
                assert(g2[v][j] == g[v][j]);
            }
        }
    }
}

/// Successor lists of the graph: edges whose sender or receiver is not a
/// node are left out.
pub fn build_successors(node_count: u32, senders: &[u32], receivers: &[u32]) -> (adj: Vec<
    Vec<u32>,
>)
    requires
        senders@.len() == receivers@.len(),
    ensures
        views(adj@) == successors(node_count as nat, senders@, receivers@),
        graph_ok(views(adj@), node_count as nat),
{
    let n = node_count as usize;
    let mut adj: Vec<Vec<u32>> = Vec::new();
    let mut v: usize = 0;
    while v < n
        invariant
            n == node_count as nat,
            v <= n,
            adj@.len() == v,
            forall|u: int| 0 <= u < v ==> (#[trigger] adj@[u])@ == Seq::<u32>::empty(),
        decreases n - v,
    {
        adj.push(Vec::new());
        v = v + 1;
    }
    assert(views(adj@) =~= successors_upto(node_count as nat, senders@, receivers@, 0));
    let mut i: usize = 0;
    while i < senders.len()
        invariant
            n == node_count as nat,
            senders@.len() == receivers@.len(),
            i <= senders@.len(),
            views(adj@) == successors_upto(node_count as nat, senders@, receivers@, i as nat),
        decreases senders@.len() - i,
    {
        let s = senders[i];
        let r = receivers[i];
        proof {
            lemma_successors_ok(node_count as nat, senders@, receivers@, i as nat);
        }
        if s < node_count && r < node_count {
            let ghost before = views(adj@);
            let mut list: Vec<u32> = Vec::new();
            adj.set_and_swap(s as usize, &mut list);
            list.push(r);
            adj.set_and_swap(s as usize, &mut list);
            assert(views(adj@) =~= before.update(s as int, before[s as int].push(r)));
        }
        i = i + 1;
    }
    proof {
        lemma_successors_ok(node_count as nat, senders@, receivers@, senders@.len());
    }
    adj
}

/// Writes the records one after the other, each followed by the sentinel.
pub fn flatten_records(recs: &Vec<Vec<u32>>) -> (out: Vec<u32>)
    ensures
        out@ == flatten(views(recs@)),
{
    let mut out: Vec<u32> = Vec::new();
    let mut k: usize = 0;
    while k < recs.len()
        invariant
            k <= recs@.len(),
            out@ == flatten(views(recs@).take(k as int)),
        decreases recs@.len() - k,
    {
        let rec = &recs[k];
        let ghost before = out@;
        let mut j: usize = 0;
        while j < rec.len()
            invariant
                j <= rec@.len(),
                out@ == before + rec@.take(j as int),
            decreases rec@.len() - j,
        {
            out.push(rec[j]);
            j = j + 1;
            assert(out@ =~= before + rec@.take(j as int));
        }
        out.push(SENTINEL);
        assert(views(recs@).take(k + 1).drop_last() =~= views(recs@).take(k as int));
        assert(rec@.take(j as int) =~= rec@);
        assert(out@ =~= flatten(views(recs@).take(k + 1)));
        k = k + 1;
    }
    assert(views(recs@).take(k as int) =~= views(recs@));
    out
}

/// The number of edges, handed back as given.
pub fn analyze_stub(edge_count: usize) -> (r: usize)
    ensures
        r == edge_count,
{
    edge_count
}

/// The entries of `s` among the first `k` whose index satisfies `keep`, in
/// order.
pub open spec fn select<A>(s: Seq<A>, keep: spec_fn(int) -> bool, k: nat) -> Seq<A>
    decreases k,
{
    if k == 0 {
        Seq::empty()
    } else if keep(k - 1) {
        select(s, keep, (k - 1) as nat).push(s[k - 1])
    } else {
        select(s, keep, (k - 1) as nat)
    }
}

/// `x` restricted to the edges whose two endpoints are nodes.
pub open spec fn in_range_only<A>(n: nat, senders: Seq<u32>, receivers: Seq<u32>, x: Seq<A>) -> Seq<A> {
    select(x, |i: int| edge_in_range(n, senders, receivers, i), senders.len())
}

pub proof fn lemma_select_len<A, B>(a: Seq<A>, b: Seq<B>, keep: spec_fn(int) -> bool, k: nat)
    ensures
        select(a, keep, k).len() == select(b, keep, k).len(),
        select(a, keep, k).len() <= k,
    decreases k,
{
    if k > 0 {
        lemma_select_len(a, b, keep, (k - 1) as nat);
    }
}

/// The entries of a selection are the entries at the kept indices.
pub proof fn lemma_select_index<A>(s: Seq<A>, keep: spec_fn(int) -> bool, k: nat, j: int)
    requires
        0 < k,
        keep(k - 1),
        j == select(s, keep, (k - 1) as nat).len(),
    ensures
        select(s, keep, k)[j] == s[k - 1],
        select(s, keep, k).take(j) == select(s, keep, (k - 1) as nat),
{
    assert(select(s, keep, k).take(j) =~= select(s, keep, (k - 1) as nat));
}

proof fn lemma_successors_prefix(
    n: nat,
    s1: Seq<u32>,
    r1: Seq<u32>,
    s2: Seq<u32>,
    r2: Seq<u32>,
    k: nat,
)
    requires
        k <= s1.len(),
        k <= s2.len(),
        k <= r1.len(),
        k <= r2.len(),
        s1.take(k as int) == s2.take(k as int),
        r1.take(k as int) == r2.take(k as int),
    ensures
        successors_upto(n, s1, r1, k) == successors_upto(n, s2, r2, k),
    decreases k,
{
    if k > 0 {
        assert(s1[k - 1] == s1.take(k as int)[k - 1]);
        assert(s2[k - 1] == s2.take(k as int)[k - 1]);
        assert(r1[k - 1] == r1.take(k as int)[k - 1]);
        assert(r2[k - 1] == r2.take(k as int)[k - 1]);
        assert(s1.take(k - 1) =~= s1.take(k as int).take(k - 1));
        assert(s2.take(k - 1) =~= s2.take(k as int).take(k - 1));
        assert(r1.take(k - 1) =~= r1.take(k as int).take(k - 1));
        assert(r2.take(k - 1) =~= r2.take(k as int).take(k - 1));
        lemma_successors_prefix(n, s1, r1, s2, r2, (k - 1) as nat);
    }
}

proof fn lemma_successors_select(n: nat, senders: Seq<u32>, receivers: Seq<u32>, k: nat)
    requires
        k <= senders.len(),
        senders.len() == receivers.len(),
    ensures
        ({
            let keep = |i: int| edge_in_range(n, senders, receivers, i);
            let s2 = select(senders, keep, k);
            let r2 = select(receivers, keep, k);
            successors_upto(n, senders, receivers, k) == successors_upto(n, s2, r2, s2.len())
        }),
    decreases k,
{
    let keep = |i: int| edge_in_range(n, senders, receivers, i);
    lemma_select_len(senders, receivers, keep, k);
    if k > 0 {
        lemma_successors_select(n, senders, receivers, (k - 1) as nat);
        let s1 = select(senders, keep, (k - 1) as nat);
        let r1 = select(receivers, keep, (k - 1) as nat);
        let s2 = select(senders, keep, k);
        let r2 = select(receivers, keep, k);
        lemma_select_len(senders, receivers, keep, (k - 1) as nat);
        if keep(k - 1) {
            let j = s1.len();
            lemma_select_index(senders, keep, k, j as int);
            lemma_select_index(receivers, keep, k, j as int);
            assert(s2.take(j as int) =~= s1.take(j as int));
            assert(r2.take(j as int) =~= r1.take(j as int));
            lemma_successors_prefix(n, s2, r2, s1, r1, j);
            assert(edge_in_range(n, s2, r2, j as int));
        }
    }
}

/// Edges with an endpoint outside `0 .. n` add nothing to the successor
/// lists: leaving them out beforehand gives the same lists.
pub proof fn lemma_out_of_range_edges_ignored(n: nat, senders: Seq<u32>, receivers: Seq<u32>)
    requires
        senders.len() == receivers.len(),
    ensures
        successors(n, senders, receivers) == successors(
            n,
            in_range_only(n, senders, receivers, senders),
            in_range_only(n, senders, receivers, receivers),
        ),
{
    lemma_successors_select(n, senders, receivers, senders.len());
}

} // verus!
