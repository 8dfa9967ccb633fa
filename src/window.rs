use vstd::prelude::*;

use vstd::set::{axiom_set_insert_len, axiom_set_remove_len};
use vstd::seq_lib::seq_to_set_is_finite;

use crate::graph::{in_range_only, lemma_select_index, lemma_select_len, select};

verus! {

/// A counterparty and the time of the edge that links it to the focal node.
pub type Entry = (u32, i64);

/// Whether edge `i` enters the bucket of its focal node: both endpoints are
/// nodes, its time is known, and its amount is at most `small_threshold`
/// when that is positive.
pub open spec fn qualifies(
    n: nat,
    focal: Seq<u32>,
    other: Seq<u32>,
    timestamps: Seq<Option<i64>>,
    amounts: Seq<i64>,
    small_threshold: i64,
    i: int,
) -> bool {
    &&& focal[i] < n
    &&& other[i] < n
    &&& timestamps[i] is Some
    &&& !(small_threshold > 0 && amounts[i] > small_threshold)
}

/// For each focal node, the entries of the qualifying edges among the
/// first `k`, in edge order.
pub open spec fn buckets_upto(
    n: nat,
    focal: Seq<u32>,
    other: Seq<u32>,
    timestamps: Seq<Option<i64>>,
    amounts: Seq<i64>,
    small_threshold: i64,
    k: nat,
) -> Seq<Seq<Entry>>
    decreases k,
{
    if k == 0 {
        Seq::new(n, |v: int| Seq::<Entry>::empty())
    } else {
        let b = buckets_upto(n, focal, other, timestamps, amounts, small_threshold, (k - 1) as nat);
        let i = k - 1;
        if qualifies(n, focal, other, timestamps, amounts, small_threshold, i) {
            b.update(focal[i] as int, b[focal[i] as int].push((other[i], timestamps[i]->0)))
        } else {
            b
        }
    }
}

/// Every bucket entry names a node.
pub open spec fn entries_ok(b: Seq<Seq<Entry>>, n: nat) -> bool {
    &&& b.len() == n
    &&& forall|v: int, j: int| 0 <= v < n && 0 <= j < b[v].len() ==> #[trigger] b[v][j].0 < n
}

/// `x` placed into `s` after every entry whose time is not later than its own.
pub open spec fn insert_by_time(s: Seq<Entry>, x: Entry) -> Seq<Entry>
    decreases s.len(),
{
    if s.len() == 0 {
        seq![x]
    } else if s.last().1 <= x.1 {
        s.push(x)
    } else {
        insert_by_time(s.drop_last(), x).push(s.last())
    }
}

/// `s` sorted by time; entries of equal time keep their order.
pub open spec fn sort_by_time(s: Seq<Entry>) -> Seq<Entry>
    decreases s.len(),
{
    if s.len() == 0 {
        s
    } else {
        insert_by_time(sort_by_time(s.drop_last()), s.last())
    }
}

pub open spec fn time_ordered(s: Seq<Entry>) -> bool {
    forall|i: int, j: int| 0 <= i <= j < s.len() ==> s[i].1 <= s[j].1
}

/// Time from entry `l` to entry `r`.
pub open spec fn span(s: Seq<Entry>, l: int, r: int) -> int {
    s[r].1 - s[l].1
}

/// The first entry from `l` on that lies within `window_ms` before entry `r`,
/// or `r + 1` if there is none.
pub open spec fn first_within(s: Seq<Entry>, window_ms: i64, r: int, l: int) -> int
    decreases r + 1 - l,
{
    if l > r || span(s, l, r) <= window_ms {
        l
    } else {
        first_within(s, window_ms, r, l + 1)
    }
}

/// The counterparties of the window that ends at entry `r`: the entries up
/// to `r` that lie within `window_ms` before it.
pub open spec fn window_ids(s: Seq<Entry>, window_ms: i64, r: int) -> Seq<u32> {
    s.subrange(first_within(s, window_ms, r, 0), r + 1).map_values(|e: Entry| e.0)
}

/// The first entry from `r` on whose window holds `min_unique` distinct
/// counterparties.
pub open spec fn first_match(s: Seq<Entry>, window_ms: i64, min_unique: u32, r: nat) -> Option<
    nat,
>
    decreases s.len() - r,
{
    if r >= s.len() {
        None
    } else if window_ids(s, window_ms, r as int).to_set().len() >= min_unique {
        Some(r)
    } else {
        first_match(s, window_ms, min_unique, r + 1)
    }
}

/// `s` with each id kept at its first occurrence only.
pub open spec fn first_occurrences(s: Seq<u32>) -> Seq<u32>
    decreases s.len(),
{
    if s.len() == 0 {
        s
    } else if s.drop_last().contains(s.last()) {
        first_occurrences(s.drop_last())
    } else {
        first_occurrences(s.drop_last()).push(s.last())
    }
}

/// The pairs `(v, c)` for `c` in `ids`, flat.
pub open spec fn pairs(v: u32, ids: Seq<u32>) -> Seq<u32>
    decreases ids.len(),
{
    if ids.len() == 0 {
        Seq::empty()
    } else {
        pairs(v, ids.drop_last()) + seq![v, ids.last()]
    }
}

/// What the window scan reports for focal node `v` with the time-sorted
/// bucket `s`: nothing if the bucket has fewer than `min_unique` entries or
/// no window reaches `min_unique` distinct counterparties; otherwise `v`
/// paired with each distinct counterparty of the first window that does, in
/// time order.
pub open spec fn focal_pairs(v: u32, s: Seq<Entry>, window_ms: i64, min_unique: u32) -> Seq<u32> {
    if s.len() < min_unique {
        Seq::empty()
    } else {
        match first_match(s, window_ms, min_unique, 0) {
            None => Seq::empty(),
            Some(r) => pairs(v, first_occurrences(window_ids(s, window_ms, r as int))),
        }
    }
}

/// The reports for focal nodes `0 .. k`, in node order.
pub open spec fn fan_upto(b: Seq<Seq<Entry>>, window_ms: i64, min_unique: u32, k: nat) -> Seq<u32>
    decreases k,
{
    if k == 0 {
        Seq::empty()
    } else {
        fan_upto(b, window_ms, min_unique, (k - 1) as nat) + focal_pairs(
            (k - 1) as u32,
            sort_by_time(b[k - 1]),
            window_ms,
            min_unique,
        )
    }
}

/// The result of the window scan with focal nodes `focal` and counterparties
/// `other`.
pub open spec fn fan_result(
    n: u32,
    focal: Seq<u32>,
    other: Seq<u32>,
    timestamps: Seq<Option<i64>>,
    amounts: Seq<i64>,
    small_threshold: i64,
    window_ms: i64,
    min_unique: u32,
) -> Seq<u32> {
    fan_upto(
        buckets_upto(n as nat, focal, other, timestamps, amounts, small_threshold, focal.len()),
        window_ms,
        min_unique,
        n as nat,
    )
}

/// How often `c` occurs in `s`.
pub open spec fn occ(s: Seq<u32>, c: u32) -> nat
    decreases s.len(),
{
    if s.len() == 0 {
        0
    } else {
        occ(s.drop_last(), c) + if s.last() == c {
            1nat
        } else {
            0nat
        }
    }
}

proof fn lemma_occ(s: Seq<u32>, c: u32)
    ensures
        occ(s, c) <= s.len(),
        occ(s, c) > 0 <==> s.contains(c),
        s.len() > 0 ==> occ(s, c) == occ(s.drop_first(), c) + if s[0] == c {
            1nat
        } else {
            0nat
        },
    decreases s.len(),
{
    if s.len() > 0 {
        lemma_occ(s.drop_last(), c);
        if s.len() > 1 {
            lemma_occ(s.drop_first(), c);
            assert(s.drop_first().drop_last() =~= s.drop_last().drop_first());
        } else {
            assert(s.drop_first().len() == 0);
        }
        if s.drop_last().contains(c) {
            let j = choose|j: int| 0 <= j < s.drop_last().len() && s.drop_last()[j] == c;
            assert(s[j] == c);
        }
        if s.contains(c) && s.last() != c {
            let j = choose|j: int| 0 <= j < s.len() && s[j] == c;
            assert(s.drop_last()[j] == c);
        }
    }
}

proof fn lemma_set_push(s: Seq<u32>, x: u32)
    ensures
        s.push(x).to_set() == s.to_set().insert(x),
        s.push(x).to_set().len() == s.to_set().len() + if s.contains(x) {
            0int
        } else {
            1int
        },
{
    assert forall|c: u32| #[trigger] s.push(x).to_set().contains(c) <==> s.to_set().insert(x).contains(c) by {
        if s.push(x).contains(c) && c != x {
            let j = choose|j: int| 0 <= j < s.push(x).len() && s.push(x)[j] == c;
            assert(s[j] == c);
        }
        if s.contains(c) {
            let j = choose|j: int| 0 <= j < s.len() && s[j] == c;
            assert(s.push(x)[j] == c);
        }
        if c == x {
            assert(s.push(x)[s.len() as int] == c);
        }
    }
    assert(s.push(x).to_set() =~= s.to_set().insert(x));
    seq_to_set_is_finite(s);
    axiom_set_insert_len(s.to_set(), x);
}

proof fn lemma_set_drop_first(s: Seq<u32>)
    requires
        s.len() > 0,
    ensures
        s.drop_first().to_set().len() + if s.drop_first().contains(s[0]) {
            0int
        } else {
            1int
        } == s.to_set().len(),
{
    let t = s.drop_first();
    assert forall|c: u32| #[trigger] s.to_set().contains(c) <==> t.to_set().contains(c) || c == s[0] by {
        if s.contains(c) && c != s[0] {
            let j = choose|j: int| 0 <= j < s.len() && s[j] == c;
            assert(t[j - 1] == c);
        }
        if t.contains(c) {
            let j = choose|j: int| 0 <= j < t.len() && t[j] == c;
            assert(s[j + 1] == c);
        }
    }
    seq_to_set_is_finite(s);
    seq_to_set_is_finite(t);
    if t.contains(s[0]) {
        assert(t.to_set() =~= s.to_set());
    } else {
        assert(t.to_set() =~= s.to_set().remove(s[0]));
        axiom_set_remove_len(s.to_set(), s[0]);
    }
}

proof fn lemma_insert_at(s: Seq<Entry>, x: Entry, p: int)
    requires
        0 <= p <= s.len(),
        forall|j: int| p <= j < s.len() ==> s[j].1 > x.1,
        p == 0 || s[p - 1].1 <= x.1,
    ensures
        insert_by_time(s, x) == s.insert(p, x),
    decreases s.len(),
{
    if s.len() == 0 {
        assert(s.insert(p, x) =~= seq![x]);
    } else if p == s.len() {
        assert(s.insert(p, x) =~= s.push(x));
    } else {
        lemma_insert_at(s.drop_last(), x, p);
        assert(s.insert(p, x) =~= s.drop_last().insert(p, x).push(s.last()));
    }
}

proof fn lemma_insert_keeps(s: Seq<Entry>, x: Entry, n: nat, b: int)
    ensures
        insert_by_time(s, x).len() == s.len() + 1,
        (forall|j: int| 0 <= j < s.len() ==> #[trigger] s[j].0 < n) && x.0 < n ==> forall|j: int|
            0 <= j < s.len() + 1 ==> #[trigger] insert_by_time(s, x)[j].0 < n,
        (forall|j: int| 0 <= j < s.len() ==> #[trigger] s[j].1 <= b) && x.1 <= b ==> forall|j: int|
            0 <= j < s.len() + 1 ==> #[trigger] insert_by_time(s, x)[j].1 <= b,
        time_ordered(s) ==> time_ordered(insert_by_time(s, x)),
    decreases s.len(),
{
    if s.len() > 0 && s.last().1 > x.1 {
        let d = s.drop_last();
        lemma_insert_keeps(d, x, n, b);
        lemma_insert_keeps(d, x, n, s.last().1 as int);
        let t = insert_by_time(d, x);
        if forall|j: int| 0 <= j < s.len() ==> #[trigger] s[j].0 < n {
            assert(forall|j: int| 0 <= j < d.len() ==> #[trigger] d[j].0 < n);
        }
        if forall|j: int| 0 <= j < s.len() ==> #[trigger] s[j].1 <= b {
            assert(forall|j: int| 0 <= j < d.len() ==> #[trigger] d[j].1 <= b);
        }
        if time_ordered(s) {
            assert(forall|j: int| 0 <= j < d.len() ==> #[trigger] d[j].1 <= s.last().1);
            assert(time_ordered(d));
        }
    }
}

proof fn lemma_sort_keeps(s: Seq<Entry>, n: nat)
    ensures
        sort_by_time(s).len() == s.len(),
        time_ordered(sort_by_time(s)),
        (forall|j: int| 0 <= j < s.len() ==> #[trigger] s[j].0 < n) ==> forall|j: int|
            0 <= j < s.len() ==> #[trigger] sort_by_time(s)[j].0 < n,
    decreases s.len(),
{
    if s.len() > 0 {
        lemma_sort_keeps(s.drop_last(), n);
        lemma_insert_keeps(sort_by_time(s.drop_last()), s.last(), n, 0);
        if forall|j: int| 0 <= j < s.len() ==> #[trigger] s[j].0 < n {
            assert(forall|j: int|
                0 <= j < s.drop_last().len() ==> #[trigger] s.drop_last()[j].0 < n);
        }
    }
}

/// The entries of `list` sorted by time, entries of equal time in their
/// given order.
pub fn sorted_by_time(list: &Vec<Entry>) -> (sorted: Vec<Entry>)
    ensures
        sorted@ == sort_by_time(list@),
{
    let mut sorted: Vec<Entry> = Vec::new();
    let mut k: usize = 0;
    assert(list@.take(0) =~= Seq::<Entry>::empty());
    while k < list.len()
        invariant
            k <= list@.len(),
            sorted@ == sort_by_time(list@.take(k as int)),
        decreases list@.len() - k,
    {
        let x = list[k];
        let mut p: usize = sorted.len();
        while p > 0 && sorted[p - 1].1 > x.1
            invariant
                p <= sorted@.len(),
                forall|j: int| p <= j < sorted@.len() ==> sorted@[j].1 > x.1,
            decreases p,
        {
            p = p - 1;
        }
        proof {
            lemma_insert_at(sorted@, x, p as int);
            assert(list@.take(k + 1).drop_last() =~= list@.take(k as int));
        }
        sorted.insert(p, x);
        k = k + 1;
    }
    assert(list@.take(k as int) =~= list@);
    sorted
}

/// The contents of a list of buckets.
pub open spec fn bucket_views(b: Seq<Vec<Entry>>) -> Seq<Seq<Entry>> {
    b.map_values(|x: Vec<Entry>| x@)
}

proof fn lemma_buckets_ok(
    n: nat,
    focal: Seq<u32>,
    other: Seq<u32>,
    timestamps: Seq<Option<i64>>,
    amounts: Seq<i64>,
    small_threshold: i64,
    k: nat,
)
    ensures
        entries_ok(buckets_upto(n, focal, other, timestamps, amounts, small_threshold, k), n),
    decreases k,
{
    if k > 0 {
        lemma_buckets_ok(n, focal, other, timestamps, amounts, small_threshold, (k - 1) as nat);
        let b = buckets_upto(n, focal, other, timestamps, amounts, small_threshold, (k - 1) as nat);
        let b2 = buckets_upto(n, focal, other, timestamps, amounts, small_threshold, k);
        assert forall|v: int, j: int| 0 <= v < n && 0 <= j < b2[v].len() implies #[trigger] b2[v][j].0
            < n by {
            if v != focal[k - 1] as int || !qualifies(
                n,
                focal,
                other,
                timestamps,
                amounts,
                small_threshold,
                k - 1,
            ) {
                assert(b2[v] == b[v]);
            } else if j < b[v].len() {
                assert(b2[v][j] == b[v][j]);
            }
        }
    }
}

/// The bucket of each focal node: the entries of its qualifying edges, in
/// edge order.
fn build_buckets(
    node_count: u32,
    focal: &[u32],
    other: &[u32],
    timestamps: &[Option<i64>],
    amounts: &[i64],
    small_threshold: i64,
) -> (b: Vec<Vec<Entry>>)
    requires
        other@.len() == focal@.len(),
        timestamps@.len() == focal@.len(),
        amounts@.len() == focal@.len(),
    ensures
        bucket_views(b@) == buckets_upto(
            node_count as nat,
            focal@,
            other@,
            timestamps@,
            amounts@,
            small_threshold,
            focal@.len(),
        ),
        entries_ok(bucket_views(b@), node_count as nat),
{
    let mut b: Vec<Vec<Entry>> = Vec::new();
    let mut v: u32 = 0;
    while v < node_count
        invariant
            v <= node_count,
            b@.len() == v,
            forall|u: int| 0 <= u < v ==> (#[trigger] b@[u])@ == Seq::<Entry>::empty(),
        decreases node_count - v,
    {
        b.push(Vec::new());
        v = v + 1;
    }
    assert(bucket_views(b@) =~= buckets_upto(
        node_count as nat,
        focal@,
        other@,
        timestamps@,
        amounts@,
        small_threshold,
        0,
    ));
    let mut i: usize = 0;
    while i < focal.len()
        invariant
            other@.len() == focal@.len(),
            timestamps@.len() == focal@.len(),
            amounts@.len() == focal@.len(),
            i <= focal@.len(),
            b@.len() == node_count,
            bucket_views(b@) == buckets_upto(
                node_count as nat,
                focal@,
                other@,
                timestamps@,
                amounts@,
                small_threshold,
                i as nat,
            ),
        decreases focal@.len() - i,
    {
        proof {
            lemma_buckets_ok(
                node_count as nat,
                focal@,
                other@,
                timestamps@,
                amounts@,
                small_threshold,
                i as nat,
            );
        }
        let f = focal[i];
        let o = other[i];
        let a = amounts[i];
        if f < node_count && o < node_count && !(small_threshold > 0 && a > small_threshold) {
            if let Some(t) = timestamps[i] {
                let ghost before = bucket_views(b@);
                let mut list: Vec<Entry> = Vec::new();
                b.set_and_swap(f as usize, &mut list);
                list.push((o, t));
                b.set_and_swap(f as usize, &mut list);
                assert(bucket_views(b@) =~= before.update(f as int, before[f as int].push((o, t))));
            }
        }
        i = i + 1;
    }
    proof {
        lemma_buckets_ok(
            node_count as nat,
            focal@,
            other@,
            timestamps@,
            amounts@,
            small_threshold,
            focal@.len(),
        );
    }
    b
}

proof fn lemma_first_within_skip(s: Seq<Entry>, window_ms: i64, r: int, l: int)
    requires
        0 <= l <= r + 1,
        forall|j: int| 0 <= j < l ==> #[trigger] span(s, j, r) > window_ms,
    ensures
        first_within(s, window_ms, r, 0) == first_within(s, window_ms, r, l),
    decreases l,
{
    if l > 0 {
        lemma_first_within_skip(s, window_ms, r, l - 1);
    }
}

/// The ids of the entries of `s`.
pub open spec fn ids_of(s: Seq<Entry>) -> Seq<u32> {
    s.map_values(|e: Entry| e.0)
}

/// The window scan over the time-sorted bucket `list` of focal node `v`;
/// what it reports is appended to `result`. `counts`, indexed by
/// counterparty, is all zero before and after.
fn scan_focal(
    v: u32,
    list: &Vec<Entry>,
    window_ms: i64,
    min_unique: u32,
    counts: &mut Vec<usize>,
    result: &mut Vec<u32>,
)
    requires
        time_ordered(list@),
        forall|j: int| 0 <= j < list@.len() ==> #[trigger] list@[j].0 < old(counts)@.len(),
        forall|c: int| 0 <= c < old(counts)@.len() ==> #[trigger] old(counts)@[c] == 0,
        old(counts)@.len() <= u32::MAX,
    ensures
        final(counts)@ == old(counts)@,
        final(result)@ == old(result)@ + focal_pairs(v, list@, window_ms, min_unique),
{
    if list.len() < min_unique as usize {
        return ;
    }
    let ghost ids = ids_of(list@);
    let ghost n = counts@.len();
    let ghost c0 = counts@;
    let ghost r0 = result@;
    let len = list.len();
    let mut left: usize = 0;
    let mut right: usize = 0;
    let mut distinct: usize = 0;
    let mut matched = false;
    assert(ids.subrange(0, 0).to_set() =~= Set::<u32>::empty());
    while right < list.len() && !matched
        invariant
            ids == ids_of(list@),
            n == counts@.len(),
            n <= u32::MAX,
            len == list@.len(),
            c0.len() == n,
            time_ordered(list@),
            list@.len() >= min_unique,
            forall|j: int| 0 <= j < list@.len() ==> #[trigger] list@[j].0 < n,
            left <= right <= list@.len(),
            forall|c: int| 0 <= c < n ==> #[trigger] counts@[c] == occ(
                ids.subrange(left as int, right as int),
                c as u32,
            ),
            distinct == ids.subrange(left as int, right as int).to_set().len(),
            right > 0 ==> left == first_within(list@, window_ms, right - 1, 0),
            right > 0 ==> forall|j: int| 0 <= j < left ==> #[trigger] span(list@, j, right - 1) > window_ms,
            !matched ==> first_match(list@, window_ms, min_unique, 0) == first_match(
                list@,
                window_ms,
                min_unique,
                right as nat,
            ),
            matched ==> right > 0 && first_match(list@, window_ms, min_unique, 0) == Some(
                (right - 1) as nat,
            ),
            result@ == r0,
        decreases list@.len() - right,
    {
        let r = right;
        let c = list[r].0;
        proof {
            let w = ids.subrange(left as int, r as int);
            assert(ids[r as int] == c);
            lemma_occ(w, c);
            lemma_set_push(w, c);
            assert(ids.subrange(left as int, r + 1) =~= w.push(c));
            assert forall|j: int| 0 <= j < left implies #[trigger] span(list@, j, r as int)
                > window_ms by {
                assert(span(list@, j, r - 1) > window_ms);
                assert(list@[r - 1].1 <= list@[r as int].1);
            }
            assert(ids.subrange(left as int, r + 1).drop_last() =~= w);
            w.lemma_cardinality_of_set();
        }
        if counts[c as usize] == 0 {
            distinct = distinct + 1;
        }
        proof {
            lemma_occ(ids.subrange(left as int, r + 1), c);
        }
        let cc = counts[c as usize];
        counts.set(c as usize, cc + 1);
        while left <= r && (list[r].1 as i128) - (list[left].1 as i128) > window_ms as i128
            invariant
                ids == ids_of(list@),
                n == counts@.len(),
                n <= u32::MAX,
                len == list@.len(),
                r < list@.len(),
                left <= r + 1,
                forall|j: int| 0 <= j < list@.len() ==> #[trigger] list@[j].0 < n,
                forall|c: int| 0 <= c < n ==> #[trigger] counts@[c] == occ(
                    ids.subrange(left as int, r + 1),
                    c as u32,
                ),
                distinct == ids.subrange(left as int, r + 1).to_set().len(),
                forall|j: int| 0 <= j < left ==> #[trigger] span(list@, j, r as int) > window_ms,
            decreases r + 1 - left,
        {
            let lc = list[left].0;
            proof {
                let w = ids.subrange(left as int, r + 1);
                assert(w[0] == lc);
                lemma_occ(w, lc);
                lemma_occ(w.drop_first(), lc);
                lemma_set_drop_first(w);
                assert(w.drop_first() =~= ids.subrange(left + 1, r + 1));
                assert forall|c: u32| c != lc implies occ(w, c) == occ(w.drop_first(), c) by {
                    lemma_occ(w, c);
                }
            }
            let lcount = counts[lc as usize];
            counts.set(lc as usize, lcount - 1);
            if lcount == 1 {
                distinct = distinct - 1;
            }
            left = left + 1;
            proof {
                assert forall|c: int| 0 <= c < n implies #[trigger] counts@[c] == occ(
                    ids.subrange(left as int, r + 1),
                    c as u32,
                ) by {
                    let w = ids.subrange(left - 1, r + 1);
                    assert(w.drop_first() =~= ids.subrange(left as int, r + 1));
                    lemma_occ(w, c as u32);
                }
            }
        }
        proof {
            lemma_first_within_skip(list@, window_ms, r as int, left as int);
            assert(window_ids(list@, window_ms, r as int) =~= ids.subrange(left as int, r + 1));
        }
        right = r + 1;
        if distinct >= min_unique as usize {
            matched = true;
        }
    }
    let ghost win = ids.subrange(left as int, right as int);
    let mut k: usize = left;
    assert(ids.subrange(left as int, left as int) =~= Seq::<u32>::empty());
    while k < right
        invariant
            ids == ids_of(list@),
            win == ids.subrange(left as int, right as int),
            left <= k <= right <= list@.len(),
            n == counts@.len(),
            n <= u32::MAX,
            forall|j: int| 0 <= j < list@.len() ==> #[trigger] list@[j].0 < n,
            forall|c: int| 0 <= c < n ==> #[trigger] counts@[c] == if ids.subrange(
                left as int,
                k as int,
            ).contains(c as u32) {
                0
            } else {
                occ(win, c as u32)
            },
            matched ==> result@ == r0 + pairs(
                v,
                first_occurrences(ids.subrange(left as int, k as int)),
            ),
            !matched ==> result@ == r0,
        decreases right - k,
    {
        let c = list[k].0;
        let ghost pre = ids.subrange(left as int, k as int);
        proof {
            assert(win[k - left] == c);
            lemma_occ(win, c);
            assert(ids.subrange(left as int, k + 1) =~= pre.push(c));
            assert(pre.push(c).drop_last() =~= pre);
            assert forall|d: u32| #[trigger] pre.push(c).contains(d) <==> pre.contains(d) || d == c by {
                if pre.push(c).contains(d) && d != c {
                    let j = choose|j: int| 0 <= j < pre.push(c).len() && pre.push(c)[j] == d;
                    assert(pre[j] == d);
                }
                if pre.contains(d) {
                    let j = choose|j: int| 0 <= j < pre.len() && pre[j] == d;
                    assert(pre.push(c)[j] == d);
                }
                if d == c {
                    assert(pre.push(c)[pre.len() as int] == d);
                }
            }
        }
        if counts[c as usize] > 0 {
            if matched {
                result.push(v);
                result.push(c);
                proof {
                    let fo = first_occurrences(pre);
                    assert(first_occurrences(pre.push(c)) == fo.push(c));
                    assert(pairs(v, fo.push(c)) == pairs(v, fo) + seq![v, c]) by {
                        assert(fo.push(c).drop_last() =~= fo);
                    }
                    assert(result@ =~= r0 + pairs(v, first_occurrences(pre.push(c))));
                }
            }
            counts.set(c as usize, 0);
        }
        k = k + 1;
    }
    proof {
        assert(ids.subrange(left as int, k as int) == win);
        assert forall|c: int| 0 <= c < n implies #[trigger] counts@[c] == c0[c] by {
            lemma_occ(win, c as u32);
        }
        assert(counts@ =~= c0);
        if matched {
            assert(window_ids(list@, window_ms, right - 1) =~= win);
        }
    }
}

/// The window scan with focal nodes `focal` and counterparties `other`.
fn detect_fan(
    node_count: u32,
    focal: &[u32],
    other: &[u32],
    timestamps: &[Option<i64>],
    amounts: &[i64],
    small_threshold: i64,
    window_ms: i64,
    min_unique: u32,
) -> (r: Vec<u32>)
    requires
        other@.len() == focal@.len(),
        timestamps@.len() == focal@.len(),
        amounts@.len() == focal@.len(),
    ensures
        r@ == fan_result(
            node_count,
            focal@,
            other@,
            timestamps@,
            amounts@,
            small_threshold,
            window_ms,
            min_unique,
        ),
{
    let buckets = build_buckets(node_count, focal, other, timestamps, amounts, small_threshold);
    let ghost b = bucket_views(buckets@);
    let mut counts: Vec<usize> = Vec::new();
    let mut v: u32 = 0;
    while v < node_count
        invariant
            v <= node_count,
            counts@.len() == v,
            forall|c: int| 0 <= c < v ==> #[trigger] counts@[c] == 0,
        decreases node_count - v,
    {
        counts.push(0);
        v = v + 1;
    }
    let mut result: Vec<u32> = Vec::new();
    let mut v: u32 = 0;
    while v < node_count
        invariant
            b == bucket_views(buckets@),
            entries_ok(b, node_count as nat),
            v <= node_count,
            counts@.len() == node_count,
            forall|c: int| 0 <= c < node_count ==> #[trigger] counts@[c] == 0,
            result@ == fan_upto(b, window_ms, min_unique, v as nat),
        decreases node_count - v,
    {
        assert(buckets[v as int]@ == b[v as int]);
        let sorted = sorted_by_time(&buckets[v as usize]);
        proof {
            lemma_sort_keeps(b[v as int], node_count as nat);
            assert forall|j: int| 0 <= j < b[v as int].len() implies #[trigger] b[v as int][j].0
                < node_count by {}
        }
        scan_focal(v, &sorted, window_ms, min_unique, &mut counts, &mut result);
        v = v + 1;
    }
    result
}

/// Receivers that get edges from at least `min_unique` distinct senders
/// within some span of `window_ms`, counting only edges with a known time
/// and, when `small_threshold` is positive, an amount at most
/// `small_threshold`. For each such receiver, in receiver order, the flat
/// pairs `(receiver, sender)` for the distinct senders of its first such
/// window, in time order. Edges with an endpoint outside `0 .. node_count`
/// are left out.
pub fn detect_fan_in(
    node_count: u32,
    senders: &[u32],
    receivers: &[u32],
    timestamps: &[Option<i64>],
    amounts: &[i64],
    small_threshold: i64,
    window_ms: i64,
    min_unique: u32,
) -> (r: Vec<u32>)
    requires
        receivers@.len() == senders@.len(),
        timestamps@.len() == senders@.len(),
        amounts@.len() == senders@.len(),
    ensures
        r@ == fan_result(
            node_count,
            receivers@,
            senders@,
            timestamps@,
            amounts@,
            small_threshold,
            window_ms,
            min_unique,
        ),
{
    detect_fan(
        node_count,
        receivers,
        senders,
        timestamps,
        amounts,
        small_threshold,
        window_ms,
        min_unique,
    )
}

/// Senders that send edges to at least `min_unique` distinct receivers
/// within some span of `window_ms`, under the same filter as
/// `detect_fan_in`. For each such sender, in sender order, the flat pairs
/// `(sender, receiver)` for the distinct receivers of its first such window,
/// in time order.
pub fn detect_fan_out(
    node_count: u32,
    senders: &[u32],
    receivers: &[u32],
    timestamps: &[Option<i64>],
    amounts: &[i64],
    small_threshold: i64,
    window_ms: i64,
    min_unique: u32,
) -> (r: Vec<u32>)
    requires
        receivers@.len() == senders@.len(),
        timestamps@.len() == senders@.len(),
        amounts@.len() == senders@.len(),
    ensures
        r@ == fan_result(
            node_count,
            senders@,
            receivers@,
            timestamps@,
            amounts@,
            small_threshold,
            window_ms,
            min_unique,
        ),
{
    detect_fan(
        node_count,
        senders,
        receivers,
        timestamps,
        amounts,
        small_threshold,
        window_ms,
        min_unique,
    )
}

proof fn lemma_buckets_prefix(
    n: nat,
    f1: Seq<u32>,
    o1: Seq<u32>,
    t1: Seq<Option<i64>>,
    a1: Seq<i64>,
    f2: Seq<u32>,
    o2: Seq<u32>,
    t2: Seq<Option<i64>>,
    a2: Seq<i64>,
    small_threshold: i64,
    k: nat,
)
    requires
        k <= f1.len() && k <= o1.len() && k <= t1.len() && k <= a1.len(),
        k <= f2.len() && k <= o2.len() && k <= t2.len() && k <= a2.len(),
        forall|j: int| 0 <= j < k ==> f1[j] == f2[j] && o1[j] == o2[j] && t1[j] == t2[j] && a1[j] == a2[j],
    ensures
        buckets_upto(n, f1, o1, t1, a1, small_threshold, k) == buckets_upto(
            n,
            f2,
            o2,
            t2,
            a2,
            small_threshold,
            k,
        ),
    decreases k,
{
    if k > 0 {
        lemma_buckets_prefix(n, f1, o1, t1, a1, f2, o2, t2, a2, small_threshold, (k - 1) as nat);
    }
}

proof fn lemma_buckets_select(
    n: nat,
    focal: Seq<u32>,
    other: Seq<u32>,
    timestamps: Seq<Option<i64>>,
    amounts: Seq<i64>,
    small_threshold: i64,
    keep: spec_fn(int) -> bool,
    k: nat,
)
    requires
        k <= focal.len(),
        other.len() == focal.len(),
        timestamps.len() == focal.len(),
        amounts.len() == focal.len(),
        forall|i: int|
            0 <= i < focal.len() && qualifies(
                n,
                focal,
                other,
                timestamps,
                amounts,
                small_threshold,
                i,
            ) ==> #[trigger] keep(i),
    ensures
        buckets_upto(n, focal, other, timestamps, amounts, small_threshold, k) == buckets_upto(
            n,
            select(focal, keep, k),
            select(other, keep, k),
            select(timestamps, keep, k),
            select(amounts, keep, k),
            small_threshold,
            select(focal, keep, k).len(),
        ),
    decreases k,
{
    lemma_select_len(focal, other, keep, k);
    lemma_select_len(focal, timestamps, keep, k);
    lemma_select_len(focal, amounts, keep, k);
    if k > 0 {
        lemma_buckets_select(n, focal, other, timestamps, amounts, small_threshold, keep, (k - 1) as nat);
        let f1 = select(focal, keep, (k - 1) as nat);
        let o1 = select(other, keep, (k - 1) as nat);
        let t1 = select(timestamps, keep, (k - 1) as nat);
        let a1 = select(amounts, keep, (k - 1) as nat);
        let f2 = select(focal, keep, k);
        let o2 = select(other, keep, k);
        let t2 = select(timestamps, keep, k);
        let a2 = select(amounts, keep, k);
        lemma_select_len(focal, other, keep, (k - 1) as nat);
        lemma_select_len(focal, timestamps, keep, (k - 1) as nat);
        lemma_select_len(focal, amounts, keep, (k - 1) as nat);
        if keep(k - 1) {
            let j = f1.len();
            lemma_select_index(focal, keep, k, j as int);
            lemma_select_index(other, keep, k, j as int);
            lemma_select_index(timestamps, keep, k, j as int);
            lemma_select_index(amounts, keep, k, j as int);
            assert forall|i: int| 0 <= i < j implies f2[i] == f1[i] && o2[i] == o1[i] && t2[i]
                == t1[i] && a2[i] == a1[i] by {
                assert(f2.take(j as int)[i] == f2[i]);
                assert(o2.take(j as int)[i] == o2[i]);
                assert(t2.take(j as int)[i] == t2[i]);
                assert(a2.take(j as int)[i] == a2[i]);
            }
            lemma_buckets_prefix(n, f2, o2, t2, a2, f1, o1, t1, a1, small_threshold, j);
        }
    }
}

/// Leaving out beforehand the edges with an endpoint outside
/// `0 .. node_count` does not change what the window scan reports.
pub proof fn lemma_fan_ignores_out_of_range(
    node_count: u32,
    focal: Seq<u32>,
    other: Seq<u32>,
    timestamps: Seq<Option<i64>>,
    amounts: Seq<i64>,
    small_threshold: i64,
    window_ms: i64,
    min_unique: u32,
)
    requires
        other.len() == focal.len(),
        timestamps.len() == focal.len(),
        amounts.len() == focal.len(),
    ensures
        fan_result(
            node_count,
            focal,
            other,
            timestamps,
            amounts,
            small_threshold,
            window_ms,
            min_unique,
        ) == fan_result(
            node_count,
            in_range_only(node_count as nat, focal, other, focal),
            in_range_only(node_count as nat, focal, other, other),
            in_range_only(node_count as nat, focal, other, timestamps),
            in_range_only(node_count as nat, focal, other, amounts),
            small_threshold,
            window_ms,
            min_unique,
        ),
{
    let n = node_count as nat;
    let keep = |i: int| crate::graph::edge_in_range(n, focal, other, i);
    lemma_buckets_select(
        n,
        focal,
        other,
        timestamps,
        amounts,
        small_threshold,
        keep,
        focal.len(),
    );
}

/// Edges only at most `small_threshold`, with a positive threshold, among
/// the entries of `x`.
pub open spec fn small_only<A>(amounts: Seq<i64>, small_threshold: i64, x: Seq<A>) -> Seq<A> {
    select(x, |i: int| !(amounts[i] > small_threshold), amounts.len())
}

/// With a positive `small_threshold`, an edge whose amount is above it
/// contributes nothing: leaving all such edges out beforehand does not change
/// what the window scan reports.
pub proof fn lemma_fan_ignores_large_amounts(
    node_count: u32,
    focal: Seq<u32>,
    other: Seq<u32>,
    timestamps: Seq<Option<i64>>,
    amounts: Seq<i64>,
    small_threshold: i64,
    window_ms: i64,
    min_unique: u32,
)
    requires
        other.len() == focal.len(),
        timestamps.len() == focal.len(),
        amounts.len() == focal.len(),
        small_threshold > 0,
    ensures
        fan_result(
            node_count,
            focal,
            other,
            timestamps,
            amounts,
            small_threshold,
            window_ms,
            min_unique,
        ) == fan_result(
            node_count,
            small_only(amounts, small_threshold, focal),
            small_only(amounts, small_threshold, other),
            small_only(amounts, small_threshold, timestamps),
            small_only(amounts, small_threshold, amounts),
            small_threshold,
            window_ms,
            min_unique,
        ),
{
    let keep = |i: int| !(amounts[i] > small_threshold);
    lemma_buckets_select(
        node_count as nat,
        focal,
        other,
        timestamps,
        amounts,
        small_threshold,
        keep,
        focal.len(),
    );
}

} // verus!
