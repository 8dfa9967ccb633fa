use vstd::prelude::*;

verus! {

/// `s` turned left by `k` places.
pub open spec fn rotate(s: Seq<u32>, k: int) -> Seq<u32> {
    s.subrange(k, s.len() as int) + s.subrange(0, k)
}

/// Lexicographic order on sequences of ids, a proper prefix coming first.
pub open spec fn lex_lt(a: Seq<u32>, b: Seq<u32>) -> bool
    decreases a.len(),
{
    if a.len() == 0 {
        b.len() > 0
    } else if b.len() == 0 {
        false
    } else if a[0] != b[0] {
        a[0] < b[0]
    } else {
        lex_lt(a.drop_first(), b.drop_first())
    }
}

/// The least of the rotations of `s` by `0 .. k` places, the earliest on ties.
pub open spec fn best_rotation(s: Seq<u32>, k: nat) -> Seq<u32>
    decreases k,
{
    if k <= 1 {
        s
    } else {
        let b = best_rotation(s, (k - 1) as nat);
        let c = rotate(s, k - 1);
        if lex_lt(c, b) {
            c
        } else {
            b
        }
    }
}

/// The lexicographically least rotation of `s`: a cycle's identity whatever
/// node it was entered from.
pub open spec fn canonical(s: Seq<u32>) -> Seq<u32> {
    best_rotation(s, s.len())
}

/// Whether `a` comes before `b` in lexicographic order.
pub fn lex_less(a: &Vec<u32>, b: &Vec<u32>) -> (r: bool)
    ensures
        r == lex_lt(a@, b@),
{
    let mut i: usize = 0;
    assert(a@.skip(0) =~= a@);
    assert(b@.skip(0) =~= b@);
    while i < a.len() && i < b.len() && a[i] == b[i]
        invariant
            i <= a@.len(),
            i <= b@.len(),
            lex_lt(a@, b@) == lex_lt(a@.skip(i as int), b@.skip(i as int)),
        decreases a@.len() - i,
    {
        assert(a@.skip(i as int).drop_first() =~= a@.skip(i + 1));
        assert(b@.skip(i as int).drop_first() =~= b@.skip(i + 1));
        i = i + 1;
    }
    if i == a.len() {
        i < b.len()
    } else if i == b.len() {
        false
    } else {
        a[i] < b[i]
    }
}

/// `s` turned left by `k` places.
pub fn rotated(s: &Vec<u32>, k: usize) -> (r: Vec<u32>)
    requires
        k <= s@.len(),
    ensures
        r@ == rotate(s@, k as int),
{
    let mut r: Vec<u32> = Vec::new();
    let mut j: usize = k;
    while j < s.len()
        invariant
            k <= j <= s@.len(),
            r@ == s@.subrange(k as int, j as int),
        decreases s@.len() - j,
    {
        r.push(s[j]);
        j = j + 1;
        assert(r@ =~= s@.subrange(k as int, j as int));
    }
    let mut j: usize = 0;
    while j < k
        invariant
            j <= k <= s@.len(),
            r@ == s@.subrange(k as int, s@.len() as int) + s@.subrange(0, j as int),
        decreases k - j,
    {
        r.push(s[j]);
        j = j + 1;
        assert(r@ =~= s@.subrange(k as int, s@.len() as int) + s@.subrange(0, j as int));
    }
    r
}

/// The canonical form of a cycle: its lexicographically least rotation.
pub fn canonical_rotation(cycle: &Vec<u32>) -> (best: Vec<u32>)
    ensures
        best@ == canonical(cycle@),
{
    let mut best = rotated(cycle, 0);
    assert(best@ =~= cycle@);
    let mut k: usize = 1;
    while k < cycle.len()
        invariant
            1 <= k,
            k <= cycle@.len() || k == 1,
            best@ == best_rotation(cycle@, k as nat),
        decreases cycle@.len() - k,
    {
        let cand = rotated(cycle, k);
        if lex_less(&cand, &best) {
            best = cand;
        }
        k = k + 1;
    }
    if cycle.len() == 0 {
        assert(best_rotation(cycle@, 0) == best_rotation(cycle@, 1));
    }
    best
}

/// No rotation of `c` comes before `c` itself.
pub open spec fn is_least_rotation(c: Seq<u32>) -> bool {
    forall|j: int| 0 <= j < c.len() ==> !lex_lt(#[trigger] rotate(c, j), c)
}

proof fn lemma_lex_irreflexive(a: Seq<u32>)
    ensures
        !lex_lt(a, a),
    decreases a.len(),
{
    if a.len() > 0 {
        lemma_lex_irreflexive(a.drop_first());
    }
}

proof fn lemma_lex_transitive(a: Seq<u32>, b: Seq<u32>, c: Seq<u32>)
    requires
        lex_lt(a, b),
        lex_lt(b, c),
    ensures
        lex_lt(a, c),
    decreases a.len(),
{
    if a.len() > 0 && b.len() > 0 && c.len() > 0 && a[0] == b[0] && b[0] == c[0] {
        lemma_lex_transitive(a.drop_first(), b.drop_first(), c.drop_first());
    }
}

proof fn lemma_rotate_index(s: Seq<u32>, k: int, i: int)
    requires
        0 <= k <= s.len(),
        0 <= i < s.len(),
    ensures
        rotate(s, k).len() == s.len(),
        rotate(s, k)[i] == if i + k < s.len() {
            s[i + k]
        } else {
            s[i + k - s.len()]
        },
{
}

proof fn lemma_rotate_twice(s: Seq<u32>, m: int, j: int)
    requires
        0 <= m < s.len(),
        0 <= j < s.len(),
    ensures
        rotate(rotate(s, m), j) == rotate(
            s,
            if m + j < s.len() {
                m + j
            } else {
                m + j - s.len()
            },
        ),
{
    let t = if m + j < s.len() {
        m + j
    } else {
        m + j - s.len()
    };
    let r = rotate(s, m);
    assert forall|i: int| 0 <= i < s.len() implies rotate(r, j)[i] == rotate(s, t)[i] by {
        lemma_rotate_index(r, j, i);
        lemma_rotate_index(s, t, i);
        let i2 = if i + j < s.len() {
            i + j
        } else {
            i + j - s.len()
        };
        lemma_rotate_index(s, m, i2);
    }
    lemma_rotate_index(r, j, 0);
    lemma_rotate_index(s, t, 0);
    assert(rotate(r, j) =~= rotate(s, t));
}

proof fn lemma_best_rotation(s: Seq<u32>, k: nat)
    requires
        1 <= k <= s.len(),
    ensures
        exists|m: int| 0 <= m < k && best_rotation(s, k) == rotate(s, m),
        forall|j: int| 0 <= j < k ==> !lex_lt(#[trigger] rotate(s, j), best_rotation(s, k)),
    decreases k,
{
    if k == 1 {
        assert(rotate(s, 0) =~= s);
        lemma_lex_irreflexive(s);
    } else {
        lemma_best_rotation(s, (k - 1) as nat);
        let b = best_rotation(s, (k - 1) as nat);
        let c = rotate(s, k - 1);
        if lex_lt(c, b) {
            assert forall|j: int| 0 <= j < k implies !lex_lt(#[trigger] rotate(s, j), c) by {
                if j < k - 1 {
                    if lex_lt(rotate(s, j), c) {
                        lemma_lex_transitive(rotate(s, j), c, b);
                    }
                } else {
                    lemma_lex_irreflexive(c);
                }
            }
        }
    }
}

/// The canonical form of a sequence is a rotation of it, and no rotation of
/// the canonical form comes before it.
pub proof fn lemma_canonical_is_least(s: Seq<u32>)
    ensures
        canonical(s).len() == s.len(),
        is_least_rotation(canonical(s)),
{
    if s.len() > 0 {
        lemma_best_rotation(s, s.len());
        let c = canonical(s);
        let m = choose|m: int| 0 <= m < s.len() && c == rotate(s, m);
        assert forall|j: int| 0 <= j < c.len() implies !lex_lt(#[trigger] rotate(c, j), c) by {
            lemma_rotate_twice(s, m, j);
        }
    }
}

} // verus!
