//! Bounded selection of the `k` samples closest to a query.
use vstd::prelude::*;
use vstd::seq_lib::seq_to_set_is_finite;
use vstd::set_lib::lemma_len_subset;

verus! {

/// Sample `i` ranks before sample `j`: it is strictly closer, or equally close
/// and seen earlier.
pub open spec fn closer(keys: Seq<u64>, i: int, j: int) -> bool {
    keys[i] < keys[j] || (keys[i] == keys[j] && i < j)
}

/// The smaller of two naturals.
pub open spec fn min_of(a: nat, b: nat) -> nat {
    if a <= b { a } else { b }
}

/// `r` holds, in increasing order, the sample indices whose rank by `closer`
/// among all of `keys` is below `k`: every held sample ranks before every
/// sample left out.
pub open spec fn is_nearest(keys: Seq<u64>, k: nat, r: Seq<usize>) -> bool {
    &&& r.len() == min_of(k, keys.len())
    &&& forall|a: int, b: int| 0 <= a < b < r.len() ==> r[a] < r[b]
    &&& forall|a: int| 0 <= a < r.len() ==> r[a] < keys.len()
    &&& forall|a: int, j: int|
        0 <= a < r.len() && 0 <= j < keys.len() && !r.contains(j as usize) ==> closer(
            keys,
            r[a] as int,
            j,
        )
}

/// Sample `x` ranks at or before sample `y`.
pub open spec fn no_later(keys: Seq<u64>, x: usize, y: usize) -> bool {
    x == y || closer(keys, x as int, y as int)
}

/// Position of the parent of position `c` in a binary heap.
pub open spec fn parent(c: int) -> int {
    (c - 1) / 2
}

/// `h` is a binary heap with the sample that ranks last at its root: no
/// sample ranks after its parent.
pub open spec fn heap_ordered(keys: Seq<u64>, h: Seq<usize>) -> bool {
    forall|c: int| 0 < c < h.len() ==> no_later(keys, h[c], #[trigger] h[parent(c)])
}

/// `a` and `b` hold the same distinct samples.
pub open spec fn same_samples(a: Seq<usize>, b: Seq<usize>) -> bool {
    &&& a.len() == b.len()
    &&& a.no_duplicates()
    &&& b.no_duplicates()
    &&& forall|x: usize| a.contains(x) <==> b.contains(x)
}

proof fn lemma_same_samples_trans(a: Seq<usize>, b: Seq<usize>, c: Seq<usize>)
    requires
        same_samples(a, b),
        same_samples(b, c),
    ensures
        same_samples(a, c),
{
    assert forall|x: usize| a.contains(x) <==> c.contains(x) by {
        assert(a.contains(x) <==> b.contains(x));
        assert(b.contains(x) <==> c.contains(x));
    }
}

/// In a heap, every sample ranks at or before the root.
proof fn lemma_root_is_farthest(keys: Seq<u64>, h: Seq<usize>, a: int)
    requires
        heap_ordered(keys, h),
        0 <= a < h.len(),
    ensures
        no_later(keys, h[a], h[0]),
    decreases a,
{
    if a > 0 {
        assert(no_later(keys, h[a], h[parent(a)]));
        lemma_root_is_farthest(keys, h, parent(a));
    }
}

/// Exchanging two positions keeps the samples held.
proof fn lemma_exchange_keeps_samples(h: Seq<usize>, i: int, j: int)
    requires
        0 <= i < h.len(),
        0 <= j < h.len(),
        h.no_duplicates(),
    ensures
        same_samples(h, h.update(i, h[j]).update(j, h[i])),
{
    let e = h.update(i, h[j]).update(j, h[i]);
    assert forall|x: usize| h.contains(x) <==> e.contains(x) by {
        if h.contains(x) {
            let w = choose|w: int| 0 <= w < h.len() && h[w] == x;
            if w == i {
                assert(e[j] == x);
            } else if w == j {
                assert(e[i] == x);
            } else {
                assert(e[w] == x);
            }
        }
        if e.contains(x) {
            let w = choose|w: int| 0 <= w < e.len() && e[w] == x;
            if w == i {
                assert(h[j] == x);
            } else if w == j {
                assert(h[i] == x);
            } else {
                assert(h[w] == x);
            }
        }
    }
}

/// Moves the sample at position `i` up until it ranks at or before its parent.
fn sift_up(keys: &Vec<u64>, h: &mut Vec<usize>, i: usize)
    requires
        i < old(h).len(),
        old(h)@.no_duplicates(),
        forall|a: int| 0 <= a < old(h).len() ==> old(h)[a] < keys.len(),
        forall|c: int|
            0 < c < old(h).len() && c != i ==> no_later(keys@, old(h)[c], #[trigger] old(h)[parent(c)]),
        forall|c: int|
            0 < c < old(h).len() && parent(c) == i && i > 0 ==> no_later(
                keys@,
                #[trigger] old(h)[c],
                old(h)[parent(i as int)],
            ),
    ensures
        heap_ordered(keys@, final(h)@),
        same_samples(old(h)@, final(h)@),
{
    proof {
        lemma_exchange_keeps_samples(h@, 0, 0);
        assert(h@.update(0, h@[0]).update(0, h@[0]) =~= h@);
    }
    let mut i = i;
    while i > 0
        invariant
            i < h.len(),
            same_samples(old(h)@, h@),
            forall|a: int| 0 <= a < h.len() ==> h[a] < keys.len(),
            forall|c: int| 0 < c < h.len() && c != i ==> no_later(keys@, h[c], #[trigger] h[parent(c)]),
            forall|c: int|
                0 < c < h.len() && parent(c) == i && i > 0 ==> no_later(
                    keys@,
                    #[trigger] h[c],
                    h[parent(i as int)],
                ),
        decreases i,
    {
        let p = (i - 1) / 2;
        let x = h[i];
        let y = h[p];
        if keys[x] < keys[y] || (keys[x] == keys[y] && x < y) {
            return;
        }
        assert(x != y);
        let ghost before = h@;
        proof {
            lemma_exchange_keeps_samples(before, i as int, p as int);
        }
        h.set(i, y);
        h.set(p, x);
        assert(h@ == before.update(i as int, before[p as int]).update(p as int, before[i as int]));
        proof {
            lemma_same_samples_trans(old(h)@, before, h@);
        }
        assert forall|c: int| 0 < c < h.len() && c != p implies no_later(keys@, h[c], #[trigger] h[parent(c)]) by {
            if c == i {
            } else if parent(c) == i {
                assert(no_later(keys@, before[c], before[p as int]));
            } else if parent(c) == p {
                assert(no_later(keys@, before[c], before[p as int]));
            } else if c == p {
            } else {
                assert(h[c] == before[c]);
                assert(no_later(keys@, before[c], before[parent(c)]));
            }
        }
        assert forall|c: int|
            0 < c < h.len() && parent(c) == p && p > 0 implies no_later(
            keys@,
            #[trigger] h[c],
            h[parent(p as int)],
        ) by {
            assert(no_later(keys@, before[p as int], before[parent(p as int)]));
            if c != i {
                assert(no_later(keys@, before[c], before[p as int]));
            }
        }
        i = p;
    }
}

/// Moves the sample at position `i` down until no child ranks after it.
fn sift_down(keys: &Vec<u64>, h: &mut Vec<usize>, i: usize)
    requires
        i < old(h).len(),
        old(h)@.no_duplicates(),
        forall|a: int| 0 <= a < old(h).len() ==> old(h)[a] < keys.len(),
        forall|c: int|
            0 < c < old(h).len() && parent(c) != i ==> no_later(keys@, old(h)[c], #[trigger] old(h)[parent(c)]),
        forall|c: int|
            0 < c < old(h).len() && parent(c) == i && i > 0 ==> no_later(
                keys@,
                #[trigger] old(h)[c],
                old(h)[parent(i as int)],
            ),
    ensures
        heap_ordered(keys@, final(h)@),
        same_samples(old(h)@, final(h)@),
{
    proof {
        lemma_exchange_keeps_samples(h@, 0, 0);
        assert(h@.update(0, h@[0]).update(0, h@[0]) =~= h@);
    }
    let n = h.len();
    let mut i = i;
    while i < n / 2
        invariant
            n == h.len(),
            i < n,
            same_samples(old(h)@, h@),
            forall|a: int| 0 <= a < h.len() ==> h[a] < keys.len(),
            forall|c: int| 0 < c < h.len() && parent(c) != i ==> no_later(keys@, h[c], #[trigger] h[parent(c)]),
            forall|c: int|
                0 < c < h.len() && parent(c) == i && i > 0 ==> no_later(
                    keys@,
                    #[trigger] h[c],
                    h[parent(i as int)],
                ),
        decreases n - i,
    {
        let left = 2 * i + 1;
        let mut m = left;
        if left + 1 < n {
            let a = h[left];
            let b = h[left + 1];
            if keys[a] < keys[b] || (keys[a] == keys[b] && a < b) {
                m = left + 1;
            }
        }
        let x = h[m];
        let y = h[i];
        if keys[x] < keys[y] || (keys[x] == keys[y] && x < y) {
            assert forall|c: int| 0 < c < h.len() && parent(c) == i implies no_later(keys@, h[c], #[trigger] h[parent(c)]) by {
                assert(c == left || c == left + 1);
            }
            return;
        }
        assert(x != y);
        let ghost before = h@;
        proof {
            lemma_exchange_keeps_samples(before, m as int, i as int);
        }
        h.set(m, y);
        h.set(i, x);
        assert(h@ == before.update(m as int, before[i as int]).update(i as int, before[m as int]));
        proof {
            lemma_same_samples_trans(old(h)@, before, h@);
        }
        assert forall|c: int| 0 < c < h.len() && parent(c) != m implies no_later(keys@, h[c], #[trigger] h[parent(c)]) by {
            assert(parent(m as int) == i);
            if c == m {
            } else if parent(c) == i {
                assert(c == left || c == left + 1);
                assert(no_later(keys@, before[c], before[m as int]));
            } else if c == i {
                assert(no_later(keys@, before[m as int], before[parent(i as int)]));
            } else if parent(c) == c {
            } else {
                assert(h[c] == before[c]);
                assert(no_later(keys@, before[c], before[parent(c)]));
            }
        }
        assert forall|c: int|
            0 < c < h.len() && parent(c) == m implies no_later(
            keys@,
            #[trigger] h[c],
            h[parent(m as int)],
        ) by {
            assert(parent(m as int) == i);
            assert(no_later(keys@, before[c], before[m as int]));
        }
        i = m;
    }
}

/// The indices, in increasing order, of the `k` samples closest to the query,
/// given each sample's distance key; all of them where there are at most `k`.
///
/// Samples are taken in order into a max-heap bounded to `k`, with the
/// farthest held sample at its root. While the heap is not full a sample joins
/// it; once full, a sample replaces the root only when its key is strictly
/// smaller, so a sample tied with the farthest never displaces it, and among
/// tied farthest samples the one seen last leaves.
pub fn select_nearest(k: usize, keys: &Vec<u64>) -> (r: Vec<usize>)
    ensures
        is_nearest(keys@, k as nat, r@),
        keys.len() <= k ==> r@ == Seq::new(keys.len() as nat, |i: int| i as usize),
{
    let n = keys.len();
    let mut held: Vec<usize> = Vec::new();
    let mut p: usize = 0;
    while p < n
        invariant
            n == keys.len(),
            p <= n,
            held.len() == min_of(k as nat, p as nat),
            heap_ordered(keys@, held@),
            held@.no_duplicates(),
            forall|a: int| 0 <= a < held.len() ==> held[a] < p,
            p <= k ==> forall|j: usize| j < p ==> held@.contains(j),
            forall|x: usize, j: int|
                held@.contains(x) && 0 <= j < p && !held@.contains(j as usize) ==> closer(
                    keys@,
                    x as int,
                    j,
                ),
        decreases n - p,
    {
        let ghost before = held@;
        if held.len() < k {
            held.push(p);
            proof {
                assert forall|x: usize| before.contains(x) implies held@.contains(x) by {
                    let w = choose|w: int| 0 <= w < before.len() && before[w] == x;
                    assert(held[w] == x);
                }
                assert(held[held.len() - 1] == p);
                assert forall|x: usize| held@.contains(x) && x != p implies before.contains(x) by {
                    let w = choose|w: int| 0 <= w < held.len() && held[w] == x;
                    assert(before[w] == x);
                }
            }
            let ghost pushed = held@;
            let last = held.len() - 1;
            sift_up(keys, &mut held, last);
            proof {
                assert forall|a: int| 0 <= a < held.len() implies held[a] < p + 1 by {
                    assert(held@.contains(held[a]));
                    assert(pushed.contains(held[a]));
                    if held[a] != p {
                        let w = choose|w: int| 0 <= w < before.len() && before[w] == held[a];
                    }
                }
                assert forall|j: usize| j < p + 1 implies held@.contains(j) by {
                    if j < p {
                        assert(before.contains(j));
                    }
                    assert(pushed.contains(j));
                }
            }
        } else if k > 0 {
            let far = held[0];
            if keys[p] < keys[far] {
                proof {
                    lemma_root_is_farthest(keys@, before, 0);
                }
                held.set(0, p);
                let ghost mid = held@;
                proof {
                    assert(mid[0] == p);
                    assert forall|x: usize| mid.contains(x) <==> (x == p || (before.contains(x) && x != far)) by {
                        if mid.contains(x) {
                            let w = choose|w: int| 0 <= w < mid.len() && mid[w] == x;
                            if w != 0 {
                                assert(before[w] == x);
                            }
                        }
                        if before.contains(x) && x != far {
                            let w = choose|w: int| 0 <= w < before.len() && before[w] == x;
                            assert(w != 0);
                            assert(mid[w] == x);
                        }
                    }
                    assert forall|c: int| 0 < c < mid.len() && parent(c) != 0 implies no_later(
                        keys@, mid[c], #[trigger] mid[parent(c)]) by {
                        assert(mid[c] == before[c]);
                        assert(mid[parent(c)] == before[parent(c)]);
                    }
                }
                sift_down(keys, &mut held, 0);
                proof {
                    assert forall|x: usize, j: int|
                        held@.contains(x) && 0 <= j < p + 1 && !held@.contains(j as usize) implies closer(
                        keys@,
                        x as int,
                        j,
                    ) by {
                        assert(mid.contains(x));
                        if j == far {
                            if x != p {
                                let w = choose|w: int| 0 <= w < before.len() && before[w] == x;
                                lemma_root_is_farthest(keys@, before, w);
                            }
                        } else {
                            assert(j != p);
                            assert(!before.contains(j as usize));
                            assert(closer(keys@, far as int, j));
                        }
                    }
                    assert forall|a: int| 0 <= a < held.len() implies held[a] < p + 1 by {
                        assert(held@.contains(held[a]));
                        assert(mid.contains(held[a]));
                        if held[a] != p {
                            let w = choose|w: int| 0 <= w < before.len() && before[w] == held[a];
                        }
                    }
                }
            } else {
                proof {
                    assert forall|x: usize, j: int|
                        held@.contains(x) && 0 <= j < p + 1 && !held@.contains(j as usize) implies closer(
                        keys@,
                        x as int,
                        j,
                    ) by {
                        if j == p {
                            let w = choose|w: int| 0 <= w < held.len() && held[w] == x;
                            lemma_root_is_farthest(keys@, held@, w);
                        }
                    }
                }
            }
        }
        p = p + 1;
    }
    let mut kept: Vec<bool> = Vec::new();
    let mut i: usize = 0;
    while i < n
        invariant
            i <= n,
            kept.len() == i,
            forall|j: int| 0 <= j < i ==> !kept[j],
        decreases n - i,
    {
        kept.push(false);
        i = i + 1;
    }
    let mut a: usize = 0;
    while a < held.len()
        invariant
            n == keys.len(),
            kept.len() == n,
            a <= held.len(),
            forall|b: int| 0 <= b < held.len() ==> held[b] < n,
            forall|j: int| 0 <= j < n ==> (kept[j] <==> exists|b: int| 0 <= b < a && held[b] == j),
        decreases held.len() - a,
    {
        let x = held[a];
        kept.set(x, true);
        assert forall|j: int| 0 <= j < n implies (kept[j] <==> exists|b: int|
            0 <= b < a + 1 && held[b] == j) by {
            if j == x {
                assert(held[a as int] == j);
            }
        }
        a = a + 1;
    }
    let mut r: Vec<usize> = Vec::new();
    let mut j: usize = 0;
    while j < n
        invariant
            n == keys.len(),
            kept.len() == n,
            j <= n,
            forall|c: int| 0 <= c < n ==> (kept[c] <==> held@.contains(c as usize)),
            forall|a: int, b: int| 0 <= a < b < r.len() ==> r[a] < r[b],
            forall|a: int| 0 <= a < r.len() ==> r[a] < j,
            forall|a: int| 0 <= a < r.len() ==> kept[r[a] as int],
            forall|c: int| 0 <= c < j && kept[c] ==> r@.contains(c as usize),
        decreases n - j,
    {
        if kept[j] {
            let ghost prior = r@;
            r.push(j);
            assert forall|c: int| 0 <= c < j + 1 && kept[c] implies r@.contains(c as usize) by {
                if c == j {
                    assert(r[r.len() - 1] == c);
                } else {
                    let w = choose|w: int| 0 <= w < prior.len() && prior[w] == c;
                    assert(r[w] == c);
                }
            }
        }
        j = j + 1;
    }
    proof {
        assert forall|x: usize| r@.contains(x) <==> held@.contains(x) by {
            if r@.contains(x) {
                let w = choose|w: int| 0 <= w < r.len() && r[w] == x;
                assert(kept[r[w] as int]);
                assert(held@.contains(x));
            }
            if held@.contains(x) {
                let w = choose|w: int| 0 <= w < held.len() && held[w] == x;
                assert(held[w] < n);
                assert(kept[x as int]);
                assert(r@.contains(x));
            }
        }
        assert(r@.to_set() =~= held@.to_set());
        r@.unique_seq_to_set();
        held@.unique_seq_to_set();
        assert forall|a: int, j: int|
            0 <= a < r.len() && 0 <= j < n && !r@.contains(j as usize) implies closer(
            keys@,
            r[a] as int,
            j,
        ) by {
            assert(held@.contains(r[a]));
            let w = choose|w: int| 0 <= w < held.len() && held[w] == r[a];
            assert(!held@.contains(j as usize));
        }
        if n <= k {
            lemma_increasing_below_is_identity(r@, n as nat);
        }
    }
    r
}

/// The selection is determined: one sequence of indices alone meets
/// `is_nearest` for given keys and `k`, so ties are settled the same way
/// every time.
pub proof fn lemma_nearest_unique(keys: Seq<u64>, k: nat, r1: Seq<usize>, r2: Seq<usize>)
    requires
        is_nearest(keys, k, r1),
        is_nearest(keys, k, r2),
    ensures
        r1 == r2,
{
    lemma_nearest_contained(keys, k, r1, r2);
    lemma_nearest_contained(keys, k, r2, r1);
    assert forall|a: int| 0 <= a < r1.len() implies r1[a] == r2[a] by {
        lemma_increasing_agree(r1, r2, a);
    }
    assert(r1 =~= r2);
}

/// Whatever one selection holds, the other holds too.
proof fn lemma_nearest_contained(keys: Seq<u64>, k: nat, r1: Seq<usize>, r2: Seq<usize>)
    requires
        is_nearest(keys, k, r1),
        is_nearest(keys, k, r2),
    ensures
        forall|x: usize| r1.contains(x) ==> r2.contains(x),
{
    assert forall|x: usize| r1.contains(x) implies r2.contains(x) by {
        if !r2.contains(x) {
            let ax = choose|a: int| 0 <= a < r1.len() && r1[a] == x;
            assert forall|y: usize| r2.contains(y) implies r1.to_set().remove(x).contains(y) by {
                let ay = choose|a: int| 0 <= a < r2.len() && r2[a] == y;
                if !r1.contains(y) {
                    assert(closer(keys, r1[ax] as int, y as int));
                    assert(closer(keys, r2[ay] as int, x as int));
                }
            }
            assert(r2.to_set().subset_of(r1.to_set().remove(x)));
            seq_to_set_is_finite(r1);
            lemma_len_subset(r2.to_set(), r1.to_set().remove(x));
            r1.unique_seq_to_set();
            r2.unique_seq_to_set();
            assert(r1.to_set().contains(x));
        }
    }
}

/// Two strictly increasing sequences that hold the same values agree at each
/// position.
proof fn lemma_increasing_agree(r1: Seq<usize>, r2: Seq<usize>, a: int)
    requires
        r1.len() == r2.len(),
        0 <= a < r1.len(),
        forall|x: int, y: int| 0 <= x < y < r1.len() ==> r1[x] < r1[y],
        forall|x: int, y: int| 0 <= x < y < r2.len() ==> r2[x] < r2[y],
        forall|x: usize| r1.contains(x) <==> r2.contains(x),
    ensures
        r1[a] == r2[a],
    decreases a,
{
    if a > 0 {
        lemma_increasing_agree(r1, r2, a - 1);
    }
    assert forall|b: int| 0 <= b < a implies r1[b] == r2[b] by {
        lemma_increasing_agree(r1, r2, b);
    }
    assert(r1.contains(r1[a]));
    let c = choose|c: int| 0 <= c < r2.len() && r2[c] == r1[a];
    if c < a {
        assert(r1[c] == r2[c]);
    }
    assert(r2.contains(r2[a]));
    let d = choose|d: int| 0 <= d < r1.len() && r1[d] == r2[a];
    if d < a {
        assert(r1[d] == r2[d]);
    }
}

/// A strictly increasing sequence of `n` values below `n` is `0, 1, ..., n - 1`.
pub(crate) proof fn lemma_increasing_below_is_identity(r: Seq<usize>, n: nat)
    requires
        r.len() == n,
        forall|a: int, b: int| 0 <= a < b < r.len() ==> r[a] < r[b],
        forall|a: int| 0 <= a < r.len() ==> r[a] < n,
    ensures
        r == Seq::new(n, |i: int| i as usize),
{
    assert forall|a: int| 0 <= a < n implies r[a] == a by {
        lemma_increasing_lower(r, a);
        lemma_increasing_upper(r, n, a);
    }
    assert(r =~= Seq::new(n, |i: int| i as usize));
}

proof fn lemma_increasing_lower(r: Seq<usize>, a: int)
    requires
        0 <= a < r.len(),
        forall|x: int, y: int| 0 <= x < y < r.len() ==> r[x] < r[y],
    ensures
        r[a] >= a,
    decreases a,
{
    if a > 0 {
        lemma_increasing_lower(r, a - 1);
    }
}

proof fn lemma_increasing_upper(r: Seq<usize>, n: nat, a: int)
    requires
        0 <= a < r.len(),
        r.len() == n,
        forall|x: int, y: int| 0 <= x < y < r.len() ==> r[x] < r[y],
        forall|x: int| 0 <= x < r.len() ==> r[x] < n,
    ensures
        r[a] <= a,
    decreases n - a,
{
    if a + 1 < n {
        lemma_increasing_upper(r, n, a + 1);
    }
}

} // verus!
