//! Stable ordering of list positions by a numeric key: positions with smaller
//! keys first, positions with equal keys in their original order.
use vstd::prelude::*;

verus! {

/// Where `x` goes in `sorted`: after the last element whose key is not above
/// its own, scanning back from position `j`.
pub open spec fn scan_pos(sorted: Seq<usize>, x: usize, keys: Seq<u64>, j: int) -> int
    decreases j,
{
    if j <= 0 || keys[sorted[j - 1] as int] <= keys[x as int] {
        if j <= 0 { 0 } else { j }
    } else {
        scan_pos(sorted, x, keys, j - 1)
    }
}

pub open spec fn insert_by_key(sorted: Seq<usize>, x: usize, keys: Seq<u64>) -> Seq<usize> {
    sorted.insert(scan_pos(sorted, x, keys, sorted.len() as int), x)
}

/// The positions `0..n` ordered by key, ties in position order.
pub open spec fn stable_order(n: nat, keys: Seq<u64>) -> Seq<usize>
    decreases n,
{
    if n == 0 {
        Seq::empty()
    } else {
        insert_by_key(stable_order((n - 1) as nat, keys), (n - 1) as usize, keys)
    }
}

/// Strictly increasing in (key, position).
pub open spec fn key_sorted(s: Seq<usize>, keys: Seq<u64>) -> bool {
    forall|a: int, b: int| 0 <= a < b < s.len() ==> #[trigger] before(s[a], s[b], keys)
}

pub open spec fn before(x: usize, y: usize, keys: Seq<u64>) -> bool {
    keys[x as int] < keys[y as int] || (keys[x as int] == keys[y as int] && x < y)
}

/// Each of the positions `0..n` exactly once.
pub open spec fn is_arrangement(s: Seq<usize>, n: nat) -> bool {
    &&& s.len() == n
    &&& forall|k: int| 0 <= k < s.len() ==> #[trigger] s[k] < n
    &&& forall|i: int| 0 <= i < n ==> #[trigger] s.contains(i as usize)
}

proof fn lemma_scan_pos(sorted: Seq<usize>, x: usize, keys: Seq<u64>, j: int)
    requires
        0 <= j <= sorted.len(),
        forall|k: int| 0 <= k < sorted.len() ==> (sorted[k] as int) < keys.len(),
        (x as int) < keys.len(),
    ensures
        0 <= scan_pos(sorted, x, keys, j) <= j,
        forall|k: int| scan_pos(sorted, x, keys, j) <= k < j ==> keys[sorted[k] as int] > keys[x as int],
        scan_pos(sorted, x, keys, j) > 0 ==> keys[sorted[scan_pos(sorted, x, keys, j) - 1] as int] <= keys[x as int],
    decreases j,
{
    if j > 0 && keys[sorted[j - 1] as int] > keys[x as int] {
        lemma_scan_pos(sorted, x, keys, j - 1);
    }
}

/// The stable order lists every position once, strictly increasing in
/// (key, position): sorted by key, with equal keys in their original order.
pub proof fn law_stable_order(n: nat, keys: Seq<u64>)
    requires
        n <= keys.len(),
        n <= usize::MAX,
    ensures
        is_arrangement(stable_order(n, keys), n),
        key_sorted(stable_order(n, keys), keys),
    decreases n,
{
    if n > 0 {
        let m = (n - 1) as nat;
        law_stable_order(m, keys);
        let s = stable_order(m, keys);
        let x = m as usize;
        let p = scan_pos(s, x, keys, s.len() as int);
        lemma_scan_pos(s, x, keys, s.len() as int);
        let r = s.insert(p, x);
        assert(r == stable_order(n, keys));
        assert(r.len() == n);
        assert forall|k: int| 0 <= k < r.len() implies #[trigger] r[k] < n by {
            if k < p {
                assert(r[k] == s[k]);
            } else if k > p {
                assert(r[k] == s[k - 1]);
            }
        }
        assert forall|i: int| 0 <= i < n implies #[trigger] r.contains(i as usize) by {
            if i == m {
                assert(r[p] == x);
            } else {
                assert(s.contains(i as usize));
                let k = choose|k: int| 0 <= k < s.len() && s[k] == i as usize;
                if k < p {
                    assert(r[k] == s[k]);
                } else {
                    assert(r[k + 1] == s[k]);
                }
            }
        }
        assert forall|a: int, b: int| 0 <= a < b < r.len() implies #[trigger] before(r[a], r[b], keys) by {
            if b < p {
                assert(r[a] == s[a] && r[b] == s[b]);
                assert(before(s[a], s[b], keys));
            } else if b == p {
                assert(r[a] == s[a]);
                assert(s[a] < m);
                if a < p - 1 {
                    assert(before(s[a], s[p - 1], keys));
                }
            } else if a < p {
                assert(r[a] == s[a] && r[b] == s[b - 1]);
                assert(before(s[a], s[b - 1], keys));
            } else if a == p {
                assert(r[b] == s[b - 1]);
            } else {
                assert(r[a] == s[a - 1] && r[b] == s[b - 1]);
                assert(before(s[a - 1], s[b - 1], keys));
            }
        }
    }
}

/// The positions `0..keys.len()` in stable key order.
pub fn stable_order_by_key(keys: &Vec<u64>) -> (r: Vec<usize>)
    ensures
        r@ == stable_order(keys.len() as nat, keys@),
{
    let mut r: Vec<usize> = Vec::new();
    let mut i: usize = 0;
    while i < keys.len()
        invariant
            i <= keys.len(),
            r@ == stable_order(i as nat, keys@),
            is_arrangement(r@, i as nat),
        decreases keys.len() - i,
    {
        proof { law_stable_order(i as nat, keys@); }
        let mut j: usize = r.len();
        while j > 0 && keys[r[j - 1]] > keys[i]
            invariant
                j <= r.len(),
                r.len() == i,
                i < keys.len(),
                is_arrangement(r@, i as nat),
                scan_pos(r@, i, keys@, r.len() as int) == scan_pos(r@, i, keys@, j as int),
            decreases j,
        {
            j = j - 1;
        }
        proof {
            assert(scan_pos(r@, i, keys@, j as int) == j);
        }
        r.insert(j, i);
        proof {
            assert(stable_order(i as nat + 1, keys@) == insert_by_key(stable_order(i as nat, keys@), i, keys@));
            law_stable_order(i as nat + 1, keys@);
        }
        i = i + 1;
    }
    r
}

} // verus!
