use vstd::prelude::*;

verus! {

broadcast use {vstd::seq_lib::group_to_multiset_ensures, vstd::multiset::group_multiset_axioms};

/// Position `a` comes no later than position `b` when positions are ordered by
/// their key, and by position among equal keys.
pub open spec fn key_le(keys: Seq<u64>, a: usize, b: usize) -> bool {
    keys[a as int] < keys[b as int] || (keys[a as int] == keys[b as int] && a <= b)
}

/// `s` lists positions in the order of `key_le`.
pub open spec fn sorted_by_key(keys: Seq<u64>, s: Seq<usize>) -> bool {
    forall|i: int, j: int| 0 <= i <= j < s.len() ==> key_le(keys, s[i], s[j])
}

/// The positions `0, 1, .., n - 1`.
pub open spec fn positions(n: nat) -> Seq<usize> {
    Seq::new(n, |i: int| i as usize)
}

/// Every entry of `s` is a position of `keys`.
pub open spec fn in_range(keys: Seq<u64>, s: Seq<usize>) -> bool {
    forall|i: int| 0 <= i < s.len() ==> s[i] < keys.len()
}

/// `p` lists every position of `keys` once, by increasing key, and by increasing
/// position among equal keys (the order of a stable sort).
pub open spec fn is_stable_order(keys: Seq<u64>, p: Seq<usize>) -> bool {
    &&& p.to_multiset() == positions(keys.len()).to_multiset()
    &&& sorted_by_key(keys, p)
}

fn merge(keys: &Vec<u64>, a: Vec<usize>, b: Vec<usize>) -> (r: Vec<usize>)
    requires
        sorted_by_key(keys@, a@),
        sorted_by_key(keys@, b@),
        in_range(keys@, a@),
        in_range(keys@, b@),
    ensures
        sorted_by_key(keys@, r@),
        in_range(keys@, r@),
        r@.to_multiset() == a@.to_multiset().add(b@.to_multiset()),
{
    let mut out: Vec<usize> = Vec::new();
    let mut i: usize = 0;
    let mut j: usize = 0;
    while i < a.len() || j < b.len()
        invariant
            0 <= i <= a@.len(),
            0 <= j <= b@.len(),
            sorted_by_key(keys@, a@),
            sorted_by_key(keys@, b@),
            in_range(keys@, a@),
            in_range(keys@, b@),
            sorted_by_key(keys@, out@),
            in_range(keys@, out@),
            out@.len() > 0 && i < a@.len() ==> key_le(keys@, out@.last(), a@[i as int]),
            out@.len() > 0 && j < b@.len() ==> key_le(keys@, out@.last(), b@[j as int]),
            out@.to_multiset() == a@.take(i as int).to_multiset().add(
                b@.take(j as int).to_multiset(),
            ),
        decreases a@.len() + b@.len() - i - j,
    {
        let take_a = if i < a.len() && j < b.len() {
            let x = a[i];
            let y = b[j];
            keys[x] < keys[y] || (keys[x] == keys[y] && x <= y)
        } else {
            i < a.len()
        };
        if take_a {
            let x = a[i];
            proof {
                assert(a@.take(i + 1) =~= a@.take(i as int).push(x));
                assert forall|k: int| 0 <= k < out@.len() implies key_le(keys@, out@[k], x) by {
                    assert(key_le(keys@, out@[k], out@.last()));
                }
            }
            out.push(x);
            i += 1;
        } else {
            let y = b[j];
            proof {
                assert(b@.take(j + 1) =~= b@.take(j as int).push(y));
                assert forall|k: int| 0 <= k < out@.len() implies key_le(keys@, out@[k], y) by {
                    assert(key_le(keys@, out@[k], out@.last()));
                }
            }
            out.push(y);
            j += 1;
        }
    }
    proof {
        assert(a@.take(i as int) =~= a@);
        assert(b@.take(j as int) =~= b@);
    }
    out
}

fn merge_sort(keys: &Vec<u64>, s: Vec<usize>) -> (r: Vec<usize>)
    requires
        in_range(keys@, s@),
    ensures
        sorted_by_key(keys@, r@),
        in_range(keys@, r@),
        r@.to_multiset() == s@.to_multiset(),
    decreases s@.len(),
{
    if s.len() <= 1 {
        return s;
    }
    let mut left = s;
    let ghost whole = left@;
    let right = left.split_off(left.len() / 2);
    proof {
        assert(whole =~= left@ + right@);
        vstd::seq_lib::lemma_multiset_commutative(left@, right@);
    }
    let sorted_left = merge_sort(keys, left);
    let sorted_right = merge_sort(keys, right);
    merge(keys, sorted_left, sorted_right)
}

/// The positions of `keys` in the order of a stable sort by key.
pub fn stable_order(keys: &Vec<u64>) -> (p: Vec<usize>)
    ensures
        is_stable_order(keys@, p@),
        p@.len() == keys@.len(),
        in_range(keys@, p@),
{
    let n = keys.len();
    let mut all: Vec<usize> = Vec::with_capacity(n);
    let mut i: usize = 0;
    while i < n
        invariant
            n == keys@.len(),
            0 <= i <= n,
            all@ == positions(i as nat),
        decreases n - i,
    {
        proof {
            assert(positions((i + 1) as nat) =~= positions(i as nat).push(i));
        }
        all.push(i);
        i += 1;
    }
    let p = merge_sort(keys, all);
    proof {
        assert(p@.to_multiset().len() == p@.len());
        assert(all@.to_multiset().len() == all@.len());
    }
    p
}

/// A stable order lists each position exactly once and reaches every position.
pub proof fn lemma_stable_order_is_permutation(keys: Seq<u64>, p: Seq<usize>)
    requires
        is_stable_order(keys, p),
        keys.len() <= usize::MAX,
    ensures
        p.len() == keys.len(),
        forall|k: int| 0 <= k < p.len() ==> p[k] < keys.len(),
        forall|i: usize| i < keys.len() ==> #[trigger] p.contains(i),
        p.no_duplicates(),
{
    let n = keys.len();
    let all = positions(n);
    assert(p.len() == p.to_multiset().len());
    assert(all.len() == all.to_multiset().len());
    assert forall|k: int| 0 <= k < p.len() implies p[k] < n by {
        assert(p.contains(p[k]));
        assert(all.to_multiset().count(p[k]) > 0);
        assert(all.contains(p[k]));
    }
    assert forall|i: usize| i < n implies #[trigger] p.contains(i) by {
        assert(all[i as int] == i);
        assert(all.contains(i));
        assert(p.to_multiset().count(i) > 0);
    }
    assert(all.no_duplicates());
    all.lemma_multiset_has_no_duplicates();
    p.lemma_multiset_has_no_duplicates_conv();
}


/// The distinct values of `vals` that are smaller than `v`.
pub open spec fn smaller_values(vals: Seq<u64>, v: u64) -> Set<u64> {
    vals.to_set().filter(|x: u64| x < v)
}

/// Dense rank of `v` among `vals`: the number of distinct values of `vals` below it.
pub open spec fn dense_rank(vals: Seq<u64>, v: u64) -> nat {
    smaller_values(vals, v).len()
}

proof fn lemma_smaller_values_finite(vals: Seq<u64>, v: u64)
    ensures
        smaller_values(vals, v).finite(),
        vals.to_set().finite(),
{
    vstd::seq_lib::seq_to_set_is_finite(vals);
    vals.to_set().lemma_len_filter(|x: u64| x < v);
}

/// The first position of a stable order holds a smallest value: its rank is zero.
pub proof fn lemma_rank_first(vals: Seq<u64>, p: Seq<usize>)
    requires
        is_stable_order(vals, p),
        vals.len() <= usize::MAX,
        vals.len() > 0,
    ensures
        dense_rank(vals, vals[p[0] as int]) == 0,
{
    lemma_stable_order_is_permutation(vals, p);
    let b = vals[p[0] as int];
    let sb = smaller_values(vals, b);
    lemma_smaller_values_finite(vals, b);
    assert forall|x: u64| !sb.contains(x) by {
        if sb.contains(x) {
            assert(vals.to_set().contains(x));
            assert(vals.contains(x));
            let i = choose|i: int| 0 <= i < vals.len() && vals[i] == x;
            assert(p.contains(i as usize));
            let k = choose|k: int| 0 <= k < p.len() && p[k] == i as usize;
            assert(key_le(vals, p[0], p[k]));
        }
    }
    assert(sb =~= Set::<u64>::empty());
}

/// Along a stable order the values never decrease, and each new value has a dense
/// rank one above the previous value.
pub proof fn lemma_rank_step(vals: Seq<u64>, p: Seq<usize>, j: int)
    requires
        is_stable_order(vals, p),
        vals.len() <= usize::MAX,
        0 < j < vals.len(),
    ensures
        vals[p[j - 1] as int] <= vals[p[j] as int],
        vals[p[j - 1] as int] < vals[p[j] as int] ==> dense_rank(vals, vals[p[j] as int])
            == dense_rank(vals, vals[p[j - 1] as int]) + 1,
{
    lemma_stable_order_is_permutation(vals, p);
    assert(key_le(vals, p[j - 1], p[j]));
    let a = vals[p[j - 1] as int];
    let b = vals[p[j] as int];
    if a < b {
        let sa = smaller_values(vals, a);
        let sb = smaller_values(vals, b);
        lemma_smaller_values_finite(vals, a);
        lemma_smaller_values_finite(vals, b);
        assert forall|x: u64| sb.contains(x) <==> sa.insert(a).contains(x) by {
            if sb.contains(x) {
                assert(vals.to_set().contains(x));
                assert(vals.contains(x));
                let i = choose|i: int| 0 <= i < vals.len() && vals[i] == x;
                assert(p.contains(i as usize));
                let k = choose|k: int| 0 <= k < p.len() && p[k] == i as usize;
                if k >= j {
                    assert(key_le(vals, p[j], p[k]));
                } else {
                    assert(key_le(vals, p[k], p[j - 1]));
                }
            }
            if x == a {
                assert(vals.contains(a)) by {
                    assert(vals[p[j - 1] as int] == a);
                }
                assert(vals.to_set().contains(a));
            }
        }
        assert(sb =~= sa.insert(a));
        assert(!sa.contains(a));
    }
}

/// Dense ranks order the values of `vals` as the values themselves are ordered.
pub proof fn lemma_dense_rank_orders_like_values(vals: Seq<u64>, v1: u64, v2: u64)
    requires
        vals.contains(v1),
        vals.contains(v2),
    ensures
        v1 < v2 <==> dense_rank(vals, v1) < dense_rank(vals, v2),
        v1 == v2 <==> dense_rank(vals, v1) == dense_rank(vals, v2),
{
    lemma_smaller_values_finite(vals, v1);
    lemma_smaller_values_finite(vals, v2);
    if v1 < v2 {
        assert(smaller_values(vals, v1).subset_of(smaller_values(vals, v2)));
        assert(vals.to_set().contains(v1));
        smaller_values(vals, v1).lemma_subset_not_in_lt(smaller_values(vals, v2), v1);
    } else if v2 < v1 {
        assert(smaller_values(vals, v2).subset_of(smaller_values(vals, v1)));
        assert(vals.to_set().contains(v2));
        smaller_values(vals, v2).lemma_subset_not_in_lt(smaller_values(vals, v1), v2);
    }
}

} // verus!
