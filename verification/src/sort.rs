//! Stable sorting by integer keys.

use crate::table::{desc_asc_key, has_width};
use vstd::prelude::*;

verus! {

/// Position `a` comes before position `b`: by key, and among equal keys by position.
pub open spec fn key_index_lt(keys: Seq<int>, a: int, b: int) -> bool {
    keys[a] < keys[b] || (keys[a] == keys[b] && a < b)
}

/// `order` lists every position of `keys` exactly once, ascending by key,
/// equal keys keeping their relative order.
pub open spec fn is_stable_order(keys: Seq<int>, order: Seq<int>) -> bool {
    &&& order.len() == keys.len()
    &&& forall|k: int| 0 <= k < order.len() ==> 0 <= #[trigger] order[k] < keys.len()
    &&& forall|v: int| 0 <= v < keys.len() ==> #[trigger] order.contains(v)
    &&& forall|k: int, l: int|
        0 <= k < l < order.len() ==> key_index_lt(keys, #[trigger] order[k], #[trigger] order[l])
}

/// The stable sorting order of `keys` (it exists and is unique).
pub open spec fn stable_order(keys: Seq<int>) -> Seq<int> {
    choose|o: Seq<int>| is_stable_order(keys, o)
}

/// `s` stably sorted by `keys` (`keys[i]` is the key of `s[i]`).
pub open spec fn sort_by_keys<T>(s: Seq<T>, keys: Seq<int>) -> Seq<T> {
    stable_order(keys).map_values(|i: int| s[i])
}

pub open spec fn ints_of_usize(s: Seq<usize>) -> Seq<int> {
    s.map_values(|i: usize| i as int)
}

pub open spec fn ints_of_u128(s: Seq<u128>) -> Seq<int> {
    s.map_values(|k: u128| k as int)
}

proof fn lemma_stable_order_prefix(keys: Seq<int>, o1: Seq<int>, o2: Seq<int>, k: int)
    requires
        is_stable_order(keys, o1),
        is_stable_order(keys, o2),
        0 <= k <= o1.len(),
    ensures
        forall|j: int| 0 <= j < k ==> o1[j] == o2[j],
    decreases k,
{
    if k > 0 {
        lemma_stable_order_prefix(keys, o1, o2, k - 1);
        let i = k - 1;
        let a = o1[i];
        let b = o2[i];
        if a != b {
            if key_index_lt(keys, a, b) {
                assert(o2.contains(a));
                let j = choose|j: int| 0 <= j < o2.len() && o2[j] == a;
                if j > i {
                    assert(key_index_lt(keys, o2[i], o2[j]));
                } else {
                    assert(o1[j] == a);
                    assert(key_index_lt(keys, o1[j], o1[i]));
                }
            } else {
                assert(o1.contains(b));
                let j = choose|j: int| 0 <= j < o1.len() && o1[j] == b;
                if j > i {
                    assert(key_index_lt(keys, o1[i], o1[j]));
                } else {
                    assert(o2[j] == b);
                    assert(key_index_lt(keys, o2[j], o2[i]));
                }
            }
        }
    }
}

/// The stable order of a key sequence is unique.
pub proof fn lemma_stable_order_unique(keys: Seq<int>, o: Seq<int>)
    requires
        is_stable_order(keys, o),
    ensures
        stable_order(keys) == o,
{
    let c = stable_order(keys);
    assert(is_stable_order(keys, c));
    lemma_stable_order_prefix(keys, c, o, c.len() as int);
    assert(c =~= o);
}

/// `o` lists each of the positions `0..n` exactly once.
pub open spec fn is_index_permutation(o: Seq<int>, n: int) -> bool {
    &&& o.len() == n
    &&& forall|k: int| 0 <= k < o.len() ==> 0 <= #[trigger] o[k] < n
    &&& forall|v: int| 0 <= v < n ==> #[trigger] o.contains(v)
    &&& forall|k: int, l: int| 0 <= k < l < o.len() ==> #[trigger] o[k] != #[trigger] o[l]
}

/// Reordering a sequence by a permutation of its positions keeps its elements.
pub proof fn lemma_permutation_multiset<T>(s: Seq<T>, o: Seq<int>)
    requires
        is_index_permutation(o, s.len() as int),
    ensures
        o.map_values(|i: int| s[i]).to_multiset() == s.to_multiset(),
    decreases s.len(),
{
    broadcast use vstd::seq_lib::group_to_multiset_ensures;
    if s.len() > 0 {
        let n = s.len() as int;
        assert(o.contains(n - 1));
        let j = choose|j: int| 0 <= j < o.len() && o[j] == n - 1;
        let o2 = o.remove(j);
        let s2 = s.drop_last();
        assert forall|k: int| 0 <= k < o2.len() implies 0 <= #[trigger] o2[k] < n - 1 by {
            if k < j {
                assert(o2[k] == o[k]);
            } else {
                assert(o2[k] == o[k + 1]);
            }
        }
        assert forall|v: int| 0 <= v < n - 1 implies #[trigger] o2.contains(v) by {
            assert(o.contains(v));
            let m = choose|m: int| 0 <= m < o.len() && o[m] == v;
            if m < j {
                assert(o2[m] == v);
            } else {
                assert(o2[m - 1] == v);
            }
        }
        assert forall|k: int, l: int| 0 <= k < l < o2.len() implies #[trigger] o2[k] != #[trigger] o2[l] by {
            let k2 = if k < j { k } else { k + 1 };
            let l2 = if l < j { l } else { l + 1 };
            assert(o2[k] == o[k2] && o2[l] == o[l2]);
        }
        lemma_permutation_multiset(s2, o2);
        let m2 = o2.map_values(|i: int| s2[i]);
        let m = o.map_values(|i: int| s[i]);
        assert(m =~= m2.insert(j, s[n - 1]));
        vstd::seq_lib::to_multiset_insert(m2, j, s[n - 1]);
        assert(s =~= s2.push(s[n - 1]));
        vstd::seq_lib::to_multiset_build(s2, s[n - 1]);
    } else {
        assert(o.map_values(|i: int| s[i]) =~= s);
    }
}

proof fn find_insert_pos(keys: Seq<int>, o: Seq<int>, x: int, p: int) -> (q: int)
    requires
        0 <= p <= o.len(),
        forall|k: int| 0 <= k < o.len() ==> 0 <= #[trigger] o[k] < keys.len(),
        forall|r: int| p <= r < o.len() ==> keys[#[trigger] o[r]] > x,
    ensures
        0 <= q <= p,
        forall|r: int| q <= r < o.len() ==> keys[#[trigger] o[r]] > x,
        q > 0 ==> keys[o[q - 1]] <= x,
    decreases p,
{
    if p > 0 && keys[o[p - 1]] > x {
        find_insert_pos(keys, o, x, p - 1)
    } else {
        p
    }
}

/// Every key sequence has a stable order.
pub proof fn lemma_stable_order_exists(keys: Seq<int>)
    ensures
        is_stable_order(keys, stable_order(keys)),
    decreases keys.len(),
{
    if keys.len() == 0 {
        assert(is_stable_order(keys, Seq::<int>::empty()));
    } else {
        let n = keys.len() as int;
        let pre = keys.drop_last();
        lemma_stable_order_exists(pre);
        let o = stable_order(pre);
        let p = find_insert_pos(keys, o, keys[n - 1], o.len() as int);
        let o2 = o.insert(p, n - 1);
        assert forall|k: int| 0 <= k < o2.len() implies 0 <= #[trigger] o2[k] < n by {
            if k < p {
                assert(o2[k] == o[k]);
            } else if k > p {
                assert(o2[k] == o[k - 1]);
            }
        }
        assert forall|v: int| 0 <= v < n implies #[trigger] o2.contains(v) by {
            if v == n - 1 {
                assert(o2[p] == v);
            } else {
                assert(o.contains(v));
                let j = choose|j: int| 0 <= j < o.len() && o[j] == v;
                if j < p {
                    assert(o2[j] == v);
                } else {
                    assert(o2[j + 1] == v);
                }
            }
        }
        assert forall|k: int, l: int| 0 <= k < l < o2.len() implies key_index_lt(
            keys,
            #[trigger] o2[k],
            #[trigger] o2[l],
        ) by {
            if p > 0 && k < p {
                assert(key_index_lt(keys, o[p - 1], n - 1));
                if k < p - 1 {
                    assert(key_index_lt(pre, o[k], o[p - 1]));
                }
            }
            if k < p && l > p {
                assert(key_index_lt(pre, o[k], o[l - 1]));
            } else if k < p && l < p {
                assert(key_index_lt(pre, o[k], o[l]));
            } else if k > p {
                assert(key_index_lt(pre, o[k - 1], o[l - 1]));
            } else if k == p {
                assert(keys[o[l - 1]] > keys[n - 1]);
            }
        }
        assert(is_stable_order(keys, o2));
    }
}

/// A stable order is a permutation of the positions.
pub proof fn lemma_stable_order_is_permutation(keys: Seq<int>, o: Seq<int>)
    requires
        is_stable_order(keys, o),
    ensures
        is_index_permutation(o, keys.len() as int),
{
    assert forall|k: int, l: int| 0 <= k < l < o.len() implies #[trigger] o[k] != #[trigger] o[l] by {
        assert(key_index_lt(keys, o[k], o[l]));
    }
}

/// Sorting by keys rearranges the elements (same multiset) so that the keys
/// ascend, equal keys keeping their relative order.
pub proof fn lemma_sort_by_keys<T>(s: Seq<T>, keys: Seq<int>)
    requires
        keys.len() == s.len(),
    ensures
        is_stable_order(keys, stable_order(keys)),
        sort_by_keys(s, keys).len() == s.len(),
        sort_by_keys(s, keys).to_multiset() == s.to_multiset(),
        forall|k: int| 0 <= k < s.len() ==> #[trigger] sort_by_keys(s, keys)[k] == s[stable_order(keys)[k]],
        forall|k: int, l: int| 0 <= k <= l < s.len() ==>
            keys[#[trigger] stable_order(keys)[k]] <= keys[#[trigger] stable_order(keys)[l]],
{
    lemma_stable_order_exists(keys);
    let o = stable_order(keys);
    lemma_stable_order_is_permutation(keys, o);
    lemma_permutation_multiset(s, o);
    assert forall|k: int, l: int| 0 <= k <= l < s.len() implies
        keys[#[trigger] o[k]] <= keys[#[trigger] o[l]] by {
        if k < l {
            assert(key_index_lt(keys, o[k], o[l]));
        }
    }
}

/// Sorting keeps exactly the elements that were there.
pub proof fn lemma_sort_by_keys_contains<T>(s: Seq<T>, keys: Seq<int>)
    requires
        keys.len() == s.len(),
    ensures
        forall|x: T| #[trigger] sort_by_keys(s, keys).contains(x) <==> s.contains(x),
{
    lemma_sort_by_keys(s, keys);
    assert forall|x: T| #[trigger] sort_by_keys(s, keys).contains(x) <==> s.contains(x) by {
        vstd::seq_lib::to_multiset_contains(s, x);
        vstd::seq_lib::to_multiset_contains(sort_by_keys(s, keys), x);
    }
}

/// A key read as a number in base `2^64`, most significant digit first; on
/// keys of one length this orders them lexicographically.
pub open spec fn lex_value(k: Seq<u64>) -> int
    decreases k.len(),
{
    if k.len() == 0 {
        0
    } else {
        lex_value(k.drop_last()) * 0x1_0000_0000_0000_0000 + k.last()
    }
}

/// The `lex_value` of each key.
pub open spec fn lex_values(keys: Seq<Seq<u64>>) -> Seq<int> {
    keys.map_values(|k: Seq<u64>| lex_value(k))
}

/// All keys have the same length.
pub open spec fn same_width(keys: Seq<Seq<u64>>) -> bool {
    forall|a: int, b: int| 0 <= a < keys.len() && 0 <= b < keys.len() ==> (#[trigger] keys[a]).len() == (#[trigger] keys[b]).len()
}

/// `a` comes before `b` lexicographically: they agree up to a position where `a` is smaller.
pub open spec fn lex_before(a: Seq<u64>, b: Seq<u64>) -> bool {
    exists|i: int| #![trigger a[i], b[i]] 0 <= i < a.len() && i < b.len() && a.take(i) == b.take(i) && a[i] < b[i]
}

/// Each key equals or comes lexicographically before every later one.
pub open spec fn lex_ordered(keys: Seq<Seq<u64>>) -> bool {
    forall|k: int, l: int| 0 <= k < l < keys.len() ==> #[trigger] keys[k] == #[trigger] keys[l] || lex_before(keys[k], keys[l])
}

proof fn lemma_digit_step(p: int, x: int, q: int, y: int)
    requires
        0 <= x <= u64::MAX,
        0 <= y <= u64::MAX,
    ensures
        (p * 0x1_0000_0000_0000_0000 + x < q * 0x1_0000_0000_0000_0000 + y) <==> (p < q || (p == q && x < y)),
        (p * 0x1_0000_0000_0000_0000 + x == q * 0x1_0000_0000_0000_0000 + y) <==> (p == q && x == y),
{
    if p < q {
        assert(p * 0x1_0000_0000_0000_0000 + 0x1_0000_0000_0000_0000 <= q * 0x1_0000_0000_0000_0000) by (nonlinear_arith)
            requires
                p < q,
        ;
    } else if q < p {
        assert(q * 0x1_0000_0000_0000_0000 + 0x1_0000_0000_0000_0000 <= p * 0x1_0000_0000_0000_0000) by (nonlinear_arith)
            requires
                q < p,
        ;
    }
}

/// On keys of one length, `lex_value` orders lexicographically and tells keys apart.
pub proof fn lemma_lex_value_order(a: Seq<u64>, b: Seq<u64>)
    requires
        a.len() == b.len(),
    ensures
        (lex_value(a) < lex_value(b)) <==> lex_before(a, b),
        (lex_value(a) == lex_value(b)) <==> a == b,
    decreases a.len(),
{
    let n = a.len() as int;
    if n == 0 {
        assert(a =~= b);
    } else {
        let a1 = a.drop_last();
        let b1 = b.drop_last();
        lemma_lex_value_order(a1, b1);
        lemma_digit_step(lex_value(a1), a.last() as int, lex_value(b1), b.last() as int);
        if lex_before(a, b) {
            let i = choose|i: int| #![trigger a[i], b[i]] 0 <= i < a.len() && i < b.len() && a.take(i) == b.take(i) && a[i] < b[i];
            if i < n - 1 {
                assert(a1.take(i) =~= a.take(i));
                assert(b1.take(i) =~= b.take(i));
                assert(a1[i] == a[i] && b1[i] == b[i]);
                assert(lex_before(a1, b1));
            } else {
                assert(a1 =~= a.take(i));
                assert(b1 =~= b.take(i));
            }
        }
        if lex_before(a1, b1) {
            let i = choose|i: int| #![trigger a1[i], b1[i]] 0 <= i < a1.len() && i < b1.len() && a1.take(i) == b1.take(i) && a1[i] < b1[i];
            assert(a.take(i) =~= a1.take(i));
            assert(b.take(i) =~= b1.take(i));
            assert(a1[i] == a[i] && b1[i] == b[i]);
            assert(lex_before(a, b));
        }
        if a1 == b1 && a.last() < b.last() {
            assert(a.take(n - 1) =~= a1);
            assert(b.take(n - 1) =~= b1);
            assert(a[n - 1] == a.last() && b[n - 1] == b.last());
            assert(lex_before(a, b));
        }
        if a1 == b1 && a.last() == b.last() {
            assert forall|i: int| 0 <= i < n implies a[i] == b[i] by {
                if i < n - 1 {
                    assert(a[i] == a1[i] && b[i] == b1[i]);
                }
            }
            assert(a =~= b);
        }
        if a == b {
            assert(a1 =~= b1);
        }
    }
}

/// Whether `a` comes after `b` lexicographically.
pub fn lex_greater(a: &Vec<u64>, b: &Vec<u64>) -> (r: bool)
    requires
        a.len() == b.len(),
    ensures
        r == (lex_value(a@) > lex_value(b@)),
{
    proof {
        lemma_lex_value_order(a@, b@);
        lemma_lex_value_order(b@, a@);
    }
    let n = a.len();
    for i in 0..n
        invariant
            n == a.len(),
            n == b.len(),
            a@.take(i as int) == b@.take(i as int),
            (lex_value(a@) < lex_value(b@)) <==> lex_before(a@, b@),
            (lex_value(b@) < lex_value(a@)) <==> lex_before(b@, a@),
            (lex_value(a@) == lex_value(b@)) <==> a@ == b@,
    {
        if a[i] != b[i] {
            if a[i] > b[i] {
                assert(b@[i as int] < a@[i as int]);
                assert(lex_before(b@, a@));
                return true;
            } else {
                assert(a@[i as int] < b@[i as int]);
                assert(lex_before(a@, b@));
                return false;
            }
        }
        assert(a@.take(i + 1) =~= a@.take(i as int).push(a@[i as int]));
        assert(b@.take(i + 1) =~= b@.take(i as int).push(b@[i as int]));
    }
    assert(a@ =~= a@.take(n as int));
    assert(b@ =~= b@.take(n as int));
    false
}

/// Computes the stable sorting order of keys compared lexicographically.
pub fn stable_sort_order_lex(keys: &Vec<Vec<u64>>) -> (order: Vec<usize>)
    requires
        same_width(keys.deep_view()),
    ensures
        ints_of_usize(order@) == stable_order(lex_values(keys.deep_view())),
        is_stable_order(lex_values(keys.deep_view()), ints_of_usize(order@)),
{
    let ghost ks = lex_values(keys.deep_view());
    let n = keys.len();
    let mut order: Vec<usize> = Vec::new();
    let mut i: usize = 0;
    while i < n
        invariant
            0 <= i <= n,
            n == keys.len(),
            ks == lex_values(keys.deep_view()),
            same_width(keys.deep_view()),
            order.len() == i,
            forall|k: int| 0 <= k < order.len() ==> #[trigger] order[k] < i,
            forall|v: int| 0 <= v < i ==> #[trigger] order@.contains(v as usize),
            forall|k: int, l: int|
                0 <= k < l < order.len() ==> key_index_lt(
                    ks,
                    #[trigger] order[k] as int,
                    #[trigger] order[l] as int,
                ),
        decreases n - i,
    {
        let mut p = order.len();
        loop
            invariant
                0 <= p <= order.len(),
                order.len() == i,
                i < n,
                n == keys.len(),
                ks == lex_values(keys.deep_view()),
                same_width(keys.deep_view()),
                forall|k: int| 0 <= k < order.len() ==> #[trigger] order[k] < i,
                forall|q: int| p <= q < order.len() ==> ks[#[trigger] order[q] as int] > ks[i as int],
            ensures
                p == 0 || ks[order[p - 1] as int] <= ks[i as int],
            decreases p,
        {
            if p == 0 {
                break;
            }
            let j = order[p - 1];
            assert(keys.deep_view()[j as int] == keys[j as int]@);
            assert(keys.deep_view()[i as int] == keys[i as int]@);
            if !lex_greater(&keys[j], &keys[i]) {
                break;
            }
            p = p - 1;
        }
        let ghost old_order = order@;
        order.insert(p, i);
        proof {
            assert(order@ == old_order.insert(p as int, i));
            assert forall|k: int| 0 <= k < order.len() implies #[trigger] order[k] < i + 1 by {
                if k < p {
                    assert(order[k] == old_order[k]);
                } else if k > p {
                    assert(order[k] == old_order[k - 1]);
                }
            }
            assert forall|v: int| 0 <= v < i + 1 implies #[trigger] order@.contains(v as usize) by {
                if v == i {
                    assert(order@[p as int] == i);
                } else {
                    assert(old_order.contains(v as usize));
                    let j = choose|j: int| 0 <= j < old_order.len() && old_order[j] == v as usize;
                    if j < p {
                        assert(order@[j] == v as usize);
                    } else {
                        assert(order@[j + 1] == v as usize);
                    }
                }
            }
            assert forall|k: int, l: int| 0 <= k < l < order.len() implies key_index_lt(
                ks,
                #[trigger] order[k] as int,
                #[trigger] order[l] as int,
            ) by {
                if p > 0 && k < p {
                    assert(key_index_lt(ks, old_order[p - 1] as int, i as int));
                    if k < p - 1 {
                        assert(key_index_lt(ks, old_order[k] as int, old_order[p - 1] as int));
                    }
                }
                if k < p && l > p {
                    assert(key_index_lt(ks, old_order[k] as int, old_order[l - 1] as int));
                } else if k < p && l < p {
                    assert(key_index_lt(ks, old_order[k] as int, old_order[l] as int));
                } else if k > p {
                    assert(key_index_lt(ks, old_order[k - 1] as int, old_order[l - 1] as int));
                } else if k == p {
                    assert(ks[old_order[l - 1] as int] > ks[i as int]);
                }
            }
        }
        i = i + 1;
    }
    proof {
        let o = ints_of_usize(order@);
        assert forall|v: int| 0 <= v < ks.len() implies #[trigger] o.contains(v) by {
            assert(order@.contains(v as usize));
            let j = choose|j: int| 0 <= j < order@.len() && order@[j] == v as usize;
            assert(o[j] == v);
        }
        assert(is_stable_order(ks, o));
        lemma_stable_order_unique(ks, o);
    }
    order
}


/// Computes the stable sorting order of `keys`.
pub fn stable_sort_order(keys: &Vec<u128>) -> (order: Vec<usize>)
    ensures
        ints_of_usize(order@) == stable_order(ints_of_u128(keys@)),
        is_stable_order(ints_of_u128(keys@), ints_of_usize(order@)),
{
    let mut digits: Vec<Vec<u64>> = Vec::new();
    for i in 0..keys.len()
        invariant
            digits.len() == i,
            forall|j: int| 0 <= j < i ==> (#[trigger] digits[j])@.len() == 2,
            forall|j: int| 0 <= j < i ==> lex_value(#[trigger] digits[j]@) == keys[j] as int,
    {
        let k = keys[i];
        let hi = (k / 0x1_0000_0000_0000_0000) as u64;
        let lo = (k % 0x1_0000_0000_0000_0000) as u64;
        let d = vec![hi, lo];
        proof {
            reveal_with_fuel(lex_value, 3);
            assert(d@.drop_last() =~= seq![hi]);
            assert(d@.drop_last().drop_last() =~= Seq::<u64>::empty());
            assert(lex_value(d@) == hi * 0x1_0000_0000_0000_0000 + lo);
        }
        digits.push(d);
    }
    proof {
        assert forall|a: int, b: int| 0 <= a < digits.len() && 0 <= b < digits.len() implies
            (#[trigger] digits.deep_view()[a]).len() == (#[trigger] digits.deep_view()[b]).len() by {
            assert(digits.deep_view()[a] == digits[a]@);
            assert(digits.deep_view()[b] == digits[b]@);
        }
        assert forall|j: int| 0 <= j < keys.len() implies #[trigger] lex_values(digits.deep_view())[j] == ints_of_u128(keys@)[j] by {
            assert(digits.deep_view()[j] == digits[j]@);
        }
        assert(lex_values(digits.deep_view()) =~= ints_of_u128(keys@));
    }
    stable_sort_order_lex(&digits)
}

/// Rows of `rows` taken in the positions listed by `order`.
pub fn permute_rows(rows: &Vec<Vec<u64>>, order: &Vec<usize>) -> (out: Vec<Vec<u64>>)
    requires
        forall|k: int| 0 <= k < order.len() ==> #[trigger] order[k] < rows.len(),
    ensures
        out.deep_view() == ints_of_usize(order@).map_values(|i: int| rows.deep_view()[i]),
{
    let mut out: Vec<Vec<u64>> = Vec::new();
    for k in 0..order.len()
        invariant
            forall|k: int| 0 <= k < order.len() ==> #[trigger] order[k] < rows.len(),
            out.len() == k,
            forall|j: int| 0 <= j < k ==> #[trigger] out[j]@ == rows[order[j] as int]@,
    {
        let row = rows[order[k]].clone();
        proof {
            assert(row@ =~= rows[order[k as int] as int]@);
        }
        out.push(row);
    }
    assert(out.deep_view() =~= ints_of_usize(order@).map_values(|i: int| rows.deep_view()[i]));
    out
}

/// `rows` stably sorted by `keys`, where `keys[i]` is the key of `rows[i]`.
pub fn sort_rows_by_keys(rows: &Vec<Vec<u64>>, keys: &Vec<u128>) -> (out: Vec<Vec<u64>>)
    requires
        keys.len() == rows.len(),
    ensures
        out.deep_view() == sort_by_keys(rows.deep_view(), ints_of_u128(keys@)),
{
    let order = stable_sort_order(keys);
    proof {
        let ks = ints_of_u128(keys@);
        assert forall|k: int| 0 <= k < order.len() implies #[trigger] order[k] < rows.len() by {
            assert(ints_of_usize(order@)[k] == order[k] as int);
        }
    }
    let out = permute_rows(rows, &order);
    out
}

/// `rows` stably sorted by `keys` compared lexicographically, where `keys[i]`
/// is the key of `rows[i]` and all keys have the same length.
pub fn sort_rows_by_lex_keys(rows: &Vec<Vec<u64>>, keys: &Vec<Vec<u64>>) -> (out: Vec<Vec<u64>>)
    requires
        keys.len() == rows.len(),
        same_width(keys.deep_view()),
    ensures
        out.deep_view() == sort_by_keys(rows.deep_view(), lex_values(keys.deep_view())),
{
    let order = stable_sort_order_lex(keys);
    proof {
        assert forall|k: int| 0 <= k < order.len() implies #[trigger] order[k] < rows.len() by {
            assert(ints_of_usize(order@)[k] == order[k] as int);
        }
    }
    permute_rows(rows, &order)
}

/// Every element is at most the next one.
pub open spec fn nondecreasing(s: Seq<u64>) -> bool {
    forall|k: int, l: int| 0 <= k <= l < s.len() ==> #[trigger] s[k] <= #[trigger] s[l]
}

/// Every element is less than the next one.
pub open spec fn strictly_increasing(s: Seq<u64>) -> bool {
    forall|k: int, l: int| 0 <= k < l < s.len() ==> #[trigger] s[k] < #[trigger] s[l]
}

/// The values of `v` as integer sort keys.
pub open spec fn value_keys(v: Seq<u64>) -> Seq<int> {
    v.map_values(|x: u64| x as int)
}

/// `v` sorted ascending.
pub open spec fn sorted_values(v: Seq<u64>) -> Seq<u64> {
    sort_by_keys(v, value_keys(v))
}

/// Sorting values without repetitions gives a strictly ascending sequence.
pub proof fn lemma_sorted_values_strict(v: Seq<u64>)
    requires
        v.no_duplicates(),
    ensures
        strictly_increasing(sorted_values(v)),
{
    broadcast use vstd::seq_lib::group_to_multiset_ensures;
    lemma_sort_values(v);
    let s = sorted_values(v);
    v.lemma_multiset_has_no_duplicates();
    s.lemma_multiset_has_no_duplicates_conv();
    assert forall|k: int, l: int| 0 <= k < l < s.len() implies #[trigger] s[k] < #[trigger] s[l] by {
        assert(s[k] <= s[l]);
        assert(s[k] != s[l]);
    }
}

/// Rows come by column `d` descending and, among equal values there, by
/// column `a` ascending.
pub open spec fn desc_asc_ordered(s: Seq<Seq<u64>>, d: int, a: int) -> bool {
    forall|k: int, l: int| 0 <= k < l < s.len() ==> (#[trigger] s[k])[d] > (#[trigger] s[l])[d] || (s[k][d] == s[l][d]
        && s[k][a] <= s[l][a])
}

/// Rows sorted by `desc_asc_key(r, d, a)` come by column `d` descending and,
/// among equal values there, by column `a` ascending.
pub proof fn lemma_desc_asc_order(g: Seq<Seq<u64>>, d: int, a: int)
    requires
        has_width(g, d + 1),
        has_width(g, a + 1),
        0 <= d,
        0 <= a,
    ensures
        desc_asc_ordered(sort_by_keys(g, g.map_values(|r: Seq<u64>| desc_asc_key(r, d, a))), d, a),
{
    let keys = g.map_values(|r: Seq<u64>| desc_asc_key(r, d, a));
    lemma_sort_by_keys(g, keys);
    let o = stable_order(keys);
    let s = sort_by_keys(g, keys);
    assert forall|k: int, l: int| 0 <= k < l < s.len() implies (#[trigger] s[k])[d] > (#[trigger] s[l])[d] || (
    s[k][d] == s[l][d] && s[k][a] <= s[l][a]) by {
        assert(keys[o[k]] <= keys[o[l]]);
        assert(s[k] == g[o[k]] && s[l] == g[o[l]]);
        assert(g[o[k]].len() >= d + 1 && g[o[k]].len() >= a + 1);
        assert(g[o[l]].len() >= d + 1 && g[o[l]].len() >= a + 1);
        lemma_two_digit_order(s[k][d] as int, s[k][a] as int, s[l][d] as int, s[l][a] as int);
    }
}

proof fn lemma_two_digit_order(xd: int, xa: int, yd: int, ya: int)
    requires
        0 <= xd <= u64::MAX,
        0 <= xa <= u64::MAX,
        0 <= yd <= u64::MAX,
        0 <= ya <= u64::MAX,
        (u64::MAX - xd) * 0x1_0000_0000_0000_0000 + xa <= (u64::MAX - yd) * 0x1_0000_0000_0000_0000 + ya,
    ensures
        xd > yd || (xd == yd && xa <= ya),
{
    if xd < yd {
        assert((u64::MAX - yd + 1) * 0x1_0000_0000_0000_0000 <= (u64::MAX - xd) * 0x1_0000_0000_0000_0000) by (nonlinear_arith)
            requires
                u64::MAX - yd + 1 <= u64::MAX - xd,
        ;
        assert((u64::MAX - yd + 1) * 0x1_0000_0000_0000_0000 == (u64::MAX - yd) * 0x1_0000_0000_0000_0000 + 0x1_0000_0000_0000_0000) by (nonlinear_arith);
    }
}

/// Sorting values by themselves gives an ascending rearrangement.
pub proof fn lemma_sort_values(v: Seq<u64>)
    ensures
        nondecreasing(sort_by_keys(v, value_keys(v))),
        sort_by_keys(v, value_keys(v)).to_multiset() == v.to_multiset(),
        sort_by_keys(v, value_keys(v)).len() == v.len(),
{
    lemma_sort_by_keys(v, value_keys(v));
    let o = stable_order(value_keys(v));
    let s = sort_by_keys(v, value_keys(v));
    assert forall|k: int, l: int| 0 <= k <= l < s.len() implies #[trigger] s[k] <= #[trigger] s[l] by {
        assert(value_keys(v)[o[k]] <= value_keys(v)[o[l]]);
    }
}

/// `v` sorted ascending.
pub fn sort_u64(v: &Vec<u64>) -> (out: Vec<u64>)
    ensures
        out@ == sort_by_keys(v@, value_keys(v@)),
        nondecreasing(out@),
        out@.to_multiset() == v@.to_multiset(),
{
    proof {
        lemma_sort_values(v@);
    }
    let mut keys: Vec<u128> = Vec::new();
    for k in 0..v.len()
        invariant
            keys.len() == k,
            forall|j: int| 0 <= j < k ==> #[trigger] keys[j] == v[j] as u128,
    {
        keys.push(v[k] as u128);
    }
    assert(ints_of_u128(keys@) =~= value_keys(v@));
    let order = stable_sort_order(&keys);
    let ghost ks = ints_of_u128(keys@);
    proof {
        assert forall|j: int| 0 <= j < order.len() implies #[trigger] order[j] < v.len() by {
            assert(ints_of_usize(order@)[j] == order[j] as int);
        }
    }
    let mut out: Vec<u64> = Vec::new();
    for k in 0..order.len()
        invariant
            ints_of_usize(order@) == stable_order(ks),
            is_stable_order(ks, stable_order(ks)),
            ks.len() == v.len(),
            order.len() == v.len(),
            forall|j: int| 0 <= j < order.len() ==> #[trigger] order[j] < v.len(),
            out.len() == k,
            forall|j: int| 0 <= j < k ==> #[trigger] out[j] == v[order[j] as int],
    {
        assert(ints_of_usize(order@)[k as int] == order[k as int] as int);
        out.push(v[order[k]]);
    }
    assert(out@ =~= sort_by_keys(v@, value_keys(v@)));
    out
}


/// The distinct values of `v`, ascending.
pub fn sorted_unique(v: &Vec<u64>) -> (out: Vec<u64>)
    ensures
        strictly_increasing(out@),
        forall|x: u64| out@.contains(x) <==> v@.contains(x),
{
    broadcast use vstd::seq_lib::group_to_multiset_ensures;
    let s = sort_u64(v);
    let mut out: Vec<u64> = Vec::new();
    for i in 0..s.len()
        invariant
            nondecreasing(s@),
            strictly_increasing(out@),
            i > 0 ==> out.len() > 0 && out@.last() == s@[i - 1],
            i == 0 ==> out.len() == 0,
            forall|x: u64| out@.contains(x) <==> s@.take(i as int).contains(x),
    {
        let ghost old_out = out@;
        if i == 0 || s[i] != s[i - 1] {
            out.push(s[i]);
            proof {
                assert(out@ == old_out.push(s@[i as int]));
                if i > 0 {
                    assert(s@[i - 1] <= s@[i as int]);
                    assert(s@[i - 1] < s@[i as int]);
                    assert(old_out[old_out.len() - 1] == s@[i - 1]);
                    assert forall|k: int, l: int| 0 <= k < l < out.len() implies #[trigger] out@[k] < #[trigger] out@[l] by {
                        if l < old_out.len() {
                            assert(old_out[k] < old_out[l]);
                        } else {
                            if k < old_out.len() - 1 {
                                assert(old_out[k] < old_out[old_out.len() - 1]);
                            }
                        }
                    }
                }
            }
        }
        proof {
            let pre = s@.take(i as int);
            let cur = s@.take(i + 1);
            assert(cur =~= pre.push(s@[i as int]));
            assert forall|x: u64| out@.contains(x) <==> cur.contains(x) by {
                if cur.contains(x) && !pre.contains(x) {
                    assert(x == s@[i as int]);
                    if out@ == old_out {
                        assert(out@[out.len() - 1] == x);
                    } else {
                        assert(out@[out.len() - 1] == x);
                    }
                }
                if out@.contains(x) && !old_out.contains(x) {
                    let m = choose|m: int| 0 <= m < out.len() && out@[m] == x;
                    assert(m == out.len() - 1);
                    assert(cur[i as int] == x);
                }
                if pre.contains(x) {
                    let m = choose|m: int| 0 <= m < pre.len() && pre[m] == x;
                    assert(cur[m] == x);
                }
                if old_out.contains(x) {
                    let m = choose|m: int| 0 <= m < old_out.len() && old_out[m] == x;
                    assert(out@[m] == x);
                }
            }
        }
    }
    proof {
        assert(s@.take(s.len() as int) =~= s@);
        assert forall|x: u64| s@.contains(x) <==> v@.contains(x) by {
            vstd::seq_lib::to_multiset_contains(s@, x);
            vstd::seq_lib::to_multiset_contains(v@, x);
        }
    }
    out
}

} // verus!
