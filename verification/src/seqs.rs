//! Searching sequences: the first and the last place where something holds.

use vstd::prelude::*;

verus! {

/// The first index of `s` where `p` holds.
pub open spec fn first_index<T>(s: Seq<T>, p: spec_fn(T) -> bool) -> Option<int>
    decreases s.len(),
{
    if s.len() == 0 {
        None
    } else if p(s[0]) {
        Some(0)
    } else {
        match first_index(s.drop_first(), p) {
            Some(k) => Some(k + 1),
            None => None,
        }
    }
}

/// What `first_index` finds: the first place where `p` holds, or nothing
/// when it holds nowhere.
pub proof fn lemma_first_index<T>(s: Seq<T>, p: spec_fn(T) -> bool)
    ensures
        match first_index(s, p) {
            Some(i) => 0 <= i < s.len() && p(s[i]) && forall|j: int| 0 <= j < i ==> !p(#[trigger] s[j]),
            None => forall|j: int| 0 <= j < s.len() ==> !p(#[trigger] s[j]),
        },
    decreases s.len(),
{
    if s.len() > 0 && !p(s[0]) {
        lemma_first_index(s.drop_first(), p);
        assert forall|j: int| 1 <= j < s.len() implies s[j] == s.drop_first()[j - 1] by {}
    }
}

/// `r` is the index `o` that a search found, or nothing as `o` is.
pub open spec fn found_at(r: Option<usize>, o: Option<int>) -> bool {
    match r {
        Some(i) => o == Some(i as int),
        None => o is None,
    }
}

/// The indices `0..n`.
pub open spec fn positions(n: nat) -> Seq<int> {
    Seq::new(n, |i: int| i)
}

/// The last index of `s` where `p` holds.
pub open spec fn last_index<T>(s: Seq<T>, p: spec_fn(T) -> bool) -> Option<int>
    decreases s.len(),
{
    if s.len() == 0 {
        None
    } else if p(s.last()) {
        Some(s.len() - 1)
    } else {
        last_index(s.drop_last(), p)
    }
}

/// What `last_index` finds: the last place where `p` holds, or nothing.
pub proof fn lemma_last_index<T>(s: Seq<T>, p: spec_fn(T) -> bool)
    ensures
        match last_index(s, p) {
            Some(i) => 0 <= i < s.len() && p(s[i]) && forall|j: int| i < j < s.len() ==> !p(#[trigger] s[j]),
            None => forall|j: int| 0 <= j < s.len() ==> !p(#[trigger] s[j]),
        },
    decreases s.len(),
{
    if s.len() > 0 && !p(s.last()) {
        lemma_last_index(s.drop_last(), p);
        assert forall|j: int| 0 <= j < s.len() - 1 implies s[j] == s.drop_last()[j] by {}
    }
}

/// The indices of `s` where `p` holds, in order.
pub open spec fn indices_where<T>(s: Seq<T>, p: spec_fn(T) -> bool) -> Seq<usize>
    decreases s.len(),
{
    if s.len() == 0 {
        Seq::empty()
    } else if p(s.last()) {
        indices_where(s.drop_last(), p).push((s.len() - 1) as usize)
    } else {
        indices_where(s.drop_last(), p)
    }
}

/// The elements of `s` where `p` holds, in order.
pub open spec fn keep_where<T>(s: Seq<T>, p: spec_fn(T) -> bool) -> Seq<T>
    decreases s.len(),
{
    if s.len() == 0 {
        Seq::empty()
    } else if p(s.last()) {
        keep_where(s.drop_last(), p).push(s.last())
    } else {
        keep_where(s.drop_last(), p)
    }
}

/// Holds of elements whose key is below `k`.
pub open spec fn key_below<T>(key: spec_fn(T) -> int, k: int) -> spec_fn(T) -> bool {
    |y: T| key(y) < k
}

/// `x` put into `s` after every element whose key is at least its own.
pub open spec fn insert_desc<T>(s: Seq<T>, x: T, key: spec_fn(T) -> int) -> Seq<T> {
    match first_index(s, key_below(key, key(x))) {
        Some(p) => s.insert(p, x),
        None => s.push(x),
    }
}

/// `s` in decreasing order of `key`, elements with equal keys in the
/// order they had: the stable sort `sort_by` with the keys compared the
/// other way round gives.
pub open spec fn sort_desc<T>(s: Seq<T>, key: spec_fn(T) -> int) -> Seq<T>
    decreases s.len(),
{
    if s.len() == 0 {
        Seq::empty()
    } else {
        insert_desc(sort_desc(s.drop_last(), key), s.last(), key)
    }
}

/// The keys of `s` do not increase.
pub open spec fn keys_desc<T>(s: Seq<T>, key: spec_fn(T) -> int) -> bool {
    forall|i: int, j: int| 0 <= i < j < s.len() ==> key(#[trigger] s[i]) >= key(#[trigger] s[j])
}

/// `sort_desc` orders by decreasing key and keeps every element.
pub proof fn lemma_sort_desc<T>(s: Seq<T>, key: spec_fn(T) -> int)
    ensures
        keys_desc(sort_desc(s, key), key),
        sort_desc(s, key).to_multiset() == s.to_multiset(),
    decreases s.len(),
{
    if s.len() > 0 {
        let p = sort_desc(s.drop_last(), key);
        let x = s.last();
        lemma_sort_desc(s.drop_last(), key);
        lemma_first_index(p, key_below(key, key(x)));
        let r = sort_desc(s, key);
        match first_index(p, key_below(key, key(x))) {
            Some(q) => {
                assert forall|i: int, j: int| 0 <= i < j < r.len() implies key(#[trigger] r[i]) >= key(
                    #[trigger] r[j],
                ) by {
                    if i < q && j == q {
                        assert(!key_below(key, key(x))(p[i]));
                    } else if i == q && j > q {
                        assert(r[j] == p[j - 1]);
                        if j - 1 > q {
                            assert(key(p[q]) >= key(p[j - 1]));
                        }
                        assert(key_below(key, key(x))(p[q]));
                    } else if i < q && j > q {
                        assert(r[j] == p[j - 1]);
                    } else if i > q {
                        assert(r[i] == p[i - 1] && r[j] == p[j - 1]);
                    }
                }
                vstd::seq_lib::to_multiset_insert(p, q, x);
            },
            None => {
                assert forall|i: int, j: int| 0 <= i < j < r.len() implies key(#[trigger] r[i]) >= key(
                    #[trigger] r[j],
                ) by {
                    if j == p.len() {
                        assert(!key_below(key, key(x))(p[i]));
                    }
                }
            },
        }
        assert(s == s.drop_last().push(x));
        vstd::seq_lib::to_multiset_build(s.drop_last(), x);
        vstd::seq_lib::to_multiset_build(p, x);
        assert(r.to_multiset() == p.to_multiset().insert(x));
    } else {
        assert(s =~= Seq::<T>::empty());
    }
}

} // verus!
