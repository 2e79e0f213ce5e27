//! Maps kept as vectors of entries in the order of their keys, each key
//! once: the order `BTreeMap` keeps, in a form the proofs can follow.

use vstd::prelude::*;
use crate::passwords::{chars_lt, seq_lt};
use crate::text::{chars_of, str_is};

verus! {

/// Entries as plain values.
pub open spec fn entries_view<V: View>(s: Seq<(String, V)>) -> Seq<(Seq<char>, V::V)> {
    s.map_values(|x: (String, V)| (x.0@, x.1@))
}

/// `seq_lt` never holds of a text and itself.
pub proof fn lemma_seq_lt_irreflexive(a: Seq<char>)
    ensures
        !seq_lt(a, a),
    decreases a.len(),
{
    if a.len() > 0 {
        lemma_seq_lt_irreflexive(a.drop_first());
    }
}

/// `seq_lt` orders any two different texts one way, and never both ways.
pub proof fn lemma_seq_lt_total(a: Seq<char>, b: Seq<char>)
    ensures
        a != b ==> seq_lt(a, b) || seq_lt(b, a),
        !(seq_lt(a, b) && seq_lt(b, a)),
    decreases a.len(),
{
    if a.len() == 0 && b.len() == 0 {
        assert(a =~= b);
    } else if a.len() > 0 && b.len() > 0 && a[0] != b[0] {
        if (a[0] as u32) == (b[0] as u32) {
            vstd::utf8::char_u32_cast(a[0], a[0] as u32);
            vstd::utf8::char_u32_cast(b[0], b[0] as u32);
        }
    } else if a.len() > 0 && b.len() > 0 && a[0] == b[0] {
        lemma_seq_lt_total(a.drop_first(), b.drop_first());
        if a.drop_first() == b.drop_first() {
            assert(a =~= seq![a[0]] + a.drop_first());
            assert(b =~= seq![b[0]] + b.drop_first());
        }
    }
}

/// `seq_lt` is transitive.
pub proof fn lemma_seq_lt_trans(a: Seq<char>, b: Seq<char>, c: Seq<char>)
    requires
        seq_lt(a, b),
        seq_lt(b, c),
    ensures
        seq_lt(a, c),
    decreases a.len(),
{
    if a.len() > 0 && b.len() > 0 && c.len() > 0 && a[0] == b[0] && b[0] == c[0] {
        lemma_seq_lt_trans(a.drop_first(), b.drop_first(), c.drop_first());
    }
}

/// Entries as a map, a later entry for a key winning.
pub open spec fn map_of<V>(e: Seq<(Seq<char>, V)>) -> Map<Seq<char>, V>
    decreases e.len(),
{
    if e.len() == 0 {
        Map::empty()
    } else {
        map_of(e.drop_last()).insert(e.last().0, e.last().1)
    }
}

/// The entries' keys are in strictly increasing order.
pub open spec fn sorted_keys<V>(e: Seq<(Seq<char>, V)>) -> bool {
    forall|i: int, j: int| 0 <= i < j < e.len() ==> seq_lt(#[trigger] e[i].0, #[trigger] e[j].0)
}

/// What `map_of` holds: the keys of the entries, each with the value of
/// its entry when no key is there twice.
pub proof fn lemma_map_of<V>(e: Seq<(Seq<char>, V)>)
    ensures
        forall|k: Seq<char>| #[trigger] map_of(e).dom().contains(k) <==> exists|i: int|
            0 <= i < e.len() && #[trigger] e[i].0 == k,
        sorted_keys(e) ==> forall|i: int| 0 <= i < e.len() ==> #[trigger] map_of(e)[e[i].0] == e[i].1,
    decreases e.len(),
{
    if e.len() > 0 {
        let p = e.drop_last();
        lemma_map_of(p);
        assert forall|k: Seq<char>| #[trigger] map_of(e).dom().contains(k) implies exists|i: int|
            0 <= i < e.len() && #[trigger] e[i].0 == k by {
            if k == e.last().0 {
                assert(e[e.len() - 1].0 == k);
            } else {
                assert(map_of(p).dom().contains(k));
                let i = choose|i: int| 0 <= i < p.len() && #[trigger] p[i].0 == k;
                assert(e[i] == p[i]);
            }
        }
        assert forall|k: Seq<char>| (exists|i: int| 0 <= i < e.len() && #[trigger] e[i].0 == k) implies #[trigger] map_of(e).dom().contains(k) by {
            let i = choose|i: int| 0 <= i < e.len() && #[trigger] e[i].0 == k;
            if i < e.len() - 1 {
                assert(p[i] == e[i]);
                assert(map_of(p).dom().contains(k));
            }
        }
        if sorted_keys(e) {
            assert(sorted_keys(p)) by {
                assert forall|i: int, j: int| 0 <= i < j < p.len() implies seq_lt(
                    #[trigger] p[i].0,
                    #[trigger] p[j].0,
                ) by {
                    assert(p[i] == e[i] && p[j] == e[j]);
                }
            }
            assert forall|i: int| 0 <= i < e.len() implies #[trigger] map_of(e)[e[i].0] == e[i].1 by {
                if i < e.len() - 1 {
                    assert(p[i] == e[i]);
                    assert(map_of(p)[p[i].0] == p[i].1);
                    assert(seq_lt(e[i].0, e[e.len() - 1].0));
                    lemma_seq_lt_irreflexive(e[i].0);
                }
            }
        }
    }
}

/// Give `key` the value `val` in the entries `v`, keeping the order.
pub fn put_entry<V: View>(v: &mut Vec<(String, V)>, key: String, val: V)
    requires
        sorted_keys(entries_view(old(v)@)),
    ensures
        sorted_keys(entries_view(final(v)@)),
        map_of(entries_view(final(v)@)) == map_of(entries_view(old(v)@)).insert(key@, val@),
{
    let ghost e = entries_view(v@);
    let ghost kv = key@;
    let ghost vv = val@;
    let k = chars_of(key.as_str());
    let mut p: usize = 0;
    while p < v.len() && chars_lt(&chars_of(v[p].0.as_str()), &k)
        invariant
            p <= v@.len(),
            e == entries_view(v@),
            k@ == kv,
            forall|j: int| 0 <= j < p ==> seq_lt(#[trigger] e[j].0, kv),
        decreases v@.len() - p,
    {
        assert(e[p as int].0 == v@[p as int].0@);
        p += 1;
    }
    proof {
        lemma_map_of(e);
        if p < e.len() {
            assert(e[p as int].0 == v@[p as int].0@);
        }
    }
    if p < v.len() && str_is(v[p].0.as_str(), &k) {
        v.set(p, (key, val));
        let ghost f = entries_view(v@);
        assert(f =~= e.update(p as int, (kv, vv)));
        proof {
            assert(sorted_keys(f)) by {
                assert forall|i: int, j: int| 0 <= i < j < f.len() implies seq_lt(
                    #[trigger] f[i].0,
                    #[trigger] f[j].0,
                ) by {
                    assert(seq_lt(e[i].0, e[j].0));
                }
            }
            lemma_map_of(f);
            assert(map_of(f) =~= map_of(e).insert(kv, vv)) by {
                assert forall|x: Seq<char>| #[trigger] map_of(f).dom().contains(x) == map_of(e).insert(kv, vv).dom().contains(x) by {
                    assert(map_of(e).insert(kv, vv).dom().contains(x) == (x == kv || map_of(e).dom().contains(x)));
                    assert(map_of(e).dom().contains(x) == exists|i: int| 0 <= i < e.len() && #[trigger] e[i].0 == x);
                    assert(f[p as int].0 == kv);
                    if exists|i: int| 0 <= i < e.len() && #[trigger] e[i].0 == x {
                        let i = choose|i: int| 0 <= i < e.len() && #[trigger] e[i].0 == x;
                        if i != p {
                            assert(f[i].0 == x);
                        }
                    }
                    if exists|i: int| 0 <= i < f.len() && #[trigger] f[i].0 == x {
                        let i = choose|i: int| 0 <= i < f.len() && #[trigger] f[i].0 == x;
                        if i != p {
                            assert(e[i].0 == x);
                        }
                    }
                }
                assert forall|x: Seq<char>| #[trigger] map_of(f).dom().contains(x) implies map_of(f)[x] == map_of(e).insert(kv, vv)[x] by {
                    let i = choose|i: int| 0 <= i < f.len() && #[trigger] f[i].0 == x;
                    assert(map_of(f)[f[i].0] == f[i].1);
                    if i != p {
                        assert(e[i] == f[i]);
                        assert(map_of(e)[e[i].0] == e[i].1);
                    }
                }
            }
        }
    } else {
        v.insert(p, (key, val));
        let ghost f = entries_view(v@);
        assert(f =~= e.insert(p as int, (kv, vv)));
        proof {
            assert forall|j: int| p <= j < e.len() implies seq_lt(kv, #[trigger] e[j].0) by {
                lemma_seq_lt_total(e[p as int].0, kv);
                if j > p {
                    assert(seq_lt(e[p as int].0, e[j].0));
                    lemma_seq_lt_trans(kv, e[p as int].0, e[j].0);
                }
            }
            assert(sorted_keys(f)) by {
                assert forall|i: int, j: int| 0 <= i < j < f.len() implies seq_lt(
                    #[trigger] f[i].0,
                    #[trigger] f[j].0,
                ) by {
                    if i < p && j > p {
                        assert(f[j] == e[j - 1]);
                        if j - 1 >= p {
                            lemma_seq_lt_trans(e[i].0, kv, e[j - 1].0);
                        }
                    } else if i > p {
                        assert(seq_lt(e[i - 1].0, e[j - 1].0));
                    } else if i < p && j < p {
                        assert(seq_lt(e[i].0, e[j].0));
                    }
                }
            }
            lemma_map_of(f);
            assert(map_of(f) =~= map_of(e).insert(kv, vv)) by {
                assert forall|x: Seq<char>| #[trigger] map_of(f).dom().contains(x) == map_of(e).insert(kv, vv).dom().contains(x) by {
                    assert(map_of(e).insert(kv, vv).dom().contains(x) == (x == kv || map_of(e).dom().contains(x)));
                    assert(map_of(e).dom().contains(x) == exists|i: int| 0 <= i < e.len() && #[trigger] e[i].0 == x);
                    assert(f[p as int].0 == kv);
                    if exists|i: int| 0 <= i < e.len() && #[trigger] e[i].0 == x {
                        let i = choose|i: int| 0 <= i < e.len() && #[trigger] e[i].0 == x;
                        if i < p {
                            assert(f[i].0 == x);
                        } else {
                            assert(f[i + 1].0 == x);
                        }
                    }
                    if exists|i: int| 0 <= i < f.len() && #[trigger] f[i].0 == x {
                        let i = choose|i: int| 0 <= i < f.len() && #[trigger] f[i].0 == x;
                        if i < p {
                            assert(e[i].0 == x);
                        } else if i > p {
                            assert(e[i - 1].0 == x);
                        }
                    }
                }
                assert forall|x: Seq<char>| #[trigger] map_of(f).dom().contains(x) implies map_of(f)[x] == map_of(e).insert(kv, vv)[x] by {
                    let i = choose|i: int| 0 <= i < f.len() && #[trigger] f[i].0 == x;
                    assert(map_of(f)[f[i].0] == f[i].1);
                    if i < p {
                        assert(e[i] == f[i]);
                        assert(map_of(e)[e[i].0] == e[i].1);
                        assert(seq_lt(x, kv));
                        lemma_seq_lt_irreflexive(x);
                    } else if i > p {
                        assert(e[i - 1] == f[i]);
                        assert(map_of(e)[e[i - 1].0] == e[i - 1].1);
                        assert(seq_lt(kv, x));
                        lemma_seq_lt_irreflexive(x);
                    }
                }
            }
        }
    }
}

/// Where the entry for `key` stands in `v`, if there is one.
pub fn find_entry<V: View>(v: &Vec<(String, V)>, key: &Vec<char>) -> (r: Option<usize>)
    requires
        sorted_keys(entries_view(v@)),
    ensures
        r is Some <==> map_of(entries_view(v@)).dom().contains(key@),
        r matches Some(i) ==> i < v@.len() && v@[i as int].0@ == key@ && map_of(entries_view(v@))[key@]
            == v@[i as int].1@,
{
    let ghost e = entries_view(v@);
    proof {
        lemma_map_of(e);
    }
    let mut i: usize = 0;
    while i < v.len()
        invariant
            i <= v@.len(),
            e == entries_view(v@),
            sorted_keys(e),
            forall|j: int| 0 <= j < i ==> #[trigger] e[j].0 != key@,
        decreases v@.len() - i,
    {
        assert(e[i as int] == (v@[i as int].0@, v@[i as int].1@));
        if str_is(v[i].0.as_str(), key) {
            proof {
                lemma_map_of(e);
                assert(e[i as int].0 == key@);
                assert(map_of(e).dom().contains(key@));
                assert(map_of(e)[e[i as int].0] == e[i as int].1);
            }
            return Some(i);
        }
        i += 1;
    }
    None
}

/// Drop the entry for `key` from `v`, keeping the order.
pub fn remove_entry<V: View>(v: &mut Vec<(String, V)>, key: &Vec<char>)
    requires
        sorted_keys(entries_view(old(v)@)),
    ensures
        sorted_keys(entries_view(final(v)@)),
        map_of(entries_view(final(v)@)) == map_of(entries_view(old(v)@)).remove(key@),
{
    let ghost e = entries_view(v@);
    proof {
        lemma_map_of(e);
    }
    match find_entry(v, key) {
        None => {
            assert(map_of(e) =~= map_of(e).remove(key@));
        },
        Some(i) => {
            v.remove(i);
            let ghost f = entries_view(v@);
            assert(f =~= e.remove(i as int));
            proof {
                assert(sorted_keys(f)) by {
                    assert forall|a: int, b: int| 0 <= a < b < f.len() implies seq_lt(
                        #[trigger] f[a].0,
                        #[trigger] f[b].0,
                    ) by {
                        let x = if a < i { a } else { a + 1 };
                        let y = if b < i { b } else { b + 1 };
                        assert(f[a] == e[x] && f[b] == e[y]);
                    }
                }
                lemma_map_of(f);
                assert forall|x: Seq<char>| #[trigger] map_of(f).dom().contains(x) == map_of(e).remove(key@).dom().contains(x) by {
                    assert(map_of(e).dom().contains(x) == exists|j: int| 0 <= j < e.len() && #[trigger] e[j].0 == x);
                    if exists|j: int| 0 <= j < e.len() && #[trigger] e[j].0 == x {
                        let j = choose|j: int| 0 <= j < e.len() && #[trigger] e[j].0 == x;
                        if j < i {
                            assert(f[j].0 == x);
                        } else if j > i {
                            assert(f[j - 1].0 == x);
                        }
                        if x == key@ && j != i {
                            if j < i {
                                assert(seq_lt(e[j].0, e[i as int].0));
                            } else {
                                assert(seq_lt(e[i as int].0, e[j].0));
                            }
                            lemma_seq_lt_irreflexive(x);
                        }
                    }
                    if exists|j: int| 0 <= j < f.len() && #[trigger] f[j].0 == x {
                        let j = choose|j: int| 0 <= j < f.len() && #[trigger] f[j].0 == x;
                        let y = if j < i { j } else { j + 1 };
                        assert(e[y].0 == x);
                        if x == key@ {
                            if y < i {
                                assert(seq_lt(e[y].0, e[i as int].0));
                            } else {
                                assert(seq_lt(e[i as int].0, e[y].0));
                            }
                            lemma_seq_lt_irreflexive(x);
                        }
                    }
                }
                assert forall|x: Seq<char>| #[trigger] map_of(f).dom().contains(x) implies map_of(f)[x] == map_of(e).remove(key@)[x] by {
                    let j = choose|j: int| 0 <= j < f.len() && #[trigger] f[j].0 == x;
                    let y = if j < i { j } else { j + 1 };
                    assert(f[j] == e[y]);
                    assert(map_of(f)[f[j].0] == f[j].1);
                    assert(map_of(e)[e[y].0] == e[y].1);
                }
                assert(map_of(f) =~= map_of(e).remove(key@));
            }
        },
    }
}

} // verus!
