//! Grouping a list by a key: the groups in the order in which their keys are
//! first seen, and in each group the places of its members in the list.

use crate::text::{same, texts};
use vstd::prelude::*;

verus! {

/// The different keys, in the order in which they are first seen.
pub open spec fn first_seen(keys: Seq<Seq<char>>) -> Seq<Seq<char>>
    decreases keys.len(),
{
    if keys.len() == 0 {
        Seq::empty()
    } else {
        let init = first_seen(keys.drop_last());
        if init.contains(keys.last()) {
            init
        } else {
            init.push(keys.last())
        }
    }
}

/// The places where a key stands, in order.
pub open spec fn places(keys: Seq<Seq<char>>, key: Seq<char>) -> Seq<int>
    decreases keys.len(),
{
    if keys.len() == 0 {
        Seq::empty()
    } else {
        let init = places(keys.drop_last(), key);
        if keys.last() == key {
            init.push(keys.len() - 1)
        } else {
            init
        }
    }
}

/// The groups of a list with these keys.
pub open spec fn grouped(keys: Seq<Seq<char>>) -> Seq<(Seq<char>, Seq<int>)> {
    first_seen(keys).map_values(|k: Seq<char>| (k, places(keys, k)))
}

/// A group as it is built.
pub open spec fn group_view(g: (String, Vec<usize>)) -> (Seq<char>, Seq<int>) {
    (g.0@, g.1@.map_values(|i: usize| i as int))
}

pub open spec fn groups_view(v: Seq<(String, Vec<usize>)>) -> Seq<(Seq<char>, Seq<int>)> {
    v.map_values(|g: (String, Vec<usize>)| group_view(g))
}

/// Every key has its place among the first seen, and nothing else has.
pub proof fn lemma_first_seen(keys: Seq<Seq<char>>)
    ensures
        forall|k: Seq<char>| #[trigger] first_seen(keys).contains(k) <==> keys.contains(k),
        first_seen(keys).no_duplicates(),
        first_seen(keys).len() <= keys.len(),
    decreases keys.len(),
{
    if keys.len() > 0 {
        let init = keys.drop_last();
        lemma_first_seen(init);
        let f = first_seen(init);
        assert forall|k: Seq<char>| #[trigger] first_seen(keys).contains(k) <==> keys.contains(k) by {
            if first_seen(keys).contains(k) {
                if f.contains(k) {
                    assert(init.contains(k));
                    let i = choose|i: int| 0 <= i < init.len() && init[i] == k;
                    assert(keys[i] == k);
                } else {
                    let i = choose|i: int|
                        0 <= i < first_seen(keys).len() && first_seen(keys)[i] == k;
                    if i < f.len() {
                        assert(f[i] == k);
                    }
                    assert(keys[keys.len() - 1] == k);
                }
            }
            if keys.contains(k) {
                let i = choose|i: int| 0 <= i < keys.len() && keys[i] == k;
                if i < init.len() {
                    assert(init[i] == k);
                    assert(f.contains(k));
                    let j = choose|j: int| 0 <= j < f.len() && f[j] == k;
                    assert(first_seen(keys)[j] == k);
                } else if f.contains(k) {
                } else {
                    assert(first_seen(keys)[f.len() as int] == k);
                }
            }
        }
        assert forall|i: int, j: int|
            0 <= i < first_seen(keys).len() && 0 <= j < first_seen(keys).len() && i
                != j implies first_seen(keys)[i] != first_seen(keys)[j] by {
            if i < f.len() && j < f.len() {
                assert(f[i] != f[j]);
            } else if !f.contains(keys.last()) {
                if i < f.len() {
                    assert(f.contains(f[i]));
                }
                if j < f.len() {
                    assert(f.contains(f[j]));
                }
            }
        }
    } else {
        assert forall|k: Seq<char>| #[trigger] first_seen(keys).contains(k) <==> keys.contains(k) by {}
    }
}

/// The places of a key are where it stands, in order.
pub proof fn lemma_places(keys: Seq<Seq<char>>, key: Seq<char>)
    ensures
        forall|i: int|
            0 <= i < places(keys, key).len() ==> 0 <= #[trigger] places(keys, key)[i] < keys.len()
                && keys[places(keys, key)[i]] == key,
        forall|i: int, j: int|
            0 <= i < j < places(keys, key).len() ==> #[trigger] places(keys, key)[i]
                < #[trigger] places(keys, key)[j],
        forall|n: int|
            0 <= n < keys.len() && #[trigger] keys[n] == key ==> places(keys, key).contains(n),
    decreases keys.len(),
{
    if keys.len() > 0 {
        let init = keys.drop_last();
        lemma_places(init, key);
        let p = places(init, key);
        let q = places(keys, key);
        assert forall|i: int| 0 <= i < q.len() implies 0 <= #[trigger] q[i] < keys.len()
            && keys[q[i]] == key by {
            if i < p.len() {
                assert(q[i] == p[i]);
                assert(init[p[i]] == key);
            }
        }
        assert forall|i: int, j: int| 0 <= i < j < q.len() implies #[trigger] q[i]
            < #[trigger] q[j] by {
            assert(q[i] == p[i]);
            if j < p.len() {
                assert(q[j] == p[j]);
            }
        }
        assert forall|n: int| 0 <= n < keys.len() && #[trigger] keys[n] == key implies q.contains(
            n,
        ) by {
            if n < init.len() {
                assert(init[n] == key);
                let i = choose|i: int| 0 <= i < p.len() && p[i] == n;
                assert(q[i] == n);
            } else {
                assert(q[p.len() as int] == n);
            }
        }
    }
}

proof fn lemma_places_absent(keys: Seq<Seq<char>>, key: Seq<char>)
    requires
        !keys.contains(key),
    ensures
        places(keys, key) == Seq::<int>::empty(),
    decreases keys.len(),
{
    if keys.len() > 0 {
        assert forall|i: int| 0 <= i < keys.drop_last().len() implies keys.drop_last()[i] != key by {
            assert(keys[i] != key);
        }
        assert(keys[keys.len() - 1] != key);
        lemma_places_absent(keys.drop_last(), key);
    }
}

/// The group of a key, if there is one.
fn find_group(groups: &Vec<(String, Vec<usize>)>, key: &str) -> (r: Option<usize>)
    ensures
        match r {
            Some(i) => i < groups@.len() && groups@[i as int].0@ == key@,
            None => forall|i: int| 0 <= i < groups@.len() ==> (#[trigger] groups@[i]).0@ != key@,
        },
{
    let mut i: usize = 0;
    while i < groups.len()
        invariant
            i <= groups@.len(),
            forall|k: int| 0 <= k < i ==> (#[trigger] groups@[k]).0@ != key@,
        decreases groups@.len() - i,
    {
        if same(groups[i].0.as_str(), key) {
            return Some(i);
        }
        i += 1;
    }
    None
}

/// Groups a list by its keys.
pub fn group(keys: &Vec<String>) -> (r: Vec<(String, Vec<usize>)>)
    ensures
        groups_view(r@) == grouped(texts(keys@)),
{
    let ghost all = texts(keys@);
    let mut r: Vec<(String, Vec<usize>)> = Vec::new();
    let mut n: usize = 0;
    assert(groups_view(r@) =~= grouped(all.take(0)));
    while n < keys.len()
        invariant
            all == texts(keys@),
            n <= keys@.len(),
            groups_view(r@) == grouped(all.take(n as int)),
        decreases keys@.len() - n,
    {
        let ghost was = all.take(n as int);
        let ghost now = all.take(n + 1);
        let ghost before = r@;
        let ghost key = keys@[n as int]@;
        proof {
            assert(now.drop_last() =~= was);
            assert(now.last() == key);
            lemma_first_seen(was);
            assert(before.len() == first_seen(was).len()) by {
                assert(groups_view(before).len() == grouped(was).len());
            }
            assert forall|i: int| 0 <= i < before.len() implies #[trigger] group_view(before[i]) == (
                first_seen(was)[i],
                places(was, first_seen(was)[i]),
            ) by {
                assert(groups_view(before)[i] == grouped(was)[i]);
            }
        }
        match find_group(&r, keys[n].as_str()) {
            Some(g) => {
                r[g].1.push(n);
                proof {
                    assert(group_view(before[g as int]).0 == first_seen(was)[g as int]);
                    assert(first_seen(was).contains(key));
                    assert(groups_view(r@) =~= grouped(now)) by {
                        assert(r@.len() == before.len());
                        assert forall|i: int| 0 <= i < r@.len() implies group_view(r@[i])
                            == #[trigger] grouped(now)[i] by {
                            assert(group_view(before[i]).0 == first_seen(was)[i]);
                            if i == g {
                                assert(group_view(r@[i]).1 =~= group_view(before[i]).1.push(
                                    n as int,
                                ));
                            } else {
                                assert(r@[i] == before[i]);
                                assert(first_seen(was)[i] != first_seen(was)[g as int]);
                            }
                        }
                    }
                }
            },
            None => {
                let mut only: Vec<usize> = Vec::new();
                only.push(n);
                r.push((keys[n].clone(), only));
                proof {
                    if first_seen(was).contains(key) {
                        let i = choose|i: int|
                            0 <= i < first_seen(was).len() && first_seen(was)[i] == key;
                        assert(group_view(before[i]).0 == key);
                    }
                    assert(!was.contains(key));
                    lemma_places_absent(was, key);
                    assert(groups_view(r@) =~= grouped(now)) by {
                        assert forall|i: int| 0 <= i < r@.len() implies group_view(r@[i])
                            == #[trigger] grouped(now)[i] by {
                            if i < before.len() {
                                assert(r@[i] == before[i]);
                                assert(first_seen(was).contains(first_seen(was)[i]));
                                assert(group_view(before[i]).0 == first_seen(was)[i]);
                            } else {
                                assert(group_view(r@[i]).1 =~= seq![n as int]);
                                assert(places(now, key) =~= seq![n as int]);
                            }
                        }
                    }
                }
            },
        }
        n += 1;
    }
    assert(all.take(n as int) =~= all);
    r
}

// ---- laws ------------------------------------------------------------------------------

/// Every place of the list is in the group of its key, and in no other.
pub proof fn law_groups_partition(keys: Seq<Seq<char>>, n: int)
    requires
        0 <= n < keys.len(),
    ensures
        exists|g: int|
            0 <= g < grouped(keys).len() && (#[trigger] grouped(keys)[g]).0 == keys[n] && grouped(
                keys,
            )[g].1.contains(n),
        forall|g: int|
            0 <= g < grouped(keys).len() && (#[trigger] grouped(keys)[g]).1.contains(n) ==> grouped(
                keys,
            )[g].0 == keys[n],
{
    lemma_first_seen(keys);
    assert(keys.contains(keys[n]));
    assert(first_seen(keys).contains(keys[n]));
    let g = choose|g: int| 0 <= g < first_seen(keys).len() && first_seen(keys)[g] == keys[n];
    lemma_places(keys, keys[n]);
    assert(grouped(keys)[g].0 == keys[n] && grouped(keys)[g].1.contains(n));
    assert forall|g: int|
        0 <= g < grouped(keys).len() && (#[trigger] grouped(keys)[g]).1.contains(n) implies grouped(
        keys,
    )[g].0 == keys[n] by {
        let k = first_seen(keys)[g];
        lemma_places(keys, k);
        let i = choose|i: int| 0 <= i < places(keys, k).len() && places(keys, k)[i] == n;
        assert(keys[places(keys, k)[i]] == k);
    }
}

/// No two groups have the same key, none is empty, and each keeps the order of
/// the list.
pub proof fn law_groups_keep_order(keys: Seq<Seq<char>>)
    ensures
        forall|g: int, h: int|
            0 <= g < h < grouped(keys).len() ==> (#[trigger] grouped(keys)[g]).0
                != (#[trigger] grouped(keys)[h]).0,
        forall|g: int| 0 <= g < grouped(keys).len() ==> (#[trigger] grouped(keys)[g]).1.len() > 0,
        forall|g: int, i: int, j: int|
            0 <= g < grouped(keys).len() && 0 <= i < j < grouped(keys)[g].1.len()
                ==> #[trigger] grouped(keys)[g].1[i] < #[trigger] grouped(keys)[g].1[j],
{
    lemma_first_seen(keys);
    assert forall|g: int| 0 <= g < grouped(keys).len() implies (#[trigger] grouped(
        keys,
    )[g]).1.len() > 0 by {
        let k = first_seen(keys)[g];
        assert(first_seen(keys).contains(k));
        assert(keys.contains(k));
        let n = choose|n: int| 0 <= n < keys.len() && keys[n] == k;
        lemma_places(keys, k);
        assert(keys[n] == k);
        assert(places(keys, k).contains(n));
    }
    assert forall|g: int, i: int, j: int|
        0 <= g < grouped(keys).len() && 0 <= i < j < grouped(keys)[g].1.len() implies #[trigger] grouped(
        keys,
    )[g].1[i] < #[trigger] grouped(keys)[g].1[j] by {
        lemma_places(keys, first_seen(keys)[g]);
    }
}

} // verus!
