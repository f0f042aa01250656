//! Keyed lists: texts by their keys, in the order in which the keys came.

use crate::text::same;
use vstd::prelude::*;

verus! {

/// Keys and what they stand for.
pub type Entries = Seq<(Seq<char>, Seq<char>)>;

pub open spec fn entries(v: Seq<(String, String)>) -> Entries {
    v.map_values(|e: (String, String)| (e.0@, e.1@))
}

/// The place of a key, if it is there: the first.
pub open spec fn place_of(s: Entries, key: Seq<char>, from: int) -> Option<int>
    decreases s.len() - from,
{
    if from < 0 || from >= s.len() {
        None
    } else if s[from].0 == key {
        Some(from)
    } else {
        place_of(s, key, from + 1)
    }
}

/// What a key stands for.
pub open spec fn lookup(s: Entries, key: Seq<char>) -> Option<Seq<char>> {
    match place_of(s, key, 0) {
        Some(i) => Some(s[i].1),
        None => None,
    }
}

/// The list with a key standing for a value: in its old place, or at the end.
pub open spec fn with_entry(s: Entries, key: Seq<char>, value: Seq<char>) -> Entries {
    match place_of(s, key, 0) {
        Some(i) => s.update(i, (key, value)),
        None => s.push((key, value)),
    }
}

/// The list after entering all of `es` in turn.
pub open spec fn entered(es: Entries) -> Entries
    decreases es.len(),
{
    if es.len() == 0 {
        Seq::empty()
    } else {
        with_entry(entered(es.drop_last()), es.last().0, es.last().1)
    }
}

pub proof fn lemma_place_of(s: Entries, key: Seq<char>, from: int)
    requires
        0 <= from,
    ensures
        match place_of(s, key, from) {
            Some(i) => from <= i < s.len() && s[i].0 == key && forall|k: int|
                from <= k < i ==> s[k].0 != key,
            None => forall|k: int| from <= k < s.len() ==> s[k].0 != key,
        },
    decreases s.len() - from,
{
    if from < s.len() && s[from].0 != key {
        lemma_place_of(s, key, from + 1);
    }
}

/// The place of a key.
pub fn find_key(v: &Vec<(String, String)>, key: &str) -> (r: Option<usize>)
    ensures
        match r {
            Some(i) => place_of(entries(v@), key@, 0) == Some(i as int) && i < v@.len(),
            None => place_of(entries(v@), key@, 0) is None,
        },
{
    let mut i: usize = 0;
    while i < v.len()
        invariant
            i <= v@.len(),
            place_of(entries(v@), key@, 0) == place_of(entries(v@), key@, i as int),
        decreases v@.len() - i,
    {
        assert(entries(v@)[i as int] == (v@[i as int].0@, v@[i as int].1@));
        if same(v[i].0.as_str(), key) {
            return Some(i);
        }
        i += 1;
    }
    None
}

/// What a key stands for.
pub fn get(v: &Vec<(String, String)>, key: &str) -> (r: Option<String>)
    ensures
        match r {
            Some(t) => lookup(entries(v@), key@) == Some(t@),
            None => lookup(entries(v@), key@) is None,
        },
{
    match find_key(v, key) {
        Some(i) => {
            assert(entries(v@)[i as int] == (v@[i as int].0@, v@[i as int].1@));
            Some(v[i].1.clone())
        },
        None => None,
    }
}

/// Makes a key stand for a value.
pub fn put(v: &mut Vec<(String, String)>, key: String, value: String)
    ensures
        entries(final(v)@) == with_entry(entries(old(v)@), key@, value@),
{
    let ghost was = v@;
    match find_key(v, key.as_str()) {
        Some(i) => {
            v.set(i, (key, value));
            assert(entries(v@) =~= entries(was).update(i as int, (key@, value@)));
        },
        None => {
            v.push((key, value));
            assert(entries(v@) =~= entries(was).push((key@, value@)));
        },
    }
}

// ---- laws ----------------------------------------------------------------------------------

/// No key stands in a list twice.
pub open spec fn keys_differ(s: Entries) -> bool {
    forall|i: int, j: int| 0 <= i < j < s.len() ==> (#[trigger] s[i]).0 != (#[trigger] s[j]).0
}

/// What was entered last under a key is what it stands for; other keys keep what
/// they stood for.
pub proof fn law_last_entry_wins(s: Entries, key: Seq<char>, value: Seq<char>, other: Seq<char>)
    ensures
        lookup(with_entry(s, key, value), key) == Some(value),
        other != key ==> lookup(with_entry(s, key, value), other) == lookup(s, other),
{
    let n = with_entry(s, key, value);
    lemma_place_of(s, key, 0);
    lemma_place_of(n, key, 0);
    lemma_place_of(s, other, 0);
    lemma_place_of(n, other, 0);
    match place_of(s, key, 0) {
        Some(i) => {
            assert(n[i].0 == key);
            let k = place_of(n, key, 0)->0;
            if k < i {
                assert(s[k].0 != key);
            }
        },
        None => {
            assert(n[s.len() as int].0 == key);
            let k = place_of(n, key, 0)->0;
            if k < s.len() {
                assert(s[k].0 != key);
            }
        },
    }
    if other != key {
        match (place_of(s, other, 0), place_of(n, other, 0)) {
            (Some(i), Some(j)) => {
                assert(n[i].0 == other);
                assert(s[j].0 == other);
            },
            (Some(i), None) => {
                assert(n[i].0 == other);
            },
            (None, Some(j)) => {
                assert(j < s.len());
                assert(s[j].0 == other);
            },
            (None, None) => {},
        }
    }
}

/// Entering keeps the keys different.
pub proof fn law_keys_stay_different(s: Entries, key: Seq<char>, value: Seq<char>)
    requires
        keys_differ(s),
    ensures
        keys_differ(with_entry(s, key, value)),
{
    lemma_place_of(s, key, 0);
    let n = with_entry(s, key, value);
    assert forall|i: int, j: int| 0 <= i < j < n.len() implies (#[trigger] n[i]).0 != (
    #[trigger] n[j]).0 by {
        if j < s.len() {
            assert(s[i].0 != s[j].0);
        }
    }
}

/// Entries with different keys are entered as they stand, and each key stands for its
/// value.
pub proof fn law_different_keys_are_kept(es: Entries, i: int)
    requires
        keys_differ(es),
        0 <= i < es.len(),
    ensures
        entered(es) == es,
        lookup(es, es[i].0) == Some(es[i].1),
{
    lemma_entered_same(es);
    lemma_place_of(es, es[i].0, 0);
}

proof fn lemma_entered_same(es: Entries)
    requires
        keys_differ(es),
    ensures
        entered(es) == es,
    decreases es.len(),
{
    if es.len() > 0 {
        let init = es.drop_last();
        assert(keys_differ(init)) by {
            assert forall|i: int, j: int| 0 <= i < j < init.len() implies (#[trigger] init[i]).0 != (
            #[trigger] init[j]).0 by {
                assert(es[i].0 != es[j].0);
            }
        }
        lemma_entered_same(init);
        lemma_place_of(init, es.last().0, 0);
        match place_of(init, es.last().0, 0) {
            Some(k) => {
                assert(es[k].0 != es[es.len() - 1].0);
            },
            None => {},
        }
        assert(entered(es) =~= es);
    } else {
        assert(entered(es) =~= es);
    }
}

} // verus!
