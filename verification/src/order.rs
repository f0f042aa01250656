//! Stable sorting: the order in which a list comes out when it is sorted by a
//! key and equal keys keep their places.

use crate::text::{chars_of, texts};
use vstd::prelude::*;

verus! {

/// Whether index `a` comes out before index `b`: a smaller key, or an equal key
/// and the earlier place.
pub open spec fn before(le: spec_fn(int, int) -> bool, a: int, b: int) -> bool {
    le(a, b) && (le(b, a) ==> a < b)
}

/// `le` compares keys: any two of them, and consistently.
pub open spec fn compares(n: nat, le: spec_fn(int, int) -> bool) -> bool {
    &&& forall|a: int, b: int| 0 <= a < n && 0 <= b < n ==> #[trigger] le(a, b) || le(b, a)
    &&& forall|a: int, b: int, c: int|
        0 <= a < n && 0 <= b < n && 0 <= c < n && #[trigger] le(a, b) && #[trigger] le(b, c) ==> le(
            a,
            c,
        )
}

/// `p` lists the indices below `n`, each once, in sorted order.
pub open spec fn is_order(n: nat, le: spec_fn(int, int) -> bool, p: Seq<int>) -> bool {
    &&& p.len() == n
    &&& forall|i: int| 0 <= i < n ==> 0 <= #[trigger] p[i] < n
    &&& forall|k: int| 0 <= k < n ==> #[trigger] p.contains(k)
    &&& forall|i: int, j: int| 0 <= i < j < n ==> before(le, #[trigger] p[i], #[trigger] p[j])
}

/// The order of the indices below `n` when they are sorted.
pub open spec fn stable_order(n: nat, le: spec_fn(int, int) -> bool) -> Seq<int> {
    choose|p: Seq<int>| is_order(n, le, p)
}

proof fn lemma_same_upto(n: nat, le: spec_fn(int, int) -> bool, p: Seq<int>, q: Seq<int>, i: int)
    requires
        is_order(n, le, p),
        is_order(n, le, q),
        0 <= i <= n,
    ensures
        forall|k: int| 0 <= k < i ==> p[k] == q[k],
    decreases i,
{
    if i > 0 {
        lemma_same_upto(n, le, p, q, i - 1);
        let m = i - 1;
        if p[m] != q[m] {
            assert(q.contains(p[m]));
            let k = choose|k: int| 0 <= k < q.len() && q[k] == p[m];
            assert(p.contains(q[m]));
            let l = choose|l: int| 0 <= l < p.len() && p[l] == q[m];
            if k < m {
                assert(p[k] == q[k]);
                assert(before(le, p[k], p[m]));
            }
            if l < m {
                assert(q[l] == p[l]);
                assert(before(le, q[l], q[m]));
            }
            assert(before(le, q[m], q[k]));
            assert(before(le, p[m], p[l]));
        }
    }
}

/// There is only one sorted order.
pub proof fn law_order_is_unique(n: nat, le: spec_fn(int, int) -> bool, p: Seq<int>, q: Seq<int>)
    requires
        is_order(n, le, p),
        is_order(n, le, q),
    ensures
        p == q,
{
    lemma_same_upto(n, le, p, q, n as int);
    assert(p =~= q);
}

/// Where index `n` goes into the order of those below it, counted from the end
/// of the first `k`: behind all that are no greater.
spec fn place(le: spec_fn(int, int) -> bool, p: Seq<int>, n: int, k: int) -> int
    decreases k,
{
    if k <= 0 || le(p[k - 1], n) {
        k
    } else {
        place(le, p, n, k - 1)
    }
}

proof fn lemma_place(n: nat, le: spec_fn(int, int) -> bool, p: Seq<int>, k: int)
    requires
        is_order(n, le, p),
        compares(n + 1, le),
        0 <= k <= n,
        forall|i: int| k <= i < n ==> !le(#[trigger] p[i], n as int),
    ensures
        ({
            let at = place(le, p, n as int, k);
            &&& 0 <= at <= n
            &&& at > 0 ==> le(p[at - 1], n as int)
            &&& forall|i: int| at <= i < n ==> !le(#[trigger] p[i], n as int)
        }),
    decreases k,
{
    if k > 0 && !le(p[k - 1], n as int) {
        lemma_place(n, le, p, k - 1);
    }
}

proof fn lemma_insert(n: nat, le: spec_fn(int, int) -> bool, p: Seq<int>, at: int)
    requires
        is_order(n, le, p),
        compares(n + 1, le),
        0 <= at <= n,
        at > 0 ==> le(p[at - 1], n as int),
        forall|i: int| at <= i < n ==> !le(#[trigger] p[i], n as int),
    ensures
        is_order(n + 1, le, p.insert(at, n as int)),
{
    let q = p.insert(at, n as int);
    assert forall|k: int| 0 <= k < n + 1 implies #[trigger] q.contains(k) by {
        if k == n {
            assert(q[at] == k);
        } else {
            assert(p.contains(k));
            let i = choose|i: int| 0 <= i < p.len() && p[i] == k;
            if i < at {
                assert(q[i] == k);
            } else {
                assert(q[i + 1] == k);
            }
        }
    }
    assert forall|i: int| 0 <= i < n + 1 implies 0 <= #[trigger] q[i] < n + 1 by {
        if i < at {
            assert(q[i] == p[i]);
        } else if i > at {
            assert(q[i] == p[i - 1]);
        }
    }
    assert forall|i: int, j: int| 0 <= i < j < n + 1 implies before(
        le,
        #[trigger] q[i],
        #[trigger] q[j],
    ) by {
        if j == at {
            assert(q[i] == p[i]);
            if i < at - 1 {
                assert(before(le, p[i], p[at - 1]));
            }
            assert(le(p[i], n as int));
            assert(p[i] < n);
        } else if i == at {
            assert(q[j] == p[j - 1]);
            assert(!le(p[j - 1], n as int));
            assert(le(n as int, p[j - 1]));
        } else {
            let a = if i < at {
                i
            } else {
                i - 1
            };
            let b = if j < at {
                j
            } else {
                j - 1
            };
            assert(q[i] == p[a] && q[j] == p[b]);
        }
    }
}

proof fn lemma_order_exists(n: nat, le: spec_fn(int, int) -> bool) -> (p: Seq<int>)
    requires
        compares(n, le),
    ensures
        is_order(n, le, p),
    decreases n,
{
    if n == 0 {
        Seq::empty()
    } else {
        let m = (n - 1) as nat;
        let p = lemma_order_exists(m, le);
        lemma_place(m, le, p, m as int);
        let at = place(le, p, m as int, m as int);
        lemma_insert(m, le, p, at);
        p.insert(at, m as int)
    }
}

/// Whatever can be compared can be sorted.
pub proof fn law_order_exists(n: nat, le: spec_fn(int, int) -> bool)
    requires
        compares(n, le),
    ensures
        is_order(n, le, stable_order(n, le)),
{
    let p = lemma_order_exists(n, le);
}

/// The indices of a list as numbers.
pub open spec fn ints(v: Seq<usize>) -> Seq<int> {
    v.map_values(|i: usize| i as int)
}

proof fn lemma_order_found(n: nat, le: spec_fn(int, int) -> bool, p: Seq<int>)
    requires
        is_order(n, le, p),
    ensures
        p == stable_order(n, le),
{
    law_order_is_unique(n, le, p, stable_order(n, le));
}

// ---- by numbers ------------------------------------------------------------------

/// Pairs of numbers, the first deciding before the second.
pub open spec fn pair_le(a: (i64, i64), b: (i64, i64)) -> bool {
    a.0 < b.0 || (a.0 == b.0 && a.1 <= b.1)
}

/// The comparison of indices by their keys.
pub open spec fn by_pairs(keys: Seq<(i64, i64)>) -> spec_fn(int, int) -> bool {
    |a: int, b: int| pair_le(keys[a], keys[b])
}

/// The sorted order of the indices below `n`, by a comparison.
pub fn order_by<F: Fn(usize, usize) -> bool>(
    n: usize,
    no_greater: F,
    le: Ghost<spec_fn(int, int) -> bool>,
) -> (p: Vec<usize>)
    requires
        compares(n as nat, le@),
        forall|a: usize, b: usize| a < n && b < n ==> no_greater.requires((a, b)),
        forall|a: usize, b: usize, r: bool|
            a < n && b < n && no_greater.ensures((a, b), r) ==> r == le@(a as int, b as int),
    ensures
        ints(p@) == stable_order(n as nat, le@),
        is_order(n as nat, le@, ints(p@)),
{
    let mut p: Vec<usize> = Vec::new();
    let mut m: usize = 0;
    while m < n
        invariant
            m <= n,
            compares(n as nat, le@),
            forall|a: usize, b: usize| a < n && b < n ==> no_greater.requires((a, b)),
            forall|a: usize, b: usize, r: bool|
                a < n && b < n && no_greater.ensures((a, b), r) ==> r == le@(a as int, b as int),
            is_order(m as nat, le@, ints(p@)),
        decreases n - m,
    {
        assert(ints(p@).len() == m);
        assert forall|i: int| 0 <= i < m implies 0 <= #[trigger] p@[i] < m by {
            assert(0 <= ints(p@)[i] < m);
        }
        // The place behind all that are no greater.
        let mut at: usize = 0;
        let mut end: usize = m;
        while at < end
            invariant
                m < n,
                at <= end <= m,
                compares(n as nat, le@),
                is_order(m as nat, le@, ints(p@)),
                forall|a: usize, b: usize| a < n && b < n ==> no_greater.requires((a, b)),
                forall|a: usize, b: usize, r: bool|
                    a < n && b < n && no_greater.ensures((a, b), r) ==> r == le@(
                        a as int,
                        b as int,
                    ),
                p@.len() == m,
                forall|i: int| 0 <= i < m ==> #[trigger] p@[i] == ints(p@)[i],
                forall|i: int| 0 <= i < m ==> 0 <= #[trigger] p@[i] < m,
                forall|i: int| 0 <= i < at ==> le@(#[trigger] ints(p@)[i], m as int),
                forall|i: int| end <= i < m ==> !le@(#[trigger] ints(p@)[i], m as int),
            decreases end - at,
        {
            let mid: usize = at + (end - at) / 2;
            assert(p@[mid as int] == ints(p@)[mid as int]);
            if no_greater(p[mid], m) {
                assert forall|i: int| 0 <= i < mid + 1 implies le@(
                    #[trigger] ints(p@)[i],
                    m as int,
                ) by {
                    if i < mid {
                        assert(before(le@, ints(p@)[i], ints(p@)[mid as int]));
                        assert(0 <= ints(p@)[i] < m && 0 <= ints(p@)[mid as int] < m);
                        assert(le@(ints(p@)[i], ints(p@)[mid as int]));
                        assert(le@(ints(p@)[mid as int], m as int));
                    }
                }
                at = mid + 1;
            } else {
                assert forall|i: int| mid <= i < m implies !le@(#[trigger] ints(p@)[i], m as int) by {
                    if i > mid && le@(ints(p@)[i], m as int) {
                        assert(before(le@, ints(p@)[mid as int], ints(p@)[i]));
                        assert(0 <= ints(p@)[i] < m && 0 <= ints(p@)[mid as int] < m);
                        assert(le@(ints(p@)[mid as int], ints(p@)[i]));
                    }
                }
                end = mid;
            }
        }
        proof {
            if at > 0 {
                assert(p@[at - 1] == ints(p@)[at - 1]);
            }
            assert(compares(m as nat + 1, le@));
            lemma_insert(m as nat, le@, ints(p@), at as int);
            assert(ints(p@.insert(at as int, m)) =~= ints(p@).insert(at as int, m as int));
        }
        p.insert(at, m);
        m += 1;
    }
    proof {
        lemma_order_found(n as nat, le@, ints(p@));
    }
    p
}

/// The sorted order of a list with these keys.
pub fn order_by_pairs(keys: &Vec<(i64, i64)>) -> (p: Vec<usize>)
    ensures
        ints(p@) == stable_order(keys@.len(), by_pairs(keys@)),
        is_order(keys@.len(), by_pairs(keys@), ints(p@)),
{
    let no_greater = |a: usize, b: usize| -> (r: bool)
        requires
            a < keys@.len(),
            b < keys@.len(),
        ensures
            r == by_pairs(keys@)(a as int, b as int),
        { pair_no_greater(keys[a], keys[b]) };
    order_by(keys.len(), no_greater, Ghost(by_pairs(keys@)))
}

fn pair_no_greater(a: (i64, i64), b: (i64, i64)) -> (r: bool)
    ensures
        r == pair_le(a, b),
{
    a.0 < b.0 || (a.0 == b.0 && a.1 <= b.1)
}

/// Numbers can always be sorted.
pub proof fn lemma_pairs_compare(keys: Seq<(i64, i64)>)
    ensures
        compares(keys.len(), by_pairs(keys)),
{
}

/// The comparison of indices by pairs of counts, the greater first.
pub open spec fn by_counts(keys: Seq<(u64, u64)>) -> spec_fn(int, int) -> bool {
    |a: int, b: int|
        keys[a].0 > keys[b].0 || (keys[a].0 == keys[b].0 && keys[a].1 >= keys[b].1)
}

/// The sorted order of a list with these counts, the greater first.
pub fn order_by_counts(keys: &Vec<(u64, u64)>) -> (p: Vec<usize>)
    ensures
        ints(p@) == stable_order(keys@.len(), by_counts(keys@)),
        is_order(keys@.len(), by_counts(keys@), ints(p@)),
{
    let no_less = |a: usize, b: usize| -> (r: bool)
        requires
            a < keys@.len(),
            b < keys@.len(),
        ensures
            r == by_counts(keys@)(a as int, b as int),
        { keys[a].0 > keys[b].0 || (keys[a].0 == keys[b].0 && keys[a].1 >= keys[b].1) };
    order_by(keys.len(), no_less, Ghost(by_counts(keys@)))
}

// ---- by text -----------------------------------------------------------------------

/// The order of texts: the first character that differs decides, and a text
/// comes before those it begins.
pub open spec fn text_le(a: Seq<char>, b: Seq<char>) -> bool
    decreases a.len(),
{
    if a.len() == 0 {
        true
    } else if b.len() == 0 {
        false
    } else if a[0] != b[0] {
        a[0] < b[0]
    } else {
        text_le(a.skip(1), b.skip(1))
    }
}

pub fn text_no_greater(a: &str, b: &str) -> (r: bool)
    ensures
        r == text_le(a@, b@),
{
    let x = chars_of(a);
    let y = chars_of(b);
    let mut i: usize = 0;
    assert(a@.skip(0) =~= a@ && b@.skip(0) =~= b@);
    while i < x.len() && i < y.len() && x[i] == y[i]
        invariant
            x@ == a@,
            y@ == b@,
            i <= x@.len(),
            i <= y@.len(),
            text_le(a@, b@) == text_le(a@.skip(i as int), b@.skip(i as int)),
        decreases x@.len() - i,
    {
        assert(a@.skip(i as int).skip(1) =~= a@.skip(i + 1));
        assert(b@.skip(i as int).skip(1) =~= b@.skip(i + 1));
        i += 1;
    }
    if i == x.len() {
        true
    } else if i == y.len() {
        false
    } else {
        x[i] < y[i]
    }
}

proof fn lemma_text_total(a: Seq<char>, b: Seq<char>)
    ensures
        text_le(a, b) || text_le(b, a),
    decreases a.len(),
{
    if a.len() > 0 && b.len() > 0 && a[0] == b[0] {
        lemma_text_total(a.skip(1), b.skip(1));
    }
}

proof fn lemma_text_transitive(a: Seq<char>, b: Seq<char>, c: Seq<char>)
    requires
        text_le(a, b),
        text_le(b, c),
    ensures
        text_le(a, c),
    decreases a.len(),
{
    if a.len() > 0 && a[0] == b[0] && b[0] == c[0] {
        lemma_text_transitive(a.skip(1), b.skip(1), c.skip(1));
    }
}

/// Two texts that come no later than each other are the same.
pub proof fn law_text_order_antisymmetric(a: Seq<char>, b: Seq<char>)
    requires
        text_le(a, b),
        text_le(b, a),
    ensures
        a == b,
    decreases a.len(),
{
    if a.len() > 0 {
        law_text_order_antisymmetric(a.skip(1), b.skip(1));
        assert(a =~= seq![a[0]] + a.skip(1));
        assert(b =~= seq![b[0]] + b.skip(1));
    } else {
        assert(a =~= b);
    }
}

/// The comparison of indices by their texts.
pub open spec fn by_texts(keys: Seq<Seq<char>>) -> spec_fn(int, int) -> bool {
    |a: int, b: int| text_le(keys[a], keys[b])
}

/// Texts can always be sorted.
pub proof fn lemma_texts_compare(keys: Seq<Seq<char>>)
    ensures
        compares(keys.len(), by_texts(keys)),
{
    let le = by_texts(keys);
    let n = keys.len();
    assert forall|a: int, b: int| 0 <= a < n && 0 <= b < n implies #[trigger] le(a, b) || le(b, a) by {
        lemma_text_total(keys[a], keys[b]);
    }
    assert forall|a: int, b: int, c: int|
        0 <= a < n && 0 <= b < n && 0 <= c < n && #[trigger] le(a, b) && #[trigger] le(
            b,
            c,
        ) implies le(a, c) by {
        lemma_text_transitive(keys[a], keys[b], keys[c]);
    }
}

/// The sorted order of a list with these texts.
pub fn order_by_texts(keys: &Vec<String>) -> (p: Vec<usize>)
    ensures
        ints(p@) == stable_order(keys@.len(), by_texts(texts(keys@))),
        is_order(keys@.len(), by_texts(texts(keys@)), ints(p@)),
{
    proof {
        lemma_texts_compare(texts(keys@));
    }
    let no_greater = |a: usize, b: usize| -> (r: bool)
        requires
            a < keys@.len(),
            b < keys@.len(),
        ensures
            r == by_texts(texts(keys@))(a as int, b as int),
        {
            assert(texts(keys@)[a as int] == keys@[a as int]@);
            assert(texts(keys@)[b as int] == keys@[b as int]@);
            text_no_greater(keys[a].as_str(), keys[b].as_str())
        };
    order_by(keys.len(), no_greater, Ghost(by_texts(texts(keys@))))
}

/// Texts in order.
pub open spec fn sorted_texts(s: Seq<Seq<char>>) -> Seq<Seq<char>> {
    let p = stable_order(s.len(), by_texts(s));
    Seq::new(s.len(), |i: int| s[p[i]])
}

/// Sorts texts.
pub fn sort_texts(v: &Vec<String>) -> (r: Vec<String>)
    ensures
        texts(r@) == sorted_texts(texts(v@)),
{
    let p = order_by_texts(v);
    let mut r: Vec<String> = Vec::new();
    let mut i: usize = 0;
    assert(ints(p@).len() == p@.len());
    while i < p.len()
        invariant
            is_order(v@.len(), by_texts(texts(v@)), ints(p@)),
            p@.len() == v@.len(),
            i <= p@.len(),
            r@.len() == i,
            forall|k: int| 0 <= k < i ==> (#[trigger] r@[k])@ == texts(v@)[ints(p@)[k]],
        decreases p@.len() - i,
    {
        assert(0 <= ints(p@)[i as int] < v@.len());
        assert(ints(p@)[i as int] == p@[i as int]);
        r.push(v[p[i]].clone());
        i += 1;
    }
    assert(texts(r@) =~= sorted_texts(texts(v@)));
    r
}

/// Sorted texts are in order, and they are the ones there were.
pub proof fn law_texts_are_sorted(s: Seq<Seq<char>>)
    ensures
        sorted_texts(s).len() == s.len(),
        forall|i: int, j: int|
            0 <= i < j < s.len() ==> text_le(
                #[trigger] sorted_texts(s)[i],
                #[trigger] sorted_texts(s)[j],
            ),
        forall|t: Seq<char>| #[trigger] sorted_texts(s).contains(t) <==> s.contains(t),
{
    lemma_texts_compare(s);
    let le = by_texts(s);
    law_order_exists(s.len(), le);
    let p = stable_order(s.len(), le);
    let q = sorted_texts(s);
    assert forall|i: int, j: int| 0 <= i < j < s.len() implies text_le(
        #[trigger] q[i],
        #[trigger] q[j],
    ) by {
        assert(before(le, p[i], p[j]));
        assert(le(p[i], p[j]));
    }
    assert forall|t: Seq<char>| #[trigger] q.contains(t) <==> s.contains(t) by {
        if s.contains(t) {
            let k = choose|k: int| 0 <= k < s.len() && s[k] == t;
            assert(p.contains(k));
            let i = choose|i: int| 0 <= i < p.len() && p[i] == k;
            assert(q[i] == t);
        }
        if q.contains(t) {
            let i = choose|i: int| 0 <= i < q.len() && q[i] == t;
            assert(0 <= p[i] < s.len());
        }
    }
}

/// The first character that differs decides the order of texts, and a text comes before those
/// that go on behind it.
pub proof fn law_the_first_difference_decides(
    head: Seq<char>,
    x: char,
    y: char,
    a: Seq<char>,
    b: Seq<char>,
)
    requires
        x < y,
    ensures
        text_le(head + seq![x] + a, head + seq![y] + b),
        !text_le(head + seq![y] + b, head + seq![x] + a),
        text_le(head, head + a),
    decreases head.len(),
{
    let p = head + seq![x] + a;
    let q = head + seq![y] + b;
    if head.len() > 0 {
        let rest = head.skip(1);
        law_the_first_difference_decides(rest, x, y, a, b);
        assert(p.skip(1) =~= rest + seq![x] + a);
        assert(q.skip(1) =~= rest + seq![y] + b);
        assert((head + a).skip(1) =~= rest + a);
    } else {
        assert(p[0] == x && q[0] == y);
    }
}

} // verus!
