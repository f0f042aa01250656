//! How alike two texts are: the share of their characters that lies in matching
//! blocks, found by taking the longest common block and then, in turn, the
//! longest ones before and behind it.

use crate::order::{compares, ints, is_order, order_by, stable_order};
use crate::text::chars_of;
use vstd::prelude::*;

verus! {

/// `a` and `b` agree on the `k` characters from `i` and from `j` on, which lie
/// within the given ranges.
pub open spec fn is_block(
    a: Seq<char>,
    b: Seq<char>,
    ra: (int, int),
    rb: (int, int),
    i: int,
    j: int,
    k: int,
) -> bool {
    &&& 0 <= k
    &&& ra.0 <= i && i + k <= ra.1
    &&& rb.0 <= j && j + k <= rb.1
    &&& forall|t: int| 0 <= t < k ==> #[trigger] a[i + t] == b[j + t]
}

/// The block `m` (where it begins in `a`, where in `b`, and its size) is the
/// longest there is; of several, the one that begins first in `a`, and then in
/// `b`.
pub open spec fn is_longest(
    a: Seq<char>,
    b: Seq<char>,
    ra: (int, int),
    rb: (int, int),
    m: (int, int, int),
) -> bool {
    &&& is_block(a, b, ra, rb, m.0, m.1, m.2)
    &&& forall|i: int, j: int, k: int| #[trigger]
        is_block(a, b, ra, rb, i, j, k) ==> k < m.2 || (k == m.2 && (m.0 < i || (m.0 == i && m.1
            <= j)))
}

/// The longest block.
pub open spec fn longest(a: Seq<char>, b: Seq<char>, ra: (int, int), rb: (int, int)) -> (
    int,
    int,
    int,
) {
    choose|m: (int, int, int)| is_longest(a, b, ra, rb, m)
}

/// The number of characters in matching blocks: those of the longest block, and
/// of the matching blocks on either side of it.
pub open spec fn matching(a: Seq<char>, b: Seq<char>, ra: (int, int), rb: (int, int)) -> nat
    decreases ra.1 - ra.0,
{
    let m = longest(a, b, ra, rb);
    if !is_longest(a, b, ra, rb, m) || m.2 == 0 {
        0
    } else {
        let left = if ra.0 < m.0 && rb.0 < m.1 {
            matching(a, b, (ra.0, m.0), (rb.0, m.1))
        } else {
            0
        };
        let right = if m.0 + m.2 < ra.1 && m.1 + m.2 < rb.1 {
            matching(a, b, (m.0 + m.2, ra.1), (m.1 + m.2, rb.1))
        } else {
            0
        };
        (m.2 + left + right) as nat
    }
}

/// The same for two whole texts.
pub open spec fn matches_between(a: Seq<char>, b: Seq<char>) -> nat {
    matching(a, b, (0, a.len() as int), (0, b.len() as int))
}

/// A share: `of` parts, `count` of which match.
#[derive(Clone, Copy, PartialEq, Eq, Structural, Debug)]
pub struct Ratio {
    pub count: u64,
    pub of: u64,
}

/// Twice the matching characters, of all the characters of both; one of one for
/// two empty texts.
pub open spec fn is_ratio(r: Ratio, a: Seq<char>, b: Seq<char>) -> bool {
    if a.len() + b.len() == 0 {
        r == (Ratio { count: 1, of: 1 })
    } else {
        r.count == 2 * matches_between(a, b) && r.of == a.len() + b.len()
    }
}

/// The share of two texts.
pub open spec fn ratio_between(a: Seq<char>, b: Seq<char>) -> Ratio {
    if a.len() + b.len() == 0 {
        Ratio { count: 1, of: 1 }
    } else {
        Ratio { count: (2 * matches_between(a, b)) as u64, of: (a.len() + b.len()) as u64 }
    }
}

// ---- the longest block ----------------------------------------------------------------

/// How many characters agree up to and with `a[i]` and `b[j]`, within the ranges.
spec fn run(a: Seq<char>, b: Seq<char>, alo: int, blo: int, i: int, j: int) -> nat
    decreases i - alo + 1,
{
    if i < alo || j < blo || a[i] != b[j] {
        0
    } else {
        1 + run(a, b, alo, blo, i - 1, j - 1)
    }
}

proof fn lemma_run_is_block(a: Seq<char>, b: Seq<char>, ra: (int, int), rb: (int, int), i: int, j: int)
    requires
        i < ra.1,
        j < rb.1,
        ra.0 - 1 <= i,
        rb.0 - 1 <= j,
    ensures
        ({
            let k = run(a, b, ra.0, rb.0, i, j) as int;
            is_block(a, b, ra, rb, i + 1 - k, j + 1 - k, k)
        }),
    decreases i - ra.0 + 1,
{
    let k = run(a, b, ra.0, rb.0, i, j) as int;
    if k > 0 {
        lemma_run_is_block(a, b, ra, rb, i - 1, j - 1);
        assert forall|t: int| 0 <= t < k implies #[trigger] a[i + 1 - k + t] == b[j + 1 - k + t] by {
            if t == k - 1 {
            } else {
                let m = k - 1;
                assert(a[(i - 1) + 1 - m + t] == b[(j - 1) + 1 - m + t]);
            }
        }
    }
}

proof fn lemma_block_within_run(
    a: Seq<char>,
    b: Seq<char>,
    ra: (int, int),
    rb: (int, int),
    i: int,
    j: int,
    k: int,
)
    requires
        is_block(a, b, ra, rb, i, j, k),
        k > 0,
    ensures
        k <= run(a, b, ra.0, rb.0, i + k - 1, j + k - 1),
    decreases k,
{
    assert(a[i + (k - 1)] == b[j + (k - 1)]);
    if k > 1 {
        assert(is_block(a, b, ra, rb, i, j, k - 1));
        lemma_block_within_run(a, b, ra, rb, i, j, k - 1);
    }
}

/// The cell `(x, y)` comes before the cell `(i, j)`, row by row.
spec fn visited(x: int, y: int, i: int, j: int) -> bool {
    x < i || (x == i && y < j)
}

/// `m` is the best of the cells before `(i, j)`.
spec fn best_so_far(
    a: Seq<char>,
    b: Seq<char>,
    ra: (int, int),
    rb: (int, int),
    m: (int, int, int),
    i: int,
    j: int,
) -> bool {
    &&& 0 <= m.2
    &&& m.2 == 0 ==> m.0 == ra.0 && m.1 == rb.0
    &&& m.2 > 0 ==> {
        &&& is_block(a, b, ra, rb, m.0, m.1, m.2)
        &&& visited(m.0 + m.2 - 1, m.1 + m.2 - 1, i, j)
    }
    &&& forall|x: int, y: int|
        ra.0 <= x && rb.0 <= y < rb.1 && visited(x, y, i, j) ==> {
            let l = #[trigger] run(a, b, ra.0, rb.0, x, y);
            l < m.2 || (l == m.2 && (l == 0 || !visited(x, y, m.0 + m.2 - 1, m.1 + m.2 - 1)))
        }
}

proof fn lemma_best_is_longest(
    a: Seq<char>,
    b: Seq<char>,
    ra: (int, int),
    rb: (int, int),
    m: (int, int, int),
)
    requires
        ra.0 <= ra.1,
        rb.0 <= rb.1,
        best_so_far(a, b, ra, rb, m, ra.1, rb.0),
    ensures
        is_longest(a, b, ra, rb, m),
{
    assert forall|i: int, j: int, k: int| #[trigger] is_block(a, b, ra, rb, i, j, k) implies k < m.2
        || (k == m.2 && (m.0 < i || (m.0 == i && m.1 <= j))) by {
        if k > 0 {
            lemma_block_within_run(a, b, ra, rb, i, j, k);
            let l = run(a, b, ra.0, rb.0, i + k - 1, j + k - 1);
            assert(visited(i + k - 1, j + k - 1, ra.1, rb.0));
        }
    }
}

proof fn lemma_longest_unique(
    a: Seq<char>,
    b: Seq<char>,
    ra: (int, int),
    rb: (int, int),
    m: (int, int, int),
)
    requires
        is_longest(a, b, ra, rb, m),
    ensures
        m == longest(a, b, ra, rb),
{
    let n = longest(a, b, ra, rb);
    assert(is_longest(a, b, ra, rb, n));
    assert(is_block(a, b, ra, rb, m.0, m.1, m.2));
    assert(is_block(a, b, ra, rb, n.0, n.1, n.2));
}

/// Finds the longest block within `a[alo..ahi]` and `b[blo..bhi]`.
fn find_longest_match(
    a: &Vec<char>,
    b: &Vec<char>,
    alo: usize,
    ahi: usize,
    blo: usize,
    bhi: usize,
) -> (m: (usize, usize, usize))
    requires
        alo <= ahi <= a@.len(),
        blo <= bhi <= b@.len(),
    ensures
        is_longest(
            a@,
            b@,
            (alo as int, ahi as int),
            (blo as int, bhi as int),
            (m.0 as int, m.1 as int, m.2 as int),
        ),
        (m.0 as int, m.1 as int, m.2 as int) == longest(
            a@,
            b@,
            (alo as int, ahi as int),
            (blo as int, bhi as int),
        ),
{
    let ghost ra = (alo as int, ahi as int);
    let ghost rb = (blo as int, bhi as int);
    let mut best: (usize, usize, usize) = (alo, blo, 0);
    // The runs that end in the row before, by column.
    let mut row: Vec<usize> = Vec::new();
    let mut c: usize = blo;
    while c < bhi
        invariant
            blo <= c <= bhi,
            row@.len() == c - blo,
            forall|t: int| 0 <= t < c - blo ==> #[trigger] row@[t] == 0,
        decreases bhi - c,
    {
        row.push(0);
        c += 1;
    }
    let mut i: usize = alo;
    assert forall|t: int| 0 <= t < bhi - blo implies #[trigger] row@[t] == run(
        a@,
        b@,
        ra.0,
        rb.0,
        alo - 1,
        blo + t,
    ) by {}
    while i < ahi
        invariant
            alo <= i <= ahi <= a@.len(),
            blo <= bhi <= b@.len(),
            ra == (alo as int, ahi as int),
            rb == (blo as int, bhi as int),
            row@.len() == bhi - blo,
            forall|t: int|
                0 <= t < bhi - blo ==> #[trigger] row@[t] == run(a@, b@, ra.0, rb.0, i - 1, blo + t),
            best_so_far(
                a@,
                b@,
                ra,
                rb,
                (best.0 as int, best.1 as int, best.2 as int),
                i as int,
                rb.0,
            ),
        decreases ahi - i,
    {
        let mut next: Vec<usize> = Vec::new();
        let mut j: usize = blo;
        while j < bhi
            invariant
                alo <= i < ahi <= a@.len(),
                blo <= j <= bhi <= b@.len(),
                ra == (alo as int, ahi as int),
                rb == (blo as int, bhi as int),
                row@.len() == bhi - blo,
                next@.len() == j - blo,
                forall|t: int|
                    0 <= t < bhi - blo ==> #[trigger] row@[t] == run(
                        a@,
                        b@,
                        ra.0,
                        rb.0,
                        i - 1,
                        blo + t,
                    ),
                forall|t: int|
                    0 <= t < j - blo ==> #[trigger] next@[t] == run(
                        a@,
                        b@,
                        ra.0,
                        rb.0,
                        i as int,
                        blo + t,
                    ),
                best_so_far(
                    a@,
                    b@,
                    ra,
                    rb,
                    (best.0 as int, best.1 as int, best.2 as int),
                    i as int,
                    j as int,
                ),
            decreases bhi - j,
        {
            let ghost l = run(a@, b@, ra.0, rb.0, i as int, j as int);
            let ghost was = (best.0 as int, best.1 as int, best.2 as int);
            proof {
                lemma_run_is_block(a@, b@, ra, rb, i as int, j as int);
                assert(j > blo ==> row@[j - 1 - blo] == run(
                    a@,
                    b@,
                    ra.0,
                    rb.0,
                    i - 1,
                    blo + (j - 1 - blo),
                ));
            }
            if a[i] == b[j] {
                let k: usize = if j > blo {
                    proof {
                        lemma_run_is_block(a@, b@, ra, rb, i - 1, j - 1);
                    }
                    row[j - 1 - blo] + 1
                } else {
                    1
                };
                assert(k == l);
                next.push(k);
                if k > best.2 {
                    best = (i + 1 - k, j + 1 - k, k);
                }
            } else {
                next.push(0);
            }
            proof {
                let m = (best.0 as int, best.1 as int, best.2 as int);
                assert forall|x: int, y: int|
                    ra.0 <= x && rb.0 <= y < rb.1 && visited(x, y, i as int, j + 1) implies ({
                    let l = #[trigger] run(a@, b@, ra.0, rb.0, x, y);
                    l < m.2 || (l == m.2 && (l == 0 || !visited(
                        x,
                        y,
                        m.0 + m.2 - 1,
                        m.1 + m.2 - 1,
                    )))
                }) by {
                    if visited(x, y, i as int, j as int) {
                    } else {
                        assert(x == i && y == j);
                    }
                }
            }
            j += 1;
        }
        proof {
            let m = (best.0 as int, best.1 as int, best.2 as int);
            assert forall|x: int, y: int|
                ra.0 <= x && rb.0 <= y < rb.1 && visited(x, y, i + 1, rb.0) implies ({
                let l = #[trigger] run(a@, b@, ra.0, rb.0, x, y);
                l < m.2 || (l == m.2 && (l == 0 || !visited(x, y, m.0 + m.2 - 1, m.1 + m.2 - 1)))
            }) by {
                assert(visited(x, y, i as int, bhi as int));
            }
        }
        row = next;
        i += 1;
    }
    proof {
        let m = (best.0 as int, best.1 as int, best.2 as int);
        lemma_best_is_longest(a@, b@, ra, rb, m);
        lemma_longest_unique(a@, b@, ra, rb, m);
    }
    best
}

/// No more characters match than either side has.
pub proof fn lemma_matching_bound(a: Seq<char>, b: Seq<char>, ra: (int, int), rb: (int, int))
    requires
        ra.0 <= ra.1,
        rb.0 <= rb.1,
    ensures
        matching(a, b, ra, rb) <= ra.1 - ra.0,
        matching(a, b, ra, rb) <= rb.1 - rb.0,
    decreases ra.1 - ra.0,
{
    let m = longest(a, b, ra, rb);
    if is_longest(a, b, ra, rb, m) && m.2 > 0 {
        if ra.0 < m.0 && rb.0 < m.1 {
            lemma_matching_bound(a, b, (ra.0, m.0), (rb.0, m.1));
        }
        if m.0 + m.2 < ra.1 && m.1 + m.2 < rb.1 {
            lemma_matching_bound(a, b, (m.0 + m.2, ra.1), (m.1 + m.2, rb.1));
        }
    }
}

/// The number of characters in matching blocks.
fn matching_size(
    a: &Vec<char>,
    b: &Vec<char>,
    alo: usize,
    ahi: usize,
    blo: usize,
    bhi: usize,
) -> (n: usize)
    requires
        alo <= ahi <= a@.len(),
        blo <= bhi <= b@.len(),
    ensures
        n == matching(a@, b@, (alo as int, ahi as int), (blo as int, bhi as int)),
    decreases ahi - alo,
{
    let (i, j, k): (usize, usize, usize) = find_longest_match(a, b, alo, ahi, blo, bhi);
    proof {
        lemma_matching_bound(a@, b@, (alo as int, ahi as int), (blo as int, bhi as int));
    }
    if k == 0 {
        return 0;
    }
    let left: usize = if alo < i && blo < j {
        matching_size(a, b, alo, i, blo, j)
    } else {
        0
    };
    let right: usize = if i + k < ahi && j + k < bhi {
        matching_size(a, b, i + k, ahi, j + k, bhi)
    } else {
        0
    };
    k + left + right
}

/// How alike two texts are. `None` only when they are too long for the share to
/// be counted.
pub fn seq_ratio(a: &str, b: &str) -> (r: Option<Ratio>)
    ensures
        match r {
            Some(ratio) => is_ratio(ratio, a@, b@) && ratio == ratio_between(a@, b@) && a@.len()
                + b@.len() <= u64::MAX,
            None => a@.len() + b@.len() > u64::MAX,
        },
{
    let x = chars_of(a);
    let y = chars_of(b);
    let (n, m): (u64, u64) = (x.len() as u64, y.len() as u64);
    if n > u64::MAX - m {
        return None;
    }
    let of: u64 = n + m;
    if of == 0 {
        return Some(Ratio { count: 1, of: 1 });
    }
    proof {
        lemma_matching_bound(a@, b@, (0, a@.len() as int), (0, b@.len() as int));
    }
    let size: u64 = matching_size(&x, &y, 0, x.len(), 0, y.len()) as u64;
    Some(Ratio { count: 2 * size, of })
}

// ---- comparing shares -----------------------------------------------------------------------

/// `a` is a share no smaller than `b`.
pub open spec fn no_smaller(a: Ratio, b: Ratio) -> bool {
    a.count * b.of >= b.count * a.of
}

/// A share of at least forty-five in a hundred.
pub open spec fn alike(r: Ratio) -> bool {
    100 * r.count >= 45 * r.of
}

pub fn at_least(a: Ratio, b: Ratio) -> (r: bool)
    ensures
        r == no_smaller(a, b),
{
    proof {
        lemma_product_fits(a.count, b.of);
        lemma_product_fits(b.count, a.of);
    }
    a.count as u128 * b.of as u128 >= b.count as u128 * a.of as u128
}

proof fn lemma_product_fits(x: u64, y: u64)
    ensures
        0 <= x * y <= 0xffff_ffff_ffff_ffff * 0xffff_ffff_ffff_ffff,
{
    assert(0 <= x * y <= 0xffff_ffff_ffff_ffff * 0xffff_ffff_ffff_ffff) by (nonlinear_arith);
}

pub fn is_alike(r: Ratio) -> (b: bool)
    ensures
        b == alike(r),
{
    100 * r.count as u128 >= 45 * r.of as u128
}

/// The comparison that puts the greater share first.
pub open spec fn by_ratios(rs: Seq<Ratio>) -> spec_fn(int, int) -> bool {
    |a: int, b: int| no_smaller(rs[a], rs[b])
}

pub open spec fn all_shares(rs: Seq<Ratio>) -> bool {
    forall|i: int| 0 <= i < rs.len() ==> (#[trigger] rs[i]).of > 0
}

pub proof fn lemma_ratios_compare(rs: Seq<Ratio>)
    requires
        all_shares(rs),
    ensures
        compares(rs.len(), by_ratios(rs)),
{
    let le = by_ratios(rs);
    let n = rs.len();
    assert forall|a: int, b: int, c: int|
        0 <= a < n && 0 <= b < n && 0 <= c < n && #[trigger] le(a, b) && #[trigger] le(
            b,
            c,
        ) implies le(a, c) by {
        let (x, y, z) = (rs[a], rs[b], rs[c]);
        let (xc, xo, yc, yo, zc, zo) = (
            x.count as int,
            x.of as int,
            y.count as int,
            y.of as int,
            z.count as int,
            z.of as int,
        );
        assert(xc * zo >= zc * xo) by (nonlinear_arith)
            requires
                xc * yo >= yc * xo,
                yc * zo >= zc * yo,
                xo > 0,
                yo > 0,
                zo > 0,
                xc >= 0,
                yc >= 0,
                zc >= 0,
        {
            assert((xc * yo) * zo >= (yc * xo) * zo);
            assert((yc * zo) * xo >= (zc * yo) * xo);
            assert((yc * xo) * zo == (yc * zo) * xo);
            assert((xc * yo) * zo == (xc * zo) * yo);
            assert((zc * yo) * xo == (zc * xo) * yo);
            assert((xc * zo) * yo >= (zc * xo) * yo);
        }
    }
}

/// The order of shares, the greatest first.
pub fn order_by_ratios(rs: &Vec<Ratio>) -> (p: Vec<usize>)
    requires
        all_shares(rs@),
    ensures
        ints(p@) == stable_order(rs@.len(), by_ratios(rs@)),
        is_order(rs@.len(), by_ratios(rs@), ints(p@)),
{
    proof {
        lemma_ratios_compare(rs@);
    }
    let no_greater = |a: usize, b: usize| -> (r: bool)
        requires
            a < rs@.len(),
            b < rs@.len(),
        ensures
            r == by_ratios(rs@)(a as int, b as int),
        { at_least(rs[a], rs[b]) };
    order_by(rs.len(), no_greater, Ghost(by_ratios(rs@)))
}

// ---- laws ---------------------------------------------------------------------------

/// A share is between nothing and all.
pub proof fn law_ratio_is_a_share(r: Ratio, a: Seq<char>, b: Seq<char>)
    requires
        is_ratio(r, a, b),
    ensures
        0 <= r.count <= r.of,
        r.of > 0,
{
    lemma_matching_bound(a, b, (0, a.len() as int), (0, b.len() as int));
}

/// A text is wholly like itself.
pub proof fn law_same_text_matches_wholly(r: Ratio, a: Seq<char>)
    requires
        is_ratio(r, a, a),
    ensures
        r.count == r.of,
{
    let n = a.len() as int;
    if n > 0 {
        let m = (0int, 0int, n);
        assert(is_block(a, a, (0, n), (0, n), 0, 0, n));
        assert(is_longest(a, a, (0, n), (0, n), m));
        lemma_longest_unique(a, a, (0, n), (0, n), m);
    }
}

/// Texts without a character in common are not alike at all.
pub proof fn law_nothing_in_common(r: Ratio, a: Seq<char>, b: Seq<char>)
    requires
        is_ratio(r, a, b),
        a.len() + b.len() > 0,
        forall|i: int, j: int| 0 <= i < a.len() && 0 <= j < b.len() ==> a[i] != b[j],
    ensures
        r.count == 0,
{
    let m = longest(a, b, (0, a.len() as int), (0, b.len() as int));
    if is_longest(a, b, (0, a.len() as int), (0, b.len() as int), m) && m.2 > 0 {
        assert(a[m.0 + 0] == b[m.1 + 0]);
    }
}

proof fn lemma_longest_from(
    a: Seq<char>,
    b: Seq<char>,
    ra: (int, int),
    rb: (int, int),
    m: (int, int, int),
) -> (l: (int, int, int))
    requires
        is_block(a, b, ra, rb, m.0, m.1, m.2),
    ensures
        is_longest(a, b, ra, rb, l),
    decreases ra.1 - ra.0 - m.2, m.0 - ra.0, m.1 - rb.0,
{
    if is_longest(a, b, ra, rb, m) {
        m
    } else {
        let (i, j, k) = choose|i: int, j: int, k: int|
            #![trigger is_block(a, b, ra, rb, i, j, k)]
            is_block(a, b, ra, rb, i, j, k) && !(k < m.2 || (k == m.2 && (m.0 < i || (m.0 == i && m.1
                <= j))));
        lemma_longest_from(a, b, ra, rb, (i, j, k))
    }
}

/// Texts that share a run of characters match in as many at least.
pub proof fn law_shared_runs_match(a: Seq<char>, b: Seq<char>, i: int, j: int, k: int)
    requires
        0 <= i,
        0 <= j,
        0 <= k,
        i + k <= a.len(),
        j + k <= b.len(),
        a.subrange(i, i + k) == b.subrange(j, j + k),
    ensures
        matches_between(a, b) >= k,
        matches_between(a, b) <= a.len(),
        matches_between(a, b) <= b.len(),
{
    let ra = (0int, a.len() as int);
    let rb = (0int, b.len() as int);
    lemma_matching_bound(a, b, ra, rb);
    assert forall|t: int| 0 <= t < k implies #[trigger] a[i + t] == b[j + t] by {
        assert(a.subrange(i, i + k)[t] == a[i + t]);
        assert(b.subrange(j, j + k)[t] == b[j + t]);
    }
    assert(is_block(a, b, ra, rb, i, j, k));
    let l = lemma_longest_from(a, b, ra, rb, (i, j, k));
    let m = longest(a, b, ra, rb);
    assert(is_longest(a, b, ra, rb, m));
}

/// A share is alike from forty-five in a hundred on, and of two the greater fraction is.
pub proof fn law_shares_are_compared(r: Ratio, s: Ratio)
    requires
        r.of > 0,
        s.of > 0,
    ensures
        r.of == 100 ==> (alike(r) <==> r.count >= 45),
        r.of == s.of ==> (no_smaller(r, s) <==> r.count >= s.count),
        r.count == s.count && r.of <= s.of ==> no_smaller(r, s),
{
    if r.of == s.of {
        assert(r.count * s.of >= s.count * r.of <==> r.count >= s.count) by (nonlinear_arith)
            requires
                r.of == s.of,
                r.of > 0,
        ;
    }
    if r.count == s.count && r.of <= s.of {
        assert(r.count * s.of >= s.count * r.of) by (nonlinear_arith)
            requires
                r.count == s.count,
                r.of <= s.of,
                0 <= r.count,
        ;
    }
}

} // verus!
