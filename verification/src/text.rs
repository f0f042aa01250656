//! Text: strings as sequences of characters, and the operations on them that the
//! rest of the library is stated in.

use vstd::prelude::*;
use vstd::utf8::{decode_utf8, encode_utf8, encode_utf8_decode_utf8, valid_utf8};

verus! {

broadcast use vstd::string::group_string_axioms;

/// `String::push`: one character more at the end.
pub assume_specification[ String::push ](s: &mut String, c: char)
    ensures
        final(s)@ == old(s)@.push(c),
;

/// The texts of a sequence of strings.
pub open spec fn texts(v: Seq<String>) -> Seq<Seq<char>> {
    v.map_values(|s: String| s@)
}

/// The text that there may be.
pub open spec fn opt_text(s: Option<String>) -> Option<Seq<char>> {
    match s {
        Some(t) => Some(t@),
        None => None,
    }
}

/// The characters of a string.
pub fn chars_of(s: &str) -> (v: Vec<char>)
    ensures
        v@ == s@,
{
    let mut v: Vec<char> = Vec::new();
    for c in it: s.chars()
        invariant
            v@ == s@.take(it.index()),
            it.seq() == s@,
    {
        v.push(c);
        assert(s@.take(it.index() + 1) =~= s@.take(it.index()).push(c));
    }
    assert(s@.take(s@.len() as int) =~= s@);
    v
}

/// The string of the characters `from` up to `to`.
pub fn string_range(v: &Vec<char>, from: usize, to: usize) -> (s: String)
    requires
        from <= to <= v@.len(),
    ensures
        s@ == v@.subrange(from as int, to as int),
{
    let mut s = String::new();
    let mut i: usize = from;
    while i < to
        invariant
            from <= i <= to <= v@.len(),
            s@ == v@.subrange(from as int, i as int),
        decreases to - i,
    {
        s.push(v[i]);
        i += 1;
        assert(v@.subrange(from as int, i as int) =~= v@.subrange(from as int, i - 1).push(v@[i - 1]));
    }
    s
}

/// The string of these characters.
pub fn string_of(v: &Vec<char>) -> (s: String)
    ensures
        s@ == v@,
{
    let s = string_range(v, 0, v.len());
    assert(v@.subrange(0, v@.len() as int) =~= v@);
    s
}

/// Whether two strings are the same.
pub fn same(a: &str, b: &str) -> (r: bool)
    ensures
        r == (a@ == b@),
{
    let x = a.as_bytes();
    let y = b.as_bytes();
    proof {
        encode_utf8_decode_utf8(a@);
        encode_utf8_decode_utf8(b@);
    }
    let n: usize = x.len();
    if n != y.len() {
        return false;
    }
    let mut i: usize = 0;
    while i < n
        invariant
            x@ == encode_utf8(a@),
            y@ == encode_utf8(b@),
            n == x@.len(),
            n == y@.len(),
            i <= n,
            forall|k: int| 0 <= k < i ==> x@[k] == y@[k],
        decreases n - i,
    {
        if x[i] != y[i] {
            return false;
        }
        i += 1;
    }
    assert(x@ =~= y@);
    true
}

// ---- white space -------------------------------------------------------------

/// The characters with the Unicode property `White_Space`.
pub open spec fn is_space(c: char) -> bool {
    let u = c as u32;
    ||| 0x09 <= u <= 0x0d
    ||| u == 0x20
    ||| u == 0x85
    ||| u == 0xa0
    ||| u == 0x1680
    ||| 0x2000 <= u <= 0x200a
    ||| u == 0x2028
    ||| u == 0x2029
    ||| u == 0x202f
    ||| u == 0x205f
    ||| u == 0x3000
}

pub fn space(c: char) -> (r: bool)
    ensures
        r == is_space(c),
{
    let u: u32 = c as u32;
    (0x09 <= u && u <= 0x0d) || u == 0x20 || u == 0x85 || u == 0xa0 || u == 0x1680 || (0x2000 <= u
        && u <= 0x200a) || u == 0x2028 || u == 0x2029 || u == 0x202f || u == 0x205f || u == 0x3000
}

/// A text without the white space it begins with.
pub open spec fn trimmed_start(s: Seq<char>) -> Seq<char>
    decreases s.len(),
{
    if s.len() > 0 && is_space(s[0]) {
        trimmed_start(s.skip(1))
    } else {
        s
    }
}

/// A text without the white space it ends with.
pub open spec fn trimmed_end(s: Seq<char>) -> Seq<char>
    decreases s.len(),
{
    if s.len() > 0 && is_space(s.last()) {
        trimmed_end(s.drop_last())
    } else {
        s
    }
}

/// A text without the white space around it.
pub open spec fn trimmed(s: Seq<char>) -> Seq<char> {
    trimmed_end(trimmed_start(s))
}

pub fn trim(s: &str) -> (r: String)
    ensures
        r@ == trimmed(s@),
{
    let v = chars_of(s);
    let mut i: usize = 0;
    assert(s@.skip(0) =~= s@);
    while i < v.len() && space(v[i])
        invariant
            v@ == s@,
            i <= v@.len(),
            trimmed_start(s@) == trimmed_start(s@.skip(i as int)),
        decreases v@.len() - i,
    {
        assert(s@.skip(i as int).skip(1) =~= s@.skip(i + 1));
        i += 1;
    }
    let ghost t = s@.skip(i as int);
    assert(trimmed_start(s@) == t);
    let mut j: usize = v.len();
    assert(t =~= s@.subrange(i as int, j as int));
    while j > i && space(v[j - 1])
        invariant
            v@ == s@,
            i <= j <= v@.len(),
            trimmed_end(t) == trimmed_end(s@.subrange(i as int, j as int)),
        decreases j,
    {
        assert(s@.subrange(i as int, j as int).drop_last() =~= s@.subrange(i as int, j - 1));
        j -= 1;
    }
    string_range(&v, i, j)
}

// ---- searching -----------------------------------------------------------------

/// `part` stands in `s` at index `i`.
pub open spec fn occurs_at(s: Seq<char>, part: Seq<char>, i: int) -> bool {
    0 <= i && i + part.len() <= s.len() && s.subrange(i, i + part.len()) == part
}

/// The first place at or after `from` where `part` stands in `s`.
pub open spec fn find_from(s: Seq<char>, part: Seq<char>, from: int) -> Option<int>
    decreases s.len() + 1 - from,
{
    if from < 0 || from + part.len() > s.len() {
        None
    } else if occurs_at(s, part, from) {
        Some(from)
    } else {
        find_from(s, part, from + 1)
    }
}

/// `part` stands somewhere in `s`.
pub open spec fn has_part(s: Seq<char>, part: Seq<char>) -> bool {
    exists|i: int| occurs_at(s, part, i)
}

/// What `find_from` finds is the first occurrence, and it finds one if there is.
pub proof fn lemma_find_from(s: Seq<char>, part: Seq<char>, from: int)
    requires
        0 <= from,
    ensures
        match find_from(s, part, from) {
            Some(i) => from <= i && occurs_at(s, part, i) && forall|k: int|
                from <= k < i ==> !occurs_at(s, part, k),
            None => forall|k: int| from <= k ==> !occurs_at(s, part, k),
        },
    decreases s.len() + 1 - from,
{
    if from + part.len() <= s.len() && !occurs_at(s, part, from) {
        lemma_find_from(s, part, from + 1);
    }
}

/// Whether `part` stands in `s` at index `i`.
pub fn is_at(s: &Vec<char>, part: &Vec<char>, i: usize) -> (r: bool)
    requires
        i <= s@.len(),
    ensures
        r == occurs_at(s@, part@, i as int),
{
    if part.len() > s.len() - i {
        return false;
    }
    let n: usize = s.len();
    let mut k: usize = 0;
    while k < part.len()
        invariant
            n == s@.len(),
            i + part@.len() <= n,
            k <= part@.len(),
            forall|m: int| 0 <= m < k ==> s@[i + m] == part@[m],
        decreases part@.len() - k,
    {
        if s[i + k] != part[k] {
            assert(s@.subrange(i as int, i + part@.len())[k as int] == s@[i + k]);
            return false;
        }
        k += 1;
    }
    assert(s@.subrange(i as int, i + part@.len()) =~= part@);
    true
}

/// The first place at or after `from` where `part` stands in `s`.
pub fn find(s: &Vec<char>, part: &Vec<char>, from: usize) -> (r: Option<usize>)
    requires
        from <= s@.len(),
    ensures
        match r {
            Some(i) => find_from(s@, part@, from as int) == Some(i as int),
            None => find_from(s@, part@, from as int) is None,
        },
{
    let mut i: usize = from;
    while part.len() <= s.len() - i
        invariant
            from <= i <= s@.len(),
            find_from(s@, part@, from as int) == find_from(s@, part@, i as int),
        decreases s@.len() + 1 - i,
    {
        if is_at(s, part, i) {
            return Some(i);
        }
        if i == s.len() {
            assert(find_from(s@, part@, i + 1) is None);
            return None;
        }
        i += 1;
    }
    None
}

pub fn contains(s: &str, part: &str) -> (r: bool)
    ensures
        r == has_part(s@, part@),
{
    proof {
        lemma_find_from(s@, part@, 0);
    }
    find(&chars_of(s), &chars_of(part), 0).is_some()
}

/// `s` begins with `part`.
pub open spec fn begins(s: Seq<char>, part: Seq<char>) -> bool {
    part.len() <= s.len() && s.take(part.len() as int) == part
}

/// `s` ends with `part`.
pub open spec fn ends(s: Seq<char>, part: Seq<char>) -> bool {
    part.len() <= s.len() && s.skip(s.len() - part.len()) == part
}

pub fn starts_with(s: &str, part: &str) -> (r: bool)
    ensures
        r == begins(s@, part@),
{
    assert(part@.len() <= s@.len() ==> s@.subrange(0, part@.len() as int) =~= s@.take(
        part@.len() as int,
    ));
    is_at(&chars_of(s), &chars_of(part), 0)
}

pub fn ends_with(s: &str, part: &str) -> (r: bool)
    ensures
        r == ends(s@, part@),
{
    let v = chars_of(s);
    let p = chars_of(part);
    if p.len() > v.len() {
        return false;
    }
    assert(s@.subrange(s@.len() - part@.len(), s@.len() as int) =~= s@.skip(
        s@.len() - part@.len(),
    ));
    is_at(&v, &p, v.len() - p.len())
}

/// How often a character stands in a text.
pub open spec fn count_of(s: Seq<char>, c: char) -> nat
    decreases s.len(),
{
    if s.len() == 0 {
        0
    } else {
        count_of(s.drop_last(), c) + if s.last() == c {
            1nat
        } else {
            0nat
        }
    }
}

pub fn count(s: &str, c: char) -> (n: usize)
    ensures
        n == count_of(s@, c),
        n <= s@.len(),
{
    let v = chars_of(s);
    let mut n: usize = 0;
    let mut i: usize = 0;
    while i < v.len()
        invariant
            v@ == s@,
            i <= v@.len(),
            n <= i,
            n == count_of(s@.take(i as int), c),
        decreases v@.len() - i,
    {
        assert(s@.take(i + 1).drop_last() =~= s@.take(i as int));
        if v[i] == c {
            n += 1;
        }
        i += 1;
    }
    assert(s@.take(i as int) =~= s@);
    n
}

// ---- building ---------------------------------------------------------------------

/// `b` after `a`.
pub fn append(a: &str, b: &str) -> (r: String)
    ensures
        r@ == a@ + b@,
{
    let mut r = a.to_owned();
    r.append(b);
    r
}

/// A text with every occurrence of `part` replaced, from left to right.
pub open spec fn replaced(s: Seq<char>, part: Seq<char>, to: Seq<char>) -> Seq<char>
    decreases s.len(),
{
    if s.len() == 0 || part.len() == 0 {
        s
    } else if occurs_at(s, part, 0) {
        to + replaced(s.skip(part.len() as int), part, to)
    } else {
        seq![s[0]] + replaced(s.skip(1), part, to)
    }
}

pub fn replace(s: &str, part: &str, to: &str) -> (r: String)
    requires
        part@.len() > 0,
    ensures
        r@ == replaced(s@, part@, to@),
{
    let v = chars_of(s);
    let p = chars_of(part);
    let mut r = String::new();
    let mut i: usize = 0;
    assert(s@.skip(0) =~= s@);
    while i < v.len()
        invariant
            v@ == s@,
            p@ == part@,
            part@.len() > 0,
            i <= v@.len(),
            r@ + replaced(s@.skip(i as int), part@, to@) == replaced(s@, part@, to@),
        decreases v@.len() - i,
    {
        let ghost rest = s@.skip(i as int);
        if is_at(&v, &p, i) {
            proof {
                assert(rest.subrange(0, part@.len() as int) =~= s@.subrange(
                    i as int,
                    i + part@.len(),
                ));
                assert(rest.skip(part@.len() as int) =~= s@.skip(i + part@.len()));
                assert(r@ + (to@ + replaced(s@.skip(i + part@.len()), part@, to@)) =~= (r@ + to@)
                    + replaced(s@.skip(i + part@.len()), part@, to@));
            }
            r.append(to);
            i += p.len();
        } else {
            proof {
                if occurs_at(rest, part@, 0) {
                    assert(rest.subrange(0, part@.len() as int) =~= s@.subrange(
                        i as int,
                        i + part@.len(),
                    ));
                }
                assert(rest.skip(1) =~= s@.skip(i + 1));
                assert(r@ + (seq![rest[0]] + replaced(s@.skip(i + 1), part@, to@)) =~= r@.push(
                    rest[0],
                ) + replaced(s@.skip(i + 1), part@, to@));
            }
            r.push(v[i]);
            i += 1;
        }
    }
    assert(r@ + s@.skip(i as int) =~= r@);
    r
}

// ---- splitting ----------------------------------------------------------------------

/// The first place of a character at or after `from`; the length when there is
/// none.
pub open spec fn char_from(s: Seq<char>, c: char, from: int) -> int
    decreases s.len() - from,
{
    if from >= s.len() || s[from] == c {
        from
    } else {
        char_from(s, c, from + 1)
    }
}

pub proof fn lemma_char_from(s: Seq<char>, c: char, from: int)
    requires
        0 <= from <= s.len(),
    ensures
        from <= char_from(s, c, from) <= s.len(),
        char_from(s, c, from) < s.len() ==> s[char_from(s, c, from)] == c,
        forall|k: int| from <= k < char_from(s, c, from) ==> s[k] != c,
    decreases s.len() - from,
{
    if from < s.len() && s[from] != c {
        lemma_char_from(s, c, from + 1);
    }
}

pub fn find_char(v: &Vec<char>, c: char, from: usize) -> (i: usize)
    requires
        from <= v@.len(),
    ensures
        i == char_from(v@, c, from as int),
        from <= i <= v@.len(),
        i < v@.len() ==> v@[i as int] == c,
{
    let mut i: usize = from;
    while i < v.len() && v[i] != c
        invariant
            from <= i <= v@.len(),
            char_from(v@, c, from as int) == char_from(v@, c, i as int),
        decreases v@.len() - i,
    {
        i += 1;
    }
    i
}

/// The parts of a text between the occurrences of a character, at most `n` of
/// them: the last part keeps the rest.
pub open spec fn split_n(s: Seq<char>, c: char, n: nat) -> Seq<Seq<char>>
    decreases s.len(),
{
    let i = char_from(s, c, 0);
    if n == 0 {
        Seq::empty()
    } else if n == 1 || i >= s.len() {
        seq![s]
    } else {
        proof {
            lemma_char_from(s, c, 0);
        }
        seq![s.take(i)] + split_n(s.skip(i + 1), c, (n - 1) as nat)
    }
}

/// All the parts of a text between the occurrences of a character.
pub open spec fn split_all(s: Seq<char>, c: char) -> Seq<Seq<char>>
    decreases s.len(),
{
    let i = char_from(s, c, 0);
    if i >= s.len() {
        seq![s]
    } else {
        proof {
            lemma_char_from(s, c, 0);
        }
        seq![s.take(i)] + split_all(s.skip(i + 1), c)
    }
}

proof fn lemma_char_from_skip(s: Seq<char>, c: char, from: int, i: int)
    requires
        0 <= from <= s.len(),
        0 <= i <= s.len() - from,
    ensures
        char_from(s.skip(from), c, i) == char_from(s, c, from + i) - from,
    decreases s.len() - from - i,
{
    if from + i < s.len() && s[from + i] != c {
        lemma_char_from_skip(s, c, from, i + 1);
    }
}

pub fn splitn(s: &str, c: char, n: usize) -> (r: Vec<String>)
    requires
        n > 0,
    ensures
        texts(r@) == split_n(s@, c, n as nat),
{
    let v = chars_of(s);
    let mut r: Vec<String> = Vec::new();
    let mut from: usize = 0;
    assert(s@.skip(0) =~= s@);
    assert(texts(r@) + split_n(s@, c, n as nat) =~= split_n(s@, c, n as nat));
    let mut left: usize = n;
    loop
        invariant
            v@ == s@,
            from <= v@.len(),
            0 < left,
            texts(r@) + split_n(s@.skip(from as int), c, left as nat) == split_n(s@, c, n as nat),
        decreases left,
    {
        let i: usize = find_char(&v, c, from);
        let ghost rest = s@.skip(from as int);
        proof {
            lemma_char_from_skip(s@, c, from as int, 0);
        }
        if left == 1 || i >= v.len() {
            let part = string_range(&v, from, v.len());
            proof {
                assert(part@ =~= rest);
                assert(texts(r@.push(part)) =~= texts(r@).push(part@));
                assert(texts(r@) + seq![rest] =~= texts(r@).push(rest));
            }
            r.push(part);
            return r;
        }
        let part = string_range(&v, from, i);
        proof {
            assert(part@ =~= rest.take(i - from));
            assert(rest.skip(i - from + 1) =~= s@.skip(i + 1));
            assert(texts(r@.push(part)) =~= texts(r@).push(part@));
            let tail = split_n(s@.skip(i + 1), c, (left - 1) as nat);
            assert(texts(r@) + (seq![part@] + tail) =~= texts(r@).push(part@) + tail);
        }
        r.push(part);
        from = i + 1;
        left -= 1;
    }
}

pub fn split(s: &str, c: char) -> (r: Vec<String>)
    ensures
        texts(r@) == split_all(s@, c),
{
    let v = chars_of(s);
    let mut r: Vec<String> = Vec::new();
    let mut from: usize = 0;
    assert(s@.skip(0) =~= s@);
    assert(texts(r@) + split_all(s@, c) =~= split_all(s@, c));
    loop
        invariant
            v@ == s@,
            from <= v@.len(),
            texts(r@) + split_all(s@.skip(from as int), c) == split_all(s@, c),
        decreases v@.len() - from,
    {
        let i: usize = find_char(&v, c, from);
        let ghost rest = s@.skip(from as int);
        proof {
            lemma_char_from_skip(s@, c, from as int, 0);
        }
        let part = string_range(&v, from, i);
        proof {
            assert(texts(r@.push(part)) =~= texts(r@).push(part@));
        }
        if i >= v.len() {
            proof {
                assert(part@ =~= rest);
                assert(texts(r@) + seq![rest] =~= texts(r@).push(rest));
            }
            r.push(part);
            return r;
        }
        proof {
            assert(part@ =~= rest.take(i - from));
            assert(rest.skip(i - from + 1) =~= s@.skip(i + 1));
            let tail = split_all(s@.skip(i + 1), c);
            assert(texts(r@) + (seq![part@] + tail) =~= texts(r@).push(part@) + tail);
        }
        r.push(part);
        from = i + 1;
    }
}

/// A line without the carriage return it may end with.
pub open spec fn without_cr(s: Seq<char>) -> Seq<char> {
    if s.len() > 0 && s.last() == '\r' {
        s.drop_last()
    } else {
        s
    }
}

/// The lines of a text. A line ends at a newline, or at a carriage return and a
/// newline; what follows the last newline is a line only if it is not empty.
pub open spec fn lines_of(s: Seq<char>) -> Seq<Seq<char>>
    decreases s.len(),
{
    let i = char_from(s, '\n', 0);
    if s.len() == 0 {
        Seq::empty()
    } else if i >= s.len() {
        seq![s]
    } else {
        proof {
            lemma_char_from(s, '\n', 0);
        }
        seq![without_cr(s.take(i))] + lines_of(s.skip(i + 1))
    }
}

pub fn lines(s: &str) -> (r: Vec<String>)
    ensures
        texts(r@) == lines_of(s@),
{
    let v = chars_of(s);
    let mut r: Vec<String> = Vec::new();
    let mut from: usize = 0;
    assert(s@.skip(0) =~= s@);
    assert(texts(r@) + lines_of(s@) =~= lines_of(s@));
    while from < v.len()
        invariant
            v@ == s@,
            from <= v@.len(),
            texts(r@) + lines_of(s@.skip(from as int)) == lines_of(s@),
        decreases v@.len() - from,
    {
        let i: usize = find_char(&v, '\n', from);
        let ghost rest = s@.skip(from as int);
        proof {
            lemma_char_from_skip(s@, '\n', from as int, 0);
        }
        if i >= v.len() {
            let part = string_range(&v, from, i);
            proof {
                assert(part@ =~= rest);
                assert(texts(r@.push(part)) =~= texts(r@).push(part@));
                assert(texts(r@) + seq![rest] =~= texts(r@).push(rest));
            }
            r.push(part);
            return r;
        }
        let end: usize = if i > from && v[i - 1] == '\r' {
            i - 1
        } else {
            i
        };
        let part = string_range(&v, from, end);
        proof {
            assert(rest.take(i - from) =~= s@.subrange(from as int, i as int));
            assert(part@ =~= without_cr(rest.take(i - from)));
            assert(rest.skip(i - from + 1) =~= s@.skip(i + 1));
            assert(texts(r@.push(part)) =~= texts(r@).push(part@));
            let tail = lines_of(s@.skip(i + 1));
            assert(texts(r@) + (seq![part@] + tail) =~= texts(r@).push(part@) + tail);
        }
        r.push(part);
        from = i + 1;
    }
    assert(texts(r@) + lines_of(s@.skip(from as int)) =~= texts(r@));
    r
}

/// The parts before and after the first occurrence of a character.
pub open spec fn split_first(s: Seq<char>, c: char) -> Option<(Seq<char>, Seq<char>)> {
    let i = char_from(s, c, 0);
    if i < s.len() {
        Some((s.take(i), s.skip(i + 1)))
    } else {
        None
    }
}

pub fn split_once(s: &str, c: char) -> (r: Option<(String, String)>)
    ensures
        match r {
            Some((a, b)) => split_first(s@, c) == Some((a@, b@)),
            None => split_first(s@, c) is None,
        },
{
    let v = chars_of(s);
    let i: usize = find_char(&v, c, 0);
    if i < v.len() {
        let a = string_range(&v, 0, i);
        let b = string_range(&v, i + 1, v.len());
        assert(a@ =~= s@.take(i as int));
        assert(b@ =~= s@.skip(i + 1));
        Some((a, b))
    } else {
        None
    }
}

/// Texts with a separator between them.
pub open spec fn joined(parts: Seq<Seq<char>>, sep: Seq<char>) -> Seq<char>
    decreases parts.len(),
{
    if parts.len() == 0 {
        Seq::empty()
    } else if parts.len() == 1 {
        parts[0]
    } else {
        joined(parts.drop_last(), sep) + sep + parts.last()
    }
}

pub fn join(parts: &Vec<String>, sep: &str) -> (r: String)
    ensures
        r@ == joined(texts(parts@), sep@),
{
    let mut r = String::new();
    let mut i: usize = 0;
    while i < parts.len()
        invariant
            i <= parts@.len(),
            r@ == joined(texts(parts@).take(i as int), sep@),
        decreases parts@.len() - i,
    {
        let ghost upto = texts(parts@).take(i + 1);
        assert(upto.drop_last() =~= texts(parts@).take(i as int));
        if i > 0 {
            r.append(sep);
        }
        r.append(parts[i].as_str());
        assert(r@ =~= joined(upto, sep@));
        i += 1;
    }
    assert(texts(parts@).take(i as int) =~= texts(parts@));
    r
}

// ---- numbers ---------------------------------------------------------------------------

pub open spec fn is_digit(c: char) -> bool {
    '0' <= c <= '9'
}

/// The value of a row of decimal digits.
pub open spec fn digits_value(s: Seq<char>) -> nat
    decreases s.len(),
{
    if s.len() == 0 {
        0
    } else {
        (10 * digits_value(s.drop_last()) + (s.last() as u32 - '0' as u32)) as nat
    }
}

pub open spec fn all_digits(s: Seq<char>) -> bool {
    s.len() > 0 && forall|i: int| 0 <= i < s.len() ==> is_digit(#[trigger] s[i])
}

/// The decimal digits of a number.
pub open spec fn decimal(n: nat) -> Seq<char>
    decreases n,
{
    if n < 10 {
        seq![('0' as u32 + n) as char]
    } else {
        decimal(n / 10).push(('0' as u32 + n % 10) as char)
    }
}

/// A number as it is written: a minus sign where it is negative, and its digits.
pub open spec fn number_text(n: int) -> Seq<char> {
    if n < 0 {
        seq!['-'] + decimal((-n) as nat)
    } else {
        decimal(n as nat)
    }
}

/// The number that a text is: digits, with a sign before them or none.
pub open spec fn number_of(s: Seq<char>) -> Option<int> {
    if s.len() > 0 && s[0] == '-' {
        if all_digits(s.skip(1)) {
            Some(-digits_value(s.skip(1)))
        } else {
            None
        }
    } else if s.len() > 0 && s[0] == '+' {
        if all_digits(s.skip(1)) {
            Some(digits_value(s.skip(1)) as int)
        } else {
            None
        }
    } else if all_digits(s) {
        Some(digits_value(s) as int)
    } else {
        None
    }
}

fn digit_char(d: u8) -> (c: char)
    requires
        d < 10,
    ensures
        c == ('0' as u32 + d) as char,
{
    match d {
        0 => '0',
        1 => '1',
        2 => '2',
        3 => '3',
        4 => '4',
        5 => '5',
        6 => '6',
        7 => '7',
        8 => '8',
        _ => '9',
    }
}

pub fn decimal_text(n: u64) -> (s: String)
    ensures
        s@ == decimal(n as nat),
    decreases n,
{
    if n < 10 {
        let mut s = String::new();
        s.push(digit_char(n as u8));
        assert(s@ =~= decimal(n as nat));
        s
    } else {
        let mut s = decimal_text(n / 10);
        s.push(digit_char((n % 10) as u8));
        s
    }
}

pub fn int_text(n: i64) -> (s: String)
    ensures
        s@ == number_text(n as int),
{
    if n >= 0 {
        decimal_text(n as u64)
    } else {
        let m: u64 = if n == i64::MIN {
            0x8000_0000_0000_0000u64
        } else {
            (-n) as u64
        };
        let mut s = String::new();
        s.push('-');
        s.append(decimal_text(m).as_str());
        assert(s@ =~= number_text(n as int));
        s
    }
}

/// More digits make no smaller number.
pub proof fn lemma_digits_grow(s: Seq<char>, k: int)
    requires
        0 <= k <= s.len(),
        forall|i: int| 0 <= i < s.len() ==> is_digit(#[trigger] s[i]),
    ensures
        digits_value(s.take(k)) <= digits_value(s),
    decreases s.len() - k,
{
    if k < s.len() {
        assert(s.take(k + 1).drop_last() =~= s.take(k));
        assert(is_digit(s[k]));
        lemma_digits_grow(s, k + 1);
    } else {
        assert(s.take(k) =~= s);
    }
}

/// The value of the digits from `from` on, up to a limit; `None` when they are
/// not all digits, or none, or more than the limit.
fn parse_digits(v: &Vec<char>, from: usize, limit: u64) -> (r: Option<u64>)
    requires
        from <= v@.len(),
    ensures
        r == (if all_digits(v@.skip(from as int)) && digits_value(v@.skip(from as int)) <= limit {
            Some(digits_value(v@.skip(from as int)) as u64)
        } else {
            None
        }),
{
    let ghost s = v@.skip(from as int);
    if from == v.len() {
        return None;
    }
    let mut i: usize = from;
    let mut n: u64 = 0;
    assert(s.take(0) =~= Seq::empty());
    while i < v.len()
        invariant
            s == v@.skip(from as int),
            from <= i <= v@.len(),
            n == digits_value(s.take(i - from)),
            n <= limit,
            forall|k: int| 0 <= k < i - from ==> is_digit(#[trigger] s[k]),
        decreases v@.len() - i,
    {
        let c: char = v[i];
        assert(c == s[i - from]);
        if !('0' <= c && c <= '9') {
            return None;
        }
        let d: u64 = (c as u32 - '0' as u32) as u64;
        proof {
            assert(s.take(i - from + 1).drop_last() =~= s.take(i - from));
            assert(s.take(i - from + 1).last() == c);
            assert(digits_value(s.take(i - from + 1)) == 10 * n + d);
            if all_digits(s) {
                lemma_digits_grow(s, i - from + 1);
            }
        }
        if n > limit / 10 || d > limit - 10 * n {
            return None;
        }
        n = 10 * n + d;
        i += 1;
    }
    assert(s.take(i - from) =~= s);
    Some(n)
}

/// The number that a text is, where it fits an `i64`.
pub fn parse_i64(s: &str) -> (r: Option<i64>)
    ensures
        match number_of(s@) {
            Some(n) if i64::MIN <= n <= i64::MAX => r == Some(n as i64),
            _ => r is None,
        },
{
    let v = chars_of(s);
    assert(s@.skip(0) =~= s@);
    if v.len() > 0 && v[0] == '-' {
        match parse_digits(&v, 1, 0x8000_0000_0000_0000u64) {
            Some(n) => if n == 0x8000_0000_0000_0000u64 {
                Some(i64::MIN)
            } else {
                Some(-(n as i64))
            },
            None => None,
        }
    } else {
        let from: usize = if v.len() > 0 && v[0] == '+' {
            1
        } else {
            0
        };
        match parse_digits(&v, from, 0x7fff_ffff_ffff_ffffu64) {
            Some(n) => Some(n as i64),
            None => None,
        }
    }
}

/// The number that a text is, where it has no minus sign and fits a `u64`.
pub fn parse_u64(s: &str) -> (r: Option<u64>)
    ensures
        match number_of(s@) {
            Some(n) if n <= u64::MAX && s@[0] != '-' => r == Some(n as u64),
            _ => r is None,
        },
{
    let v = chars_of(s);
    assert(s@.skip(0) =~= s@);
    if v.len() > 0 && v[0] == '-' {
        return None;
    }
    let from: usize = if v.len() > 0 && v[0] == '+' {
        1
    } else {
        0
    };
    parse_digits(&v, from, u64::MAX)
}

/// Two digits of a number below a hundred.
pub open spec fn two_digits(n: int) -> Seq<char> {
    decimal((n / 10) as nat) + decimal((n % 10) as nat)
}

pub fn two_digit_text(n: u64) -> (r: String)
    requires
        n < 100,
    ensures
        r@ == two_digits(n as int),
{
    append(decimal_text(n / 10).as_str(), decimal_text(n % 10).as_str())
}

/// Digits, or nothing.
pub open spec fn digits_or_none(s: Seq<char>) -> bool {
    s.len() == 0 || all_digits(s)
}

/// Whether there are only digits in a part of a text.
pub fn digits_until(v: &Vec<char>, from: usize, to: usize) -> (r: bool)
    requires
        from <= to <= v@.len(),
    ensures
        r == digits_or_none(v@.subrange(from as int, to as int)),
{
    let ghost s = v@.subrange(from as int, to as int);
    let mut i: usize = from;
    while i < to
        invariant
            s == v@.subrange(from as int, to as int),
            from <= i <= to <= v@.len(),
            forall|k: int| 0 <= k < i - from ==> is_digit(#[trigger] s[k]),
        decreases to - i,
    {
        let c: char = v[i];
        assert(c == s[i - from]);
        if !('0' <= c && c <= '9') {
            return false;
        }
        i += 1;
    }
    true
}

/// The digits of a number say that number.
pub proof fn lemma_decimal(n: nat)
    ensures
        all_digits(decimal(n)),
        digits_value(decimal(n)) == n,
        n < 10 ==> decimal(n).len() == 1,
    decreases n,
{
    let d = (n % 10) as u32;
    let c = ('0' as u32 + d) as char;
    assert(c as u32 == '0' as u32 + d);
    assert(is_digit(c));
    if n < 10 {
        assert(decimal(n).drop_last() =~= Seq::empty());
        assert(decimal(n).last() == c);
        reveal_with_fuel(digits_value, 2);
    } else {
        lemma_decimal(n / 10);
        assert(decimal(n) == decimal(n / 10).push(c));
        assert(decimal(n).drop_last() =~= decimal(n / 10));
    }
}

/// A number comes back from how it is written.
pub proof fn law_numbers_come_back(n: int)
    ensures
        number_of(number_text(n)) == Some(n),
{
    if n < 0 {
        lemma_decimal((-n) as nat);
        assert(number_text(n).skip(1) =~= decimal((-n) as nat));
    } else {
        lemma_decimal(n as nat);
        assert(is_digit(decimal(n as nat)[0]));
    }
}

/// A character in lower case, where it is an ASCII letter.
pub open spec fn ascii_lower(c: char) -> char {
    if 'A' <= c <= 'Z' {
        (c as u32 + 32) as char
    } else {
        c
    }
}

pub open spec fn ascii_lowered(s: Seq<char>) -> Seq<char> {
    s.map_values(|c: char| ascii_lower(c))
}

fn lower_char(c: char) -> (r: char)
    ensures
        r == ascii_lower(c),
{
    if 'A' <= c && c <= 'Z' {
        proof {
            vstd::utf8::char_is_scalar(c);
        }
        (c as u8 + 32) as char
    } else {
        c
    }
}

/// A text with its ASCII letters in lower case.
pub fn to_ascii_lowercase(s: &str) -> (r: String)
    ensures
        r@ == ascii_lowered(s@),
{
    let v = chars_of(s);
    let mut out: Vec<char> = Vec::new();
    let mut i: usize = 0;
    while i < v.len()
        invariant
            v@ == s@,
            i <= v@.len(),
            out@.len() == i,
            forall|k: int| 0 <= k < i ==> #[trigger] out@[k] == ascii_lowered(s@)[k],
        decreases v@.len() - i,
    {
        out.push(lower_char(v[i]));
        i += 1;
    }
    assert(out@ =~= ascii_lowered(s@));
    string_of(&out)
}

// ---- case -------------------------------------------------------------------------

/// A text in ASCII alone.
pub open spec fn is_ascii_text(s: Seq<char>) -> bool {
    forall|i: int| 0 <= i < s.len() ==> (#[trigger] s[i] as u32) < 0x80
}

/// What `str::to_lowercase` makes of a text that is not in ASCII alone.
pub uninterp spec fn unicode_lowered(s: Seq<char>) -> Seq<char>;

/// A text in lower case, by the rules of Unicode.
pub open spec fn lowered(s: Seq<char>) -> Seq<char> {
    if is_ascii_text(s) {
        ascii_lowered(s)
    } else {
        unicode_lowered(s)
    }
}

/// `str::to_lowercase`: in ASCII the capital letters become the small ones and nothing else
/// changes.
#[verifier::external_body]
pub(crate) fn to_lowercase(s: &str) -> (r: String)
    ensures
        r@ == if is_ascii_text(s@) {
            ascii_lowered(s@)
        } else {
            unicode_lowered(s@)
        },
{
    s.to_lowercase()
}

/// A small ASCII letter as a capital; other characters as they are.
pub open spec fn ascii_upper(c: char) -> char {
    if 'a' <= c <= 'z' {
        (c as u32 - 32) as char
    } else {
        c
    }
}

pub open spec fn ascii_uppered(s: Seq<char>) -> Seq<char> {
    s.map_values(|c: char| ascii_upper(c))
}

/// In ASCII a text in capitals is the same in lower case as the text itself.
pub proof fn law_lowering_undoes_capitals(s: Seq<char>)
    requires
        is_ascii_text(s),
    ensures
        lowered(ascii_uppered(s)) == lowered(s),
        lowered(ascii_lowered(s)) == lowered(s),
{
    let up = ascii_uppered(s);
    let low = ascii_lowered(s);
    assert forall|i: int| 0 <= i < s.len() implies (#[trigger] up[i] as u32) < 0x80 && ascii_lower(
        up[i],
    ) == ascii_lower(s[i]) by {
        let c = s[i];
        if 'a' <= c <= 'z' {
            let n: u32 = (c as u32 - 32) as u32;
            assert((n as char) as u32 == n);
            assert(up[i] == n as char);
            let m: u32 = (n + 32) as u32;
            assert(m == c as u32);
        }
    }
    assert forall|i: int| 0 <= i < s.len() implies (#[trigger] low[i] as u32) < 0x80
        && ascii_lower(low[i]) == ascii_lower(s[i]) by {
        let c = s[i];
        if 'A' <= c <= 'Z' {
            let n: u32 = (c as u32 + 32) as u32;
            assert((n as char) as u32 == n);
            assert(low[i] == n as char);
        }
    }
    assert(ascii_lowered(up) =~= ascii_lowered(s));
    assert(ascii_lowered(low) =~= ascii_lowered(s));
}

// ---- encodings ---------------------------------------------------------------

/// What bytes say as UTF-8 when each malformed part is replaced.
pub uninterp spec fn utf8_lossy(bytes: Seq<u8>) -> Seq<char>;

/// `String::from_utf8_lossy`: well-formed UTF-8 is decoded as it stands.
#[verifier::external_body]
pub(crate) fn from_utf8_lossy(bytes: &[u8]) -> (s: String)
    ensures
        s@ == utf8_lossy(bytes@),
        valid_utf8(bytes@) ==> s@ == decode_utf8(bytes@),
{
    String::from_utf8_lossy(bytes).into_owned()
}

// ---- what the parts of a text are -------------------------------------------------------------------------------

/// A character is counted as often as it occurs.
pub proof fn law_counts_are_of_occurrences(s: Seq<char>, c: char)
    ensures
        count_of(s, c) == s.filter(|x: char| x == c).len(),
    decreases s.len(),
{
    reveal(Seq::filter);
    if s.len() > 0 {
        law_counts_are_of_occurrences(s.drop_last(), c);
    }
}

/// Tabs, line ends and spaces are white space, and so is the space that does not break; no
/// letter, digit or mark of ASCII is.
pub proof fn law_white_space(c: char)
    ensures
        c == ' ' || c == '\t' || c == '\n' || c == '\r' || c == '\u{a0}' || c == '\u{3000}' ==> is_space(
            c,
        ),
        '!' <= c <= '~' ==> !is_space(c),
{
}

proof fn lemma_trimmed_start(s: Seq<char>) -> (k: int)
    ensures
        0 <= k <= s.len(),
        trimmed_start(s) == s.skip(k),
        forall|i: int| 0 <= i < k ==> is_space(#[trigger] s[i]),
        k < s.len() ==> !is_space(s[k]),
    decreases s.len(),
{
    if s.len() > 0 && is_space(s[0]) {
        let k = lemma_trimmed_start(s.skip(1));
        assert(s.skip(1).skip(k) =~= s.skip(k + 1));
        assert forall|i: int| 0 <= i < k + 1 implies is_space(#[trigger] s[i]) by {
            if i > 0 {
                assert(s.skip(1)[i - 1] == s[i]);
            }
        }
        k + 1
    } else {
        assert(s.skip(0) =~= s);
        0
    }
}

proof fn lemma_trimmed_end(s: Seq<char>) -> (k: int)
    ensures
        0 <= k <= s.len(),
        trimmed_end(s) == s.take(k),
        forall|i: int| k <= i < s.len() ==> is_space(#[trigger] s[i]),
        k > 0 ==> !is_space(s[k - 1]),
    decreases s.len(),
{
    if s.len() > 0 && is_space(s.last()) {
        let k = lemma_trimmed_end(s.drop_last());
        assert(s.drop_last().take(k) =~= s.take(k));
        assert forall|i: int| k <= i < s.len() implies is_space(#[trigger] s[i]) by {
            if i < s.len() - 1 {
                assert(s.drop_last()[i] == s[i]);
            }
        }
        k
    } else {
        assert(s.take(s.len() as int) =~= s);
        s.len() as int
    }
}

/// Trimming takes off white space at both ends and nothing else: what is left neither begins
/// nor ends with any, and what was taken off is all white space.
pub proof fn law_trimming(s: Seq<char>) -> (at: (int, int))
    ensures
        0 <= at.0 <= at.1 <= s.len(),
        trimmed(s) == s.subrange(at.0, at.1),
        forall|i: int| 0 <= i < at.0 ==> is_space(#[trigger] s[i]),
        forall|i: int| at.1 <= i < s.len() ==> is_space(#[trigger] s[i]),
        at.0 < at.1 ==> !is_space(s[at.0]) && !is_space(s[at.1 - 1]),
{
    let a = lemma_trimmed_start(s);
    let t = s.skip(a);
    let n = lemma_trimmed_end(t);
    assert(t.take(n) =~= s.subrange(a, a + n));
    assert forall|i: int| a + n <= i < s.len() implies is_space(#[trigger] s[i]) by {
        assert(t[i - a] == s[i]);
    }
    if n > 0 {
        assert(t[n - 1] == s[a + n - 1]);
        assert(a < s.len());
    }
    (a, a + n)
}

/// A part is found where it stands first, and is not found only where it stands nowhere.
pub proof fn law_parts_are_found(s: Seq<char>, part: Seq<char>, from: int)
    requires
        0 <= from,
    ensures
        match find_from(s, part, from) {
            Some(i) => from <= i && i + part.len() <= s.len() && s.subrange(i, i + part.len()) == part
                && forall|k: int|
                from <= k < i ==> #[trigger] s.subrange(k, k + part.len()) != part,
            None => forall|k: int|
                from <= k && k + part.len() <= s.len() ==> #[trigger] s.subrange(k, k + part.len())
                    != part,
        },
    decreases s.len() + 1 - from,
{
    if from + part.len() <= s.len() {
        if !occurs_at(s, part, from) {
            law_parts_are_found(s, part, from + 1);
        }
    }
}

/// A text has a part when it is made up of something, the part and something; it begins or
/// ends with it when one of these is nothing.
pub proof fn law_parts_of_texts(a: Seq<char>, part: Seq<char>, b: Seq<char>)
    ensures
        has_part(a + part + b, part),
        begins(part + b, part),
        ends(a + part, part),
{
    let s = a + part + b;
    assert(s.subrange(a.len() as int, (a.len() + part.len()) as int) =~= part);
    assert(occurs_at(s, part, a.len() as int));
    assert((part + b).take(part.len() as int) =~= part);
    assert((a + part).skip((a + part).len() - part.len()) =~= part);
}

/// What does not occur is not replaced; the first that does is, and the rest of the text
/// after it.
pub proof fn law_replacing(a: Seq<char>, part: Seq<char>, b: Seq<char>, to: Seq<char>)
    requires
        part.len() > 0,
        forall|k: int| 0 <= k < a.len() ==> !#[trigger] occurs_at(a + part + b, part, k),
    ensures
        replaced(a + part + b, part, to) == a + to + replaced(b, part, to),
    decreases a.len(),
{
    let s = a + part + b;
    if a.len() == 0 {
        assert(s =~= part + b);
        assert(s.subrange(0, part.len() as int) =~= part);
        assert(s.skip(part.len() as int) =~= b);
        assert(replaced(s, part, to) =~= a + to + replaced(b, part, to));
    } else {
        assert(!occurs_at(s, part, 0));
        let rest = a.skip(1);
        assert(s.skip(1) =~= rest + part + b);
        assert forall|k: int| 0 <= k < rest.len() implies !#[trigger] occurs_at(
            rest + part + b,
            part,
            k,
        ) by {
            assert(!occurs_at(s, part, k + 1));
            assert(s.subrange(k + 1, k + 1 + part.len()) =~= (rest + part + b).subrange(
                k,
                k + part.len(),
            ));
        }
        law_replacing(rest, part, b, to);
        assert(replaced(s, part, to) =~= a + to + replaced(b, part, to));
    }
}

pub proof fn law_nothing_to_replace(s: Seq<char>, part: Seq<char>, to: Seq<char>)
    requires
        !has_part(s, part),
    ensures
        replaced(s, part, to) == s,
    decreases s.len(),
{
    if s.len() > 0 && part.len() > 0 {
        assert(!occurs_at(s, part, 0));
        assert forall|i: int| !occurs_at(s.skip(1), part, i) by {
            if occurs_at(s.skip(1), part, i) {
                assert(s.subrange(i + 1, i + 1 + part.len()) =~= s.skip(1).subrange(
                    i,
                    i + part.len(),
                ));
                assert(occurs_at(s, part, i + 1));
            }
        }
        law_nothing_to_replace(s.skip(1), part, to);
        assert(replaced(s, part, to) =~= s);
    }
}

/// The parts between the occurrences of a character make up the text again, and none of them
/// has the character.
pub proof fn law_splitting(s: Seq<char>, c: char)
    ensures
        split_all(s, c).len() == count_of(s, c) + 1,
        forall|k: int| 0 <= k < split_all(s, c).len() ==> !(#[trigger] split_all(s, c)[k]).contains(c),
    decreases s.len(),
{
    let i = char_from(s, c, 0);
    lemma_char_from(s, c, 0);
    if i >= s.len() {
        lemma_count_none(s, c);
    } else {
        let rest = s.skip(i + 1);
        law_splitting(rest, c);
        lemma_count_none(s.take(i), c);
        lemma_count_sum(s.take(i), seq![c] + rest, c);
        lemma_count_sum(seq![c], rest, c);
        assert(s =~= s.take(i) + (seq![c] + rest));
        assert(seq![c].drop_last() =~= Seq::empty());
        reveal_with_fuel(count_of, 2);
        assert forall|k: int| 0 <= k < split_all(s, c).len() implies !(#[trigger] split_all(
            s,
            c,
        )[k]).contains(c) by {
            if k > 0 {
                assert(split_all(s, c)[k] == split_all(rest, c)[k - 1]);
            }
        }
    }
}

proof fn lemma_count_none(s: Seq<char>, c: char)
    requires
        forall|i: int| 0 <= i < s.len() ==> s[i] != c,
    ensures
        count_of(s, c) == 0,
    decreases s.len(),
{
    if s.len() > 0 {
        assert forall|i: int| 0 <= i < s.drop_last().len() implies s.drop_last()[i] != c by {
            assert(s[i] != c);
        }
        lemma_count_none(s.drop_last(), c);
    }
}

proof fn lemma_count_sum(a: Seq<char>, b: Seq<char>, c: char)
    ensures
        count_of(a + b, c) == count_of(a, c) + count_of(b, c),
    decreases b.len(),
{
    if b.len() == 0 {
        assert(a + b =~= a);
    } else {
        lemma_count_sum(a, b.drop_last(), c);
        assert((a + b).drop_last() =~= a + b.drop_last());
    }
}

/// In ASCII the capitals have small letters 32 places on, and nothing else changes.
pub proof fn law_ascii_letters(s: Seq<char>, i: int)
    requires
        is_ascii_text(s),
        0 <= i < s.len(),
    ensures
        lowered(s).len() == s.len(),
        'A' <= s[i] <= 'Z' ==> lowered(s)[i] as u32 == s[i] as u32 + 32,
        !('A' <= s[i] <= 'Z') ==> lowered(s)[i] == s[i],
{
    let c = s[i];
    if 'A' <= c <= 'Z' {
        let n: u32 = (c as u32 + 32) as u32;
        assert((n as char) as u32 == n);
    }
}

/// A number is what its digits say: the last counts once, what stands before it ten times.
pub proof fn law_digits(s: Seq<char>, d: u32)
    requires
        d < 10,
    ensures
        digits_value(s.push((48 + d) as char)) == 10 * digits_value(s) + d,
        is_digit((48 + d) as char),
        digits_value(Seq::empty()) == 0,
{
    let c = (48 + d) as char;
    assert(c as u32 == 48 + d);
    assert(s.push(c).drop_last() =~= s);
}

/// A number may have a sign; without digits, or with anything else, a text is none.
pub proof fn law_numbers_in_texts(s: Seq<char>)
    ensures
        all_digits(s) ==> number_of(s) == Some(digits_value(s) as int) && number_of(seq!['-'] + s)
            == Some(-(digits_value(s) as int)) && number_of(seq!['+'] + s) == Some(
            digits_value(s) as int,
        ),
        (exists|i: int| 1 <= i < s.len() && !is_digit(#[trigger] s[i])) ==> number_of(s) is None,
        s.len() == 0 ==> number_of(s) is None,
{
    assert((seq!['-'] + s).skip(1) =~= s);
    assert((seq!['+'] + s).skip(1) =~= s);
    if all_digits(s) {
        assert(is_digit(s[0]));
    }
    if exists|i: int| 1 <= i < s.len() && !is_digit(#[trigger] s[i]) {
        let i = choose|i: int| 1 <= i < s.len() && !is_digit(#[trigger] s[i]);
        assert(s.skip(1)[i - 1] == s[i]);
    }
}

/// Two digits say a number below a hundred, with a zero in front where it is below ten.
pub proof fn law_two_digits(n: int)
    requires
        0 <= n < 100,
    ensures
        two_digits(n).len() == 2,
        all_digits(two_digits(n)),
        digits_value(two_digits(n)) == n,
{
    lemma_decimal((n / 10) as nat);
    lemma_decimal((n % 10) as nat);
    let a = decimal((n / 10) as nat);
    let b = decimal((n % 10) as nat);
    let s = two_digits(n);
    assert(s =~= seq![a[0], b[0]]);
    assert(is_digit(a[0]) && is_digit(b[0]));
    assert(s.drop_last() =~= seq![a[0]]);
    assert(a =~= seq![a[0]] && b =~= seq![b[0]]);
    assert(a.drop_last() =~= Seq::empty() && b.drop_last() =~= Seq::empty());
    reveal_with_fuel(digits_value, 3);
}

} // verus!
