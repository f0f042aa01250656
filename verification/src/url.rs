//! Percent-encoding of texts for addresses and forms.

use crate::text::{append, from_utf8_lossy, join, joined, replace, replaced, texts, utf8_lossy};
use vstd::prelude::*;
use vstd::utf8::{
    decode_utf8, encode_utf8, encode_utf8_decode_utf8, encode_utf8_valid_utf8, is_ascii_chars,
    is_ascii_chars_encode_utf8, valid_utf8,
};

verus! {

/// The bytes that never need encoding: letters, figures and "_.-~".
pub open spec fn is_unreserved(b: u8) -> bool {
    ||| 0x30 <= b <= 0x39
    ||| 0x41 <= b <= 0x5a
    ||| 0x61 <= b <= 0x7a
    ||| b == 0x5f
    ||| b == 0x2e
    ||| b == 0x2d
    ||| b == 0x7e
}

/// The character of a hexadecimal digit.
pub open spec fn hex_char(d: int) -> char {
    if d < 10 {
        (0x30 + d) as char
    } else {
        (0x41 + d - 10) as char
    }
}

/// One byte, as it is or as "%" and two digits. `safe` is one more byte that
/// stays as it is.
pub open spec fn quoted_byte(b: u8, safe: u8) -> Seq<char> {
    if is_unreserved(b) || b == safe {
        seq![b as char]
    } else {
        seq!['%', hex_char(b as int / 16), hex_char(b as int % 16)]
    }
}

pub open spec fn quoted(bytes: Seq<u8>, safe: u8) -> Seq<char>
    decreases bytes.len(),
{
    if bytes.len() == 0 {
        Seq::empty()
    } else {
        quoted(bytes.drop_last(), safe) + quoted_byte(bytes.last(), safe)
    }
}

/// A text percent-encoded for a path: "/" stays.
pub open spec fn quote_of(s: Seq<char>) -> Seq<char> {
    quoted(encode_utf8(s), 0x2f)
}

/// A text percent-encoded for a form: a space becomes "+".
pub open spec fn quote_plus_of(s: Seq<char>) -> Seq<char> {
    replaced(quoted(encode_utf8(s), 0x20), " "@, "+"@)
}

fn hex_digit(d: u8) -> (c: char)
    requires
        d < 16,
    ensures
        c == hex_char(d as int),
{
    if d < 10 {
        (0x30 + d) as char
    } else {
        (0x41 + (d - 10)) as char
    }
}

fn unreserved(b: u8) -> (r: bool)
    ensures
        r == is_unreserved(b),
{
    (0x30 <= b && b <= 0x39) || (0x41 <= b && b <= 0x5a) || (0x61 <= b && b <= 0x7a) || b == 0x5f
        || b == 0x2e || b == 0x2d || b == 0x7e
}

fn quote_with(s: &str, safe: u8) -> (r: String)
    ensures
        r@ == quoted(encode_utf8(s@), safe),
{
    let bytes = s.as_bytes();
    let mut out = String::new();
    let mut i: usize = 0;
    while i < bytes.len()
        invariant
            bytes@ == encode_utf8(s@),
            i <= bytes@.len(),
            out@ == quoted(bytes@.take(i as int), safe),
        decreases bytes@.len() - i,
    {
        let b: u8 = bytes[i];
        assert(bytes@.take(i + 1).drop_last() =~= bytes@.take(i as int));
        let ghost was = out@;
        if unreserved(b) || b == safe {
            out.push(b as char);
        } else {
            out.push('%');
            out.push(hex_digit(b / 16));
            out.push(hex_digit(b % 16));
        }
        assert(out@ =~= was + quoted_byte(b, safe));
        i += 1;
    }
    assert(bytes@.take(i as int) =~= bytes@);
    out
}

/// Percent-encodes a text; "/" stays as it is.
pub fn quote(s: &str) -> (r: String)
    ensures
        r@ == quote_of(s@),
{
    quote_with(s, 0x2f)
}

/// Percent-encodes a text for a form.
pub fn quote_plus(s: &str) -> (r: String)
    ensures
        r@ == quote_plus_of(s@),
{
    proof {
        reveal_strlit(" ");
    }
    replace(quote_with(s, 0x20).as_str(), " ", "+")
}

/// The pairs of a form, each as `key=value`.
pub open spec fn form_parts(pairs: Seq<(Seq<char>, Seq<char>)>) -> Seq<Seq<char>> {
    pairs.map_values(|p: (Seq<char>, Seq<char>)| quote_plus_of(p.0) + "="@ + quote_plus_of(p.1))
}

/// A form as it is sent: its pairs with "&" between them.
pub open spec fn form_text(pairs: Seq<(Seq<char>, Seq<char>)>) -> Seq<char> {
    joined(form_parts(pairs), "&"@)
}

pub open spec fn pair_texts(pairs: Seq<(&str, &str)>) -> Seq<(Seq<char>, Seq<char>)> {
    pairs.map_values(|p: (&str, &str)| (p.0@, p.1@))
}

/// Encodes the pairs of a form, with "&" between them.
pub fn urlencode(pairs: &[(&str, &str)]) -> (r: String)
    ensures
        r@ == form_text(pair_texts(pairs@)),
{
    let ghost goal = form_parts(pair_texts(pairs@));
    let mut parts: Vec<String> = Vec::new();
    let mut i: usize = 0;
    while i < pairs.len()
        invariant
            goal == form_parts(pair_texts(pairs@)),
            i <= pairs@.len(),
            parts@.len() == i,
            forall|k: int| 0 <= k < i ==> (#[trigger] parts@[k])@ == goal[k],
        decreases pairs@.len() - i,
    {
        let key = append(quote_plus(pairs[i].0).as_str(), "=");
        parts.push(append(key.as_str(), quote_plus(pairs[i].1).as_str()));
        i += 1;
    }
    assert(texts(parts@) =~= goal);
    join(&parts, "&")
}

// ---- decoding ---------------------------------------------------------------------

/// The value of a hexadecimal digit.
pub open spec fn hex_value(b: u8) -> Option<u8> {
    if 0x30 <= b <= 0x39 {
        Some((b - 0x30) as u8)
    } else if 0x41 <= b <= 0x46 {
        Some((b - 0x41 + 10) as u8)
    } else if 0x61 <= b <= 0x66 {
        Some((b - 0x61 + 10) as u8)
    } else {
        None
    }
}

/// The bytes that percent-encoded bytes stand for. A "%" without two digits
/// behind it stands for itself.
pub open spec fn unquoted(b: Seq<u8>) -> Seq<u8>
    decreases b.len(),
{
    if b.len() == 0 {
        Seq::empty()
    } else if b.len() >= 3 && b[0] == 0x25 && hex_value(b[1]) is Some && hex_value(b[2]) is Some {
        seq![(16 * hex_value(b[1])->0 + hex_value(b[2])->0) as u8] + unquoted(b.skip(3))
    } else {
        seq![b[0]] + unquoted(b.skip(1))
    }
}

/// What a percent-encoded text says.
pub open spec fn unquote_of(s: Seq<char>) -> Seq<char> {
    utf8_lossy(unquoted(encode_utf8(s)))
}

fn hex(b: u8) -> (r: Option<u8>)
    ensures
        r == hex_value(b),
{
    if 0x30 <= b && b <= 0x39 {
        Some(b - 0x30)
    } else if 0x41 <= b && b <= 0x46 {
        Some(b - 0x41 + 10)
    } else if 0x61 <= b && b <= 0x66 {
        Some(b - 0x61 + 10)
    } else {
        None
    }
}

fn unquote_bytes(bytes: &[u8]) -> (out: Vec<u8>)
    ensures
        out@ == unquoted(bytes@),
{
    let mut out: Vec<u8> = Vec::new();
    let mut i: usize = 0;
    assert(bytes@.skip(0) =~= bytes@);
    while i < bytes.len()
        invariant
            i <= bytes@.len(),
            out@ + unquoted(bytes@.skip(i as int)) == unquoted(bytes@),
        decreases bytes@.len() - i,
    {
        let ghost rest = bytes@.skip(i as int);
        let ghost was = out@;
        if bytes[i] == 0x25 && bytes.len() - i > 2 {
            match (hex(bytes[i + 1]), hex(bytes[i + 2])) {
                (Some(h), Some(l)) => {
                    proof {
                        assert(rest[1] == bytes@[i + 1] && rest[2] == bytes@[i + 2]);
                        assert(rest.skip(3) =~= bytes@.skip(i + 3));
                        let v = (16 * h + l) as u8;
                        assert(was + (seq![v] + unquoted(rest.skip(3))) =~= was.push(v) + unquoted(
                            bytes@.skip(i + 3),
                        ));
                    }
                    out.push(h * 16 + l);
                    i += 3;
                    continue ;
                },
                _ => {},
            }
        }
        proof {
            if rest.len() >= 3 {
                assert(rest[1] == bytes@[i + 1] && rest[2] == bytes@[i + 2]);
            }
            assert(rest.skip(1) =~= bytes@.skip(i + 1));
            assert(was + (seq![rest[0]] + unquoted(rest.skip(1))) =~= was.push(rest[0]) + unquoted(
                bytes@.skip(i + 1),
            ));
        }
        out.push(bytes[i]);
        i += 1;
    }
    assert(out@ + unquoted(bytes@.skip(i as int)) =~= out@);
    out
}

/// Decodes a percent-encoded text. What was encoded from a text comes back as
/// that text.
pub fn unquote(s: &str) -> (r: String)
    ensures
        r@ == unquote_of(s@),
        valid_utf8(unquoted(encode_utf8(s@))) ==> r@ == decode_utf8(unquoted(encode_utf8(s@))),
        forall|t: Seq<char>| s@ == #[trigger] quote_of(t) ==> r@ == t,
{
    let out = unquote_bytes(s.as_bytes());
    let r = from_utf8_lossy(out.as_slice());
    proof {
        assert forall|t: Seq<char>| s@ == #[trigger] quote_of(t) implies r@ == t by {
            law_unquote_undoes_quote(t);
        }
    }
    r
}

// ---- laws -----------------------------------------------------------------------------

proof fn lemma_quoted_ascii(bytes: Seq<u8>, safe: u8)
    requires
        safe < 0x80,
    ensures
        is_ascii_chars(quoted(bytes, safe)),
    decreases bytes.len(),
{
    if bytes.len() > 0 {
        lemma_quoted_ascii(bytes.drop_last(), safe);
        let init = quoted(bytes.drop_last(), safe);
        let all = quoted(bytes, safe);
        assert forall|i: int| 0 <= i < all.len() implies '\0' <= #[trigger] all[i] <= '\u{7f}' by {
            if i < init.len() {
                assert(all[i] == init[i]);
            } else {
                assert(all[i] == quoted_byte(bytes.last(), safe)[i - init.len()]);
            }
        }
    }
}

/// The bytes of ASCII characters.
spec fn as_bytes(s: Seq<char>) -> Seq<u8> {
    Seq::new(s.len(), |i: int| s[i] as u8)
}

/// Nothing of an encoded byte can be taken for the beginning of another.
proof fn lemma_unquoted_parts(a: Seq<u8>, b: Seq<u8>)
    requires
        forall|i: int| 0 <= i < a.len() && #[trigger] a[i] == 0x25 ==> i + 2 < a.len(),
    ensures
        unquoted(a + b) == unquoted(a) + unquoted(b),
    decreases a.len(),
{
    let s = a + b;
    if a.len() == 0 {
        assert(s =~= b);
        assert(unquoted(a) + unquoted(b) =~= unquoted(b));
    } else if s.len() >= 3 && s[0] == 0x25 && hex_value(s[1]) is Some && hex_value(s[2]) is Some {
        assert(a[0] == 0x25);
        assert(a[1] == s[1] && a[2] == s[2]);
        assert(s.skip(3) =~= a.skip(3) + b);
        assert forall|i: int| 0 <= i < a.skip(3).len() && #[trigger] a.skip(3)[i] == 0x25 implies i
            + 2 < a.skip(3).len() by {
            assert(a[i + 3] == 0x25);
        }
        lemma_unquoted_parts(a.skip(3), b);
        let v = (16 * hex_value(s[1])->0 + hex_value(s[2])->0) as u8;
        assert(seq![v] + (unquoted(a.skip(3)) + unquoted(b)) =~= (seq![v] + unquoted(a.skip(3)))
            + unquoted(b));
    } else {
        assert(s.skip(1) =~= a.skip(1) + b);
        assert forall|i: int| 0 <= i < a.skip(1).len() && #[trigger] a.skip(1)[i] == 0x25 implies i
            + 2 < a.skip(1).len() by {
            assert(a[i + 1] == 0x25);
        }
        lemma_unquoted_parts(a.skip(1), b);
        if a.len() >= 3 {
            assert(a[1] == s[1] && a[2] == s[2]);
        }
        assert(unquoted(a) == seq![a[0]] + unquoted(a.skip(1)));
        assert(seq![a[0]] + (unquoted(a.skip(1)) + unquoted(b)) =~= (seq![a[0]] + unquoted(
            a.skip(1),
        )) + unquoted(b));
    }
}

proof fn lemma_unquote_byte(b: u8, safe: u8)
    requires
        safe != 0x25,
        safe < 0x80,
    ensures
        unquoted(as_bytes(quoted_byte(b, safe))) == seq![b],
        forall|i: int|
            0 <= i < quoted_byte(b, safe).len() && #[trigger] as_bytes(quoted_byte(b, safe))[i]
                == 0x25 ==> i + 2 < quoted_byte(b, safe).len(),
{
    let q = as_bytes(quoted_byte(b, safe));
    reveal_with_fuel(unquoted, 3);
    if is_unreserved(b) || b == safe {
        assert(q =~= seq![b]);
        assert(q.skip(1) =~= Seq::empty());
        assert(unquoted(q) =~= seq![b]);
    } else {
        assert(q[0] == 0x25);
        let h = b as int / 16;
        let l = b as int % 16;
        assert(q[1] == hex_char(h) as u8 && q[2] == hex_char(l) as u8);
        assert(hex_value(q[1]) == Some(h as u8));
        assert(hex_value(q[2]) == Some(l as u8));
        assert(16 * h + l == b);
        assert(q.skip(3) =~= Seq::empty());
        assert(unquoted(q) =~= seq![b]);
    }
}

proof fn lemma_unquoted_quoted(bytes: Seq<u8>, safe: u8)
    requires
        safe != 0x25,
        safe < 0x80,
    ensures
        unquoted(as_bytes(quoted(bytes, safe))) == bytes,
        forall|i: int|
            0 <= i < quoted(bytes, safe).len() && #[trigger] as_bytes(quoted(bytes, safe))[i]
                == 0x25 ==> i + 2 < quoted(bytes, safe).len(),
    decreases bytes.len(),
{
    if bytes.len() == 0 {
        assert(as_bytes(quoted(bytes, safe)) =~= Seq::empty());
        assert(unquoted(as_bytes(quoted(bytes, safe))) =~= bytes);
    } else {
        let init = quoted(bytes.drop_last(), safe);
        let last = quoted_byte(bytes.last(), safe);
        lemma_unquoted_quoted(bytes.drop_last(), safe);
        lemma_unquote_byte(bytes.last(), safe);
        let all = as_bytes(quoted(bytes, safe));
        assert(all =~= as_bytes(init) + as_bytes(last));
        lemma_unquoted_parts(as_bytes(init), as_bytes(last));
        assert(bytes =~= bytes.drop_last() + seq![bytes.last()]);
        assert forall|i: int| 0 <= i < all.len() && #[trigger] all[i] == 0x25 implies i + 2
            < all.len() by {
            if i < init.len() {
                assert(as_bytes(init)[i] == 0x25);
            } else {
                assert(as_bytes(last)[i - init.len()] == 0x25);
            }
        }
    }
}

/// Decoding an encoded text gives its bytes back, which are well-formed UTF-8 of
/// that text.
pub proof fn law_unquote_undoes_quote(s: Seq<char>)
    ensures
        unquoted(encode_utf8(quote_of(s))) == encode_utf8(s),
        valid_utf8(unquoted(encode_utf8(quote_of(s)))),
        decode_utf8(unquoted(encode_utf8(quote_of(s)))) == s,
{
    let q = quote_of(s);
    lemma_quoted_ascii(encode_utf8(s), 0x2f);
    is_ascii_chars_encode_utf8(q);
    assert(encode_utf8(q) =~= as_bytes(q));
    lemma_unquoted_quoted(encode_utf8(s), 0x2f);
    encode_utf8_valid_utf8(s);
    encode_utf8_decode_utf8(s);
}

/// A byte stands for itself where it is a letter, a figure, one of "_.-~" or the one that is
/// safe besides; any other is written as "%" and two digits of base sixteen that say it.
pub proof fn law_bytes_are_quoted(b: u8, safe: u8)
    requires
        safe < 0x80,
    ensures
        ({
            let plain = ('0' as u8 <= b <= '9' as u8) || ('A' as u8 <= b <= 'Z' as u8) || ('a' as u8 <= b
                <= 'z' as u8) || b == '_' as u8 || b == '.' as u8 || b == '-' as u8 || b == '~' as u8 || b
                == safe;
            let q = quoted_byte(b, safe);
            let value = |c: char| if '0' <= c <= '9' {
                c as u32 - '0' as u32
            } else {
                c as u32 - 'A' as u32 + 10
            };
            &&& plain ==> q.len() == 1 && q[0] as u32 == b
            &&& !plain ==> q.len() == 3 && q[0] == '%' && 16 * value(q[1]) + value(q[2]) == b
        }),
{
    let h = b as int / 16;
    let l = b as int % 16;
    if h < 10 {
        let n: u32 = (0x30 + h) as u32;
        assert((n as char) as u32 == n);
    } else {
        let n: u32 = (0x41 + h - 10) as u32;
        assert((n as char) as u32 == n);
    }
    if l < 10 {
        let n: u32 = (0x30 + l) as u32;
        assert((n as char) as u32 == n);
    } else {
        let n: u32 = (0x41 + l - 10) as u32;
        assert((n as char) as u32 == n);
    }
}

/// A text is quoted byte by byte: a path keeps its slashes, and the pairs of a form have "+"
/// for spaces, "=" between key and value, and "&" between them.
pub proof fn law_texts_are_quoted(bytes: Seq<u8>, b: u8, safe: u8, s: Seq<char>)
    ensures
        quoted(bytes.push(b), safe) == quoted(bytes, safe) + quoted_byte(b, safe),
        quoted(Seq::empty(), safe).len() == 0,
        quote_of(s) == quoted(encode_utf8(s), '/' as u8),
        quote_plus_of(s) == replaced(quoted(encode_utf8(s), ' ' as u8), " "@, "+"@),
{
    assert(bytes.push(b).drop_last() =~= bytes);
}

pub proof fn law_forms(pairs: Seq<(Seq<char>, Seq<char>)>, k: Seq<char>, v: Seq<char>)
    ensures
        form_text(seq![(k, v)]) == quote_plus_of(k) + "="@ + quote_plus_of(v),
        pairs.len() > 0 ==> form_text(pairs.push((k, v))) == form_text(pairs) + "&"@ + quote_plus_of(k)
            + "="@ + quote_plus_of(v),
{
    let one = form_parts(seq![(k, v)]);
    assert(one[0] == quote_plus_of(k) + "="@ + quote_plus_of(v));
    if pairs.len() > 0 {
        let all = form_parts(pairs.push((k, v)));
        assert(all.drop_last() =~= form_parts(pairs));
        assert(form_text(pairs.push((k, v))) =~= form_text(pairs) + "&"@ + quote_plus_of(k) + "="@
            + quote_plus_of(v));
    }
}

} // verus!
