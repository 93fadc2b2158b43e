//! Parser for the service-probe file: probe headers, port lists, match rules,
//! escape sequences and version templates.
use vstd::prelude::*;
use vstd::utf8::{encode_scalar, encode_utf8};
use crate::pattern::{compile_pattern, regex_compiles, CompiledPattern};
use crate::text::{
    chars_of, find_char, find_in, has_prefix, starts_with, lemma_trim_start_len, opt_chars, push_char, push_chars,
    skip_spaces, string_of, trailing_spaces_start, trim, trim_end, trim_start,
};

verus! {

// ---------------------------------------------------------------------------
// Escapes
// ---------------------------------------------------------------------------

/// Value of an ASCII hexadecimal digit.
pub open spec fn hex_value(b: u8) -> Option<u8> {
    if 48 <= b <= 57 {
        Some((b - 48) as u8)
    } else if 97 <= b <= 102 {
        Some((b - 87) as u8)
    } else if 65 <= b <= 70 {
        Some((b - 55) as u8)
    } else {
        None
    }
}

/// Value of the hexadecimal digit `b`, if it is one.
pub fn from_hex(b: u8) -> (r: Option<u8>)
    ensures
        r == hex_value(b),
{
    if 48u8 <= b && b <= 57u8 {
        Some(b - 48u8)
    } else if 97u8 <= b && b <= 102u8 {
        Some(b - 97u8 + 10)
    } else if 65u8 <= b && b <= 70u8 {
        Some(b - 65u8 + 10)
    } else {
        None
    }
}

/// The bytes that an escaped probe string stands for: `\r \n \t \0 \\` and
/// `\xHH` are decoded, any other escaped byte stands for itself, and a
/// backslash that starts a malformed `\x` escape or ends the input is kept.
pub open spec fn unescape(raw: Seq<u8>) -> Seq<u8>
    decreases raw.len(),
{
    if raw.len() == 0 {
        seq![]
    } else if raw[0] == 92 && raw.len() > 1 {
        let e = raw[1];
        if e == 114 {
            seq![13u8] + unescape(raw.skip(2))
        } else if e == 110 {
            seq![10u8] + unescape(raw.skip(2))
        } else if e == 116 {
            seq![9u8] + unescape(raw.skip(2))
        } else if e == 48 {
            seq![0u8] + unescape(raw.skip(2))
        } else if e == 92 {
            seq![92u8] + unescape(raw.skip(2))
        } else if e == 120 && raw.len() > 3 {
            match (hex_value(raw[2]), hex_value(raw[3])) {
                (Some(h), Some(l)) => seq![(h * 16 + l) as u8] + unescape(raw.skip(4)),
                _ => seq![92u8] + unescape(raw.skip(1)),
            }
        } else {
            seq![e] + unescape(raw.skip(2))
        }
    } else {
        seq![raw[0]] + unescape(raw.skip(1))
    }
}

/// Bytes without a backslash stand for themselves.
pub proof fn lemma_unescape_plain(raw: Seq<u8>)
    requires
        forall|i: int| 0 <= i < raw.len() ==> raw[i] != 92,
    ensures
        unescape(raw) == raw,
    decreases raw.len(),
{
    if raw.len() > 0 {
        lemma_unescape_plain(raw.skip(1));
        assert(raw =~= seq![raw[0]] + raw.skip(1));
    }
}

/// Decodes the escape sequences of a probe string (see `unescape`).
pub fn decode_escape(raw: &[u8]) -> (out: Vec<u8>)
    ensures
        out@ == unescape(raw@),
{
    let mut out: Vec<u8> = Vec::with_capacity(raw.len());
    let mut i: usize = 0;
    let n = raw.len();
    assert(raw@.skip(0) =~= raw@);
    while i < n
        invariant
            n == raw@.len(),
            i <= n,
            out@ + unescape(raw@.skip(i as int)) == unescape(raw@),
        decreases n - i,
    {
        let ghost rest = raw@.skip(i as int);
        let ghost before = out@;
        if raw[i] == 92u8 && i + 1 < n {
            let e = raw[i + 1];
            assert(rest[1] == e);
            let mut step: usize = 2;
            if e == 114u8 {
                out.push(13u8);
            } else if e == 110u8 {
                out.push(10u8);
            } else if e == 116u8 {
                out.push(9u8);
            } else if e == 48u8 {
                out.push(0u8);
            } else if e == 92u8 {
                out.push(92u8);
            } else if e == 120u8 && n - i > 3 {
                assert(rest[2] == raw@[i + 2] && rest[3] == raw@[i + 3]);
                match (from_hex(raw[i + 2]), from_hex(raw[i + 3])) {
                    (Some(h), Some(l)) => {
                        out.push(h * 16 + l);
                        step = 4;
                    },
                    _ => {
                        out.push(raw[i]);
                        step = 1;
                    },
                }
            } else {
                out.push(e);
            }
            assert(rest.skip(step as int) =~= raw@.skip(i + step));
            assert(out@ =~= before + unescape(rest).take(1)) by {
                assert(unescape(rest) == unescape(rest).take(1) + unescape(rest.skip(step as int)));
            }
            assert(unescape(rest) =~= unescape(rest).take(1) + unescape(rest.skip(step as int)));
            i = i + step;
        } else {
            out.push(raw[i]);
            assert(rest.skip(1) =~= raw@.skip(i + 1));
            assert(unescape(rest) =~= seq![raw@[i as int]] + unescape(rest.skip(1)));
            i = i + 1;
        }
    }
    assert(raw@.skip(n as int) =~= Seq::<u8>::empty());
    out
}


// ---------------------------------------------------------------------------
// Port lists
// ---------------------------------------------------------------------------

pub open spec fn is_digit(c: char) -> bool {
    48 <= c as u32 <= 57
}

/// Value of a string of decimal digits.
pub open spec fn digits_value(s: Seq<char>) -> nat
    decreases s.len(),
{
    if s.len() == 0 {
        0
    } else {
        digits_value(s.drop_last()) * 10 + (s.last() as u32 - 48) as nat
    }
}

/// `s` without a leading `+`, if it has one.
pub open spec fn unsigned_digits(s: Seq<char>) -> Seq<char> {
    if s.len() > 0 && s[0] == '+' {
        s.drop_first()
    } else {
        s
    }
}

pub open spec fn all_digits(s: Seq<char>) -> bool {
    forall|i: int| 0 <= i < s.len() ==> is_digit(#[trigger] s[i])
}

/// What `str::parse::<u16>` accepts: an optional `+` and then at least one
/// decimal digit, with a value that fits in `u16`.
pub open spec fn parse_u16(s: Seq<char>) -> Option<u16> {
    let d = unsigned_digits(s);
    if d.len() > 0 && all_digits(d) && digits_value(d) <= 65535 {
        Some(digits_value(d) as u16)
    } else {
        None
    }
}

/// The ports `lo..=hi`, in ascending order (none when `lo > hi`).
pub open spec fn port_range(lo: u16, hi: u16) -> Seq<u16> {
    Seq::new(if lo <= hi { (hi - lo + 1) as nat } else { 0 }, |i: int| (lo + i) as u16)
}

/// Ports named by one comma-separated item: a single port or a `lo-hi` range;
/// an item that does not parse names none.
pub open spec fn item_ports(item: Seq<char>) -> Seq<u16> {
    let t = trim(item);
    match find_char(t, '-') {
        Some(k) => match (parse_u16(t.take(k)), parse_u16(t.skip(k + 1))) {
            (Some(lo), Some(hi)) => port_range(lo, hi),
            _ => seq![],
        },
        None => match parse_u16(t) {
            Some(p) => seq![p],
            None => seq![],
        },
    }
}

/// Ports named by a comma-separated list such as `22,80,443,8000-8100`, in the
/// order the list names them.
pub open spec fn port_list(s: Seq<char>) -> Seq<u16>
    decreases s.len(),
{
    match find_char(s, ',') {
        Some(k) => if 0 <= k < s.len() {
            item_ports(s.take(k)) + port_list(s.skip(k + 1))
        } else {
            seq![]
        },
        None => item_ports(s),
    }
}

/// Parses `s[lo..hi]` as `str::parse::<u16>` does.
fn parse_u16_in(s: &[char], lo: usize, hi: usize) -> (r: Option<u16>)
    requires
        lo <= hi <= s@.len(),
    ensures
        r == parse_u16(s@.subrange(lo as int, hi as int)),
{
    let ghost sub = s@.subrange(lo as int, hi as int);
    let start = if lo < hi && s[lo] == '+' {
        lo + 1
    } else {
        lo
    };
    let ghost d = s@.subrange(start as int, hi as int);
    assert(d =~= unsigned_digits(sub));
    if start == hi {
        return None;
    }
    let mut v: u32 = 0;
    let mut i = start;
    while i < hi
        invariant
            lo <= start <= i <= hi <= s@.len(),
            d == s@.subrange(start as int, hi as int),
            sub == s@.subrange(lo as int, hi as int),
            d == unsigned_digits(sub),
            d.len() > 0,
            forall|j: int| start <= j < i ==> is_digit(s@[j]),
            v as nat == if digits_value(s@.subrange(start as int, i as int)) <= 65536 {
                digits_value(s@.subrange(start as int, i as int))
            } else {
                65536
            },
        decreases hi - i,
    {
        let c = s[i];
        let u = c as u32;
        if u < 48 || u > 57 {
            assert(d[i - start] == c);
            assert(!is_digit(d[i - start]));
            assert(!all_digits(d));
            assert(parse_u16(sub) is None);
            return None;
        }
        let ghost prev = digits_value(s@.subrange(start as int, i as int));
        assert(s@.subrange(start as int, i + 1).drop_last() =~= s@.subrange(start as int, i as int));
        assert(digits_value(s@.subrange(start as int, i + 1)) == prev * 10 + (u - 48) as nat);
        let next = v * 10 + (u - 48);
        assert(if prev * 10 + (u - 48) <= 65536 { prev * 10 + (u - 48) } else { 65536 } == if next
            <= 65536 { next as int } else { 65536 }) by (nonlinear_arith)
            requires
                v as nat == if prev <= 65536 { prev } else { 65536 },
                next == v * 10 + (u - 48),
                48 <= u <= 57,
        ;
        v = if next > 65536 {
            65536
        } else {
            next
        };
        i = i + 1;
    }
    assert(d =~= s@.subrange(start as int, i as int));
    if v > 65535 {
        None
    } else {
        Some(v as u16)
    }
}

/// Appends the ports named by the list item `s[lo..hi]`.
fn push_item_ports(out: &mut Vec<u16>, s: &[char], lo: usize, hi: usize)
    requires
        lo <= hi <= s@.len(),
    ensures
        final(out)@ == old(out)@ + item_ports(s@.subrange(lo as int, hi as int)),
{
    let ghost item = s@.subrange(lo as int, hi as int);
    let a = skip_spaces(s, lo, hi);
    let b = trailing_spaces_start(s, a, hi);
    let ghost t = s@.subrange(a as int, b as int);
    assert(trim(item) == t);
    match find_in(s, a, b, '-') {
        Some(k) => {
            assert(t.take(k - a) =~= s@.subrange(a as int, k as int));
            assert(t.skip(k - a + 1) =~= s@.subrange(k + 1, b as int));
            match (parse_u16_in(s, a, k), parse_u16_in(s, k + 1, b)) {
                (Some(p_lo), Some(p_hi)) => {
                    let ghost start = out@;
                    let mut p: u32 = p_lo as u32;
                    if p_lo > p_hi {
                        assert(port_range(p_lo, p_hi) =~= Seq::<u16>::empty());
                    }
                    while p_lo <= p_hi && p <= p_hi as u32
                        invariant
                            p_lo <= p,
                            p_lo <= p_hi ==> p <= p_hi as u32 + 1,
                            p_lo > p_hi ==> p == p_lo,
                            out@ =~= start + port_range(p_lo, p_hi).take(p - p_lo),
                        decreases p_hi as u32 + 1 - p,
                    {
                        out.push(p as u16);
                        assert(port_range(p_lo, p_hi).take(p + 1 - p_lo) =~= port_range(
                            p_lo,
                            p_hi,
                        ).take(p - p_lo).push(p as u16));
                        p = p + 1;
                    }
                    assert(port_range(p_lo, p_hi).take(p - p_lo) =~= port_range(p_lo, p_hi));
                },
                _ => {
                    assert(out@ =~= old(out)@ + Seq::<u16>::empty());
                },
            }
        },
        None => {
            match parse_u16_in(s, a, b) {
                Some(p) => {
                    out.push(p);
                },
                None => {
                    assert(out@ =~= old(out)@ + Seq::<u16>::empty());
                },
            }
        },
    }
}

/// Ports named by `s[lo..hi]` (see `port_list`).
fn port_list_in(s: &[char], lo: usize, hi: usize) -> (out: Vec<u16>)
    requires
        lo <= hi <= s@.len(),
    ensures
        out@ == port_list(s@.subrange(lo as int, hi as int)),
{
    let mut out: Vec<u16> = Vec::new();
    let mut i = lo;
    loop
        invariant
            lo <= i <= hi <= s@.len(),
            out@ + port_list(s@.subrange(i as int, hi as int)) == port_list(
                s@.subrange(lo as int, hi as int),
            ),
        decreases hi - i,
    {
        let ghost rest = s@.subrange(i as int, hi as int);
        match find_in(s, i, hi, ',') {
            Some(k) => {
                let ghost before = out@;
                push_item_ports(&mut out, s, i, k);
                assert(rest.take(k - i) =~= s@.subrange(i as int, k as int));
                assert(rest.skip(k - i + 1) =~= s@.subrange(k + 1, hi as int));
                assert(out@ + port_list(s@.subrange(k + 1, hi as int)) =~= before + port_list(
                    rest,
                ));
                i = k + 1;
            },
            None => {
                push_item_ports(&mut out, s, i, hi);
                return out;
            },
        }
    }
}

/// Parses a comma-separated port list such as `22,80,443,8000-8100`; items
/// that do not parse are skipped.
pub fn parse_port_list(s: &str) -> (out: Vec<u16>)
    ensures
        out@ == port_list(s@),
{
    let cs = chars_of(s);
    assert(cs@.subrange(0, cs@.len() as int) =~= s@);
    port_list_in(cs.as_slice(), 0, cs.len())
}


// ---------------------------------------------------------------------------
// Delimited fields
// ---------------------------------------------------------------------------

/// Offset of the first byte `d` in `b` that is not escaped by a backslash;
/// a backslash escapes the byte after it.
pub open spec fn close_delim(b: Seq<u8>, d: u8) -> Option<int>
    decreases b.len(),
{
    if b.len() == 0 {
        None
    } else if b[0] == 92 {
        if b.len() < 2 {
            None
        } else {
            match close_delim(b.skip(2), d) {
                Some(k) => Some(k + 2),
                None => None,
            }
        }
    } else if b[0] == d {
        Some(0)
    } else {
        match close_delim(b.skip(1), d) {
            Some(k) => Some(k + 1),
            None => None,
        }
    }
}

/// Index of the first character `d` in `s` that is not escaped by a backslash.
pub open spec fn close_delim_chars(s: Seq<char>, d: char) -> Option<int>
    decreases s.len(),
{
    if s.len() == 0 {
        None
    } else if s[0] == '\\' {
        if s.len() < 2 {
            None
        } else {
            match close_delim_chars(s.skip(2), d) {
                Some(k) => Some(k + 2),
                None => None,
            }
        }
    } else if s[0] == d {
        Some(0)
    } else {
        match close_delim_chars(s.skip(1), d) {
            Some(k) => Some(k + 1),
            None => None,
        }
    }
}

pub proof fn lemma_close_delim_chars_bound(s: Seq<char>, d: char)
    ensures
        close_delim_chars(s, d) matches Some(k) ==> 0 <= k < s.len() && s[k] == d,
    decreases s.len(),
{
    if s.len() > 0 {
        if s[0] == '\\' {
            if s.len() >= 2 {
                lemma_close_delim_chars_bound(s.skip(2), d);
            }
        } else if s[0] != d {
            lemma_close_delim_chars_bound(s.skip(1), d);
        }
    }
}

/// Byte offset, within `s`, of the closing delimiter `delim`, skipping
/// backslash-escaped bytes. The delimiter is compared as a single byte: the
/// low eight bits of its code point.
pub fn find_close_delim(s: &str, delim: char) -> (r: Option<usize>)
    ensures
        match r {
            Some(k) => close_delim(encode_utf8(s@), (delim as u32 % 256) as u8) == Some(k as int),
            None => close_delim(encode_utf8(s@), (delim as u32 % 256) as u8) is None,
        },
{
    let bytes = s.as_bytes();
    let d = (delim as u32 % 256) as u8;
    let ghost b = bytes@;
    let n = bytes.len();
    let mut i: usize = 0;
    assert(b.skip(0) =~= b);
    while i < n
        invariant
            n == b.len(),
            b == bytes@,
            b == encode_utf8(s@),
            d == (delim as u32 % 256) as u8,
            i <= n,
            close_delim(b, d) == match close_delim(b.skip(i as int), d) {
                Some(k) => Some(k + i),
                None => None,
            },
        decreases n - i,
    {
        let ghost rest = b.skip(i as int);
        assert(rest[0] == bytes[i as int]);
        if bytes[i] == 92u8 {
            if n - i < 2 {
                return None;
            }
            assert(rest.skip(2) =~= b.skip(i + 2));
            i = i + 2;
        } else if bytes[i] == d {
            return Some(i);
        } else {
            assert(rest.skip(1) =~= b.skip(i + 1));
            i = i + 1;
        }
    }
    None
}

proof fn lemma_encode_utf8_add(a: Seq<char>, b: Seq<char>)
    ensures
        encode_utf8(a + b) == encode_utf8(a) + encode_utf8(b),
    decreases a.len(),
{
    if a.len() == 0 {
        assert(a + b =~= b);
        assert(encode_utf8(a) + encode_utf8(b) =~= encode_utf8(b));
    } else {
        assert((a + b).drop_first() =~= a.drop_first() + b);
        lemma_encode_utf8_add(a.drop_first(), b);
        assert(encode_utf8(a + b) =~= encode_utf8(a) + encode_utf8(b));
    }
}

proof fn lemma_encode_single(c: char)
    ensures
        encode_utf8(seq![c]) == encode_scalar(c as u32),
{
    let e = Seq::<char>::empty();
    assert(encode_utf8(e) =~= Seq::<u8>::empty());
    assert(seq![c].drop_first() =~= e);
    assert(seq![c][0] == c);
    assert(encode_utf8(seq![c]) =~= encode_scalar(c as u32));
}

proof fn lemma_high_byte_or(x: u8)
    ensures
        (0x80u8 | x) >= 128,
        (0xC0u8 | x) >= 128,
        (0xE0u8 | x) >= 128,
        (0xF0u8 | x) >= 128,
{
    assert((0x80u8 | x) >= 128) by (bit_vector);
    assert((0xC0u8 | x) >= 128) by (bit_vector);
    assert((0xE0u8 | x) >= 128) by (bit_vector);
    assert((0xF0u8 | x) >= 128) by (bit_vector);
}

/// An ASCII character is encoded as its own byte; every byte of any other
/// character is at least 128.
proof fn lemma_encode_scalar_bytes(c: char)
    ensures
        (c as u32) < 128 ==> encode_scalar(c as u32) == seq![c as u32 as u8],
        (c as u32) >= 128 ==> forall|i: int|
            0 <= i < encode_scalar(c as u32).len() ==> #[trigger] encode_scalar(c as u32)[i] >= 128,
{
    let v = c as u32;
    if v < 128 {
        assert((v & 0x7F) as u8 == v as u8) by (bit_vector)
            requires
                v < 128,
        ;
        assert(encode_scalar(v) =~= seq![v as u8]);
    } else {
        lemma_high_byte_or(((v >> 6) & 0x1F) as u8);
        lemma_high_byte_or(((v >> 12) & 0x0F) as u8);
        lemma_high_byte_or(((v >> 18) & 0x7) as u8);
        lemma_high_byte_or((v & 0x3F) as u8);
        lemma_high_byte_or(((v >> 6) & 0x3F) as u8);
        lemma_high_byte_or(((v >> 12) & 0x3F) as u8);
    }
}

/// Bytes of 128 or more are neither a backslash nor an ASCII delimiter.
proof fn lemma_close_delim_skip_high(t: Seq<u8>, r: Seq<u8>, d: u8)
    requires
        d < 128,
        forall|i: int| 0 <= i < t.len() ==> #[trigger] t[i] >= 128,
    ensures
        close_delim(t + r, d) == match close_delim(r, d) {
            Some(k) => Some(k + t.len()),
            None => None,
        },
    decreases t.len(),
{
    if t.len() == 0 {
        assert(t + r =~= r);
    } else {
        assert((t + r)[0] == t[0]);
        assert((t + r).skip(1) =~= t.skip(1) + r);
        lemma_close_delim_skip_high(t.skip(1), r, d);
    }
}

/// For an ASCII delimiter, the byte offset that `find_close_delim` finds in
/// the UTF-8 encoding of a text is the encoded length of the characters
/// before the delimiter found among the characters.
pub proof fn lemma_close_delim_bytes_chars(s: Seq<char>, d: char)
    requires
        (d as u32) < 128,
    ensures
        close_delim(encode_utf8(s), (d as u32 % 256) as u8) == match close_delim_chars(s, d) {
            Some(k) => Some(encode_utf8(s.take(k)).len() as int),
            None => None,
        },
    decreases s.len(),
{
    let db = (d as u32 % 256) as u8;
    let b = encode_utf8(s);
    if s.len() > 0 {
        let c = s[0];
        let e0 = encode_scalar(c as u32);
        let rest = s.drop_first();
        assert(b == e0 + encode_utf8(rest));
        lemma_encode_scalar_bytes(c);
        lemma_close_delim_bytes_chars(rest, d);
        assert(s.skip(1) =~= rest);
        if (c as u32) < 128 {
            assert(b[0] == c as u32 as u8);
            assert(b.skip(1) =~= encode_utf8(rest));
            if c == '\\' {
                if s.len() >= 2 {
                    let c1 = s[1];
                    let e1 = encode_scalar(c1 as u32);
                    let rest2 = s.skip(2);
                    assert(rest.drop_first() =~= rest2);
                    assert(encode_utf8(rest) == e1 + encode_utf8(rest2));
                    assert(b.skip(2) =~= e1.skip(1) + encode_utf8(rest2));
                    lemma_encode_scalar_bytes(c1);
                    assert forall|i: int| 0 <= i < e1.skip(1).len() implies #[trigger] e1.skip(1)[i]
                        >= 128 by {
                        assert(e1.skip(1)[i] == e1[i + 1]);
                    }
                    lemma_close_delim_skip_high(e1.skip(1), encode_utf8(rest2), db);
                    lemma_close_delim_bytes_chars(rest2, d);
                    match close_delim_chars(rest2, d) {
                        Some(k) => {
                            lemma_close_delim_chars_bound(rest2, d);
                            assert(s.take(k + 2) =~= seq![c, c1] + rest2.take(k));
                            assert(seq![c, c1] =~= seq![c] + seq![c1]);
                            lemma_encode_utf8_add(seq![c, c1], rest2.take(k));
                            lemma_encode_utf8_add(seq![c], seq![c1]);
                            lemma_encode_single(c);
                            lemma_encode_single(c1);
                        },
                        None => {},
                    }
                } else {
                    assert(encode_utf8(rest) =~= Seq::<u8>::empty());
                }
            } else if c == d {
                assert(s.take(0) =~= Seq::<char>::empty());
            } else {
                vstd::utf8::char_u32_cast(c, c as u32);
                vstd::utf8::char_u32_cast(d, d as u32);
                vstd::utf8::char_u32_cast('\\', 92u32);
                assert(c as u32 != d as u32);
                assert(c as u32 != 92);
                match close_delim_chars(rest, d) {
                    Some(k) => {
                        lemma_close_delim_chars_bound(rest, d);
                        assert(s.take(k + 1) =~= seq![c] + rest.take(k));
                        lemma_encode_utf8_add(seq![c], rest.take(k));
                        lemma_encode_single(c);
                    },
                    None => {},
                }
            }
        } else {
            lemma_close_delim_skip_high(e0, encode_utf8(rest), db);
            match close_delim_chars(rest, d) {
                Some(k) => {
                    lemma_close_delim_chars_bound(rest, d);
                    assert(s.take(k + 1) =~= seq![c] + rest.take(k));
                    lemma_encode_utf8_add(seq![c], rest.take(k));
                    lemma_encode_single(c);
                },
                None => {},
            }
        }
    }
}

proof fn lemma_utf8_len_pos(c: char)
    ensures
        1 <= utf8_len(c) <= 4,
{
}

proof fn lemma_encode_take_step(s: Seq<char>, j: int)
    requires
        0 <= j < s.len(),
    ensures
        encode_utf8(s.take(j + 1)).len() == encode_utf8(s.take(j)).len() + utf8_len(s[j]),
{
    assert(s.take(j + 1) =~= s.take(j) + seq![s[j]]);
    lemma_encode_utf8_add(s.take(j), seq![s[j]]);
    lemma_encode_single(s[j]);
}

proof fn lemma_encode_take_strict(s: Seq<char>, j1: int, j2: int)
    requires
        0 <= j1 < j2 <= s.len(),
    ensures
        encode_utf8(s.take(j1)).len() < encode_utf8(s.take(j2)).len(),
    decreases j2 - j1,
{
    lemma_encode_take_step(s, j2 - 1);
    lemma_utf8_len_pos(s[j2 - 1]);
    if j1 < j2 - 1 {
        lemma_encode_take_strict(s, j1, j2 - 1);
    }
}

proof fn lemma_char_index_at(s: Seq<char>, k: int, b: int)
    requires
        0 <= k <= s.len(),
        encode_utf8(s.take(k)).len() == b,
    ensures
        char_index_at(s, b) == Some(k),
{
    let k2 = choose|k: int| 0 <= k <= s.len() && encode_utf8(s.take(k)).len() == b;
    if k2 < k {
        lemma_encode_take_strict(s, k2, k);
    } else if k < k2 {
        lemma_encode_take_strict(s, k, k2);
    }
}

/// Number of bytes in the UTF-8 encoding of `c` (see `utf8_len`).
fn char_utf8_len(c: char) -> (n: usize)
    ensures
        n == utf8_len(c),
{
    proof {
        vstd::utf8::char_is_scalar(c);
    }
    let v = c as u32;
    if v < 0x80 {
        1
    } else if v < 0x800 {
        2
    } else if v < 0x10000 {
        3
    } else {
        4
    }
}

/// Index, within `s`, of the character of `s[lo..hi]` at which byte `target`
/// of the text's UTF-8 encoding starts (see `char_index_at`).
fn char_index_in(s: &[char], lo: usize, hi: usize, target: u128) -> (r: Option<usize>)
    requires
        lo <= hi <= s@.len(),
    ensures
        match r {
            Some(k) => lo <= k <= hi && char_index_at(s@.subrange(lo as int, hi as int), target as int)
                == Some(k - lo),
            None => char_index_at(s@.subrange(lo as int, hi as int), target as int) is None,
        },
{
    let ghost t = s@.subrange(lo as int, hi as int);
    let mut k: usize = lo;
    let mut acc: u128 = 0;
    assert(t.take(0) =~= Seq::<char>::empty());
    assert(encode_utf8(t.take(0)).len() == 0);
    while k < hi && acc < target
        invariant
            lo <= k <= hi <= s@.len(),
            t == s@.subrange(lo as int, hi as int),
            acc == encode_utf8(t.take(k - lo)).len(),
            acc <= 4 * (k - lo),
            forall|j: int| 0 <= j < k - lo ==> #[trigger] encode_utf8(t.take(j)).len() < target,
        decreases hi - k,
    {
        proof {
            lemma_encode_take_step(t, k - lo);
            lemma_utf8_len_pos(t[k - lo]);
            assert(t[k - lo] == s@[k as int]);
        }
        let n = char_utf8_len(s[k]);
        acc = acc + n as u128;
        k = k + 1;
    }
    if acc == target {
        proof {
            lemma_char_index_at(t, k - lo, target as int);
        }
        Some(k)
    } else {
        assert forall|j: int| 0 <= j <= t.len() implies #[trigger] encode_utf8(t.take(j)).len()
            != target by {
            if j > k - lo {
                lemma_encode_take_strict(t, k - lo, j);
            }
        }
        None
    }
}

/// The end of the pattern `m<d>` followed by `s[lo..hi]`, with indices
/// within `s` (see `pattern_end`).
fn pattern_end_in(s: &[char], lo: usize, hi: usize, d: char) -> (r: Option<(Option<usize>, Option<usize>)>)
    requires
        lo <= hi <= s@.len(),
    ensures
        match r {
            None => pattern_end(s@.subrange(lo as int, hi as int), d) is None,
            Some((a, b)) => {
                &&& a matches Some(x) ==> lo <= x <= hi
                &&& b matches Some(x) ==> lo <= x <= hi
                &&& pattern_end(s@.subrange(lo as int, hi as int), d) == Some(
                    (
                        match a {
                            Some(x) => Some(x - lo),
                            None => None::<int>,
                        },
                        match b {
                            Some(x) => Some(x - lo),
                            None => None::<int>,
                        },
                    ),
                )
            },
        },
{
    let inner = string_of(s, lo, hi);
    match find_close_delim(inner.as_str(), d) {
        None => None,
        Some(e) => {
            let a = char_index_in(s, lo, hi, e as u128);
            let n = char_utf8_len(d);
            let b = char_index_in(s, lo, hi, e as u128 + n as u128);
            Some((a, b))
        },
    }
}

/// With an ASCII delimiter, the pattern ends at the first unescaped
/// delimiter character and the text after it starts right behind it.
pub proof fn lemma_ascii_pattern_end(inner: Seq<char>, d: char)
    requires
        (d as u32) < 128,
    ensures
        pattern_end(inner, d) == match close_delim_chars(inner, d) {
            Some(k) => Some((Some(k), Some(k + 1))),
            None => None,
        },
{
    lemma_close_delim_bytes_chars(inner, d);
    match close_delim_chars(inner, d) {
        Some(k) => {
            lemma_close_delim_chars_bound(inner, d);
            let e = encode_utf8(inner.take(k)).len() as int;
            lemma_char_index_at(inner, k, e);
            lemma_encode_take_step(inner, k);
            lemma_encode_scalar_bytes(d);
            lemma_char_index_at(inner, k + 1, e + 1);
        },
        None => {},
    }
}

/// Index, within `s`, of the first unescaped `d` in `s[lo..hi]`.
fn close_delim_in(s: &[char], lo: usize, hi: usize, d: char) -> (r: Option<usize>)
    requires
        lo <= hi <= s@.len(),
    ensures
        match r {
            Some(k) => lo <= k < hi && close_delim_chars(s@.subrange(lo as int, hi as int), d)
                == Some(k - lo),
            None => close_delim_chars(s@.subrange(lo as int, hi as int), d) is None,
        },
{
    let ghost b = s@.subrange(lo as int, hi as int);
    let mut i: usize = lo;
    assert(b.skip(0) =~= b);
    while i < hi
        invariant
            lo <= i <= hi <= s@.len(),
            b == s@.subrange(lo as int, hi as int),
            close_delim_chars(b, d) == match close_delim_chars(s@.subrange(i as int, hi as int), d) {
                Some(k) => Some(k + (i - lo)),
                None => None,
            },
        decreases hi - i,
    {
        let ghost rest = s@.subrange(i as int, hi as int);
        if s[i] == '\\' {
            if hi - i < 2 {
                return None;
            }
            assert(rest.skip(2) =~= s@.subrange(i + 2, hi as int));
            i = i + 2;
        } else if s[i] == d {
            return Some(i);
        } else {
            assert(rest.skip(1) =~= s@.subrange(i + 1, hi as int));
            i = i + 1;
        }
    }
    assert(s@.subrange(i as int, hi as int) =~= Seq::<char>::empty());
    None
}

// ---------------------------------------------------------------------------
// Version templates
// ---------------------------------------------------------------------------

/// Reads the `k|value|` fields after a match pattern, remembering the last
/// product (`p`) and version (`v`) values; other keys are read and ignored.
/// Reading stops at the end or at a field without `|` after its key; a field
/// whose closing `|` is missing spoils the whole reading (`None`).
pub open spec fn scan_version_fields(
    s: Seq<char>,
    product: Option<Seq<char>>,
    version: Option<Seq<char>>,
) -> Option<(Option<Seq<char>>, Option<Seq<char>>)>
    decreases s.len(),
{
    let t = trim_start(s);
    if t.len() >= 2 && t[1] == '|' {
        let inner = t.skip(2);
        match close_delim_chars(inner, '|') {
            Some(end) => if 0 <= end < inner.len() {
                proof {
                    lemma_trim_start_len(s);
                }
                let val = inner.take(end);
                scan_version_fields(
                    inner.skip(end + 1),
                    if t[0] == 'p' {
                        Some(val)
                    } else {
                        product
                    },
                    if t[0] == 'v' {
                        Some(val)
                    } else {
                        version
                    },
                )
            } else {
                None
            },
            None => None,
        }
    } else {
        Some((product, version))
    }
}

/// Product and version joined into one display string: `"p v"` when both are
/// present and the version is not empty.
pub open spec fn join_product_version(p: Option<Seq<char>>, v: Option<Seq<char>>) -> Option<
    Seq<char>,
> {
    match (p, v) {
        (Some(p), Some(v)) => if v.len() > 0 {
            Some(p + seq![' '] + v)
        } else {
            Some(p)
        },
        (Some(p), None) => Some(p),
        (None, Some(v)) => Some(v),
        (None, None) => None,
    }
}

/// The version template named by the fields after a match pattern.
pub open spec fn version_template(rest: Seq<char>) -> Option<Seq<char>> {
    match scan_version_fields(rest, None, None) {
        Some((p, v)) => join_product_version(p, v),
        None => None,
    }
}

spec fn field_chars(s: Seq<char>, f: Option<(usize, usize)>) -> Option<Seq<char>> {
    match f {
        Some((a, b)) => Some(s.subrange(a as int, b as int)),
        None => None,
    }
}

fn field_string(s: &[char], f: Option<(usize, usize)>) -> (r: Option<String>)
    requires
        f matches Some((a, b)) ==> a <= b <= s@.len(),
    ensures
        opt_chars(r) == field_chars(s@, f),
{
    match f {
        Some((a, b)) => Some(string_of(s, a, b)),
        None => None,
    }
}

/// The version template named by `s[lo..hi]` (see `version_template`).
fn version_template_in(s: &[char], lo: usize, hi: usize) -> (r: Option<String>)
    requires
        lo <= hi <= s@.len(),
    ensures
        opt_chars(r) == version_template(s@.subrange(lo as int, hi as int)),
{
    let mut product: Option<(usize, usize)> = None;
    let mut version: Option<(usize, usize)> = None;
    let mut i = lo;
    loop
        invariant
            lo <= i <= hi <= s@.len(),
            product matches Some((a, b)) ==> a <= b <= s@.len(),
            version matches Some((a, b)) ==> a <= b <= s@.len(),
            scan_version_fields(s@.subrange(lo as int, hi as int), None, None)
                == scan_version_fields(
                s@.subrange(i as int, hi as int),
                field_chars(s@, product),
                field_chars(s@, version),
            ),
        decreases hi - i,
    {
        let ghost cur = s@.subrange(i as int, hi as int);
        let t = skip_spaces(s, i, hi);
        let ghost tt = s@.subrange(t as int, hi as int);
        if hi - t >= 2 && s[t + 1] == '|' {
            assert(tt[1] == s@[t + 1]);
            assert(tt.skip(2) =~= s@.subrange(t + 2, hi as int));
            match close_delim_in(s, t + 2, hi, '|') {
                Some(end) => {
                    let ghost inner = tt.skip(2);
                    assert(inner.take(end - (t + 2)) =~= s@.subrange(t + 2, end as int));
                    assert(inner.skip(end - (t + 2) + 1) =~= s@.subrange(end + 1, hi as int));
                    assert(tt[0] == s@[t as int]);
                    if s[t] == 'p' {
                        product = Some((t + 2, end));
                    }
                    if s[t] == 'v' {
                        version = Some((t + 2, end));
                    }
                    i = end + 1;
                },
                None => {
                    return None;
                },
            }
        } else {
            let p = field_string(s, product);
            let v = field_string(s, version);
            return join_version(p, v);
        }
    }
}

/// Joins product and version as `join_product_version` describes.
fn join_version(p: Option<String>, v: Option<String>) -> (r: Option<String>)
    ensures
        opt_chars(r) == join_product_version(opt_chars(p), opt_chars(v)),
{
    match (p, v) {
        (Some(p), Some(v)) => {
            if v.as_str().is_empty() {
                Some(p)
            } else {
                let mut out = p;
                push_char(&mut out, ' ');
                let vs = chars_of(v.as_str());
                push_chars(&mut out, vs.as_slice(), 0, vs.len());
                assert(vs@.subrange(0, vs@.len() as int) =~= vs@);
                Some(out)
            }
        },
        (Some(p), None) => Some(p),
        (None, Some(v)) => Some(v),
        (None, None) => None,
    }
}

/// The version template named by the fields that follow a match pattern,
/// e.g. `p|OpenSSH| v|$2|` gives `OpenSSH $2`.
pub fn extract_version_template(rest: &str) -> (r: Option<String>)
    ensures
        opt_chars(r) == version_template(rest@),
{
    let cs = chars_of(rest);
    assert(cs@.subrange(0, cs@.len() as int) =~= rest@);
    version_template_in(cs.as_slice(), 0, cs.len())
}


// ---------------------------------------------------------------------------
// Probes and match rules
// ---------------------------------------------------------------------------

/// A match rule as the probe file states it.
pub struct RuleSpec {
    pub service: Seq<char>,
    /// The regex source, with the rule's `i`/`s` flags written in front.
    pub pattern: Seq<char>,
    pub version_template: Option<Seq<char>>,
}

/// A probe as the probe file states it.
pub struct ProbeSpec {
    pub name: Seq<char>,
    pub probe_bytes: Seq<u8>,
    pub ports: Seq<u16>,
    pub rules: Seq<RuleSpec>,
}

/// One `match`/`softmatch` line: the service it names, its pattern and the
/// template for the version string.
pub struct MatchRule {
    pub service: String,
    pub pattern: CompiledPattern,
    /// Product and version, with `$1`, `$2`, ... standing for the pattern's groups.
    pub version_template: Option<String>,
}

impl View for MatchRule {
    type V = RuleSpec;

    open spec fn view(&self) -> RuleSpec {
        RuleSpec {
            service: self.service@,
            pattern: self.pattern@,
            version_template: opt_chars(self.version_template),
        }
    }
}

/// One `Probe` section: what to send and which answers identify a service.
pub struct ServiceProbe {
    /// Probe name (e.g. "NULL", "GetRequest").
    pub name: String,
    /// Bytes to send; empty for the probe that only listens.
    pub probe_bytes: Vec<u8>,
    /// Ports this probe is meant for.
    pub ports: Vec<u16>,
    pub match_rules: Vec<MatchRule>,
}

impl View for ServiceProbe {
    type V = ProbeSpec;

    open spec fn view(&self) -> ProbeSpec {
        ProbeSpec {
            name: self.name@,
            probe_bytes: self.probe_bytes@,
            ports: self.ports@,
            rules: self.match_rules@.map_values(|r: MatchRule| r@),
        }
    }
}

pub open spec fn kw_probe() -> Seq<char> {
    seq!['P', 'r', 'o', 'b', 'e', ' ']
}

pub open spec fn kw_tcp() -> Seq<char> {
    seq!['T', 'C', 'P', ' ']
}

pub open spec fn kw_udp() -> Seq<char> {
    seq!['U', 'D', 'P', ' ']
}

pub open spec fn kw_ports() -> Seq<char> {
    seq!['p', 'o', 'r', 't', 's', ' ']
}

pub open spec fn kw_match() -> Seq<char> {
    seq!['m', 'a', 't', 'c', 'h', ' ']
}

pub open spec fn kw_softmatch() -> Seq<char> {
    seq!['s', 'o', 'f', 't', 'm', 'a', 't', 'c', 'h', ' ']
}

/// The probe a header line `Probe <proto> <name> q<d><payload><d>` declares,
/// with no ports and no rules yet; the protocol word is optional.
pub open spec fn probe_header(line: Seq<char>) -> Option<ProbeSpec> {
    if !starts_with(line, kw_probe()) {
        None
    } else {
        let r1 = line.skip(6);
        let r2 = if starts_with(r1, kw_tcp()) || starts_with(r1, kw_udp()) {
            r1.skip(4)
        } else {
            r1
        };
        match find_char(r2, ' ') {
            None => None,
            Some(k) => {
                let r3 = trim_start(r2.skip(k + 1));
                if r3.len() >= 2 && r3[0] == 'q' {
                    let inner = r3.skip(2);
                    match find_char(inner, r3[1]) {
                        None => None,
                        Some(e) => Some(
                            ProbeSpec {
                                name: r2.take(k),
                                probe_bytes: unescape(encode_utf8(inner.take(e))),
                                ports: seq![],
                                rules: seq![],
                            },
                        ),
                    }
                } else {
                    None
                }
            },
        }
    }
}

/// Length of the run of regex flag letters (`i`, `s`, `m`, `x`) that starts `s`.
pub open spec fn flag_run(s: Seq<char>) -> nat
    decreases s.len(),
{
    if s.len() > 0 && (s[0] == 'i' || s[0] == 's' || s[0] == 'm' || s[0] == 'x') {
        1 + flag_run(s.drop_first())
    } else {
        0
    }
}

/// Inline flags for the regex: `(?i)`, `(?s)`, `(?is)` or nothing.
pub open spec fn flag_prefix(case_insensitive: bool, dot_all: bool) -> Seq<char> {
    if !case_insensitive && !dot_all {
        seq![]
    } else {
        seq!['(', '?'] + (if case_insensitive {
            seq!['i']
        } else {
            seq![]
        }) + (if dot_all {
            seq!['s']
        } else {
            seq![]
        }) + seq![')']
    }
}

/// The inline flag group turns on case-insensitive matching exactly for the
/// `i` flag and dot-matches-newline exactly for the `s` flag, and there is no
/// group when neither is given.
pub proof fn lemma_flag_prefix(case_insensitive: bool, dot_all: bool)
    ensures
        (flag_prefix(case_insensitive, dot_all).len() == 0) == (!case_insensitive && !dot_all),
        case_insensitive == (flag_prefix(case_insensitive, dot_all).len() >= 3
            && flag_prefix(case_insensitive, dot_all).take(3) == seq!['(', '?', 'i']),
        dot_all == flag_prefix(case_insensitive, dot_all).contains('s'),
        flag_prefix(case_insensitive, dot_all).len() > 0 ==> flag_prefix(
            case_insensitive,
            dot_all,
        ).take(2) == seq!['(', '?'] && flag_prefix(case_insensitive, dot_all).last() == ')',
{
    let p = flag_prefix(case_insensitive, dot_all);
    if case_insensitive || dot_all {
        assert(p.take(2) =~= seq!['(', '?']);
        if case_insensitive {
            assert(p.take(3) =~= seq!['(', '?', 'i']);
        } else {
            assert(p[2] == 's');
            assert(p.take(3) != seq!['(', '?', 'i']);
        }
        if dot_all {
            assert(p[p.len() - 2] == 's');
        } else {
            assert(forall|i: int| 0 <= i < p.len() ==> p[i] != 's');
        }
    }
}

/// Where the pattern of a match rule starts: `r` is the text after the service
/// name, and the pattern is `m<d>...<d>`.
pub open spec fn rule_pattern_part(rest: Seq<char>) -> Option<Seq<char>> {
    match find_char(rest, ' ') {
        None => None,
        Some(k) => {
            let r = trim_start(rest.skip(k + 1));
            if r.len() >= 2 && r[0] == 'm' {
                Some(r)
            } else {
                None
            }
        },
    }
}

/// Number of bytes in the UTF-8 encoding of `c`.
pub open spec fn utf8_len(c: char) -> nat {
    encode_scalar(c as u32).len()
}

/// The character index in `s` at which byte `b` of its UTF-8 encoding
/// starts, or `None` when `b` falls inside a character or past the end.
pub open spec fn char_index_at(s: Seq<char>, b: int) -> Option<int> {
    if exists|k: int| 0 <= k <= s.len() && encode_utf8(s.take(k)).len() == b {
        Some(choose|k: int| 0 <= k <= s.len() && encode_utf8(s.take(k)).len() == b)
    } else {
        None
    }
}

/// The end of a pattern `m<d><inner>`: the closing delimiter is searched for
/// byte by byte, as the low byte of `d`, in the UTF-8 encoding of `inner`
/// (see `close_delim`). `None` when it is not found; otherwise the character
/// indices in `inner` where the pattern ends and where the text after the
/// delimiter starts, each `None` when that byte offset is not a character
/// boundary.
pub open spec fn pattern_end(inner: Seq<char>, d: char) -> Option<(Option<int>, Option<int>)> {
    match close_delim(encode_utf8(inner), (d as u32 % 256) as u8) {
        None => None,
        Some(e) => Some((char_index_at(inner, e), char_index_at(inner, e + utf8_len(d)))),
    }
}

/// A match rule's regex is a flag group followed by the pattern text between
/// the delimiters, unchanged; the group is present exactly when the flag
/// letters after the closing delimiter include `i` or `s`, starts with `(?i`
/// exactly when they include `i`, and holds an `s` exactly when they include
/// `s`.
pub proof fn lemma_rule_flags(rest: Seq<char>)
    requires
        match_rule(rest) is Some,
    ensures
        ({
            let r = rule_pattern_part(rest)->0;
            let inner = r.skip(2);
            let (end, next) = match pattern_end(inner, r[1]) {
                Some((Some(a), Some(b))) => (a, b),
                _ => (0, 0),
            };
            let after = inner.skip(next);
            let flags = after.take(flag_run(after) as int);
            let pat = match_rule(rest)->0.pattern;
            let fl = (pat.len() - inner.take(end).len()) as int;
            &&& pat.skip(fl) == inner.take(end)
            &&& flags.contains('i') == (fl >= 3 && pat.take(3) == seq!['(', '?', 'i'])
            &&& (flags.contains('i') || flags.contains('s')) == (fl > 0)
            &&& flags.contains('s') == pat.take(fl).contains('s')
        }),
{
    let r = rule_pattern_part(rest)->0;
    let inner = r.skip(2);
    let (end, next) = match pattern_end(inner, r[1]) {
        Some((Some(a), Some(b))) => (a, b),
        _ => (0, 0),
    };
    let after = inner.skip(next);
    let flags = after.take(flag_run(after) as int);
    let pre = flag_prefix(flags.contains('i'), flags.contains('s'));
    let pat = match_rule(rest)->0.pattern;
    assert(pat == pre + inner.take(end));
    lemma_flag_prefix(flags.contains('i'), flags.contains('s'));
    assert(pat.skip(pre.len() as int) =~= inner.take(end));
    assert(pat.take(pre.len() as int) =~= pre);
    if pre.len() >= 3 {
        assert(pat.take(3) =~= pre.take(3));
    }
}

/// Reading the match rule `rest` cuts its text only at character
/// boundaries, as it always does when the delimiter is ASCII (see
/// `lemma_ascii_pattern_end`).
pub open spec fn rule_sliceable(rest: Seq<char>) -> bool {
    rule_pattern_part(rest) matches Some(r) ==> (pattern_end(r.skip(2), r[1]) matches Some(
        (a, b),
    ) ==> a is Some && b is Some)
}

/// The rule a match line states after its `match `/`softmatch ` keyword:
/// `<service> m<d><pattern><d>[flags] [k|value| ...]`. A rule whose
/// pattern does not compile is dropped.
pub open spec fn match_rule(rest: Seq<char>) -> Option<RuleSpec> {
    match find_char(rest, ' ') {
        None => None,
        Some(k) => match rule_pattern_part(rest) {
            None => None,
            Some(r) => {
                let inner = r.skip(2);
                match pattern_end(inner, r[1]) {
                    Some((Some(end), Some(next))) => {
                        let after = inner.skip(next);
                        let flags = after.take(flag_run(after) as int);
                        let src = flag_prefix(flags.contains('i'), flags.contains('s'))
                            + inner.take(end);
                        if regex_compiles(src) {
                            Some(
                                RuleSpec {
                                    service: rest.take(k),
                                    pattern: src,
                                    version_template: version_template(
                                        after.skip(flag_run(after) as int),
                                    ),
                                },
                            )
                        } else {
                            None
                        }
                    },
                    _ => None,
                }
            },
        },
    }
}

fn keyword(which: u8) -> (r: Vec<char>)
    requires
        which < 6,
    ensures
        which == 0 ==> r@ == kw_probe(),
        which == 1 ==> r@ == kw_tcp(),
        which == 2 ==> r@ == kw_udp(),
        which == 3 ==> r@ == kw_ports(),
        which == 4 ==> r@ == kw_match(),
        which == 5 ==> r@ == kw_softmatch(),
{
    let r = if which == 0 {
        vec!['P', 'r', 'o', 'b', 'e', ' ']
    } else if which == 1 {
        vec!['T', 'C', 'P', ' ']
    } else if which == 2 {
        vec!['U', 'D', 'P', ' ']
    } else if which == 3 {
        vec!['p', 'o', 'r', 't', 's', ' ']
    } else if which == 4 {
        vec!['m', 'a', 't', 'c', 'h', ' ']
    } else {
        vec!['s', 'o', 'f', 't', 'm', 'a', 't', 'c', 'h', ' ']
    };
    assert(which == 0 ==> r@ =~= kw_probe());
    assert(which == 1 ==> r@ =~= kw_tcp());
    assert(which == 2 ==> r@ =~= kw_udp());
    assert(which == 3 ==> r@ =~= kw_ports());
    assert(which == 4 ==> r@ =~= kw_match());
    assert(which == 5 ==> r@ =~= kw_softmatch());
    r
}

/// Parses a probe header line `s[lo..hi]` (see `probe_header`).
fn parse_probe_header_in(s: &[char], lo: usize, hi: usize) -> (r: Option<ServiceProbe>)
    requires
        lo <= hi <= s@.len(),
    ensures
        match r {
            Some(p) => probe_header(s@.subrange(lo as int, hi as int)) == Some(p@),
            None => probe_header(s@.subrange(lo as int, hi as int)) is None,
        },
{
    let ghost line = s@.subrange(lo as int, hi as int);
    if !has_prefix(s, lo, hi, keyword(0).as_slice()) {
        return None;
    }
    let a = lo + 6;
    let ghost r1 = line.skip(6);
    assert(r1 =~= s@.subrange(a as int, hi as int));
    let b = if has_prefix(s, a, hi, keyword(1).as_slice()) || has_prefix(
        s,
        a,
        hi,
        keyword(2).as_slice(),
    ) {
        assert(r1.skip(4) =~= s@.subrange(a + 4, hi as int));
        a + 4
    } else {
        a
    };
    let ghost r2 = s@.subrange(b as int, hi as int);
    let k = match find_in(s, b, hi, ' ') {
        Some(k) => k,
        None => {
            return None;
        },
    };
    assert(r2.skip(k - b + 1) =~= s@.subrange(k + 1, hi as int));
    assert(r2.take(k - b) =~= s@.subrange(b as int, k as int));
    let c = skip_spaces(s, k + 1, hi);
    let ghost r3 = s@.subrange(c as int, hi as int);
    if !(hi - c >= 2 && s[c] == 'q') {
        return None;
    }
    assert(r3[0] == s@[c as int] && r3[1] == s@[c + 1]);
    let delim = s[c + 1];
    assert(r3.skip(2) =~= s@.subrange(c + 2, hi as int));
    let e = match find_in(s, c + 2, hi, delim) {
        Some(e) => e,
        None => {
            return None;
        },
    };
    assert(r3.skip(2).take(e - (c + 2)) =~= s@.subrange(c + 2, e as int));
    let payload = string_of(s, c + 2, e);
    let probe_bytes = decode_escape(payload.as_str().as_bytes());
    let name = string_of(s, b, k);
    let p = ServiceProbe { name, probe_bytes, ports: Vec::new(), match_rules: Vec::new() };
    assert(p@.rules =~= Seq::<RuleSpec>::empty());
    Some(p)
}

/// The flag run at the start of `s[lo..hi]`: its end, and whether it holds
/// `i` and `s`.
fn scan_flags(s: &[char], lo: usize, hi: usize) -> (r: (usize, bool, bool))
    requires
        lo <= hi <= s@.len(),
    ensures
        lo <= r.0 <= hi,
        r.0 - lo == flag_run(s@.subrange(lo as int, hi as int)),
        r.1 == s@.subrange(lo as int, r.0 as int).contains('i'),
        r.2 == s@.subrange(lo as int, r.0 as int).contains('s'),
{
    let mut i = lo;
    let mut ci = false;
    let mut ds = false;
    while i < hi && (s[i] == 'i' || s[i] == 's' || s[i] == 'm' || s[i] == 'x')
        invariant
            lo <= i <= hi <= s@.len(),
            flag_run(s@.subrange(lo as int, hi as int)) == (i - lo) + flag_run(
                s@.subrange(i as int, hi as int),
            ),
            ci == s@.subrange(lo as int, i as int).contains('i'),
            ds == s@.subrange(lo as int, i as int).contains('s'),
        decreases hi - i,
    {
        assert(s@.subrange(i as int, hi as int).drop_first() =~= s@.subrange(i + 1, hi as int));
        let ghost prev = s@.subrange(lo as int, i as int);
        assert(s@.subrange(lo as int, i + 1) =~= prev.push(s@[i as int]));
        if s[i] == 'i' {
            ci = true;
        }
        if s[i] == 's' {
            ds = true;
        }
        let ghost cur = s@.subrange(lo as int, i + 1);
        assert(cur =~= prev.push(s@[i as int]));
        assert forall|c: char| cur.contains(c) implies (prev.contains(c) || c == s@[i as int]) by {
            let j = choose|j: int| 0 <= j < cur.len() && #[trigger] cur[j] == c;
            if j < prev.len() {
                assert(prev[j] == c);
            }
        }
        assert forall|c: char| prev.contains(c) || c == s@[i as int] implies cur.contains(c) by {
            if prev.contains(c) {
                let j = choose|j: int| 0 <= j < prev.len() && #[trigger] prev[j] == c;
                assert(cur[j] == c);
            } else {
                assert(cur[i - lo] == c);
            }
        }
        i = i + 1;
    }
    assert(i < hi ==> s@.subrange(i as int, hi as int)[0] == s@[i as int]);
    (i, ci, ds)
}

fn regex_source(ci: bool, ds: bool, s: &[char], lo: usize, hi: usize) -> (r: String)
    requires
        lo <= hi <= s@.len(),
    ensures
        r@ == flag_prefix(ci, ds) + s@.subrange(lo as int, hi as int),
{
    let mut out = String::new();
    if ci || ds {
        push_char(&mut out, '(');
        push_char(&mut out, '?');
        if ci {
            push_char(&mut out, 'i');
        }
        if ds {
            push_char(&mut out, 's');
        }
        push_char(&mut out, ')');
    }
    assert(out@ =~= flag_prefix(ci, ds));
    push_chars(&mut out, s, lo, hi);
    out
}

/// Parses the text of a match line after its keyword, `s[lo..hi]`
/// (see `match_rule`).
fn parse_match_rule_in(s: &[char], lo: usize, hi: usize) -> (r: Option<MatchRule>)
    requires
        lo <= hi <= s@.len(),
    ensures
        match r {
            Some(m) => match_rule(s@.subrange(lo as int, hi as int)) == Some(m@),
            None => match_rule(s@.subrange(lo as int, hi as int)) is None,
        },
{
    let ghost rest = s@.subrange(lo as int, hi as int);
    let k = match find_in(s, lo, hi, ' ') {
        Some(k) => k,
        None => {
            return None;
        },
    };
    assert(rest.skip(k - lo + 1) =~= s@.subrange(k + 1, hi as int));
    assert(rest.take(k - lo) =~= s@.subrange(lo as int, k as int));
    let c = skip_spaces(s, k + 1, hi);
    let ghost r = s@.subrange(c as int, hi as int);
    if !(hi - c >= 2 && s[c] == 'm') {
        return None;
    }
    assert(r[0] == s@[c as int] && r[1] == s@[c + 1]);
    let delim = s[c + 1];
    assert(r.skip(2) =~= s@.subrange(c + 2, hi as int));
    let (end, next) = match pattern_end_in(s, c + 2, hi, delim) {
        Some((Some(end), Some(next))) => (end, next),
        _ => {
            return None;
        },
    };
    let ghost inner = r.skip(2);
    assert(inner.take(end - (c + 2)) =~= s@.subrange(c + 2, end as int));
    assert(inner.skip(next - (c + 2)) =~= s@.subrange(next as int, hi as int));
    let (f, ci, ds) = scan_flags(s, next, hi);
    let ghost after = s@.subrange(next as int, hi as int);
    assert(after.take(f - next) =~= s@.subrange(next as int, f as int));
    assert(after.skip(f - next) =~= s@.subrange(f as int, hi as int));
    let source = regex_source(ci, ds, s, c + 2, end);
    let pattern = match compile_pattern(source) {
        Ok(p) => p,
        Err(_) => {
            return None;
        },
    };
    let version_template = version_template_in(s, f, hi);
    let service = string_of(s, lo, k);
    Some(MatchRule { service, pattern, version_template })
}


// ---------------------------------------------------------------------------
// The whole file
// ---------------------------------------------------------------------------

/// `l` without one trailing carriage return.
pub open spec fn strip_cr(l: Seq<char>) -> Seq<char> {
    if l.len() > 0 && l.last() == '\r' {
        l.drop_last()
    } else {
        l
    }
}

/// The lines of `s` as `str::lines` yields them: split at `\n`, a `\r` before
/// the `\n` removed, and no empty line after a final `\n`.
pub open spec fn lines_of(s: Seq<char>) -> Seq<Seq<char>>
    decreases s.len(),
{
    if s.len() == 0 {
        seq![]
    } else {
        match find_char(s, '\n') {
            Some(k) => if 0 <= k < s.len() {
                seq![strip_cr(s.take(k))] + lines_of(s.skip(k + 1))
            } else {
                seq![]
            },
            None => seq![s],
        }
    }
}

/// Probes read so far, and the probe whose lines are being read.
pub struct ParseState {
    pub done: Seq<ProbeSpec>,
    pub current: Option<ProbeSpec>,
}

pub open spec fn opt_seq<A>(o: Option<A>) -> Seq<A> {
    match o {
        Some(a) => seq![a],
        None => seq![],
    }
}

/// The text after a match line's keyword, if `line` is a match line.
pub open spec fn match_line_rest(line: Seq<char>) -> Option<Seq<char>> {
    if starts_with(line, kw_softmatch()) {
        Some(line.skip(10))
    } else if starts_with(line, kw_match()) {
        Some(line.skip(6))
    } else {
        None
    }
}

/// How one line of the probe file changes the reading: comments and blank
/// lines are skipped; `Probe` closes the current probe and opens a new one
/// (none if the header does not parse); inside a probe, `ports` sets its port
/// list and `match`/`softmatch` adds a rule; every other line is ignored.
pub open spec fn read_line(st: ParseState, raw_line: Seq<char>) -> ParseState {
    let line = trim_end(raw_line);
    if line.len() == 0 || line[0] == '#' {
        st
    } else if starts_with(line, kw_probe()) {
        ParseState { done: st.done + opt_seq(st.current), current: probe_header(line) }
    } else {
        match st.current {
            None => st,
            Some(p) => if starts_with(line, kw_ports()) {
                ParseState {
                    done: st.done,
                    current: Some(ProbeSpec { ports: port_list(line.skip(6)), ..p }),
                }
            } else {
                match match_line_rest(line) {
                    Some(rest) => match match_rule(rest) {
                        Some(r) => ParseState {
                            done: st.done,
                            current: Some(ProbeSpec { rules: p.rules.push(r), ..p }),
                        },
                        None => st,
                    },
                    None => st,
                }
            },
        }
    }
}

/// The reading after the given lines.
pub open spec fn read_lines(lines: Seq<Seq<char>>) -> ParseState
    decreases lines.len(),
{
    if lines.len() == 0 {
        ParseState { done: seq![], current: None }
    } else {
        read_line(read_lines(lines.drop_last()), lines.last())
    }
}

/// The probes a probe file declares, in file order.
pub open spec fn probes_of(raw: Seq<char>) -> Seq<ProbeSpec> {
    let st = read_lines(lines_of(raw));
    st.done + opt_seq(st.current)
}

/// A line would be read as a match rule in the given state.
pub open spec fn reads_rule(st: ParseState, raw_line: Seq<char>) -> Option<Seq<char>> {
    let line = trim_end(raw_line);
    if line.len() == 0 || line[0] == '#' || starts_with(line, kw_probe()) || st.current is None
        || starts_with(line, kw_ports()) {
        None
    } else {
        match_line_rest(line)
    }
}

/// Reading the file cuts every match rule it reaches only at character
/// boundaries (see `rule_sliceable`).
pub open spec fn rules_sliceable(raw: Seq<char>) -> bool {
    let lines = lines_of(raw);
    forall|i: int|
        0 <= i < lines.len() ==> (#[trigger] reads_rule(read_lines(lines.take(i)), lines[i]) matches Some(rest)
            ==> rule_sliceable(rest))
}

pub open spec fn probes_view(v: Seq<ServiceProbe>) -> Seq<ProbeSpec> {
    v.map_values(|p: ServiceProbe| p@)
}

pub open spec fn opt_probe_view(o: Option<ServiceProbe>) -> Option<ProbeSpec> {
    match o {
        Some(p) => Some(p@),
        None => None,
    }
}

/// Applies the line `s[lo..hi]` to the reading (see `read_line`).
fn read_line_in(
    done: &mut Vec<ServiceProbe>,
    current: Option<ServiceProbe>,
    s: &[char],
    lo: usize,
    hi: usize,
) -> (next: Option<ServiceProbe>)
    requires
        lo <= hi <= s@.len(),
        reads_rule(
            ParseState { done: probes_view(old(done)@), current: opt_probe_view(current) },
            s@.subrange(lo as int, hi as int),
        ) matches Some(rest) ==> rule_sliceable(rest),
    ensures
        read_line(
            ParseState { done: probes_view(old(done)@), current: opt_probe_view(current) },
            s@.subrange(lo as int, hi as int),
        ) == (ParseState { done: probes_view(final(done)@), current: opt_probe_view(next) }),
{
    let ghost st = ParseState { done: probes_view(done@), current: opt_probe_view(current) };
    let t = trailing_spaces_start(s, lo, hi);
    let ghost line = s@.subrange(lo as int, t as int);
    if t == lo || s[lo] == '#' {
        assert(line.len() > 0 ==> line[0] == s@[lo as int]);
        return current;
    }
    assert(line[0] == s@[lo as int]);
    if has_prefix(s, lo, t, keyword(0).as_slice()) {
        let ghost before = done@;
        match current {
            Some(p) => {
                done.push(p);
            },
            None => {},
        }
        assert(probes_view(done@) =~= probes_view(before) + opt_seq(opt_probe_view(current)));
        return parse_probe_header_in(s, lo, t);
    }
    match current {
        None => None,
        Some(p) => {
            let ServiceProbe { name, probe_bytes, ports, match_rules } = p;
            if has_prefix(s, lo, t, keyword(3).as_slice()) {
                assert(line.skip(6) =~= s@.subrange(lo + 6, t as int));
                let new_ports = port_list_in(s, lo + 6, t);
                Some(ServiceProbe { name, probe_bytes, ports: new_ports, match_rules })
            } else {
                let start = if has_prefix(s, lo, t, keyword(5).as_slice()) {
                    assert(line.skip(10) =~= s@.subrange(lo + 10, t as int));
                    lo + 10
                } else if has_prefix(s, lo, t, keyword(4).as_slice()) {
                    assert(line.skip(6) =~= s@.subrange(lo + 6, t as int));
                    lo + 6
                } else {
                    return Some(ServiceProbe { name, probe_bytes, ports, match_rules });
                };
                match parse_match_rule_in(s, start, t) {
                    Some(rule) => {
                        let mut rules = match_rules;
                        let ghost before = rules@;
                        rules.push(rule);
                        let q = ServiceProbe { name, probe_bytes, ports, match_rules: rules };
                        assert(q@.rules =~= before.map_values(|r: MatchRule| r@).push(rule@));
                        Some(q)
                    },
                    None => Some(ServiceProbe { name, probe_bytes, ports, match_rules }),
                }
            }
        },
    }
}

proof fn lemma_lines_step(s: Seq<char>, pos: int, line_end: int, next: int, cut: int)
    requires
        0 <= pos < s.len(),
        match find_char(s.subrange(pos, s.len() as int), '\n') {
            Some(k) => line_end == pos + k && next == line_end + 1,
            None => line_end == s.len() && next == s.len(),
        },
        pos <= line_end <= s.len(),
        cut == if line_end > pos && s[line_end - 1] == '\r' && line_end < s.len() {
            line_end - 1
        } else {
            line_end
        },
    ensures
        lines_of(s.subrange(pos, s.len() as int)) == seq![s.subrange(pos, cut)] + lines_of(
            s.subrange(next, s.len() as int),
        ),
{
    let n = s.len() as int;
    let suffix = s.subrange(pos, n);
    if line_end < n {
        assert(suffix.take(line_end - pos) =~= s.subrange(pos, line_end));
        assert(suffix.skip(line_end - pos + 1) =~= s.subrange(next, n));
        assert(strip_cr(suffix.take(line_end - pos)) =~= s.subrange(pos, cut));
    } else {
        assert(suffix =~= s.subrange(pos, cut));
        assert(s.subrange(next, n) =~= Seq::<char>::empty());
    }
}

/// Reads a whole probe file (see `probes_of`).
#[verifier::rlimit(30)]
pub fn parse_probes(raw: &str) -> (probes: Vec<ServiceProbe>)
    requires
        rules_sliceable(raw@),
    ensures
        probes_view(probes@) == probes_of(raw@),
{
    let cs = chars_of(raw);
    let s = cs.as_slice();
    let n = s.len();
    let ghost lines = lines_of(s@);
    assert(s@.subrange(0, n as int) =~= s@);
    let mut done: Vec<ServiceProbe> = Vec::new();
    let mut current: Option<ServiceProbe> = None;
    let mut pos: usize = 0;
    let ghost mut li: int = 0;
    assert(lines.take(0) =~= Seq::<Seq<char>>::empty());
    assert(lines.skip(0) =~= lines);
    assert(probes_view(done@) =~= Seq::<ProbeSpec>::empty());
    while pos < n
        invariant
            pos <= n == s@.len(),
            s@ == raw@,
            lines == lines_of(s@),
            rules_sliceable(raw@),
            0 <= li <= lines.len(),
            lines_of(s@.subrange(pos as int, n as int)) == lines.skip(li),
            read_lines(lines.take(li)) == (ParseState {
                done: probes_view(done@),
                current: opt_probe_view(current),
            }),
        decreases n - pos,
    {
        let ghost suffix = s@.subrange(pos as int, n as int);
        let (line_end, next) = match find_in(s, pos, n, '\n') {
            Some(k) => (k, k + 1),
            None => (n, n),
        };
        let cut = if line_end > pos && s[line_end - 1] == '\r' && line_end < n {
            line_end - 1
        } else {
            line_end
        };
        let ghost line = s@.subrange(pos as int, cut as int);
        proof {
            lemma_lines_step(s@, pos as int, line_end as int, next as int, cut as int);
        }
        assert(lines.skip(li).len() >= 1);
        assert(lines.skip(li)[0] == line);
        assert(lines[li] == line);
        assert(lines.skip(li + 1) =~= lines.skip(li).drop_first());
        assert(lines.take(li + 1).drop_last() =~= lines.take(li));
        assert(reads_rule(read_lines(lines.take(li)), lines[li]) matches Some(rest)
            ==> rule_sliceable(rest));
        current = read_line_in(&mut done, current, s, pos, cut);
        proof {
            li = li + 1;
        }
        pos = next;
    }
    assert(lines.skip(li).len() == 0);
    assert(lines.take(li) =~= lines);
    let ghost before = done@;
    match current {
        Some(p) => {
            done.push(p);
        },
        None => {},
    }
    assert(probes_view(done@) =~= probes_view(before) + opt_seq(opt_probe_view(current)));
    done
}


proof fn lemma_read_line_current(st: ParseState, raw_line: Seq<char>)
    ensures
        (read_line(st, raw_line).current is Some) == ({
            let line = trim_end(raw_line);
            if line.len() == 0 || line[0] == '#' {
                st.current is Some
            } else if starts_with(line, kw_probe()) {
                probe_header(line) is Some
            } else {
                st.current is Some
            }
        }),
{
}

/// Whether reading `raw` cuts every match rule it reaches only at character
/// boundaries (see `rules_sliceable`).
#[verifier::rlimit(30)]
pub fn probe_text_supported(raw: &str) -> (b: bool)
    ensures
        b == rules_sliceable(raw@),
{
    let cs = chars_of(raw);
    let s = cs.as_slice();
    let n = s.len();
    let ghost lines = lines_of(s@);
    assert(s@.subrange(0, n as int) =~= s@);
    let mut has_current = false;
    let mut pos: usize = 0;
    let ghost mut li: int = 0;
    assert(lines.skip(0) =~= lines);
    while pos < n
        invariant
            pos <= n == s@.len(),
            s@ == raw@,
            lines == lines_of(s@),
            0 <= li <= lines.len(),
            lines_of(s@.subrange(pos as int, n as int)) == lines.skip(li),
            has_current == (read_lines(lines.take(li)).current is Some),
            forall|i: int|
                0 <= i < li ==> (#[trigger] reads_rule(read_lines(lines.take(i)), lines[i]) matches Some(
                    rest,
                ) ==> rule_sliceable(rest)),
        decreases n - pos,
    {
        let (line_end, next) = match find_in(s, pos, n, '\n') {
            Some(k) => (k, k + 1),
            None => (n, n),
        };
        let cut = if line_end > pos && s[line_end - 1] == '\r' && line_end < n {
            line_end - 1
        } else {
            line_end
        };
        let ghost line = s@.subrange(pos as int, cut as int);
        proof {
            lemma_lines_step(s@, pos as int, line_end as int, next as int, cut as int);
        }
        assert(lines.skip(li).len() >= 1);
        assert(lines.skip(li)[0] == line);
        assert(lines[li] == line);
        assert(lines.skip(li + 1) =~= lines.skip(li).drop_first());
        assert(lines.take(li + 1).drop_last() =~= lines.take(li));
        let (ok, now_current) = check_line(s, pos, cut, has_current, Ghost(read_lines(lines.take(li))));
        if !ok {
            return false;
        }
        has_current = now_current;
        proof {
            li = li + 1;
        }
        pos = next;
    }
    assert(lines.skip(li).len() == 0);
    assert(lines.take(li) =~= lines);
    true
}

/// For the line `s[lo..hi]` read in state `st`: whether it passes the
/// delimiter check, and whether a probe is open after it.
fn check_line(s: &[char], lo: usize, hi: usize, has_current: bool, Ghost(st): Ghost<ParseState>) -> (r: (bool, bool))
    requires
        lo <= hi <= s@.len(),
        has_current == (st.current is Some),
    ensures
        r.0 == (reads_rule(st, s@.subrange(lo as int, hi as int)) matches Some(rest) ==> rule_sliceable(rest)),
        r.1 == (read_line(st, s@.subrange(lo as int, hi as int)).current is Some),
{
    let ghost line = s@.subrange(lo as int, hi as int);
    proof {
        lemma_read_line_current(st, line);
    }
    let t = trailing_spaces_start(s, lo, hi);
    let ghost tl = s@.subrange(lo as int, t as int);
    if t > lo && s[lo] != '#' {
        assert(tl[0] == s@[lo as int]);
        if has_prefix(s, lo, t, keyword(0).as_slice()) {
            return (true, parse_probe_header_in(s, lo, t).is_some());
        } else if has_current && !has_prefix(s, lo, t, keyword(3).as_slice()) {
            if has_prefix(s, lo, t, keyword(5).as_slice()) {
                assert(tl.skip(10) =~= s@.subrange(lo + 10, t as int));
                return (rule_sliceable_in(s, lo + 10, t), has_current);
            } else if has_prefix(s, lo, t, keyword(4).as_slice()) {
                assert(tl.skip(6) =~= s@.subrange(lo + 6, t as int));
                return (rule_sliceable_in(s, lo + 6, t), has_current);
            }
        }
        (true, has_current)
    } else {
        assert(tl.len() > 0 ==> tl[0] == s@[lo as int]);
        (true, has_current)
    }
}

/// Whether reading the match rule text `s[lo..hi]` cuts it only at character
/// boundaries (see `rule_sliceable`).
fn rule_sliceable_in(s: &[char], lo: usize, hi: usize) -> (b: bool)
    requires
        lo <= hi <= s@.len(),
    ensures
        b == rule_sliceable(s@.subrange(lo as int, hi as int)),
{
    let ghost rest = s@.subrange(lo as int, hi as int);
    let k = match find_in(s, lo, hi, ' ') {
        Some(k) => k,
        None => {
            return true;
        },
    };
    assert(rest.skip(k - lo + 1) =~= s@.subrange(k + 1, hi as int));
    let c = skip_spaces(s, k + 1, hi);
    let ghost r = s@.subrange(c as int, hi as int);
    if !(hi - c >= 2 && s[c] == 'm') {
        assert(!(r.len() >= 2 && r[0] == 'm'));
        return true;
    }
    assert(r[0] == s@[c as int] && r[1] == s@[c + 1]);
    assert(r.skip(2) =~= s@.subrange(c + 2, hi as int));
    match pattern_end_in(s, c + 2, hi, s[c + 1]) {
        None => true,
        Some((a, b)) => a.is_some() && b.is_some(),
    }
}

} // verus!
