//! Per-connection request handling: the accumulating input buffer, the
//! case-insensitive `content-length` header scan, the read/write step state
//! machine, and the fixed response payload.

use vstd::prelude::*;
use crate::epoll::{EpollEvent, READ_FLAGS, WRITE_FLAGS, listener_read_event, listener_write_event};

verus! {

/// ASCII lowercasing of one byte.
pub open spec fn lower_byte_spec(b: u8) -> u8 {
    if 65 <= b && b <= 90 {
        (b + 32) as u8
    } else {
        b
    }
}

/// ASCII lowercasing of a byte sequence.
pub open spec fn lower_bytes(s: Seq<u8>) -> Seq<u8> {
    s.map_values(|b: u8| lower_byte_spec(b))
}

/// ASCII decimal digit.
pub open spec fn is_digit(b: u8) -> bool {
    48 <= b && b <= 57
}

/// A UTF-8 continuation byte.
pub open spec fn is_cont(b: u8) -> bool {
    0x80 <= b && b <= 0xBF
}

/// The bytes from position `i` on are well-formed UTF-8: ASCII, or a lead
/// byte followed by the right continuation bytes, excluding overlong forms,
/// surrogates and values beyond the last code point.
pub open spec fn is_utf8_from(s: Seq<u8>, i: int) -> bool
    decreases s.len() - i,
{
    if i < 0 {
        false
    } else if i >= s.len() {
        true
    } else {
        let b = s[i];
        if b < 0x80 {
            is_utf8_from(s, i + 1)
        } else if 0xC2 <= b && b <= 0xDF {
            if i + 2 <= s.len() {
                is_cont(s[i + 1]) && is_utf8_from(s, i + 2)
            } else {
                false
            }
        } else if b == 0xE0 {
            if i + 3 <= s.len() {
                0xA0 <= s[i + 1] && s[i + 1] <= 0xBF && is_cont(s[i + 2]) && is_utf8_from(s, i + 3)
            } else {
                false
            }
        } else if 0xE1 <= b && b <= 0xEC {
            if i + 3 <= s.len() {
                is_cont(s[i + 1]) && is_cont(s[i + 2]) && is_utf8_from(s, i + 3)
            } else {
                false
            }
        } else if b == 0xED {
            if i + 3 <= s.len() {
                0x80 <= s[i + 1] && s[i + 1] <= 0x9F && is_cont(s[i + 2]) && is_utf8_from(s, i + 3)
            } else {
                false
            }
        } else if 0xEE <= b && b <= 0xEF {
            if i + 3 <= s.len() {
                is_cont(s[i + 1]) && is_cont(s[i + 2]) && is_utf8_from(s, i + 3)
            } else {
                false
            }
        } else if b == 0xF0 {
            if i + 4 <= s.len() {
                0x90 <= s[i + 1] && s[i + 1] <= 0xBF && is_cont(s[i + 2]) && is_cont(s[i + 3])
                    && is_utf8_from(s, i + 4)
            } else {
                false
            }
        } else if 0xF1 <= b && b <= 0xF3 {
            if i + 4 <= s.len() {
                is_cont(s[i + 1]) && is_cont(s[i + 2]) && is_cont(s[i + 3]) && is_utf8_from(
                    s,
                    i + 4,
                )
            } else {
                false
            }
        } else if b == 0xF4 {
            if i + 4 <= s.len() {
                0x80 <= s[i + 1] && s[i + 1] <= 0x8F && is_cont(s[i + 2]) && is_cont(s[i + 3])
                    && is_utf8_from(s, i + 4)
            } else {
                false
            }
        } else {
            false
        }
    }
}

/// The whole chunk is well-formed UTF-8 text. The header scan is attempted
/// only on chunks that can be interpreted as text.
pub open spec fn is_utf8(s: Seq<u8>) -> bool {
    is_utf8_from(s, 0)
}

/// The scanned chunk contains the substring `HTTP`, the weak precondition for
/// attempting the header scan at all.
pub open spec fn contains_http(s: Seq<u8>) -> bool {
    exists|i: int|
        0 <= i && i + 4 <= s.len() && #[trigger] s[i] == 72 && s[i + 1] == 84 && s[i + 2] == 84
            && s[i + 3] == 80
}

/// Byte `j` of the lowercase header name `content-length: `.
pub open spec fn header_prefix_byte(j: int) -> u8 {
    if j == 0 {
        99
    } else if j == 1 {
        111
    } else if j == 2 {
        110
    } else if j == 3 {
        116
    } else if j == 4 {
        101
    } else if j == 5 {
        110
    } else if j == 6 {
        116
    } else if j == 7 {
        45
    } else if j == 8 {
        108
    } else if j == 9 {
        101
    } else if j == 10 {
        110
    } else if j == 11 {
        103
    } else if j == 12 {
        116
    } else if j == 13 {
        104
    } else if j == 14 {
        58
    } else {
        32
    }
}

/// Position `i` starts a line: it is the start of the chunk or follows a
/// line feed.
pub open spec fn is_line_start(s: Seq<u8>, i: int) -> bool {
    i == 0 || s[i - 1] == 10
}

/// Position of the line feed that ends the line beginning at `i`, or the end
/// of the chunk if the last line is unterminated.
pub open spec fn line_end(s: Seq<u8>, i: int) -> int
    decreases s.len() - i,
{
    if i < 0 || i >= s.len() {
        s.len() as int
    } else if s[i] == 10 {
        i
    } else {
        line_end(s, i + 1)
    }
}

/// The line starting at `i` begins, case-insensitively, with
/// `content-length: `.
pub open spec fn header_match_at(s: Seq<u8>, i: int) -> bool {
    &&& 0 <= i
    &&& is_line_start(s, i)
    &&& i + 16 <= s.len()
    &&& forall|j: int| 0 <= j < 16 ==> lower_byte_spec(s[i + j]) == header_prefix_byte(j)
}

/// Start of the first line at or after `i` that carries the length header.
pub open spec fn find_header_from(s: Seq<u8>, i: int) -> Option<int>
    decreases s.len() - i,
{
    if i < 0 || i >= s.len() {
        None
    } else if header_match_at(s, i) {
        Some(i)
    } else {
        find_header_from(s, i + 1)
    }
}

/// The value bytes of the header line starting at `m`: the rest of the line
/// after the header name, with a trailing carriage return stripped.
pub open spec fn digits_of(s: Seq<u8>, m: int) -> Seq<u8> {
    let e = line_end(s, m);
    let ce = if e > m + 16 && s[e - 1] == 13 {
        e - 1
    } else {
        e
    };
    if ce < m + 16 {
        Seq::empty()
    } else {
        s.subrange(m + 16, ce)
    }
}

/// Value of a digit string read as a decimal number.
pub open spec fn digits_val(d: Seq<u8>) -> int
    decreases d.len(),
{
    if d.len() == 0 {
        0
    } else {
        digits_val(d.drop_last()) * 10 + (d.last() - 48)
    }
}

/// Every byte is a decimal digit.
pub open spec fn all_digits(d: Seq<u8>) -> bool {
    forall|i: int| 0 <= i < d.len() ==> is_digit(d[i])
}

/// The digit part of a header value: an optional single leading `+` sign is
/// allowed before the digits, as the machine's unsigned decimal parse allows.
pub open spec fn digits_part(d: Seq<u8>) -> Seq<u8> {
    if d.len() > 0 && d[0] == 43 {
        d.subrange(1, d.len() as int)
    } else {
        d
    }
}

/// An unsigned decimal number: an optional leading `+`, then at least one
/// digit, nothing but digits, and a value that fits the machine; anything
/// else is malformed.
pub open spec fn parse_digits(d: Seq<u8>) -> Option<usize> {
    let p = digits_part(d);
    if p.len() > 0 && all_digits(p) && digits_val(p) <= usize::MAX {
        Some(digits_val(p) as usize)
    } else {
        None
    }
}

/// Facts about `line_end`: it stays within the line's chunk, points at a line
/// feed unless the chunk ends first, and nothing before it is a line feed.
pub proof fn lemma_line_end(s: Seq<u8>, i: int)
    requires
        0 <= i <= s.len(),
    ensures
        i <= line_end(s, i) <= s.len(),
        line_end(s, i) < s.len() ==> s[line_end(s, i)] == 10,
        forall|k: int| i <= k < line_end(s, i) ==> s[k] != 10,
    decreases s.len() - i,
{
    if i < s.len() && s[i] != 10 {
        lemma_line_end(s, i + 1);
    }
}

/// A line that matches the header cannot end before the header name does:
/// none of the name's bytes is a line feed.
pub proof fn lemma_match_line_end(s: Seq<u8>, m: int)
    requires
        header_match_at(s, m),
    ensures
        line_end(s, m) >= m + 16,
{
    lemma_line_end(s, m);
    let e = line_end(s, m);
    if e < m + 16 {
        let j = e - m;
        assert(lower_byte_spec(s[m + j]) == header_prefix_byte(j));
        assert(s[e] == 10);
    }
}

/// Scanning a stretch with no header match does not change the search result.
pub proof fn lemma_find_from_skip(s: Seq<u8>, i: int, j: int)
    requires
        0 <= i <= j <= s.len(),
        forall|k: int| i <= k < j ==> !header_match_at(s, k),
    ensures
        find_header_from(s, i) == find_header_from(s, j),
    decreases j - i,
{
    if i < j {
        lemma_find_from_skip(s, i + 1, j);
    }
}

/// A successful search yields a matching position at or after where it began.
pub proof fn lemma_find_from_some(s: Seq<u8>, i: int)
    requires
        0 <= i,
    ensures
        match find_header_from(s, i) {
            Some(m) => i <= m < s.len() && header_match_at(s, m),
            None => true,
        },
    decreases s.len() - i,
{
    if i < s.len() && !header_match_at(s, i) {
        lemma_find_from_some(s, i + 1);
    }
}

fn lower_byte(b: u8) -> (r: u8)
    ensures
        r == lower_byte_spec(b),
{
    if b >= 65 && b <= 90 {
        b + 32
    } else {
        b
    }
}

fn prefix_byte(j: usize) -> (b: u8)
    requires
        j < 16,
    ensures
        b == header_prefix_byte(j as int),
{
    if j == 0 {
        99
    } else if j == 1 {
        111
    } else if j == 2 {
        110
    } else if j == 3 {
        116
    } else if j == 4 {
        101
    } else if j == 5 {
        110
    } else if j == 6 {
        116
    } else if j == 7 {
        45
    } else if j == 8 {
        108
    } else if j == 9 {
        101
    } else if j == 10 {
        110
    } else if j == 11 {
        103
    } else if j == 12 {
        116
    } else if j == 13 {
        104
    } else if j == 14 {
        58
    } else {
        32
    }
}

fn is_utf8_exec(data: &[u8]) -> (r: bool)
    ensures
        r == is_utf8(data@),
{
    let n = data.len();
    let mut i: usize = 0;
    while i < n
        invariant
            n == data@.len(),
            i <= n,
            is_utf8(data@) == is_utf8_from(data@, i as int),
        decreases n - i,
    {
        let b = data[i];
        if b < 0x80 {
            i = i + 1;
        } else if 0xC2 <= b && b <= 0xDF {
            if n - i < 2 || !(data[i + 1] >= 0x80 && data[i + 1] <= 0xBF) {
                return false;
            }
            i = i + 2;
        } else if b == 0xE0 {
            if n - i < 3 || !(data[i + 1] >= 0xA0 && data[i + 1] <= 0xBF) || !(data[i + 2] >= 0x80
                && data[i + 2] <= 0xBF) {
                return false;
            }
            i = i + 3;
        } else if 0xE1 <= b && b <= 0xEC {
            if n - i < 3 || !(data[i + 1] >= 0x80 && data[i + 1] <= 0xBF) || !(data[i + 2] >= 0x80
                && data[i + 2] <= 0xBF) {
                return false;
            }
            i = i + 3;
        } else if b == 0xED {
            if n - i < 3 || !(data[i + 1] >= 0x80 && data[i + 1] <= 0x9F) || !(data[i + 2] >= 0x80
                && data[i + 2] <= 0xBF) {
                return false;
            }
            i = i + 3;
        } else if 0xEE <= b && b <= 0xEF {
            if n - i < 3 || !(data[i + 1] >= 0x80 && data[i + 1] <= 0xBF) || !(data[i + 2] >= 0x80
                && data[i + 2] <= 0xBF) {
                return false;
            }
            i = i + 3;
        } else if b == 0xF0 {
            if n - i < 4 || !(data[i + 1] >= 0x90 && data[i + 1] <= 0xBF) || !(data[i + 2] >= 0x80
                && data[i + 2] <= 0xBF) || !(data[i + 3] >= 0x80 && data[i + 3] <= 0xBF) {
                return false;
            }
            i = i + 4;
        } else if 0xF1 <= b && b <= 0xF3 {
            if n - i < 4 || !(data[i + 1] >= 0x80 && data[i + 1] <= 0xBF) || !(data[i + 2] >= 0x80
                && data[i + 2] <= 0xBF) || !(data[i + 3] >= 0x80 && data[i + 3] <= 0xBF) {
                return false;
            }
            i = i + 4;
        } else if b == 0xF4 {
            if n - i < 4 || !(data[i + 1] >= 0x80 && data[i + 1] <= 0x8F) || !(data[i + 2] >= 0x80
                && data[i + 2] <= 0xBF) || !(data[i + 3] >= 0x80 && data[i + 3] <= 0xBF) {
                return false;
            }
            i = i + 4;
        } else {
            return false;
        }
    }
    true
}

fn contains_http_exec(data: &[u8]) -> (r: bool)
    ensures
        r == contains_http(data@),
{
    let n = data.len();
    if n < 4 {
        return false;
    }
    let mut i: usize = 0;
    while i <= n - 4
        invariant
            n == data@.len(),
            4 <= n,
            i <= data@.len(),
            forall|k: int|
                0 <= k < i ==> !(#[trigger] data@[k] == 72 && data@[k + 1] == 84 && data@[k + 2]
                    == 84 && data@[k + 3] == 80),
        decreases data@.len() - i,
    {
        if data[i] == 72 && data[i + 1] == 84 && data[i + 2] == 84 && data[i + 3] == 80 {
            return true;
        }
        i = i + 1;
    }
    false
}

fn line_end_exec(data: &[u8], i: usize) -> (e: usize)
    requires
        i <= data@.len(),
    ensures
        e == line_end(data@, i as int),
{
    let mut j: usize = i;
    while j < data.len() && data[j] != 10
        invariant
            i <= j <= data@.len(),
            line_end(data@, i as int) == line_end(data@, j as int),
        decreases data@.len() - j,
    {
        j = j + 1;
    }
    j
}

fn header_match_exec(data: &[u8], i: usize) -> (r: bool)
    requires
        i <= data@.len(),
        is_line_start(data@, i as int),
    ensures
        r == header_match_at(data@, i as int),
{
    let n = data.len();
    if n < 16 || i > n - 16 {
        return false;
    }
    let mut j: usize = 0;
    while j < 16
        invariant
            j <= 16,
            n == data@.len(),
            i + 16 <= n,
            is_line_start(data@, i as int),
            forall|k: int|
                0 <= k < j ==> lower_byte_spec(#[trigger] data@[i + k]) == header_prefix_byte(k),
        decreases 16 - j,
    {
        if lower_byte(data[i + j]) != prefix_byte(j) {
            return false;
        }
        j = j + 1;
    }
    true
}

fn find_header(data: &[u8]) -> (r: Option<usize>)
    ensures
        match r {
            Some(m) => find_header_from(data@, 0) == Some(m as int),
            None => find_header_from(data@, 0) is None,
        },
{
    let mut ls: usize = 0;
    loop
        invariant
            ls <= data@.len(),
            is_line_start(data@, ls as int),
            find_header_from(data@, 0) == find_header_from(data@, ls as int),
        decreases data@.len() - ls,
    {
        if header_match_exec(data, ls) {
            return Some(ls);
        }
        let e = line_end_exec(data, ls);
        proof {
            lemma_line_end(data@, ls as int);
            assert forall|k: int| ls <= k < e + 1 implies !header_match_at(data@, k) by {
                if k > ls {
                    assert(data@[k - 1] != 10);
                }
            }
            lemma_find_from_skip(data@, ls as int, if e + 1 <= data@.len() {
                e + 1
            } else {
                e as int
            });
        }
        if e >= data.len() {
            return None;
        }
        ls = e + 1;
    }
}

/// A digit string's value is never negative.
pub proof fn lemma_digits_val_nonneg(d: Seq<u8>)
    requires
        all_digits(d),
    ensures
        digits_val(d) >= 0,
    decreases d.len(),
{
    if d.len() > 0 {
        assert(all_digits(d.drop_last()));
        lemma_digits_val_nonneg(d.drop_last());
        assert(is_digit(d[d.len() - 1]));
    }
}

/// Reading more digits never shrinks the value.
pub proof fn lemma_digits_val_prefix(d: Seq<u8>, n: int)
    requires
        0 <= n <= d.len(),
        all_digits(d),
    ensures
        digits_val(d.subrange(0, n)) <= digits_val(d),
    decreases d.len() - n,
{
    if n < d.len() {
        let p = d.subrange(0, n);
        let q = d.subrange(0, n + 1);
        assert(q.drop_last() =~= p);
        assert(q.last() == d[n]);
        assert(all_digits(p)) by {
            assert(forall|i: int| 0 <= i < p.len() ==> p[i] == d[i]);
        }
        lemma_digits_val_nonneg(p);
        assert(is_digit(d[n]));
        assert(digits_val(q) == digits_val(p) * 10 + (d[n] - 48));
        assert(digits_val(p) * 10 >= digits_val(p));
        lemma_digits_val_prefix(d, n + 1);
    } else {
        assert(d.subrange(0, n) =~= d);
    }
}

/// Reads the byte range `[start, end)` as an unsigned decimal number.
fn parse_digits_exec(data: &[u8], start: usize, end: usize) -> (r: Option<usize>)
    requires
        start <= end <= data@.len(),
    ensures
        r == parse_digits(data@.subrange(start as int, end as int)),
{
    let ghost d = data@.subrange(start as int, end as int);
    let mut from: usize = start;
    if start < end && data[start] == 43 {
        from = start + 1;
    }
    let ghost p = data@.subrange(from as int, end as int);
    proof {
        assert(digits_part(d) =~= p);
    }
    if from == end {
        return None;
    }
    let mut acc: usize = 0;
    let mut k: usize = from;
    while k < end
        invariant
            start <= from <= k <= end <= data@.len(),
            d == data@.subrange(start as int, end as int),
            p == data@.subrange(from as int, end as int),
            digits_part(d) == p,
            forall|t: int| 0 <= t < k - from ==> is_digit(#[trigger] p[t]),
            acc == digits_val(p.subrange(0, k - from)),
        decreases end - k,
    {
        let b = data[k];
        proof {
            assert(p[k - from] == data@[k as int]);
        }
        if b < 48 || b > 57 {
            proof {
                assert(!is_digit(p[k - from]));
                assert(!all_digits(p));
            }
            return None;
        }
        let digit = (b - 48) as usize;
        let next = match acc.checked_mul(10) {
            Some(x) => x.checked_add(digit),
            None => None,
        };
        proof {
            let pre = p.subrange(0, k - from);
            let q = p.subrange(0, k + 1 - from);
            assert(q.drop_last() =~= pre);
            assert(q.last() == p[k - from]);
            assert(digits_val(q) == digits_val(pre) * 10 + (b - 48));
        }
        match next {
            Some(v) => {
                acc = v;
            },
            None => {
                proof {
                    let q = p.subrange(0, k + 1 - from);
                    if all_digits(p) {
                        lemma_digits_val_prefix(p, k + 1 - from);
                        assert(digits_val(p) >= digits_val(q));
                        assert(digits_val(q) > usize::MAX);
                    }
                }
                return None;
            },
        }
        k = k + 1;
    }
    proof {
        assert(p.subrange(0, k - from) =~= p);
        assert(all_digits(p));
        assert(p.len() > 0);
    }
    Some(acc)
}

/// Lines end at the same places in two chunks that agree after lowercasing,
/// since lowercasing fixes the line feed byte.
proof fn lemma_line_end_lower(s1: Seq<u8>, s2: Seq<u8>, i: int)
    requires
        s1.len() == s2.len(),
        forall|t: int| 0 <= t < s1.len() ==> lower_byte_spec(#[trigger] s1[t]) == lower_byte_spec(s2[t]),
    ensures
        line_end(s1, i) == line_end(s2, i),
    decreases s1.len() - i,
{
    if !(i < 0 || i >= s1.len()) {
        assert(lower_byte_spec(s1[i]) == lower_byte_spec(s2[i]));
        if s1[i] != 10 && s2[i] != 10 {
            lemma_line_end_lower(s1, s2, i + 1);
        }
    }
}

/// The header line is found at the same place in two chunks that agree after
/// lowercasing.
proof fn lemma_find_lower(s1: Seq<u8>, s2: Seq<u8>, i: int)
    requires
        s1.len() == s2.len(),
        forall|t: int| 0 <= t < s1.len() ==> lower_byte_spec(#[trigger] s1[t]) == lower_byte_spec(s2[t]),
    ensures
        find_header_from(s1, i) == find_header_from(s2, i),
    decreases s1.len() - i,
{
    if 0 <= i && i < s1.len() {
        assert(header_match_at(s1, i) == header_match_at(s2, i)) by {
            if i > 0 {
                assert(lower_byte_spec(s1[i - 1]) == lower_byte_spec(s2[i - 1]));
            }
            if header_match_at(s1, i) {
                assert forall|j: int| 0 <= j < 16 implies lower_byte_spec(s2[i + j])
                    == header_prefix_byte(j) by {
                    assert(lower_byte_spec(s1[i + j]) == header_prefix_byte(j));
                }
            }
            if header_match_at(s2, i) {
                assert forall|j: int| 0 <= j < 16 implies lower_byte_spec(s1[i + j])
                    == header_prefix_byte(j) by {
                    assert(lower_byte_spec(s2[i + j]) == header_prefix_byte(j));
                }
            }
        }
        if !header_match_at(s1, i) {
            lemma_find_lower(s1, s2, i + 1);
        }
    }
}

/// Two digit strings that agree after lowercasing parse to the same value:
/// lowercasing fixes every digit, and a byte is a digit exactly when its
/// lowercase form is.
proof fn lemma_parse_digits_lower(d1: Seq<u8>, d2: Seq<u8>)
    requires
        d1.len() == d2.len(),
        forall|t: int| 0 <= t < d1.len() ==> lower_byte_spec(#[trigger] d1[t]) == lower_byte_spec(d2[t]),
    ensures
        parse_digits(d1) == parse_digits(d2),
{
    if d1.len() > 0 {
        assert(lower_byte_spec(d1[0]) == lower_byte_spec(d2[0]));
    }
    let p1 = digits_part(d1);
    let p2 = digits_part(d2);
    assert(p1.len() == p2.len());
    assert forall|t: int| 0 <= t < p1.len() implies lower_byte_spec(#[trigger] p1[t])
        == lower_byte_spec(p2[t]) by {
        if d1.len() > 0 && d1[0] == 43 {
            assert(p1[t] == d1[t + 1]);
            assert(p2[t] == d2[t + 1]);
            assert(lower_byte_spec(d1[t + 1]) == lower_byte_spec(d2[t + 1]));
        } else {
            assert(p1[t] == d1[t]);
            assert(p2[t] == d2[t]);
        }
    }
    if all_digits(p1) && all_digits(p2) {
        assert(p1 =~= p2) by {
            assert forall|t: int| 0 <= t < p1.len() implies p1[t] == p2[t] by {
                assert(is_digit(p1[t]) && is_digit(p2[t]));
                assert(lower_byte_spec(p1[t]) == p1[t]);
                assert(lower_byte_spec(p2[t]) == p2[t]);
            }
        }
    } else if all_digits(p1) {
        let t = choose|t: int| 0 <= t < p2.len() && !is_digit(p2[t]);
        assert(is_digit(p1[t]));
        assert(lower_byte_spec(p1[t]) == lower_byte_spec(p2[t]));
    } else {
        let t = choose|t: int| 0 <= t < p1.len() && !is_digit(p1[t]);
        if all_digits(p2) {
            assert(is_digit(p2[t]));
            assert(lower_byte_spec(p1[t]) == lower_byte_spec(p2[t]));
        }
    }
}

/// UTF-8 well-formedness is untouched by ASCII lowercasing: it changes only
/// ASCII letters, which stay ASCII, and fixes every byte above the ASCII
/// range.
proof fn lemma_utf8_lower(s1: Seq<u8>, s2: Seq<u8>, i: int)
    requires
        s1.len() == s2.len(),
        forall|t: int| 0 <= t < s1.len() ==> lower_byte_spec(#[trigger] s1[t]) == lower_byte_spec(s2[t]),
    ensures
        is_utf8_from(s1, i) == is_utf8_from(s2, i),
    decreases s1.len() - i,
{
    if 0 <= i && i < s1.len() {
        assert forall|t: int| 0 <= t < s1.len() implies (#[trigger] s1[t] >= 0x80 ==> s1[t]
            == s2[t]) && (s1[t] < 0x80 <==> s2[t] < 0x80) by {
            assert(lower_byte_spec(s1[t]) == lower_byte_spec(s2[t]));
        }
        if i + 1 <= s1.len() {
            lemma_utf8_lower(s1, s2, i + 1);
        }
        if i + 2 <= s1.len() {
            lemma_utf8_lower(s1, s2, i + 2);
        }
        if i + 3 <= s1.len() {
            lemma_utf8_lower(s1, s2, i + 3);
        }
        if i + 4 <= s1.len() {
            lemma_utf8_lower(s1, s2, i + 4);
        }
    }
}

/// Header detection is case-insensitive: two chunks that agree after ASCII
/// lowercasing yield the same header-line position, and when one is found,
/// the same parsed length value or the same failure.
pub proof fn lemma_header_scan_case_insensitive(s1: Seq<u8>, s2: Seq<u8>)
    requires
        lower_bytes(s1) == lower_bytes(s2),
    ensures
        find_header_from(s1, 0) == find_header_from(s2, 0),
        find_header_from(s1, 0) matches Some(m) ==> parse_digits(digits_of(s1, m)) == parse_digits(
            digits_of(s2, m),
        ),
{
    assert(lower_bytes(s1).len() == s1.len());
    assert(lower_bytes(s2).len() == s2.len());
    assert forall|t: int| 0 <= t < s1.len() implies lower_byte_spec(#[trigger] s1[t])
        == lower_byte_spec(s2[t]) by {
        assert(lower_bytes(s1)[t] == lower_byte_spec(s1[t]));
        assert(lower_bytes(s2)[t] == lower_byte_spec(s2[t]));
    }
    lemma_find_lower(s1, s2, 0);
    if let Some(m) = find_header_from(s1, 0) {
        lemma_find_from_some(s1, 0);
        lemma_match_line_end(s1, m);
        lemma_line_end(s1, m);
        lemma_line_end_lower(s1, s2, m);
        let e = line_end(s1, m);
        if e > m + 16 {
            assert(lower_byte_spec(s1[e - 1]) == lower_byte_spec(s2[e - 1]));
        }
        let d1 = digits_of(s1, m);
        let d2 = digits_of(s2, m);
        assert(d1.len() == d2.len());
        assert forall|t: int| 0 <= t < d1.len() implies lower_byte_spec(#[trigger] d1[t])
            == lower_byte_spec(d2[t]) by {
            assert(d1[t] == s1[m + 16 + t]);
            assert(d2[t] == s2[m + 16 + t]);
        }
        lemma_parse_digits_lower(d1, d2);
    }
}

/// The whole scan step is case-insensitive wherever the weak `HTTP`
/// precondition does not itself decide: for two chunks that agree after
/// ASCII lowercasing and agree on containing `HTTP`, the scan updates the
/// expected length identically, and fails identically.
pub proof fn lemma_scan_case_insensitive(old_len: usize, s1: Seq<u8>, s2: Seq<u8>)
    requires
        lower_bytes(s1) == lower_bytes(s2),
        contains_http(s1) == contains_http(s2),
    ensures
        scan_result(old_len, s1) == scan_result(old_len, s2),
{
    assert(lower_bytes(s1).len() == s1.len());
    assert(lower_bytes(s2).len() == s2.len());
    assert forall|t: int| 0 <= t < s1.len() implies lower_byte_spec(#[trigger] s1[t])
        == lower_byte_spec(s2[t]) by {
        assert(lower_bytes(s1)[t] == lower_byte_spec(s1[t]));
        assert(lower_bytes(s2)[t] == lower_byte_spec(s2[t]));
    }
    lemma_utf8_lower(s1, s2, 0);
    lemma_header_scan_case_insensitive(s1, s2);
}

/// Per-connection failures of the request scan.
#[derive(Clone, Copy, PartialEq, Eq, Structural, Debug)]
pub enum HttpError {
    /// A `content-length` header was present but its value is not a plain
    /// decimal number that fits the machine.
    InvalidContentLength,
}

/// Lifecycle of one connection: reading the request, then writing the
/// response, then closed and gone.
#[derive(Clone, Copy, PartialEq, Eq, Structural, Debug)]
pub enum ConnState {
    Reading,
    Writing,
    Closed,
}

/// What one non-blocking read of the socket produced: some bytes (possibly
/// none, at end of input), or a would-block condition.
pub enum ReadOutcome {
    Data(Vec<u8>),
    WouldBlock,
}

/// What one scan of freshly read bytes does to the recorded expected length
/// `old_len`: the header is looked for only while the length is still unknown
/// (zero) and the chunk can be interpreted as UTF-8 text containing `HTTP`;
/// a malformed value is an error, an absent header leaves the length as it
/// was.
pub open spec fn scan_result(old_len: usize, s: Seq<u8>) -> Result<usize, HttpError> {
    if old_len != 0 || !is_utf8(s) || !contains_http(s) {
        Ok(old_len)
    } else {
        match find_header_from(s, 0) {
            Option::None => Ok(old_len),
            Option::Some(m) => match parse_digits(digits_of(s, m)) {
                Option::Some(v) => Ok(v),
                Option::None => Err(HttpError::InvalidContentLength),
            },
        }
    }
}

/// The fixed response payload, written back verbatim on every completed
/// request.
pub open spec fn http_response_spec() -> Seq<char> {
    "HTTP/1.1 200 OK\ncontent-type: text/html\ncontent-length: 28\n\nHello! I am an epoll server."@
}

/// The bytes answered to every completed request.
pub fn http_response() -> (r: &'static str)
    ensures
        r@ == http_response_spec(),
{
    "HTTP/1.1 200 OK\ncontent-type: text/html\ncontent-length: 28\n\nHello! I am an epoll server."
}

/// Per-connection state: the socket's descriptor number, the bytes received
/// so far, the expected total length (zero while unknown), and the position
/// in the lifecycle.
pub struct RequestContext {
    pub fd: i32,
    pub content_length: usize,
    pub buf: Vec<u8>,
    pub state: ConnState,
}

impl RequestContext {
    /// A fresh context for a just-accepted socket: empty buffer, unknown
    /// expected length, reading.
    pub fn new(fd: i32) -> (c: RequestContext)
        ensures
            c.fd == fd,
            c.content_length == 0,
            c.buf@.len() == 0,
            c.state == ConnState::Reading,
    {
        RequestContext { fd, content_length: 0, buf: Vec::new(), state: ConnState::Reading }
    }

    /// Scans one chunk for the `content-length` header and records its value
    /// if it was still unknown; everything else about the context is left
    /// alone. Exactly the malformed-value case fails.
    pub fn parse_and_set_content_length(&mut self, data: &[u8]) -> (r: Result<(), HttpError>)
        ensures
            final(self).fd == old(self).fd,
            final(self).buf@ == old(self).buf@,
            final(self).state == old(self).state,
            match scan_result(old(self).content_length, data@) {
                Result::Ok(cl) => r is Ok && final(self).content_length == cl,
                Result::Err(e) => r == Err::<(), HttpError>(e) && final(self).content_length
                    == old(self).content_length,
            },
    {
        if self.content_length != 0 {
            return Ok(());
        }
        if !is_utf8_exec(data) {
            return Ok(());
        }
        if !contains_http_exec(data) {
            return Ok(());
        }
        match find_header(data) {
            None => Ok(()),
            Some(m) => {
                proof {
                    lemma_find_from_some(data@, 0);
                    lemma_match_line_end(data@, m as int);
                    lemma_line_end(data@, m as int);
                }
                let e = line_end_exec(data, m);
                let ce = if e > m + 16 && data[e - 1] == 13 {
                    e - 1
                } else {
                    e
                };
                proof {
                    assert(digits_of(data@, m as int) == data@.subrange(m + 16, ce as int));
                }
                match parse_digits_exec(data, m + 16, ce) {
                    Some(v) => {
                        self.content_length = v;
                        Ok(())
                    },
                    None => Err(HttpError::InvalidContentLength),
                }
            },
        }
    }

    /// One read step: scan the freshly read bytes for the expected length,
    /// append them to the accumulation buffer, and decide the next interest —
    /// write once the buffer has reached the expected length, read otherwise.
    /// A would-block read changes nothing and keeps the read interest armed.
    /// A malformed header value fails the step and leaves the context as it
    /// was, for the caller to tear the connection down.
    pub fn read_cb(&mut self, key: u64, outcome: ReadOutcome) -> (r: Result<EpollEvent, HttpError>)
        requires
            old(self).state == ConnState::Reading,
        ensures
            final(self).fd == old(self).fd,
            match outcome {
                ReadOutcome::WouldBlock => r == Ok::<EpollEvent, HttpError>(
                    EpollEvent { events: READ_FLAGS, key },
                ) && *final(self) == *old(self),
                ReadOutcome::Data(d) => match scan_result(old(self).content_length, d@) {
                    Result::Err(e) => r == Err::<EpollEvent, HttpError>(e) && final(self).buf@
                        == old(self).buf@ && final(self).content_length == old(self).content_length
                        && final(self).state == old(self).state,
                    Result::Ok(cl) => {
                        &&& final(self).content_length == cl
                        &&& final(self).buf@ == old(self).buf@ + d@
                        &&& if final(self).buf@.len() >= cl {
                            final(self).state == ConnState::Writing && r == Ok::<
                                EpollEvent,
                                HttpError,
                            >(EpollEvent { events: WRITE_FLAGS, key })
                        } else {
                            final(self).state == ConnState::Reading && r == Ok::<
                                EpollEvent,
                                HttpError,
                            >(EpollEvent { events: READ_FLAGS, key })
                        }
                    },
                },
            },
    {
        match outcome {
            ReadOutcome::WouldBlock => Ok(listener_read_event(key)),
            ReadOutcome::Data(d) => {
                match self.parse_and_set_content_length(d.as_slice()) {
                    Err(e) => Err(e),
                    Ok(_) => {
                        let mut incoming = d;
                        self.buf.append(&mut incoming);
                        if self.buf.len() >= self.content_length {
                            self.state = ConnState::Writing;
                            Ok(listener_write_event(key))
                        } else {
                            Ok(listener_read_event(key))
                        }
                    },
                }
            },
        }
    }

    /// The terminal write step: hands back the fixed response for the caller
    /// to send, and leaves the context closed. Whatever the write's outcome,
    /// the connection is then torn down; this step is never taken twice.
    pub fn write_cb(&mut self) -> (r: &'static str)
        requires
            old(self).state == ConnState::Writing,
        ensures
            final(self).state == ConnState::Closed,
            final(self).fd == old(self).fd,
            final(self).buf@ == old(self).buf@,
            final(self).content_length == old(self).content_length,
            r@ == http_response_spec(),
    {
        self.state = ConnState::Closed;
        http_response()
    }
}

} // verus!
