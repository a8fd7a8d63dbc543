//! Extraction of the quoted literal that encloses a cursor on a line.
use vstd::prelude::*;
use vstd::string::StringSliceAdditionalSpecFns;
use vstd::utf8::*;

verus! {

/// The byte of a `"`.
pub open spec fn quote_byte() -> u8 {
    34u8
}

/// Index of the last `"` among the first `end` bytes of `s`.
pub open spec fn last_quote_before(s: Seq<u8>, end: int) -> Option<int>
    decreases end,
{
    if end <= 0 || end > s.len() {
        None
    } else if s[end - 1] == quote_byte() {
        Some(end - 1)
    } else {
        last_quote_before(s, end - 1)
    }
}

/// Index of the first `"` of `s` at or after byte `start`.
pub open spec fn first_quote_from(s: Seq<u8>, start: int) -> Option<int>
    decreases s.len() - start,
{
    if start < 0 || start >= s.len() {
        None
    } else if s[start] == quote_byte() {
        Some(start)
    } else {
        first_quote_from(s, start + 1)
    }
}

/// The bytes between the nearest `"` before byte `cursor` and the nearest `"`
/// at or after it; none when `cursor` is not a byte of `line` or a quote is missing.
pub open spec fn token_at(line: Seq<u8>, cursor: int) -> Option<Seq<u8>> {
    if cursor < 0 || cursor >= line.len() {
        None
    } else {
        match (last_quote_before(line, cursor), first_quote_from(line, cursor)) {
            (Some(a), Some(b)) => Some(line.subrange(a + 1, b)),
            _ => None,
        }
    }
}

proof fn lemma_last_quote(s: Seq<u8>, a: int, end: int)
    requires
        0 <= a < end <= s.len(),
        s[a] == quote_byte(),
        forall|k: int| a < k < end ==> s[k] != quote_byte(),
    ensures
        last_quote_before(s, end) == Some(a),
    decreases end - a,
{
    if end - 1 > a {
        lemma_last_quote(s, a, end - 1);
    }
}

proof fn lemma_first_quote(s: Seq<u8>, start: int, b: int)
    requires
        0 <= start <= b < s.len(),
        s[b] == quote_byte(),
        forall|k: int| start <= k < b ==> s[k] != quote_byte(),
    ensures
        first_quote_from(s, start) == Some(b),
    decreases b - start,
{
    if start < b {
        lemma_first_quote(s, start + 1, b);
    }
}

/// A cursor strictly between two quotes with no quote between them yields
/// exactly the bytes between those quotes.
pub proof fn lemma_token_between_quotes(line: Seq<u8>, cursor: int, a: int, b: int)
    requires
        0 <= a < cursor < b < line.len(),
        line[a] == quote_byte(),
        line[b] == quote_byte(),
        forall|k: int| a < k < b ==> line[k] != quote_byte(),
    ensures
        token_at(line, cursor) == Some(line.subrange(a + 1, b)),
{
    lemma_last_quote(line, a, cursor);
    lemma_first_quote(line, cursor, b);
}

/// A `"` byte in valid UTF-8 starts a character.
proof fn lemma_quote_is_boundary(bytes: Seq<u8>, i: int)
    requires
        valid_utf8(bytes),
        0 <= i < bytes.len(),
        bytes[i] == quote_byte(),
    ensures
        is_char_boundary(bytes, i),
{
    is_char_boundary_iff_not_is_continuation_byte(bytes, i);
}

/// The contents of the quoted literal around byte offset `cursor` of `line`.
/// A `\"` inside the literal ends it: quotes are not unescaped.
pub fn get_string_around_cursor(line: &str, cursor: usize) -> (r: Option<String>)
    ensures
        match token_at(line.spec_bytes(), cursor as int) {
            Some(t) => r is Some && encode_utf8(r->0@) == t,
            None => r is None,
        },
{
    let bytes = line.as_bytes();
    let n = bytes.len();
    if n <= cursor {
        return None;
    }
    let mut a: usize = cursor;
    while a > 0 && bytes[a - 1] != 34u8
        invariant
            a <= cursor < n == bytes@.len(),
            bytes@ == line.spec_bytes(),
            last_quote_before(bytes@, cursor as int) == last_quote_before(bytes@, a as int),
        decreases a,
    {
        a = a - 1;
    }
    if a == 0 {
        return None;
    }
    let mut b: usize = cursor;
    while b < n && bytes[b] != 34u8
        invariant
            cursor <= b <= n == bytes@.len(),
            first_quote_from(bytes@, cursor as int) == first_quote_from(bytes@, b as int),
        decreases n - b,
    {
        b = b + 1;
    }
    if b == n {
        return None;
    }
    let ghost all = line.spec_bytes();
    proof {
        encode_utf8_valid_utf8(line@);
        lemma_quote_is_boundary(all, a - 1);
        valid_utf8_split(all, a - 1);
    }
    let (_, rest) = line.split_at(a - 1);
    proof {
        let rb = rest.spec_bytes();
        assert(rb[b - (a - 1)] == all[b as int]);
        lemma_quote_is_boundary(rb, b - (a - 1));
        valid_utf8_split(rb, b - (a - 1));
    }
    let (mid, _) = rest.split_at(b - (a - 1));
    proof {
        let mb = mid.spec_bytes();
        assert(mb[0] == quote_byte());
        assert(length_of_first_scalar(mb) == 1);
        reveal_with_fuel(is_char_boundary, 2);
        assert(is_char_boundary(mb, 1));
    }
    let (_, content) = mid.split_at(1);
    assert(content.spec_bytes() =~= all.subrange(a as int, b as int));
    Some(String::from_str(content))
}

} // verus!
