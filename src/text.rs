use vstd::prelude::*;

verus! {

/// A three-byte UTF-8 encoding of a whitespace character: U+1680, U+2000 to U+200A,
/// U+2028, U+2029, U+202F, U+205F and U+3000.
pub open spec fn is_wide_space(a: u8, b: u8, c: u8) -> bool {
    ||| a == 0xe1 && b == 0x9a && c == 0x80
    ||| a == 0xe2 && b == 0x80 && (0x80 <= c <= 0x8a || c == 0xa8 || c == 0xa9 || c == 0xaf)
    ||| a == 0xe2 && b == 0x81 && c == 0x9f
    ||| a == 0xe3 && b == 0x80 && c == 0x80
}

/// The length of the UTF-8 encoded whitespace character that starts at `i`, or 0
/// where none does. Whitespace is what Unicode calls White_Space: the ASCII
/// characters tab, line feed, vertical tab, form feed, carriage return and space,
/// U+0085 and U+00A0 (two bytes each), and those of `is_wide_space` (three bytes).
pub open spec fn space_len(t: Seq<u8>, i: int) -> int {
    if i < 0 || i >= t.len() {
        0
    } else if t[i] == 0x20 || (0x09 <= t[i] <= 0x0d) {
        1
    } else if i + 1 < t.len() && t[i] == 0xc2 && (t[i + 1] == 0x85 || t[i + 1] == 0xa0) {
        2
    } else if i + 2 < t.len() && is_wide_space(t[i], t[i + 1], t[i + 2]) {
        3
    } else {
        0
    }
}

pub open spec fn is_digit(b: u8) -> bool {
    0x30 <= b <= 0x39
}

/// The value of a string of decimal digits.
pub open spec fn digits_value(ds: Seq<u8>) -> int
    decreases ds.len(),
{
    if ds.len() == 0 {
        0
    } else {
        digits_value(ds.drop_last()) * 10 + (ds.last() - 0x30)
    }
}

/// The digits of a token, after its optional sign.
pub open spec fn token_digits(tok: Seq<u8>) -> Seq<u8> {
    if tok.len() > 0 && (tok[0] == 0x2d || tok[0] == 0x2b) {
        tok.subrange(1, tok.len() as int)
    } else {
        tok
    }
}

/// The 16-bit integer that a token spells: an optional `-` or `+`, then one or more
/// decimal digits, with a value in range.
pub open spec fn token_value(tok: Seq<u8>) -> Option<i16> {
    let ds = token_digits(tok);
    let magnitude = digits_value(ds);
    let v = if tok.len() > 0 && tok[0] == 0x2d {
        -magnitude
    } else {
        magnitude
    };
    if ds.len() == 0 || !(forall|k: int| 0 <= k < ds.len() ==> is_digit(#[trigger] ds[k])) {
        None
    } else if -32768 <= v <= 32767 {
        Some(v as i16)
    } else {
        None
    }
}

/// The end of the token that starts at `i`.
pub open spec fn token_end(t: Seq<u8>, i: int) -> int
    decreases t.len() - i,
{
    if i >= t.len() || space_len(t, i) > 0 {
        i
    } else {
        token_end(t, i + 1)
    }
}

/// The values of the whitespace-separated tokens from `i` on, or `None` where one
/// of them is not a 16-bit integer.
pub open spec fn parse_from(t: Seq<u8>, i: int) -> Option<Seq<i16>>
    decreases t.len() - i,
    when 0 <= i
{
    if i >= t.len() {
        Some(seq![])
    } else if space_len(t, i) > 0 {
        parse_from(t, i + space_len(t, i))
    } else {
        let j = token_end(t, i);
        proof {
            lemma_token_end_bounds(t, i);
        }
        match token_value(t.subrange(i, j)) {
            None => None,
            Some(v) => match parse_from(t, j) {
                None => None,
                Some(rest) => Some(seq![v] + rest),
            },
        }
    }
}

/// A token ends at the first whitespace after its start, or at the end of the text.
pub proof fn lemma_token_end_bounds(t: Seq<u8>, i: int)
    requires
        0 <= i <= t.len(),
    ensures
        i <= token_end(t, i) <= t.len(),
        i < t.len() && space_len(t, i) == 0 ==> i < token_end(t, i),
        forall|k: int| i <= k < token_end(t, i) ==> #[trigger] space_len(t, k) == 0,
        token_end(t, i) < t.len() ==> space_len(t, token_end(t, i)) > 0,
    decreases t.len() - i,
{
    if i < t.len() && space_len(t, i) == 0 {
        lemma_token_end_bounds(t, i + 1);
    }
}

/// A string of digits has a nonnegative value.
proof fn lemma_digits_nonneg(ds: Seq<u8>)
    requires
        forall|j: int| 0 <= j < ds.len() ==> is_digit(#[trigger] ds[j]),
    ensures
        0 <= digits_value(ds),
    decreases ds.len(),
{
    if ds.len() > 0 {
        lemma_digits_nonneg(ds.drop_last());
    }
}

/// A longer prefix of a string of digits has at least the value of a shorter one.
proof fn lemma_digits_grow(ds: Seq<u8>, k: int, m: int)
    requires
        0 <= k <= m <= ds.len(),
        forall|j: int| 0 <= j < ds.len() ==> is_digit(#[trigger] ds[j]),
    ensures
        0 <= digits_value(ds.subrange(0, k)) <= digits_value(ds.subrange(0, m)),
    decreases m - k,
{
    if k < m {
        lemma_digits_grow(ds, k, m - 1);
        assert(ds.subrange(0, m).drop_last() =~= ds.subrange(0, m - 1));
    } else {
        lemma_digits_nonneg(ds.subrange(0, k));
    }
}

/// The value of the token `text[start..end]`.
fn parse_token(text: &[u8], start: usize, end: usize) -> (r: Option<i16>)
    requires
        start < end <= text@.len(),
    ensures
        r == token_value(text@.subrange(start as int, end as int)),
{
    let ghost tok = text@.subrange(start as int, end as int);
    let neg = text[start] == 0x2d;
    let signed = neg || text[start] == 0x2b;
    let first: usize = if signed { start + 1 } else { start };
    let ghost ds = text@.subrange(first as int, end as int);
    assert(tok[0] == text@[start as int]);
    assert(ds =~= token_digits(tok));
    if first == end {
        return None;
    }
    let mut acc: u32 = 0;
    let mut k: usize = first;
    while k < end
        invariant
            first <= k <= end,
            end <= text@.len(),
            ds == text@.subrange(first as int, end as int),
            ds == token_digits(tok),
            tok == text@.subrange(start as int, end as int),
            tok.len() > 0,
            neg == (tok[0] == 0x2d),
            forall|j: int| 0 <= j < k - first ==> is_digit(#[trigger] ds[j]),
            acc as int == digits_value(ds.subrange(0, k - first)),
            acc <= 32768,
        decreases end - k,
    {
        let b = text[k];
        if b < 0x30 || b > 0x39 {
            assert(ds[k - first] == b);
            assert(!is_digit(ds[k - first]));
            assert(!(forall|j: int| 0 <= j < ds.len() ==> is_digit(#[trigger] ds[j])));
            assert(token_value(tok) is None);
            return None;
        }
        let ghost prefix = ds.subrange(0, k + 1 - first);
        assert(prefix.drop_last() =~= ds.subrange(0, k - first));
        assert(prefix.last() == b);
        acc = acc * 10 + (b - 0x30) as u32;
        k += 1;
        assert(acc as int == digits_value(ds.subrange(0, k - first)));
        if acc > 32768 {
            proof {
                if forall|j: int| 0 <= j < ds.len() ==> is_digit(#[trigger] ds[j]) {
                    lemma_digits_grow(ds, k - first, ds.len() as int);
                    assert(ds.subrange(0, ds.len() as int) =~= ds);
                    assert(digits_value(ds) > 32768);
                }
                assert(token_value(tok) is None);
            }
            return None;
        }
    }
    assert(ds.subrange(0, end - first) =~= ds);
    if neg {
        let v: i32 = -(acc as i32);
        Some(v as i16)
    } else if acc > 32767 {
        None
    } else {
        Some(acc as i16)
    }
}

/// The length of the whitespace character that starts at `i`, or 0.
fn space_len_at(text: &[u8], i: usize) -> (r: usize)
    ensures
        r as int == space_len(text@, i as int),
{
    let len = text.len();
    if i >= len {
        return 0;
    }
    let a = text[i];
    if a == 0x20 || (a >= 0x09 && a <= 0x0d) {
        return 1;
    }
    if len - i >= 2 && a == 0xc2 && (text[i + 1] == 0x85 || text[i + 1] == 0xa0) {
        return 2;
    }
    if len - i >= 3 {
        let b = text[i + 1];
        let c = text[i + 2];
        let wide = (a == 0xe1 && b == 0x9a && c == 0x80) || (a == 0xe2 && b == 0x80 && ((c >= 0x80 && c
            <= 0x8a) || c == 0xa8 || c == 0xa9 || c == 0xaf)) || (a == 0xe2 && b == 0x81 && c == 0x9f) || (a
            == 0xe3 && b == 0x80 && c == 0x80);
        if wide {
            return 3;
        }
    }
    0
}

/// Parses decimal integers, each in the range of `i16`, separated by whitespace
/// (the Unicode White_Space characters, UTF-8 encoded).
pub fn parse_coefficients(text: &[u8]) -> (r: Option<Vec<i16>>)
    ensures
        match parse_from(text@, 0) {
            Some(values) => r is Some && r->Some_0@ == values,
            None => r is None,
        },
{
    let mut out: Vec<i16> = Vec::new();
    let mut i: usize = 0;
    let len = text.len();
    while i < len
        invariant
            i <= len,
            len == text@.len(),
            parse_from(text@, 0) == match parse_from(text@, i as int) {
                Some(rest) => Some(out@ + rest),
                None => None::<Seq<i16>>,
            },
        decreases len - i,
    {
        let skip = space_len_at(text, i);
        if skip > 0 {
            i += skip;
        } else {
            let mut j: usize = i + 1;
            while j < len && space_len_at(text, j) == 0
                invariant
                    i < j <= len,
                    len == text@.len(),
                    space_len(text@, i as int) == 0,
                    token_end(text@, i as int) == token_end(text@, j as int),
                decreases len - j,
            {
                j += 1;
            }
            proof {
                lemma_token_end_bounds(text@, i as int);
            }
            assert(token_end(text@, i as int) == j);
            match parse_token(text, i, j) {
                None => return None,
                Some(v) => {
                    let ghost before = out@;
                    out.push(v);
                    proof {
                        if parse_from(text@, j as int) is Some {
                            let rest = parse_from(text@, j as int)->Some_0;
                            assert(before + (seq![v] + rest) =~= out@ + rest);
                        }
                    }
                },
            }
            i = j;
        }
    }
    assert(out@ + seq![] =~= out@);
    Some(out)
}

} // verus!
