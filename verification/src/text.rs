use vstd::prelude::*;
use vstd::string::*;
use vstd::utf8::*;

use crate::span::Span;
use crate::string_value::{chars_of, string_from_chars};

verus! {

/// Whether a span is a range of whole characters of the text: both ends are character
/// boundaries, in order, within the text.
pub open spec fn span_in_text(text: &str, span: Span) -> bool {
    &&& span.start <= span.end <= text.spec_bytes().len()
    &&& is_char_boundary(text.spec_bytes(), span.start as int)
    &&& is_char_boundary(text.spec_bytes(), span.end as int)
}

/// The characters of the text a span covers.
pub open spec fn span_text(text: &str, span: Span) -> Seq<char> {
    decode_utf8(text.spec_bytes().subrange(span.start as int, span.end as int))
}

proof fn lemma_boundary_in_rest(bytes: Seq<u8>, start: int, end: int)
    requires
        valid_utf8(bytes),
        0 <= start <= end <= bytes.len(),
        is_char_boundary(bytes, start),
        is_char_boundary(bytes, end),
    ensures
        valid_utf8(bytes.subrange(start, bytes.len() as int)),
        is_char_boundary(bytes.subrange(start, bytes.len() as int), end - start),
{
    broadcast use valid_utf8_split, is_char_boundary_start_end_of_seq;

    let rest = bytes.subrange(start, bytes.len() as int);
    valid_utf8_split(bytes, start);
    if end < bytes.len() {
        is_char_boundary_iff_not_is_continuation_byte(bytes, end);
        is_char_boundary_iff_not_is_continuation_byte(rest, end - start);
        assert(rest[end - start] == bytes[end]);
    } else {
        is_char_boundary_start_end_of_seq(rest);
    }
}

/// The text a span covers.
pub fn text_of(text: &str, span: Span) -> (r: String)
    requires
        span_in_text(text, span),
    ensures
        r@ == span_text(text, span),
{
    proof {
        broadcast use encode_utf8_valid_utf8, encode_utf8_decode_utf8;

        lemma_boundary_in_rest(text.spec_bytes(), span.start as int, span.end as int);
    }
    let (_, rest) = text.split_at(span.start as usize);
    proof {
        assert(rest.spec_bytes() =~= text.spec_bytes().subrange(
            span.start as int,
            text.spec_bytes().len() as int,
        ));
    }
    let (middle, _) = rest.split_at((span.end - span.start) as usize);
    proof {
        assert(middle.spec_bytes() =~= text.spec_bytes().subrange(
            span.start as int,
            span.end as int,
        ));
        assert(decode_utf8(encode_utf8(middle@)) == middle@);
    }
    middle.to_owned()
}


/// Characters with `k` dropped at each end.
pub open spec fn strip(s: Seq<char>, k: int) -> Seq<char> {
    s.subrange(k, s.len() - k)
}

/// The text a token covers, without its first and last `k` characters: a string's contents
/// without its quotes.
pub fn token_interior(text: &str, location: Span, k: usize) -> (r: String)
    requires
        span_in_text(text, location),
        span_text(text, location).len() >= 2 * k,
    ensures
        r@ == strip(span_text(text, location), k as int),
{
    let whole = text_of(text, location);
    let chars = chars_of(whole.as_str());
    string_from_chars(&chars, k, chars.len() - k)
}

/// Whether a character is a decimal digit.
pub open spec fn is_digit(c: char) -> bool {
    '0' <= c <= '9'
}

/// The value of a decimal digit.
pub open spec fn digit_value(c: char) -> int {
    (c as int) - ('0' as int)
}

/// The value of a run of decimal digits.
pub open spec fn decimal(ds: Seq<char>) -> int
    decreases ds.len(),
{
    if ds.len() == 0 {
        0
    } else {
        decimal(ds.drop_last()) * 10 + digit_value(ds.last())
    }
}

/// Whether every character is a decimal digit.
pub open spec fn all_digits(ds: Seq<char>) -> bool {
    forall|i: int| 0 <= i < ds.len() ==> is_digit(#[trigger] ds[i])
}

/// A 64-bit signed integer written in decimal: an optional sign, then one or more digits, its
/// value in range; nothing else.
pub open spec fn spec_parse_i64(s: Seq<char>) -> Option<i64> {
    let signed = s.len() > 0 && (s[0] == '-' || s[0] == '+');
    let negative = s.len() > 0 && s[0] == '-';
    let ds = if signed {
        s.drop_first()
    } else {
        s
    };
    if ds.len() == 0 || !all_digits(ds) {
        None
    } else {
        let v = if negative {
            -decimal(ds)
        } else {
            decimal(ds)
        };
        if i64::MIN <= v <= i64::MAX {
            Some(v as i64)
        } else {
            None
        }
    }
}

proof fn lemma_decimal_nonneg(ds: Seq<char>)
    requires
        forall|i: int| 0 <= i < ds.len() ==> is_digit(#[trigger] ds[i]),
    ensures
        decimal(ds) >= 0,
    decreases ds.len(),
{
    if ds.len() > 0 {
        lemma_decimal_nonneg(ds.drop_last());
    }
}

/// One more than the largest magnitude a 64-bit signed integer can have.
const PAST_MAGNITUDE: i128 = 9223372036854775809;

/// Parses a 64-bit signed integer written in decimal.
pub fn parse_i64(s: &str) -> (r: Option<i64>)
    ensures
        r == spec_parse_i64(s@),
{
    let chars = chars_of(s);
    let n = chars.len();
    if n == 0 {
        return None;
    }
    let negative = chars[0] == '-';
    let signed = chars[0] == '-' || chars[0] == '+';
    let start: usize = if signed {
        1
    } else {
        0
    };
    let ghost ds = chars@.subrange(start as int, n as int);
    proof {
        if signed {
            assert(ds =~= chars@.drop_first());
        } else {
            assert(ds =~= chars@);
        }
        assert(signed == (s@.len() > 0 && (s@[0] == '-' || s@[0] == '+')));
        assert(negative == (s@.len() > 0 && s@[0] == '-'));
        assert(ds == (if s@.len() > 0 && (s@[0] == '-' || s@[0] == '+') {
            s@.drop_first()
        } else {
            s@
        }));
    }
    if start >= n {
        return None;
    }
    let mut acc: i128 = 0;
    let mut i: usize = start;
    while i < n
        invariant
            start <= i <= n,
            n == chars@.len(),
            ds == chars@.subrange(start as int, n as int),
            chars@ == s@,
            ds == (if s@.len() > 0 && (s@[0] == '-' || s@[0] == '+') {
                s@.drop_first()
            } else {
                s@
            }),
            forall|k: int| start <= k < i ==> is_digit(#[trigger] chars@[k]),
            0 <= acc <= PAST_MAGNITUDE,
            acc == (if decimal(chars@.subrange(start as int, i as int)) < PAST_MAGNITUDE {
                decimal(chars@.subrange(start as int, i as int))
            } else {
                PAST_MAGNITUDE as int
            }),
        decreases n - i,
    {
        let c = chars[i];
        if !('0' <= c && c <= '9') {
            proof {
                assert(ds[i - start] == chars@[i as int]);
                assert(!is_digit(ds[i - start]));
                assert(ds.len() > 0);
                assert(!all_digits(ds));
                assert(spec_parse_i64(s@) is None);
            }
            return None;
        }
        let d = ((c as u32) - ('0' as u32)) as i128;
        let ghost prefix = chars@.subrange(start as int, i as int);
        let ghost next = chars@.subrange(start as int, i + 1);
        proof {
            assert(next.drop_last() =~= prefix);
            assert(next.last() == c);
            assert forall|k: int| 0 <= k < prefix.len() implies is_digit(#[trigger] prefix[k]) by {
                assert(prefix[k] == chars@[start + k]);
            }
            lemma_decimal_nonneg(prefix);
            assert(decimal(next) == decimal(prefix) * 10 + digit_value(c));
        }
        let stepped = acc * 10 + d;
        acc = if stepped > PAST_MAGNITUDE {
            PAST_MAGNITUDE
        } else {
            stepped
        };
        i += 1;
    }
    proof {
        assert(chars@.subrange(start as int, n as int) == ds);
        assert forall|k: int| 0 <= k < ds.len() implies is_digit(#[trigger] ds[k]) by {
            assert(ds[k] == chars@[start + k]);
        }
        lemma_decimal_nonneg(ds);
    }
    if negative {
        if acc > 9223372036854775808 {
            None
        } else {
            Some((-acc) as i64)
        }
    } else {
        if acc > 9223372036854775807 {
            None
        } else {
            Some(acc as i64)
        }
    }
}

/// Whether two texts are the same characters.
pub fn text_is(s: &str, expected: &str) -> (b: bool)
    ensures
        b == (s@ == expected@),
{
    let a = chars_of(s);
    let e = chars_of(expected);
    if a.len() != e.len() {
        return false;
    }
    let mut i: usize = 0;
    while i < a.len()
        invariant
            a.len() == e.len(),
            a@ == s@,
            e@ == expected@,
            i <= a.len(),
            forall|k: int| 0 <= k < i ==> a@[k] == e@[k],
        decreases a.len() - i,
    {
        if a[i] != e[i] {
            return false;
        }
        i += 1;
    }
    proof {
        assert(a@ =~= e@);
    }
    true
}

} // verus!
