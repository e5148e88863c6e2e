//! The text form of a share.
//!
//! A share is written as its id, its threshold and its shares count in
//! decimal, then its data in base64, then, where it is signed, its signature
//! in base64; a `-` stands between any two of these.  Base64 is that of the
//! `base64` crate, with the standard alphabet and padding.

use vstd::prelude::*;
use vstd::string::*;
use vstd::utf8::is_ascii_chars;
use crate::share::{valid_share, Share, ShareView};

verus! {

/// The longest text that is read as a share.
pub const MAX_TEXT_LEN: usize = 0x3fff_ffff;

/// The longest data, and the longest signature, that is written.
pub const MAX_DATA_LEN: usize = 0x2fff_0000;

/// The base64 text of a byte string, as `base64::encode` gives it.
pub uninterp spec fn base64_text(data: Seq<u8>) -> Seq<char>;

/// The bytes that a text stands for in base64, as `base64::decode` gives
/// them; `None` where it rejects the text.
pub uninterp spec fn base64_data(text: Seq<char>) -> Option<Seq<u8>>;

/// A character of the standard base64 alphabet, or the padding character.
pub open spec fn is_base64_char(c: char) -> bool {
    ('A' <= c <= 'Z') || ('a' <= c <= 'z') || ('0' <= c <= '9') || c == '+' || c == '/' || c
        == '='
}

/// Calls `base64::encode`. Trusted: the result is a function of `data`
/// alone; `base64::decode` gives `data` back from it; it is made of
/// characters of the standard alphabet and padding; and it has four
/// characters for every three bytes begun.
#[verifier::external_body]
pub(crate) fn base64_encode(data: &Vec<u8>) -> (r: String)
    requires
        data@.len() <= MAX_DATA_LEN,
    ensures
        r@ == base64_text(data@),
        base64_data(r@) == Some(data@),
        forall|i: int| 0 <= i < r@.len() ==> is_base64_char(#[trigger] r@[i]),
        r@.len() == 4 * ((data@.len() + 2) / 3),
{
    base64::encode(data)
}

/// Calls `base64::decode`. Trusted: the result is a function of `text`
/// alone.
#[verifier::external_body]
pub(crate) fn base64_decode(text: &str) -> (r: Option<Vec<u8>>)
    requires
        is_ascii(text),
        text@.len() <= MAX_TEXT_LEN,
    ensures
        match r {
            Some(data) => Some(data@),
            None => None,
        } == base64_data(text@),
{
    match base64::decode(text) {
        Ok(data) => Some(data),
        Err(_) => None,
    }
}

/// The character of a decimal digit.
pub open spec fn digit_char(d: u8) -> char {
    (48 + d) as char
}

/// A decimal digit.
pub open spec fn is_digit(c: char) -> bool {
    '0' <= c <= '9'
}

/// The value of a decimal digit.
pub open spec fn digit_value(c: char) -> int {
    c as int - 48
}

/// A number in decimal, without leading zeros.
pub open spec fn decimal(v: u8) -> Seq<char> {
    if v < 10 {
        seq![digit_char(v)]
    } else if v < 100 {
        seq![digit_char(v / 10), digit_char(v % 10)]
    } else {
        seq![digit_char(v / 100), digit_char(v / 10 % 10), digit_char(v % 10)]
    }
}

/// The number that a text is the decimal of; `None` where it is empty, has
/// another character than a digit, has a leading zero, or is above 255.
pub open spec fn parse_decimal(s: Seq<char>) -> Option<u8> {
    if s.len() == 1 && is_digit(s[0]) {
        Some(digit_value(s[0]) as u8)
    } else if s.len() == 2 && is_digit(s[0]) && is_digit(s[1]) && s[0] != '0' {
        Some((10 * digit_value(s[0]) + digit_value(s[1])) as u8)
    } else if s.len() == 3 && is_digit(s[0]) && is_digit(s[1]) && is_digit(s[2]) && s[0] != '0'
        && 100 * digit_value(s[0]) + 10 * digit_value(s[1]) + digit_value(s[2]) <= 255 {
        Some((100 * digit_value(s[0]) + 10 * digit_value(s[1]) + digit_value(s[2])) as u8)
    } else {
        None
    }
}

/// The place of the first `-` from `k` on; the length where there is none.
pub open spec fn next_dash(s: Seq<char>, k: int) -> int
    decreases s.len() - k,
{
    if k >= s.len() {
        s.len() as int
    } else if s[k] == '-' {
        k
    } else {
        next_dash(s, k + 1)
    }
}

/// The three numbers of a share, each followed by a `-`.
pub open spec fn share_header(s: ShareView) -> Seq<char> {
    decimal(s.id) + seq!['-'] + decimal(s.threshold) + seq!['-'] + decimal(s.shares_count)
        + seq!['-']
}

/// The text of a share.
pub open spec fn share_text(s: ShareView) -> Seq<char> {
    match s.signature {
        None => share_header(s) + base64_text(s.data),
        Some(signature) => share_header(s) + base64_text(s.data) + seq!['-'] + base64_text(
            signature,
        ),
    }
}

/// The share that a text stands for; `None` where the text is malformed:
/// not ASCII, too long, not made of four or five fields, a number that is
/// no decimal, a field that is no base64, or numbers that no share of a
/// split can have.
pub open spec fn parse_share(s: Seq<char>) -> Option<ShareView> {
    let d1 = next_dash(s, 0);
    let d2 = next_dash(s, d1 + 1);
    let d3 = next_dash(s, d2 + 1);
    let d4 = next_dash(s, d3 + 1);
    let d5 = next_dash(s, d4 + 1);
    if !is_ascii_chars(s) || s.len() > MAX_TEXT_LEN || d3 >= s.len() || d5 < s.len() {
        None
    } else {
        let id = parse_decimal(s.subrange(0, d1));
        let threshold = parse_decimal(s.subrange(d1 + 1, d2));
        let shares_count = parse_decimal(s.subrange(d2 + 1, d3));
        let data = base64_data(s.subrange(d3 + 1, d4));
        let signature = if d4 < s.len() {
            base64_data(s.subrange(d4 + 1, s.len() as int))
        } else {
            None
        };
        if id is None || threshold is None || shares_count is None || data is None || (d4
            < s.len() && signature is None) {
            None
        } else {
            let share = ShareView {
                id: id.unwrap(),
                threshold: threshold.unwrap(),
                shares_count: shares_count.unwrap(),
                data: data.unwrap(),
                signature,
            };
            if valid_share(share) {
                Some(share)
            } else {
                None
            }
        }
    }
}

/// The mathematical value of a share that may be absent.
pub open spec fn share_option_view(r: Option<Share>) -> Option<ShareView> {
    match r {
        Some(share) => Some(share@),
        None => None,
    }
}

/// The bytes are the characters, one for one.
pub open spec fn bytes_of(bytes: Seq<u8>, chars: Seq<char>) -> bool {
    &&& is_ascii_chars(chars)
    &&& bytes.len() == chars.len()
    &&& forall|i: int| 0 <= i < chars.len() ==> #[trigger] bytes[i] == chars[i] as u8
}

pub proof fn lemma_next_dash(s: Seq<char>, k: int, j: int)
    requires
        0 <= k <= j <= s.len(),
        forall|i: int| k <= i < j ==> #[trigger] s[i] != '-',
        j < s.len() ==> s[j] == '-',
    ensures
        next_dash(s, k) == j,
    decreases j - k,
{
    if k < j {
        lemma_next_dash(s, k + 1, j);
    }
}

pub proof fn lemma_next_dash_bounds(s: Seq<char>, k: int)
    requires
        0 <= k,
    ensures
        k <= next_dash(s, k) || next_dash(s, k) == s.len(),
        next_dash(s, k) <= s.len(),
        next_dash(s, k) < s.len() ==> s[next_dash(s, k)] == '-',
        forall|i: int| k <= i < next_dash(s, k) ==> #[trigger] s[i] != '-',
    decreases s.len() - k,
{
    if k < s.len() && s[k] != '-' {
        lemma_next_dash_bounds(s, k + 1);
    }
}

/// A decimal is made of digits and reads back as its number.
pub proof fn lemma_decimal(v: u8)
    ensures
        parse_decimal(decimal(v)) == Some(v),
        1 <= decimal(v).len() <= 3,
        forall|i: int| 0 <= i < decimal(v).len() ==> is_digit(#[trigger] decimal(v)[i]),
{
    let s = decimal(v);
    if v < 10 {
        assert(digit_value(s[0]) == v);
    } else if v < 100 {
        assert(digit_value(s[0]) == v / 10);
        assert(digit_value(s[1]) == v % 10);
    } else {
        assert(digit_value(s[0]) == v / 100);
        assert(digit_value(s[1]) == v / 10 % 10);
        assert(digit_value(s[2]) == v % 10);
    }
}

fn digit_text(d: u8) -> (r: &'static str)
    requires
        d < 10,
    ensures
        r@ == seq![digit_char(d)],
{
    proof {
        reveal_strlit("0");
        reveal_strlit("1");
        reveal_strlit("2");
        reveal_strlit("3");
        reveal_strlit("4");
        reveal_strlit("5");
        reveal_strlit("6");
        reveal_strlit("7");
        reveal_strlit("8");
        reveal_strlit("9");
    }
    let r = if d == 0 {
        "0"
    } else if d == 1 {
        "1"
    } else if d == 2 {
        "2"
    } else if d == 3 {
        "3"
    } else if d == 4 {
        "4"
    } else if d == 5 {
        "5"
    } else if d == 6 {
        "6"
    } else if d == 7 {
        "7"
    } else if d == 8 {
        "8"
    } else {
        "9"
    };
    assert(r@ =~= seq![digit_char(d)]);
    r
}

/// Appends a number in decimal, and a `-` behind it.
fn append_field(text: &mut String, v: u8)
    ensures
        final(text)@ == old(text)@ + decimal(v) + seq!['-'],
{
    let ghost before = text@;
    if v >= 100 {
        text.append(digit_text(v / 100));
    }
    if v >= 10 {
        text.append(digit_text(v / 10 % 10));
    }
    text.append(digit_text(v % 10));
    assert(text@ =~= before + decimal(v));
    proof {
        reveal_strlit("-");
    }
    text.append("-");
    assert(text@ =~= before + decimal(v) + seq!['-']);
}

/// What holds of a text made of the header and the fields of a share.
proof fn lemma_share_text(s: ShareView, data: Seq<char>, signature: Option<Seq<char>>)
    requires
        forall|i: int| 0 <= i < data.len() ==> is_base64_char(#[trigger] data[i]),
        signature matches Some(t) ==> forall|i: int|
            0 <= i < t.len() ==> is_base64_char(#[trigger] t[i]),
    ensures
        ({
            let text = match signature {
                None => share_header(s) + data,
                Some(t) => share_header(s) + data + seq!['-'] + t,
            };
            let d1 = next_dash(text, 0);
            let d2 = next_dash(text, d1 + 1);
            let d3 = next_dash(text, d2 + 1);
            let d4 = next_dash(text, d3 + 1);
            let d5 = next_dash(text, d4 + 1);
            &&& is_ascii_chars(text)
            &&& d3 < text.len()
            &&& d5 == text.len()
            &&& text.subrange(0, d1) == decimal(s.id)
            &&& text.subrange(d1 + 1, d2) == decimal(s.threshold)
            &&& text.subrange(d2 + 1, d3) == decimal(s.shares_count)
            &&& text.subrange(d3 + 1, d4) == data
            &&& (signature is None ==> d4 == text.len())
            &&& (signature matches Some(t) ==> d4 < text.len() && text.subrange(
                d4 + 1,
                text.len() as int,
            ) == t)
        }),
{
    let text = match signature {
        None => share_header(s) + data,
        Some(t) => share_header(s) + data + seq!['-'] + t,
    };
    let a = decimal(s.id);
    let b = decimal(s.threshold);
    let c = decimal(s.shares_count);
    lemma_decimal(s.id);
    lemma_decimal(s.threshold);
    lemma_decimal(s.shares_count);
    let p1 = a.len() as int;
    let p2 = p1 + 1 + b.len();
    let p3 = p2 + 1 + c.len();
    let p4 = p3 + 1 + data.len();
    assert forall|i: int| 0 <= i < p1 implies #[trigger] text[i] != '-' by {
        assert(text[i] == a[i]);
    }
    assert(text[p1] == '-');
    lemma_next_dash(text, 0, p1);
    assert forall|i: int| p1 + 1 <= i < p2 implies #[trigger] text[i] != '-' by {
        assert(text[i] == b[i - p1 - 1]);
    }
    assert(text[p2] == '-');
    lemma_next_dash(text, p1 + 1, p2);
    assert forall|i: int| p2 + 1 <= i < p3 implies #[trigger] text[i] != '-' by {
        assert(text[i] == c[i - p2 - 1]);
    }
    assert(text[p3] == '-');
    lemma_next_dash(text, p2 + 1, p3);
    assert forall|i: int| p3 + 1 <= i < p4 implies #[trigger] text[i] != '-' by {
        assert(text[i] == data[i - p3 - 1]);
    }
    assert(text.subrange(0, p1) =~= a);
    assert(text.subrange(p1 + 1, p2) =~= b);
    assert(text.subrange(p2 + 1, p3) =~= c);
    assert(text.subrange(p3 + 1, p4) =~= data);
    match signature {
        None => {
            assert(p4 == text.len());
            lemma_next_dash(text, p3 + 1, p4);
            assert(next_dash(text, p4 + 1) == text.len());
            assert forall|i: int| 0 <= i < text.len() implies '\0' <= #[trigger] text[i]
                <= '\u{7f}' by {
                if i < p1 {
                    assert(text[i] == a[i]);
                } else if p1 < i < p2 {
                    assert(text[i] == b[i - p1 - 1]);
                } else if p2 < i < p3 {
                    assert(text[i] == c[i - p2 - 1]);
                } else if p3 < i {
                    assert(text[i] == data[i - p3 - 1]);
                }
            }
        },
        Some(t) => {
            assert(text[p4] == '-');
            lemma_next_dash(text, p3 + 1, p4);
            assert forall|i: int| p4 + 1 <= i < text.len() implies #[trigger] text[i] != '-' by {
                assert(text[i] == t[i - p4 - 1]);
            }
            lemma_next_dash(text, p4 + 1, text.len() as int);
            assert(text.subrange(p4 + 1, text.len() as int) =~= t);
            assert forall|i: int| 0 <= i < text.len() implies '\0' <= #[trigger] text[i]
                <= '\u{7f}' by {
                if i < p1 {
                    assert(text[i] == a[i]);
                } else if p1 < i < p2 {
                    assert(text[i] == b[i - p1 - 1]);
                } else if p2 < i < p3 {
                    assert(text[i] == c[i - p2 - 1]);
                } else if p3 < i < p4 {
                    assert(text[i] == data[i - p3 - 1]);
                } else if p4 < i {
                    assert(text[i] == t[i - p4 - 1]);
                }
            }
        },
    }
}

/// Writes a share as text. The text of a valid share reads back as the
/// share.
pub fn encode_share(share: &Share) -> (text: String)
    requires
        share.data.len() <= MAX_DATA_LEN,
        share.signature matches Some(signature) ==> signature.len() <= MAX_DATA_LEN,
    ensures
        text@ == share_text(share@),
        valid_share(share@) && text@.len() <= MAX_TEXT_LEN ==> parse_share(text@) == Some(
            share@,
        ),
        text@.len() <= 12 + 4 * ((share.data@.len() + 2) / 3) + match share.signature {
            Some(signature) => 1 + 4 * ((signature@.len() + 2) / 3),
            None => 0,
        },
{
    let mut text = String::new();
    append_field(&mut text, share.id);
    append_field(&mut text, share.threshold);
    append_field(&mut text, share.shares_count);
    assert(text@ =~= share_header(share@));
    let data = base64_encode(&share.data);
    text.append(data.as_str());
    match &share.signature {
        None => {
            proof {
                lemma_share_text(share@, data@, None);
                lemma_decimal(share.id);
                lemma_decimal(share.threshold);
                lemma_decimal(share.shares_count);
            }
        },
        Some(signature) => {
            proof {
                reveal_strlit("-");
            }
            text.append("-");
            let tail = base64_encode(signature);
            text.append(tail.as_str());
            proof {
                lemma_share_text(share@, data@, Some(tail@));
                lemma_decimal(share.id);
                lemma_decimal(share.threshold);
                lemma_decimal(share.shares_count);
            }
        },
    }
    text
}

/// The base64 text of the data of a share.
pub fn data_text(share: &Share) -> (text: String)
    requires
        share.data.len() <= MAX_DATA_LEN,
    ensures
        text@ == base64_text(share.data@),
{
    base64_encode(&share.data)
}

fn find_dash(bytes: &Vec<u8>, k: usize, Ghost(chars): Ghost<Seq<char>>) -> (r: usize)
    requires
        bytes_of(bytes@, chars),
    ensures
        r == next_dash(chars, k as int),
        r <= bytes.len(),
{
    let n = bytes.len();
    if k >= n {
        return n;
    }
    let mut i: usize = k;
    while i < n
        invariant
            k <= i <= n,
            n == bytes.len(),
            bytes_of(bytes@, chars),
            forall|j: int| k <= j < i ==> #[trigger] chars[j] != '-',
        decreases n - i,
    {
        if bytes[i] == 45 {
            proof {
                assert(bytes[i as int] == chars[i as int] as u8);
                assert(chars[i as int] == '-');
                lemma_next_dash(chars, k as int, i as int);
            }
            return i;
        }
        assert(bytes[i as int] == chars[i as int] as u8);
        i = i + 1;
    }
    proof {
        lemma_next_dash(chars, k as int, n as int);
    }
    n
}

fn read_decimal(bytes: &Vec<u8>, from: usize, to: usize, Ghost(chars): Ghost<Seq<char>>) -> (r:
    Option<u8>)
    requires
        bytes_of(bytes@, chars),
        from <= to <= bytes.len(),
    ensures
        r == parse_decimal(chars.subrange(from as int, to as int)),
{
    let ghost s = chars.subrange(from as int, to as int);
    let len = to - from;
    if len == 0 || len > 3 {
        return None;
    }
    proof {
        assert forall|i: int| 0 <= i < len implies bytes[from + i] == #[trigger] s[i] as u8 && '\0'
            <= s[i] <= '\u{7f}' by {
            assert(bytes[from + i] == chars[from + i] as u8);
        }
    }
    let b0 = bytes[from];
    assert(b0 == s[0] as u8);
    if b0 < 48 || b0 > 57 {
        return None;
    }
    if len == 1 {
        return Some(b0 - 48);
    }
    let b1 = bytes[from + 1];
    assert(b1 == s[1] as u8);
    if b1 < 48 || b1 > 57 || b0 == 48 {
        return None;
    }
    if len == 2 {
        return Some(10 * (b0 - 48) + (b1 - 48));
    }
    let b2 = bytes[from + 2];
    assert(b2 == s[2] as u8);
    if b2 < 48 || b2 > 57 {
        return None;
    }
    let v: u16 = 100 * (b0 - 48) as u16 + 10 * (b1 - 48) as u16 + (b2 - 48) as u16;
    if v > 255 {
        return None;
    }
    Some(v as u8)
}

/// Reads a share from its text.
pub fn decode_share(text: &str) -> (r: Option<Share>)
    ensures
        share_option_view(r) == parse_share(text@),
{
    if !text.is_ascii() {
        return None;
    }
    let bytes = text.as_bytes_vec();
    let n = bytes.len();
    let ghost chars = text@;
    proof {
        is_ascii_spec_bytes(text);
        assert(bytes_of(bytes@, chars));
    }
    if n > MAX_TEXT_LEN {
        return None;
    }
    let d1 = find_dash(&bytes, 0, Ghost(chars));
    if d1 >= n {
        proof {
            lemma_next_dash_bounds(chars, d1 + 1);
            lemma_next_dash_bounds(chars, n as int + 1);
        }
        return None;
    }
    let d2 = find_dash(&bytes, d1 + 1, Ghost(chars));
    if d2 >= n {
        proof {
            lemma_next_dash_bounds(chars, n as int + 1);
        }
        return None;
    }
    let d3 = find_dash(&bytes, d2 + 1, Ghost(chars));
    if d3 >= n {
        return None;
    }
    let d4 = find_dash(&bytes, d3 + 1, Ghost(chars));
    let d5 = if d4 < n {
        find_dash(&bytes, d4 + 1, Ghost(chars))
    } else {
        n
    };
    proof {
        lemma_next_dash_bounds(chars, d1 as int + 1);
        lemma_next_dash_bounds(chars, d2 as int + 1);
        lemma_next_dash_bounds(chars, d3 as int + 1);
        lemma_next_dash_bounds(chars, d4 as int + 1);
    }
    if d5 < n {
        return None;
    }
    let id = read_decimal(&bytes, 0, d1, Ghost(chars));
    let threshold = read_decimal(&bytes, d1 + 1, d2, Ghost(chars));
    let shares_count = read_decimal(&bytes, d2 + 1, d3, Ghost(chars));
    let data = base64_decode(text.substring_ascii(d3 + 1, d4));
    let signature = if d4 < n {
        base64_decode(text.substring_ascii(d4 + 1, n))
    } else {
        None
    };
    if d4 < n && signature.is_none() {
        return None;
    }
    match (id, threshold, shares_count, data) {
        (Some(id), Some(threshold), Some(shares_count), Some(data)) => {
            if 1 <= threshold && threshold <= shares_count && 1 <= id && id <= shares_count {
                Some(Share { id, threshold, shares_count, data, signature })
            } else {
                None
            }
        },
        _ => None,
    }
}

} // verus!
