//! Text: decimal and hexadecimal numerals, characters, lines.

use vstd::prelude::*;
use vstd::utf8::{encode_utf8, valid_utf8};

use crate::lex::bytes_eq;

verus! {

/// `String::push` appends one character.
pub assume_specification[ String::push ](s: &mut String, c: char)
    ensures
        final(s)@ == old(s)@.push(c),
;

// ---------------------------------------------------------------- digits

/// The numeral character of a digit below sixteen; letters are lower-case.
pub open spec fn digit_char(d: int) -> char {
    if d < 10 {
        (48 + d) as char
    } else {
        (87 + d) as char
    }
}

/// The value of a hexadecimal digit character of either case.
pub open spec fn hex_digit_value(c: char) -> Option<int> {
    if '0' <= c && c <= '9' {
        Some(c as int - 48)
    } else if 'a' <= c && c <= 'f' {
        Some(c as int - 87)
    } else if 'A' <= c && c <= 'F' {
        Some(c as int - 55)
    } else {
        None
    }
}

/// The character of a digit.
pub fn digit(d: u8) -> (c: char)
    requires
        d < 16,
    ensures
        c == digit_char(d as int),
{
    match d {
        0 => '0',
        1 => '1',
        2 => '2',
        3 => '3',
        4 => '4',
        5 => '5',
        6 => '6',
        7 => '7',
        8 => '8',
        9 => '9',
        10 => 'a',
        11 => 'b',
        12 => 'c',
        13 => 'd',
        14 => 'e',
        _ => 'f',
    }
}

/// The value of a hexadecimal digit.
pub fn hex_digit(c: char) -> (r: Option<u8>)
    ensures
        r is Some <==> hex_digit_value(c) is Some,
        r matches Some(v) ==> v < 16 && hex_digit_value(c) == Some(v as int),
{
    if '0' <= c && c <= '9' {
        Some((c as u32 - 48) as u8)
    } else if 'a' <= c && c <= 'f' {
        Some((c as u32 - 87) as u8)
    } else if 'A' <= c && c <= 'F' {
        Some((c as u32 - 55) as u8)
    } else {
        None
    }
}

// ---------------------------------------------------------------- decimal

/// The decimal numeral of `n`, without leading zeros.
pub open spec fn dec_text(n: nat) -> Seq<char>
    decreases n,
{
    if n < 10 {
        seq![digit_char(n as int)]
    } else {
        dec_text(n / 10).push(digit_char((n % 10) as int))
    }
}

/// The decimal numeral of `n`, with a minus sign where it is negative.
pub open spec fn int_text(n: int) -> Seq<char> {
    if n < 0 {
        seq!['-'] + dec_text((-n) as nat)
    } else {
        dec_text(n as nat)
    }
}

/// `n` in decimal, filled up with zeros on the left to at least `width`
/// characters.
pub open spec fn padded_text(n: nat, width: nat) -> Seq<char> {
    let t = dec_text(n);
    if t.len() >= width {
        t
    } else {
        Seq::new((width - t.len()) as nat, |i: int| '0') + t
    }
}

/// Whether every character of `s` is a decimal digit.
pub open spec fn all_decimal(s: Seq<char>) -> bool {
    forall|i: int| 0 <= i < s.len() ==> '0' <= #[trigger] s[i] && s[i] <= '9'
}

/// The number that the decimal digits `s` write.
pub open spec fn dec_value(s: Seq<char>) -> nat
    decreases s.len(),
{
    if s.len() == 0 {
        0
    } else {
        10 * dec_value(s.drop_last()) + (s.last() as int - 48) as nat
    }
}

/// A decimal numeral reads back as the number it was written from.
pub proof fn dec_text_round_trip(n: nat)
    ensures
        all_decimal(dec_text(n)),
        dec_text(n).len() >= 1,
        dec_value(dec_text(n)) == n,
    decreases n,
{
    if n < 10 {
        assert(dec_text(n).drop_last() =~= Seq::<char>::empty());
        assert(dec_value(Seq::<char>::empty()) == 0);
        assert(dec_text(n).last() == digit_char(n as int));
    } else {
        dec_text_round_trip(n / 10);
        assert(dec_text(n).drop_last() =~= dec_text(n / 10));
    }
}

/// `a` comes before `b` in a listing: it has the smaller character where they
/// first differ.
pub open spec fn listed_before(a: Seq<char>, b: Seq<char>) -> bool {
    exists|k: int|
        #![trigger a.take(k)]
        0 <= k < a.len() && k < b.len() && a.take(k) == b.take(k) && a[k] < b[k]
}

proof fn lemma_zeros_in_front(n: nat, t: Seq<char>)
    ensures
        dec_value(Seq::new(n, |i: int| '0') + t) == dec_value(t),
    decreases n + t.len(),
{
    let s = Seq::new(n, |i: int| '0') + t;
    if t.len() > 0 {
        assert(s.drop_last() =~= Seq::new(n, |i: int| '0') + t.drop_last());
        lemma_zeros_in_front(n, t.drop_last());
    } else if n > 0 {
        assert(s.drop_last() =~= Seq::new((n - 1) as nat, |i: int| '0') + t);
        lemma_zeros_in_front((n - 1) as nat, t);
    } else {
        assert(s =~= t);
    }
}

proof fn lemma_digits_are_unique(a: Seq<char>, b: Seq<char>)
    requires
        all_decimal(a),
        all_decimal(b),
        a.len() == b.len(),
        dec_value(a) == dec_value(b),
    ensures
        a == b,
    decreases a.len(),
{
    if a.len() > 0 {
        assert('0' <= a[a.len() - 1] <= '9' && '0' <= b[b.len() - 1] <= '9');
        lemma_digits_are_unique(a.drop_last(), b.drop_last());
        assert(a =~= a.drop_last().push(a.last()));
        assert(b =~= b.drop_last().push(b.last()));
    } else {
        assert(a =~= b);
    }
}

/// Of decimal numerals of one length, that of the smaller number is listed
/// first.
pub proof fn digits_are_listed_by_value(a: Seq<char>, b: Seq<char>)
    requires
        all_decimal(a),
        all_decimal(b),
        a.len() == b.len(),
        dec_value(a) < dec_value(b),
    ensures
        listed_before(a, b),
    decreases a.len(),
{
    if a.len() > 0 {
        let (c, d) = (a.drop_last(), b.drop_last());
        assert('0' <= a[a.len() - 1] <= '9' && '0' <= b[b.len() - 1] <= '9');
        if dec_value(c) == dec_value(d) {
            lemma_digits_are_unique(c, d);
            assert(a.take(a.len() - 1) =~= c);
            assert(b.take(a.len() - 1) =~= d);
        } else {
            digits_are_listed_by_value(c, d);
            let k = choose|k: int|
                #![trigger c.take(k)]
                0 <= k < c.len() && k < d.len() && c.take(k) == d.take(k) && c[k] < d[k];
            assert(a.take(k) =~= c.take(k));
            assert(b.take(k) =~= d.take(k));
        }
    }
}

/// A numeral that is filled up with zeros has the width, as long as the number
/// has no more digits, and writes the same number.
pub proof fn padded_text_reads_back(n: nat, width: nat)
    ensures
        all_decimal(padded_text(n, width)),
        dec_value(padded_text(n, width)) == n,
        dec_text(n).len() <= width ==> padded_text(n, width).len() == width,
{
    dec_text_round_trip(n);
    if dec_text(n).len() < width {
        lemma_zeros_in_front((width - dec_text(n).len()) as nat, dec_text(n));
    }
}

/// Append the decimal numeral of `n`.
pub fn push_dec(out: &mut String, n: u128)
    ensures
        final(out)@ == old(out)@ + dec_text(n as nat),
    decreases n,
{
    if n >= 10 {
        push_dec(out, n / 10);
    }
    let ghost before = out@;
    out.push(digit((n % 10) as u8));
    proof {
        if n < 10 {
            assert(out@ =~= old(out)@ + seq![digit_char(n as int)]);
        } else {
            assert(out@ =~= old(out)@ + dec_text(n as nat));
        }
    }
}

/// Append the decimal numeral of `n`, signed.
pub fn push_int(out: &mut String, n: i128)
    ensures
        final(out)@ == old(out)@ + int_text(n as int),
{
    if n < 0 {
        let magnitude: u128 = if n == i128::MIN {
            0x8000_0000_0000_0000_0000_0000_0000_0000
        } else {
            (-n) as u128
        };
        out.push('-');
        let ghost mid = out@;
        push_dec(out, magnitude);
        proof {
            assert(out@ =~= old(out)@ + int_text(n as int));
        }
    } else {
        push_dec(out, n as u128);
    }
}

/// Append `n` in decimal, filled up with zeros to at least `width` characters.
pub fn push_padded(out: &mut String, n: u64, width: usize)
    ensures
        final(out)@ == old(out)@ + padded_text(n as nat, width as nat),
{
    let mut numeral = String::new();
    push_dec(&mut numeral, n as u128);
    proof {
        assert(numeral@ =~= dec_text(n as nat));
    }
    let len = numeral.as_str().unicode_len();
    let mut filled: usize = len;
    let ghost start = out@;
    while filled < width
        invariant
            len <= filled,
            filled <= width || filled == len,
            out@ == start + Seq::new((filled - len) as nat, |i: int| '0'),
        decreases width - filled,
    {
        out.push('0');
        filled = filled + 1;
        proof {
            assert(out@ =~= start + Seq::new((filled - len) as nat, |i: int| '0'));
        }
    }
    out.append(numeral.as_str());
    proof {
        assert(out@ =~= start + padded_text(n as nat, width as nat));
    }
}

// ---------------------------------------------------------------- numerals read

/// What a numeral of an unsigned 64-bit number reads as: decimal digits, with
/// or without a plus sign, in range.
pub open spec fn u64_parsed(s: Seq<char>) -> Option<u64> {
    let digits = if s.len() > 0 && s[0] == '+' {
        s.skip(1)
    } else {
        s
    };
    if digits.len() > 0 && all_decimal(digits) && dec_value(digits) <= u64::MAX {
        Some(dec_value(digits) as u64)
    } else {
        None
    }
}

/// What a numeral of a signed 128-bit number reads as: decimal digits, with or
/// without a sign, in range.
pub open spec fn i128_parsed(s: Seq<char>) -> Option<i128> {
    let signed = s.len() > 0 && (s[0] == '+' || s[0] == '-');
    let digits = if signed {
        s.skip(1)
    } else {
        s
    };
    let value = if signed && s[0] == '-' {
        -(dec_value(digits) as int)
    } else {
        dec_value(digits) as int
    };
    if digits.len() > 0 && all_decimal(digits) && i128::MIN <= value <= i128::MAX {
        Some(value as i128)
    } else {
        None
    }
}

/// The message of the error that `str::parse::<u64>` gives on `s`.
pub uninterp spec fn u64_parse_message(s: Seq<char>) -> Seq<char>;

/// `str::parse::<u64>`: a plus sign and decimal digits in range give their
/// value; every other text gives an error, whose message is that of std.
#[verifier::external_body]
pub(crate) fn parse_u64(s: &str) -> (r: Result<u64, String>)
    ensures
        match r {
            Ok(v) => u64_parsed(s@) == Some(v),
            Err(e) => u64_parsed(s@) is None && e@ == u64_parse_message(s@),
        },
{
    s.parse::<u64>().map_err(|e| e.to_string())
}

/// `str::parse::<i128>`: a sign and decimal digits in range give their value;
/// every other text gives none.
#[verifier::external_body]
pub(crate) fn parse_i128(s: &str) -> (r: Option<i128>)
    ensures
        r == i128_parsed(s@),
{
    s.parse::<i128>().ok()
}

/// The numeral of an unsigned 64-bit number parses to that number.
pub proof fn u64_text_round_trip(n: u64)
    ensures
        u64_parsed(dec_text(n as nat)) == Some(n),
{
    dec_text_round_trip(n as nat);
}

/// The numeral of a signed 128-bit number parses to that number.
pub proof fn i128_text_round_trip(n: i128)
    ensures
        i128_parsed(int_text(n as int)) == Some(n),
{
    if n < 0 {
        dec_text_round_trip((-(n as int)) as nat);
        assert(int_text(n as int).skip(1) =~= dec_text((-(n as int)) as nat));
    } else {
        dec_text_round_trip(n as nat);
    }
}

// ---------------------------------------------------------------- hexadecimal

/// `bytes` in hexadecimal: two lower-case digits for each byte.
pub open spec fn hex_text(bytes: Seq<u8>) -> Seq<char> {
    Seq::new(
        2 * bytes.len(),
        |i: int|
            digit_char(
                if i % 2 == 0 {
                    bytes[i / 2] as int / 16
                } else {
                    bytes[i / 2] as int % 16
                },
            ),
    )
}

/// Append the hexadecimal form of `bytes`.
pub fn push_hex(out: &mut String, bytes: &[u8])
    ensures
        final(out)@ == old(out)@ + hex_text(bytes@),
{
    let ghost start = out@;
    let mut i: usize = 0;
    proof {
        assert(out@ =~= start + hex_text(bytes@.take(0)));
    }
    while i < bytes.len()
        invariant
            i <= bytes@.len(),
            out@ == start + hex_text(bytes@.take(i as int)),
        decreases bytes@.len() - i,
    {
        out.push(digit(bytes[i] / 16));
        out.push(digit(bytes[i] % 16));
        i = i + 1;
        proof {
            assert(out@ =~= start + hex_text(bytes@.take(i as int)));
        }
    }
    proof {
        assert(bytes@.take(i as int) =~= bytes@);
    }
}

/// The byte that two digits of base sixteen write.
pub open spec fn hex_pair_value(a: char, b: char) -> Option<u8> {
    match (hex_digit_value(a), hex_digit_value(b)) {
        (Some(x), Some(y)) => Some((16 * x + y) as u8),
        _ => None,
    }
}

/// The bytes that the digit pairs of `s` write; none where some character is no
/// digit.
pub open spec fn hex_parsed(s: Seq<char>) -> Option<Seq<u8>> {
    if s.len() % 2 == 0 && forall|i: int|
        0 <= i < s.len() / 2 ==> #[trigger] hex_pair_value(s[2 * i], s[2 * i + 1]) is Some {
        Some(Seq::new(s.len() / 2, |i: int| hex_pair_value(s[2 * i], s[2 * i + 1])->0))
    } else {
        None
    }
}

fn hex_pair(a: char, b: char) -> (r: Option<u8>)
    ensures
        r == hex_pair_value(a, b),
{
    match (hex_digit(a), hex_digit(b)) {
        (Some(x), Some(y)) => Some(16 * x + y),
        _ => None,
    }
}

/// The bytes that `s` writes in hexadecimal.
pub fn parse_hex(s: &[char]) -> (r: Option<Vec<u8>>)
    ensures
        r is Some <==> hex_parsed(s@) is Some,
        r matches Some(v) ==> hex_parsed(s@) == Some(v@),
{
    if s.len() % 2 != 0 {
        return None;
    }
    let mut out: Vec<u8> = Vec::new();
    let mut i: usize = 0;
    while i < s.len() / 2
        invariant
            s@.len() % 2 == 0,
            i <= s@.len() / 2,
            out@.len() == i,
            forall|j: int|
                0 <= j < i ==> #[trigger] hex_pair_value(s@[2 * j], s@[2 * j + 1]) == Some(out@[j]),
        decreases s@.len() - i,
    {
        match hex_pair(s[2 * i], s[2 * i + 1]) {
            Some(b) => {
                out.push(b);
            },
            None => {
                proof {
                    assert(hex_pair_value(s@[2 * i], s@[2 * i + 1]) is None);
                }
                return None;
            },
        }
        i = i + 1;
    }
    proof {
        assert(hex_parsed(s@) is Some);
        assert(hex_parsed(s@)->0 =~= out@);
    }
    Some(out)
}

/// Hexadecimal text reads back as the bytes it was written from.
pub proof fn hex_text_round_trip(bytes: Seq<u8>)
    ensures
        hex_text(bytes).len() == 2 * bytes.len(),
        hex_parsed(hex_text(bytes)) == Some(bytes),
        forall|i: int|
            0 <= i < hex_text(bytes).len() ==> 0 <= #[trigger] hex_text(bytes)[i] as int && (
            hex_text(bytes)[i] as int) < 128,
{
    let t = hex_text(bytes);
    assert forall|i: int| 0 <= i < t.len() / 2 implies #[trigger] hex_pair_value(
        t[2 * i],
        t[2 * i + 1],
    ) == Some(bytes[i]) by {
        assert((2 * i) / 2 == i && (2 * i + 1) / 2 == i && (2 * i) % 2 == 0 && (2 * i + 1) % 2 == 1);
    }
    assert(hex_parsed(t)->0 =~= bytes);
}

// ---------------------------------------------------------------- characters

/// The characters of a string.
pub fn chars_of(s: &str) -> (r: Vec<char>)
    ensures
        r@ == s@,
{
    let mut r: Vec<char> = Vec::new();
    for c in it: s.chars()
        invariant
            r@.len() == it.index(),
            it.seq() == s@,
            forall|i: int| 0 <= i < r@.len() ==> r@[i] == it.seq()[i],
    {
        r.push(c);
    }
    proof {
        assert(r@ =~= s@);
    }
    r
}

/// The string of given characters.
pub fn string_of(chars: &[char]) -> (s: String)
    ensures
        s@ == chars@,
{
    let mut s = String::new();
    let mut i: usize = 0;
    while i < chars.len()
        invariant
            i <= chars@.len(),
            s@ == chars@.take(i as int),
        decreases chars@.len() - i,
    {
        s.push(chars[i]);
        i = i + 1;
        proof {
            assert(s@ =~= chars@.take(i as int));
        }
    }
    proof {
        assert(chars@.take(i as int) =~= chars@);
    }
    s
}

/// The message of the error that `std::str::from_utf8` gives on `bytes`.
pub uninterp spec fn utf8_error_message(bytes: Seq<u8>) -> Seq<char>;

/// `std::str::from_utf8`: well-formed UTF-8 gives the text it encodes; other
/// bytes give an error, whose message is that of std.
#[verifier::external_body]
pub(crate) fn utf8_text(bytes: &[u8]) -> (r: Result<String, String>)
    ensures
        match r {
            Ok(s) => valid_utf8(bytes@) && encode_utf8(s@) == bytes@,
            Err(e) => !valid_utf8(bytes@) && e@ == utf8_error_message(bytes@),
        },
{
    std::str::from_utf8(bytes).map(|s| s.to_owned()).map_err(|e| e.to_string())
}

/// The quoted, escaped form that std's `Debug` gives a string.
pub uninterp spec fn quoted(s: Seq<char>) -> Seq<char>;

/// The `Debug` form of a string, as std writes it.
#[verifier::external_body]
pub(crate) fn quoted_text(s: &str) -> (r: String)
    ensures
        r@ == quoted(s@),
{
    format!("{s:?}")
}

/// Whether two texts are the same.
pub fn text_eq(a: &str, b: &str) -> (r: bool)
    ensures
        r == (a@ == b@),
{
    proof {
        vstd::utf8::encode_utf8_decode_utf8(a@);
        vstd::utf8::encode_utf8_decode_utf8(b@);
    }
    bytes_eq(a.as_bytes(), b.as_bytes())
}

/// The text before the first `c`; all of it where there is none.
pub open spec fn until(s: Seq<char>, c: char) -> Seq<char>
    decreases s.len(),
{
    if s.len() == 0 || s[0] == c {
        Seq::empty()
    } else {
        seq![s[0]] + until(s.skip(1), c)
    }
}

/// The text before the first `c`.
pub fn text_until(s: &str, c: char) -> (r: String)
    ensures
        r@ == until(s@, c),
{
    let chars = chars_of(s);
    let mut out = String::new();
    let mut i: usize = 0;
    proof {
        assert(s@.skip(0) =~= s@);
        assert(out@ + until(s@, c) =~= until(s@, c));
    }
    while i < chars.len() && chars[i] != c
        invariant
            chars@ == s@,
            i <= s@.len(),
            until(s@, c) == out@ + until(s@.skip(i as int), c),
        decreases s@.len() - i,
    {
        let ghost before = out@;
        out.push(chars[i]);
        proof {
            assert(s@.skip(i as int).skip(1) =~= s@.skip(i as int + 1));
            assert(before + (seq![s@[i as int]] + until(s@.skip(i as int + 1), c)) =~= out@ + until(
                s@.skip(i as int + 1),
                c,
            ));
        }
        i = i + 1;
    }
    proof {
        assert(until(s@.skip(i as int), c) =~= Seq::empty());
        assert(out@ + Seq::<char>::empty() =~= out@);
    }
    out
}

// ---------------------------------------------------------------- lines

/// Where the first `c` stands; the length where there is none.
pub open spec fn position(s: Seq<char>, c: char) -> int
    decreases s.len(),
{
    if s.len() == 0 || s[0] == c {
        0
    } else {
        1 + position(s.skip(1), c)
    }
}

pub proof fn lemma_position(s: Seq<char>, c: char)
    ensures
        0 <= position(s, c) <= s.len(),
        position(s, c) < s.len() ==> s[position(s, c)] == c,
        forall|k: int| 0 <= k < position(s, c) ==> s[k] != c,
    decreases s.len(),
{
    if s.len() > 0 && s[0] != c {
        lemma_position(s.skip(1), c);
        assert forall|k: int| 0 <= k < position(s, c) implies s[k] != c by {
            if k > 0 {
                assert(s[k] == s.skip(1)[k - 1]);
            }
        }
    }
}

/// The first place of `c` is the one before which it does not occur.
pub proof fn lemma_position_is(s: Seq<char>, c: char, n: int)
    requires
        0 <= n < s.len(),
        s[n] == c,
        forall|k: int| 0 <= k < n ==> s[k] != c,
    ensures
        position(s, c) == n,
{
    lemma_position(s, c);
}

/// Where the first `c` stands.
pub fn find_char(s: &[char], c: char) -> (r: usize)
    ensures
        r == position(s@, c),
{
    let mut i: usize = 0;
    while i < s.len() && s[i] != c
        invariant
            i <= s@.len(),
            forall|k: int| 0 <= k < i ==> s@[k] != c,
        decreases s@.len() - i,
    {
        i = i + 1;
    }
    proof {
        lemma_position(s@, c);
    }
    i
}

/// A line without the carriage return before its line feed.
pub open spec fn without_return(s: Seq<char>) -> Seq<char> {
    if s.len() > 0 && s.last() == '\r' {
        s.drop_last()
    } else {
        s
    }
}

/// The lines of a text. A line ends with a line feed, and with a carriage
/// return before that; the last one may end with the text.
pub open spec fn lines(s: Seq<char>) -> Seq<Seq<char>>
    decreases s.len(),
{
    if s.len() == 0 {
        Seq::empty()
    } else {
        let n = position(s, '\n');
        if 0 <= n < s.len() {
            seq![without_return(s.take(n))] + lines(s.skip(n + 1))
        } else {
            seq![s]
        }
    }
}

/// The characters of the texts of a list.
pub open spec fn char_views(s: Seq<Vec<char>>) -> Seq<Seq<char>> {
    Seq::new(s.len(), |i: int| s[i]@)
}

/// A copy of a list of characters.
pub fn chars_copy(s: &[char]) -> (r: Vec<char>)
    ensures
        r@ == s@,
{
    let mut r: Vec<char> = Vec::new();
    let mut i: usize = 0;
    while i < s.len()
        invariant
            i <= s@.len(),
            r@ == s@.take(i as int),
        decreases s@.len() - i,
    {
        r.push(s[i]);
        i = i + 1;
        proof {
            assert(s@.take(i as int) =~= s@.take(i as int - 1).push(s@[i as int - 1]));
        }
    }
    proof {
        assert(s@.take(i as int) =~= s@);
    }
    r
}

/// The lines of a text.
pub fn split_lines(s: &[char]) -> (r: Vec<Vec<char>>)
    ensures
        char_views(r@) == lines(s@),
{
    let total: usize = s.len();
    let mut out: Vec<Vec<char>> = Vec::new();
    let mut pos: usize = 0;
    proof {
        assert(s@.skip(0) =~= s@);
        assert(char_views(out@) + lines(s@) =~= lines(s@));
    }
    while pos < total
        invariant
            total == s@.len(),
            pos <= total,
            lines(s@) == char_views(out@) + lines(s@.skip(pos as int)),
        decreases total - pos,
    {
        let rest = vstd::slice::slice_subrange(s, pos, total);
        let ghost here = s@.skip(pos as int);
        let ghost before = char_views(out@);
        proof {
            assert(rest@ =~= here);
            lemma_position(here, '\n');
        }
        let n: usize = find_char(rest, '\n');
        if n < total - pos {
            let mut end: usize = n;
            if n > 0 && rest[n - 1] == '\r' {
                end = n - 1;
            }
            let line = chars_copy(vstd::slice::slice_subrange(rest, 0, end));
            proof {
                assert(line@ =~= without_return(here.take(n as int)));
                assert(here.skip(n as int + 1) =~= s@.skip(pos + n + 1));
            }
            out.push(line);
            proof {
                assert(char_views(out@) =~= before.push(line@));
                assert(before + (seq![line@] + lines(s@.skip(pos + n + 1))) =~= char_views(out@)
                    + lines(s@.skip(pos + n + 1)));
            }
            pos = pos + n + 1;
        } else {
            let line = chars_copy(rest);
            out.push(line);
            proof {
                assert(char_views(out@) =~= before.push(line@));
                assert(before + seq![here] =~= char_views(out@));
                assert(s@.skip(total as int) =~= Seq::empty());
                assert(char_views(out@) + Seq::<Seq<char>>::empty() =~= char_views(out@));
            }
            pos = total;
        }
    }
    proof {
        assert(s@.skip(pos as int) =~= Seq::empty());
        assert(char_views(out@) + Seq::<Seq<char>>::empty() =~= char_views(out@));
    }
    out
}

/// A text that is one line.
pub open spec fn is_line(s: Seq<char>) -> bool {
    &&& forall|k: int| 0 <= k < s.len() ==> s[k] != '\n'
    &&& s.len() > 0 ==> s.last() != '\r'
}

/// A line in front of a text is the first of its lines.
pub proof fn lines_of_line(line: Seq<char>, rest: Seq<char>)
    requires
        is_line(line),
    ensures
        lines(line + seq!['\n'] + rest) == seq![line] + lines(rest),
{
    let s = line + seq!['\n'] + rest;
    lemma_position_is(s, '\n', line.len() as int);
    assert(s.take(line.len() as int) =~= line);
    assert(s.skip(line.len() as int + 1) =~= rest);
}

// ---------------------------------------------------------------- laws

/// The digits ascend: those up to nine follow on each other from `0`, those of
/// the letters from `a`.
pub proof fn digits_are_in_order(d: int)
    requires
        0 <= d < 16,
    ensures
        digit_char(0) == '0',
        digit_char(10) == 'a',
        d != 9 && d < 15 ==> digit_char(d + 1) as int == digit_char(d) as int + 1,
        hex_digit_value(digit_char(d)) == Some(d),
{
}

/// A numeral has no zeros in front.
pub proof fn numerals_begin_with_a_digit_that_counts(n: nat)
    ensures
        n > 0 ==> dec_text(n)[0] != '0',
        n == 0 ==> dec_text(n) == seq!['0'],
    decreases n,
{
    if n >= 10 {
        numerals_begin_with_a_digit_that_counts(n / 10);
        dec_text_round_trip(n / 10);
        assert(dec_text(n)[0] == dec_text(n / 10)[0]);
    }
}

/// The text before the first `c` begins the text, has no `c` in it, and is
/// followed by one unless the text ends there.
pub proof fn text_ends_before_the_first(s: Seq<char>, c: char)
    ensures
        until(s, c).is_prefix_of(s),
        !until(s, c).contains(c),
        until(s, c).len() < s.len() ==> s[until(s, c).len() as int] == c,
    decreases s.len(),
{
    if s.len() > 0 && s[0] != c {
        let rest = s.skip(1);
        let t = until(rest, c);
        let all = until(s, c);
        text_ends_before_the_first(rest, c);
        assert(all =~= s.take(all.len() as int)) by {
            assert forall|i: int| 0 <= i < all.len() implies all[i] == s[i] by {
                if i > 0 {
                    assert(t[i - 1] == rest.take(t.len() as int)[i - 1]);
                }
            }
        }
        assert(!all.contains(c)) by {
            if all.contains(c) {
                let i = choose|i: int| 0 <= i < all.len() && all[i] == c;
                assert(t[i - 1] == c);
            }
        }
    } else {
        assert(until(s, c) =~= s.take(0));
    }
}

/// A text in front of the first `c` is what stands before it.
pub proof fn text_is_cut_at(a: Seq<char>, c: char, rest: Seq<char>)
    requires
        !a.contains(c),
    ensures
        until(a + seq![c] + rest, c) == a,
        until(a, c) == a,
    decreases a.len(),
{
    let s = a + seq![c] + rest;
    text_ends_before_the_first(s, c);
    text_ends_before_the_first(a, c);
    let t = until(s, c);
    if t.len() < a.len() {
        assert(s[t.len() as int] == a[t.len() as int]);
        assert(a.contains(c));
    }
    if t.len() > a.len() {
        assert(t[a.len() as int] == s[a.len() as int]);
        assert(t.contains(c));
    }
    assert(t =~= a);
    let u = until(a, c);
    if u.len() < a.len() {
        assert(a.contains(a[u.len() as int]));
    }
    assert(u =~= a);
}

/// A carriage return in front of a line feed goes with it, one alone stays, and
/// what stands behind the last line feed is a line of its own.
pub proof fn line_ends_are_left_out(line: Seq<char>, rest: Seq<char>)
    requires
        forall|k: int| 0 <= k < line.len() ==> line[k] != '\n',
    ensures
        lines(line + seq!['\r', '\n'] + rest) == seq![line] + lines(rest),
        line.len() > 0 ==> lines(line) == seq![line],
        lines(Seq::empty()) == Seq::<Seq<char>>::empty(),
{
    let s = line + seq!['\r', '\n'] + rest;
    let n = line.len() as int + 1;
    assert forall|k: int| 0 <= k < n implies s[k] != '\n' by {
        if k < line.len() {
            assert(s[k] == line[k]);
        }
    }
    lemma_position_is(s, '\n', n);
    assert(s.take(n) =~= line.push('\r'));
    assert(without_return(s.take(n)) =~= line);
    assert(s.skip(n + 1) =~= rest);
    lemma_position(line, '\n');
}

} // verus!
