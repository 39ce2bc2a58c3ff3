//! Characters and numbers in text: whitespace, trimming, decimal and
//! hexadecimal numbers, the way Rust's standard library reads and writes
//! them.
use vstd::prelude::*;

verus! {

/// `String::push` from the standard library: appends one character.
#[verifier::external_body]
pub fn push_char(s: &mut String, c: char)
    ensures
        final(s)@ == old(s)@.push(c),
{
    s.push(c);
}

/// The characters of `s`.
pub fn chars_of(s: &str) -> (r: Vec<char>)
    ensures
        r@ == s@,
{
    let mut v: Vec<char> = Vec::new();
    for c in it: s.chars()
        invariant
            v@ == it.seq().take(it.index() as int),
    {
        v.push(c);
    }
    v
}

/// Whether `c` is white space, as `char::is_whitespace` decides: the
/// characters with the Unicode `White_Space` property.
pub open spec fn is_white(c: char) -> bool {
    let u = c as u32;
    (0x09 <= u <= 0x0d) || u == 0x20 || u == 0x85 || u == 0xa0 || u == 0x1680 || (0x2000 <= u
        <= 0x200a) || u == 0x2028 || u == 0x2029 || u == 0x202f || u == 0x205f || u == 0x3000
}

pub fn is_white_char(c: char) -> (r: bool)
    ensures
        r == is_white(c),
{
    let u = c as u32;
    (0x09 <= u && u <= 0x0d) || u == 0x20 || u == 0x85 || u == 0xa0 || u == 0x1680 || (0x2000 <= u
        && u <= 0x200a) || u == 0x2028 || u == 0x2029 || u == 0x202f || u == 0x205f || u == 0x3000
}

/// `s` without its leading white space.
pub open spec fn trim_start(s: Seq<char>) -> Seq<char>
    decreases s.len(),
{
    if s.len() > 0 && is_white(s[0]) {
        trim_start(s.drop_first())
    } else {
        s
    }
}

/// `s` without its trailing white space.
pub open spec fn trim_end(s: Seq<char>) -> Seq<char>
    decreases s.len(),
{
    if s.len() > 0 && is_white(s.last()) {
        trim_end(s.drop_last())
    } else {
        s
    }
}

/// `s` without leading and trailing white space, as `str::trim` gives it.
pub open spec fn trim(s: Seq<char>) -> Seq<char> {
    trim_end(trim_start(s))
}

/// The white space characters are exactly these: tab, line feed, vertical
/// tab, form feed, carriage return, space, next line, no-break space, ogham
/// space mark, the eleven spaces from en quad to hair space, line
/// separator, paragraph separator, narrow no-break space, medium
/// mathematical space and ideographic space.
pub proof fn lemma_white_chars(c: char)
    ensures
        is_white(c) <==> ({
            ||| c == '\t'
            || c == '\n'
            || c == '\u{0B}'
            || c == '\u{0C}'
            || c == '\r'
            || c == ' '
            || c == '\u{85}'
            || c == '\u{A0}'
            || c == '\u{1680}'
            || c == '\u{2000}'
            || c == '\u{2001}'
            || c == '\u{2002}'
            || c == '\u{2003}'
            || c == '\u{2004}'
            || c == '\u{2005}'
            || c == '\u{2006}'
            || c == '\u{2007}'
            || c == '\u{2008}'
            || c == '\u{2009}'
            || c == '\u{200A}'
            || c == '\u{2028}'
            || c == '\u{2029}'
            || c == '\u{202F}'
            || c == '\u{205F}'
            || c == '\u{3000}'
        }),
{
}

proof fn lemma_trim_start_append(s: Seq<char>, t: Seq<char>)
    ensures
        trim_start(s + t) == if trim_start(s).len() > 0 {
            trim_start(s) + t
        } else {
            trim_start(t)
        },
    decreases s.len(),
{
    if s.len() == 0 {
        assert(s + t =~= t);
    } else {
        assert((s + t)[0] == s[0]);
        if is_white(s[0]) {
            assert((s + t).drop_first() =~= s.drop_first() + t);
            lemma_trim_start_append(s.drop_first(), t);
        }
    }
}

/// Trimming ignores white space added at either end: for every white
/// space character `c`, `c` before or after `s` trims to what `s` trims to.
pub proof fn lemma_trim_white_ends(s: Seq<char>, c: char)
    requires
        is_white(c),
    ensures
        trim(seq![c] + s) == trim(s),
        trim(s + seq![c]) == trim(s),
{
    assert((seq![c] + s).drop_first() =~= s);
    lemma_trim_start_append(s, seq![c]);
    assert(trim_start(seq![c]) == trim_start(Seq::<char>::empty())) by {
        assert(seq![c].drop_first() =~= Seq::<char>::empty());
    }
    if trim_start(s).len() > 0 {
        assert((trim_start(s) + seq![c]).drop_last() =~= trim_start(s));
    }
}

/// The bounds of the trimmed text within `v[lo..hi]`.
pub fn trim_range(v: &Vec<char>, lo: usize, hi: usize) -> (r: (usize, usize))
    requires
        lo <= hi <= v@.len(),
    ensures
        lo <= r.0 <= r.1 <= hi,
        v@.subrange(r.0 as int, r.1 as int) == trim(v@.subrange(lo as int, hi as int)),
{
    let mut a = lo;
    while a < hi && is_white_char(v[a])
        invariant
            lo <= a <= hi <= v@.len(),
            trim_start(v@.subrange(lo as int, hi as int)) == trim_start(v@.subrange(a as int, hi as int)),
        decreases hi - a,
    {
        assert(v@.subrange(a as int, hi as int).drop_first() =~= v@.subrange(a + 1, hi as int));
        a = a + 1;
    }
    let ghost ts = v@.subrange(a as int, hi as int);
    assert(trim_start(ts) == ts);
    let mut b = hi;
    while b > a && is_white_char(v[b - 1])
        invariant
            lo <= a <= b <= hi <= v@.len(),
            trim_end(ts) == trim_end(v@.subrange(a as int, b as int)),
            ts == v@.subrange(a as int, hi as int),
        decreases b - a,
    {
        assert(v@.subrange(a as int, b as int).drop_last() =~= v@.subrange(a as int, b - 1));
        b = b - 1;
    }
    (a, b)
}

/// The decimal digit character of `d`, `0 <= d < 10`, or the lower-case
/// hexadecimal one for `d < 16`.
pub open spec fn digit_char(d: int) -> char {
    if d < 10 {
        (48 + d) as char
    } else {
        (87 + d) as char
    }
}

fn digit_char_exec(d: u8) -> (c: char)
    requires
        d < 16,
    ensures
        c == digit_char(d as int),
{
    if d < 10 {
        (48 + d) as char
    } else {
        (87 + d) as char
    }
}

/// The decimal digits of `n`, without leading zeros.
pub open spec fn dec_digits(n: nat) -> Seq<char>
    decreases n,
{
    if n < 10 {
        seq![digit_char(n as int)]
    } else {
        dec_digits(n / 10).push(digit_char((n % 10) as int))
    }
}

/// `v` in decimal, as `Display` writes integers.
pub open spec fn int_text(v: int) -> Seq<char> {
    if v < 0 {
        seq!['-'] + dec_digits((-v) as nat)
    } else {
        dec_digits(v as nat)
    }
}

fn push_digits(s: &mut String, n: u64)
    ensures
        final(s)@ == old(s)@ + dec_digits(n as nat),
    decreases n,
{
    if n >= 10 {
        push_digits(s, n / 10);
    }
    push_char(s, digit_char_exec((n % 10) as u8));
    assert(final(s)@ =~= old(s)@ + dec_digits(n as nat));
}

/// Appends `v` in decimal.
pub fn push_int(s: &mut String, v: i64)
    ensures
        final(s)@ == old(s)@ + int_text(v as int),
{
    if v < 0 {
        push_char(s, '-');
        let m: u64 = (-(v + 1)) as u64 + 1;
        push_digits(s, m);
        assert(final(s)@ =~= old(s)@ + int_text(v as int));
    } else {
        push_digits(s, v as u64);
    }
}

/// Appends `v` in decimal.
pub fn push_usize(s: &mut String, v: usize)
    ensures
        final(s)@ == old(s)@ + int_text(v as int),
{
    push_digits(s, v as u64);
}

/// Why a text is not an integer, as `core::num::IntErrorKind` tells it.
#[derive(Debug, PartialEq, Eq, Structural, Clone, Copy)]
pub enum IntErrorKind {
    Empty,
    InvalidDigit,
    PosOverflow,
    NegOverflow,
}

/// The value of the digit `c` in base `radix` (10 or 16, either case),
/// or `-1`.
pub open spec fn digit_value(c: char, radix: int) -> int {
    if '0' <= c <= '9' {
        c as int - 48
    } else if radix == 16 && 'a' <= c <= 'f' {
        c as int - 87
    } else if radix == 16 && 'A' <= c <= 'F' {
        c as int - 55
    } else {
        -1
    }
}

/// Reads the digits `ds[k..]` onto `acc`, left to right; a digit that is
/// not one fails first, then a value outside `min..=max`.
pub open spec fn parse_digits(
    ds: Seq<char>,
    radix: int,
    neg: bool,
    min: int,
    max: int,
    k: int,
    acc: int,
) -> Result<int, IntErrorKind>
    decreases ds.len() - k,
{
    if k >= ds.len() {
        Ok(acc)
    } else {
        let d = digit_value(ds[k], radix);
        if d < 0 {
            Err(IntErrorKind::InvalidDigit)
        } else {
            let next = if neg {
                acc * radix - d
            } else {
                acc * radix + d
            };
            if next > max {
                Err(IntErrorKind::PosOverflow)
            } else if next < min {
                Err(IntErrorKind::NegOverflow)
            } else {
                parse_digits(ds, radix, neg, min, max, k + 1, next)
            }
        }
    }
}

/// The integer in `s` in base `radix`, as `from_str_radix` reads it: an
/// optional `+` (or `-` for a signed type), then at least one digit, with a
/// value in `min..=max`.
pub open spec fn parse_int(s: Seq<char>, radix: int, signed: bool, min: int, max: int) -> Result<
    int,
    IntErrorKind,
> {
    if s.len() == 0 {
        Err(IntErrorKind::Empty)
    } else if (s[0] == '+' || s[0] == '-') && s.len() == 1 {
        Err(IntErrorKind::InvalidDigit)
    } else if s[0] == '+' {
        parse_digits(s.drop_first(), radix, false, min, max, 0, 0)
    } else if s[0] == '-' && signed {
        parse_digits(s.drop_first(), radix, true, min, max, 0, 0)
    } else {
        parse_digits(s, radix, false, min, max, 0, 0)
    }
}

fn digit_value_exec(c: char, radix: u32) -> (r: i128)
    requires
        radix == 10 || radix == 16,
    ensures
        r == digit_value(c, radix as int),
{
    if '0' <= c && c <= '9' {
        (c as u32 - 48) as i128
    } else if radix == 16 && 'a' <= c && c <= 'f' {
        (c as u32 - 87) as i128
    } else if radix == 16 && 'A' <= c && c <= 'F' {
        (c as u32 - 55) as i128
    } else {
        -1
    }
}

/// Reads the integer in `v[lo..hi]` (see `parse_int`).
pub fn parse_int_range(
    v: &Vec<char>,
    lo: usize,
    hi: usize,
    radix: u32,
    signed: bool,
    min: i128,
    max: i128,
) -> (r: Result<i128, IntErrorKind>)
    requires
        lo <= hi <= v@.len(),
        radix == 10 || radix == 16,
        -0x1_0000_0000_0000_0000 <= min <= 0 <= max <= 0x1_0000_0000_0000_0000,
    ensures
        match (r, parse_int(v@.subrange(lo as int, hi as int), radix as int, signed, min as int, max as int)) {
            (Ok(x), Ok(y)) => x == y && min <= x <= max,
            (Err(e), Err(e2)) => e == e2,
            _ => false,
        },
{
    let ghost s = v@.subrange(lo as int, hi as int);
    if lo == hi {
        return Err(IntErrorKind::Empty);
    }
    let first = v[lo];
    if (first == '+' || first == '-') && hi - lo == 1 {
        return Err(IntErrorKind::InvalidDigit);
    }
    let mut neg = false;
    let mut start = lo;
    if first == '+' {
        start = lo + 1;
    } else if first == '-' && signed {
        neg = true;
        start = lo + 1;
    }
    let ghost ds = v@.subrange(start as int, hi as int);
    assert(start > lo ==> ds =~= s.drop_first());
    assert(start == lo ==> ds =~= s);
    let mut acc: i128 = 0;
    let mut k = start;
    while k < hi
        invariant
            lo <= start <= k <= hi <= v@.len(),
            ds == v@.subrange(start as int, hi as int),
            s == v@.subrange(lo as int, hi as int),
            radix == 10 || radix == 16,
            -0x1_0000_0000_0000_0000 <= min <= acc <= max <= 0x1_0000_0000_0000_0000,
            parse_int(s, radix as int, signed, min as int, max as int) == parse_digits(
                ds,
                radix as int,
                neg,
                min as int,
                max as int,
                k - start,
                acc as int,
            ),
        decreases hi - k,
    {
        let d = digit_value_exec(v[k], radix);
        assert(ds[k - start] == v@[k as int]);
        assert(d == digit_value(ds[k - start], radix as int));
        if d < 0 {
            return Err(IntErrorKind::InvalidDigit);
        }
        let next = if neg {
            acc * (radix as i128) - d
        } else {
            acc * (radix as i128) + d
        };
        if next > max {
            return Err(IntErrorKind::PosOverflow);
        }
        if next < min {
            return Err(IntErrorKind::NegOverflow);
        }
        acc = next;
        k = k + 1;
    }
    Ok(acc)
}

proof fn lemma_parse_digits_push(
    ds: Seq<char>,
    c: char,
    radix: int,
    neg: bool,
    min: int,
    max: int,
    k: int,
    acc: int,
)
    requires
        0 <= k <= ds.len(),
    ensures
        parse_digits(ds.push(c), radix, neg, min, max, k, acc) == match parse_digits(
            ds,
            radix,
            neg,
            min,
            max,
            k,
            acc,
        ) {
            Ok(a) => parse_digits(seq![c], radix, neg, min, max, 0, a),
            Err(e) => Err(e),
        },
    decreases ds.len() - k,
{
    if k < ds.len() {
        assert(ds.push(c)[k] == ds[k]);
        let d = digit_value(ds[k], radix);
        let next = if neg {
            acc * radix - d
        } else {
            acc * radix + d
        };
        lemma_parse_digits_push(ds, c, radix, neg, min, max, k + 1, next);
    } else {
        reveal_with_fuel(parse_digits, 2);
        assert(ds.push(c)[k] == c);
        assert(seq![c][0] == c);
    }
}

proof fn lemma_dec_digits_first(n: nat)
    ensures
        dec_digits(n).len() >= 1,
        '0' <= dec_digits(n)[0] <= '9',
    decreases n,
{
    if n >= 10 {
        lemma_dec_digits_first(n / 10);
    }
}

proof fn lemma_parse_dec(n: nat, neg: bool, min: int, max: int)
    requires
        min <= 0 <= max,
        neg ==> -n >= min,
        !neg ==> n <= max,
    ensures
        parse_digits(dec_digits(n), 10, neg, min, max, 0, 0) == Ok::<int, IntErrorKind>(
            if neg {
                -n
            } else {
                n as int
            },
        ),
    decreases n,
{
    reveal_with_fuel(parse_digits, 2);
    let d = (n % 10) as int;
    let c = digit_char(d);
    assert(digit_value(c, 10) == d);
    if n < 10 {
        assert(dec_digits(n) == seq![c]);
    } else {
        let q = n / 10;
        lemma_parse_dec(q, neg, min, max);
        lemma_parse_digits_push(dec_digits(q), c, 10, neg, min, max, 0, 0);
        assert(n == q * 10 + d);
    }
}

/// Reading back an integer written in decimal gives the integer, for every
/// value in range.
pub proof fn lemma_int_text_roundtrip(v: int, signed: bool, min: int, max: int)
    requires
        min <= v <= max,
        min <= 0 <= max,
        !signed ==> v >= 0,
    ensures
        parse_int(int_text(v), 10, signed, min, max) == Ok::<int, IntErrorKind>(v),
{
    if v < 0 {
        let ds = dec_digits((-v) as nat);
        lemma_dec_digits_first((-v) as nat);
        lemma_parse_dec((-v) as nat, true, min, max);
        assert((seq!['-'] + ds).drop_first() =~= ds);
    } else {
        lemma_dec_digits_first(v as nat);
        lemma_parse_dec(v as nat, false, min, max);
    }
}

/// `bytes` in lower-case hexadecimal, two digits per byte.
pub open spec fn hex_text(bytes: Seq<u8>) -> Seq<char> {
    Seq::new(
        2 * bytes.len(),
        |i: int|
            if i % 2 == 0 {
                digit_char(bytes[i / 2] as int / 16)
            } else {
                digit_char(bytes[i / 2] as int % 16)
            },
    )
}

/// Appends `bytes` in lower-case hexadecimal.
pub fn push_hex(s: &mut String, bytes: &[u8])
    ensures
        final(s)@ == old(s)@ + hex_text(bytes@),
{
    let ghost start = s@;
    let mut k: usize = 0;
    while k < bytes.len()
        invariant
            k <= bytes@.len(),
            s@ =~= start + hex_text(bytes@.take(k as int)),
        decreases bytes@.len() - k,
    {
        let b = bytes[k];
        push_char(s, digit_char_exec(b / 16));
        push_char(s, digit_char_exec(b % 16));
        k = k + 1;
        assert(s@ =~= start + hex_text(bytes@.take(k as int)));
    }
    assert(bytes@.take(bytes@.len() as int) =~= bytes@);
}

/// Bytes that the UTF-8 encoding of `c` takes.
pub open spec fn utf8_len(c: char) -> int {
    if (c as u32) < 0x80 {
        1
    } else if (c as u32) < 0x800 {
        2
    } else if (c as u32) < 0x10000 {
        3
    } else {
        4
    }
}

/// Bytes that the UTF-8 encoding of `s` takes.
pub open spec fn utf8_total(s: Seq<char>) -> int
    decreases s.len(),
{
    if s.len() == 0 {
        0
    } else {
        utf8_total(s.drop_last()) + utf8_len(s.last())
    }
}

fn utf8_len_exec(c: char) -> (r: usize)
    ensures
        r == utf8_len(c),
{
    let u = c as u32;
    if u < 0x80 {
        1
    } else if u < 0x800 {
        2
    } else if u < 0x10000 {
        3
    } else {
        4
    }
}

/// Why a text is not hexadecimal bytes.
#[derive(Debug, PartialEq, Eq, Structural, Clone, Copy)]
pub enum HexError {
    /// The text has an odd number of bytes.
    OddLength,
    /// The two bytes at this offset are not a hexadecimal number.
    BadDigit { offset: usize },
    /// The two bytes at this offset end inside a character, where slicing
    /// the text panics.
    SplitsChar { offset: usize },
}

/// Reads byte pairs of `h` from character `k` on. Every pair read so far
/// was two ASCII characters, so `k` is also the byte offset.
pub open spec fn hex_pairs(h: Seq<char>, k: int) -> Result<Seq<u8>, HexError>
    decreases h.len() - k,
{
    if k >= h.len() || k < 0 {
        Ok(Seq::empty())
    } else if utf8_len(h[k]) == 1 {
        if k + 1 >= h.len() {
            Err(HexError::OddLength)
        } else if utf8_len(h[k + 1]) != 1 {
            Err(HexError::SplitsChar { offset: k as usize })
        } else {
            match parse_int(seq![h[k], h[k + 1]], 16, false, 0, 255) {
                Ok(b) => match hex_pairs(h, k + 2) {
                    Ok(rest) => Ok(seq![b as u8] + rest),
                    Err(e) => Err(e),
                },
                Err(_) => Err(HexError::BadDigit { offset: k as usize }),
            }
        }
    } else if utf8_len(h[k]) == 2 {
        Err(HexError::BadDigit { offset: k as usize })
    } else {
        Err(HexError::SplitsChar { offset: k as usize })
    }
}

/// What decoding the hexadecimal text `h` gives: its UTF-8 bytes are read
/// in pairs, each as a `u8` in base 16, as `u8::from_str_radix` on slices
/// of two bytes does.
pub open spec fn spec_hex_decode(h: Seq<char>) -> Result<Seq<u8>, HexError> {
    if utf8_total(h) % 2 != 0 {
        Err(HexError::OddLength)
    } else {
        hex_pairs(h, 0)
    }
}

pub open spec fn prepend_ok(p: Seq<u8>, r: Result<Seq<u8>, HexError>) -> Result<Seq<u8>, HexError> {
    match r {
        Ok(b) => Ok(p + b),
        Err(e) => Err(e),
    }
}

/// Decodes the hexadecimal text `s` (see `spec_hex_decode`).
pub fn hex_decode(s: &str) -> (r: Result<Vec<u8>, HexError>)
    ensures
        match (r, spec_hex_decode(s@)) {
            (Ok(x), Ok(y)) => x@ == y,
            (Err(e), Err(e2)) => e == e2,
            _ => false,
        },
{
    let v = chars_of(s);
    assert(v@.subrange(0, v@.len() as int) =~= v@);
    hex_decode_range(&v, 0, v.len())
}

/// Decodes the hexadecimal text `v[lo..hi]` (see `spec_hex_decode`).
pub fn hex_decode_range(v: &Vec<char>, lo: usize, hi: usize) -> (r: Result<Vec<u8>, HexError>)
    requires
        lo <= hi <= v@.len(),
    ensures
        match (r, spec_hex_decode(v@.subrange(lo as int, hi as int))) {
            (Ok(x), Ok(y)) => x@ == y,
            (Err(e), Err(e2)) => e == e2,
            _ => false,
        },
{
    let ghost h = v@.subrange(lo as int, hi as int);
    let mut odd = false;
    let mut j = lo;
    while j < hi
        invariant
            lo <= j <= hi <= v@.len(),
            h == v@.subrange(lo as int, hi as int),
            odd == (utf8_total(h.take(j - lo)) % 2 != 0),
        decreases hi - j,
    {
        assert(h.take(j - lo + 1).drop_last() =~= h.take(j - lo));
        assert(h[j - lo] == v@[j as int]);
        if utf8_len_exec(v[j]) % 2 == 1 {
            odd = !odd;
        }
        j = j + 1;
    }
    assert(h.take(hi - lo) =~= h);
    if odd {
        return Err(HexError::OddLength);
    }
    let mut out: Vec<u8> = Vec::new();
    let mut k = lo;
    while k < hi
        invariant
            lo <= k <= hi <= v@.len(),
            h == v@.subrange(lo as int, hi as int),
            spec_hex_decode(h) == prepend_ok(out@, hex_pairs(h, k - lo)),
        decreases hi - k,
    {
        let i = k - lo;
        let c = v[k];
        assert(h[i as int] == c);
        if utf8_len_exec(c) == 1 {
            if k + 1 >= hi {
                return Err(HexError::OddLength);
            }
            let d = v[k + 1];
            assert(h[i + 1] == d);
            if utf8_len_exec(d) != 1 {
                return Err(HexError::SplitsChar { offset: i });
            }
            let r = parse_int_range(v, k, k + 2, 16, false, 0, 255);
            assert(v@.subrange(k as int, k + 2) =~= seq![h[i as int], h[i + 1]]);
            match r {
                Ok(b) => {
                    let ghost before = out@;
                    out.push(b as u8);
                    assert(spec_hex_decode(h) == prepend_ok(out@, hex_pairs(h, i + 2))) by {
                        match hex_pairs(h, i + 2) {
                            Ok(rest) => {
                                assert(before + (seq![b as u8] + rest) =~= out@ + rest);
                            },
                            Err(e) => {},
                        }
                    }
                },
                Err(_) => {
                    return Err(HexError::BadDigit { offset: i });
                },
            }
            k = k + 2;
        } else if utf8_len_exec(c) == 2 {
            return Err(HexError::BadDigit { offset: i });
        } else {
            return Err(HexError::SplitsChar { offset: i });
        }
    }
    assert(out@ + Seq::<u8>::empty() =~= out@);
    Ok(out)
}

proof fn lemma_digit_char(d: int)
    requires
        0 <= d < 16,
    ensures
        digit_value(digit_char(d), 16) == d,
        d < 10 ==> digit_value(digit_char(d), 10) == d,
        utf8_len(digit_char(d)) == 1,
        digit_char(d) != '+' && digit_char(d) != '-',
{
}

proof fn lemma_hex_text_total(h: Seq<char>)
    requires
        forall|i: int| 0 <= i < h.len() ==> utf8_len(#[trigger] h[i]) == 1,
    ensures
        utf8_total(h) == h.len(),
    decreases h.len(),
{
    if h.len() > 0 {
        lemma_hex_text_total(h.drop_last());
    }
}

proof fn lemma_hex_pairs_of_text(bytes: Seq<u8>, j: int)
    requires
        0 <= j <= bytes.len(),
    ensures
        hex_pairs(hex_text(bytes), 2 * j) == Ok::<Seq<u8>, HexError>(bytes.skip(j)),
    decreases bytes.len() - j,
{
    let h = hex_text(bytes);
    if j < bytes.len() {
        lemma_hex_pairs_of_text(bytes, j + 1);
        let b = bytes[j];
        let hi = b as int / 16;
        let lo = b as int % 16;
        lemma_digit_char(hi);
        lemma_digit_char(lo);
        assert(h[2 * j] == digit_char(hi));
        assert(h[2 * j + 1] == digit_char(lo));
        let pair = seq![h[2 * j], h[2 * j + 1]];
        assert(parse_int(pair, 16, false, 0, 255) == Ok::<int, IntErrorKind>(b as int)) by {
            reveal_with_fuel(parse_digits, 3);
            assert(hi * 16 + lo == b as int);
        }
        assert(seq![b] + bytes.skip(j + 1) =~= bytes.skip(j));
    } else {
        assert(bytes.skip(j) =~= Seq::<u8>::empty());
    }
}

/// Reading back bytes written in hexadecimal gives the bytes.
pub proof fn lemma_hex_roundtrip(bytes: Seq<u8>)
    ensures
        spec_hex_decode(hex_text(bytes)) == Ok::<Seq<u8>, HexError>(bytes),
{
    let h = hex_text(bytes);
    assert forall|i: int| 0 <= i < h.len() implies utf8_len(#[trigger] h[i]) == 1 by {
        lemma_digit_char(bytes[i / 2] as int / 16);
        lemma_digit_char(bytes[i / 2] as int % 16);
    }
    lemma_hex_text_total(h);
    lemma_hex_pairs_of_text(bytes, 0);
    assert(bytes.skip(0) =~= bytes);
}

/// `s` without leading and trailing `"` characters, as
/// `str::trim_matches('"')` gives it.
pub open spec fn trim_quotes(s: Seq<char>) -> Seq<char> {
    trim_quotes_end(trim_quotes_start(s))
}

pub open spec fn trim_quotes_start(s: Seq<char>) -> Seq<char>
    decreases s.len(),
{
    if s.len() > 0 && s[0] == '"' {
        trim_quotes_start(s.drop_first())
    } else {
        s
    }
}

pub open spec fn trim_quotes_end(s: Seq<char>) -> Seq<char>
    decreases s.len(),
{
    if s.len() > 0 && s.last() == '"' {
        trim_quotes_end(s.drop_last())
    } else {
        s
    }
}

/// The bounds of `v[lo..hi]` without leading and trailing `"`.
pub fn trim_quotes_range(v: &Vec<char>, lo: usize, hi: usize) -> (r: (usize, usize))
    requires
        lo <= hi <= v@.len(),
    ensures
        lo <= r.0 <= r.1 <= hi,
        v@.subrange(r.0 as int, r.1 as int) == trim_quotes(v@.subrange(lo as int, hi as int)),
{
    let mut a = lo;
    while a < hi && v[a] == '"'
        invariant
            lo <= a <= hi <= v@.len(),
            trim_quotes_start(v@.subrange(lo as int, hi as int)) == trim_quotes_start(
                v@.subrange(a as int, hi as int),
            ),
        decreases hi - a,
    {
        assert(v@.subrange(a as int, hi as int).drop_first() =~= v@.subrange(a + 1, hi as int));
        a = a + 1;
    }
    let ghost ts = v@.subrange(a as int, hi as int);
    assert(trim_quotes_start(ts) == ts);
    let mut b = hi;
    while b > a && v[b - 1] == '"'
        invariant
            lo <= a <= b <= hi <= v@.len(),
            trim_quotes_end(ts) == trim_quotes_end(v@.subrange(a as int, b as int)),
            ts == v@.subrange(a as int, hi as int),
        decreases b - a,
    {
        assert(v@.subrange(a as int, b as int).drop_last() =~= v@.subrange(a as int, b - 1));
        b = b - 1;
    }
    (a, b)
}

} // verus!
