//! Reading the textual form back: line by line, each error with the
//! number of the line it is on.
use crate::element::{element_in_range, element_max, element_min, valid_width};
use crate::params::{IspParams, IspParamsView, ParamMap};
use crate::schema::{data_bytes, valid_fields, FieldSpec, Schema};
use crate::text::{
    chars_of, spec_hex_decode, hex_decode_range, parse_int, parse_int_range, push_char, trim,
    trim_quotes, trim_quotes_range, trim_range, HexError, IntErrorKind,
};
use crate::toml::{short_name, spec_short_name};
use vstd::prelude::*;

verus! {

/// The section that lines currently belong to.
#[derive(Debug, PartialEq, Eq, Structural, Clone, Copy)]
pub enum Section {
    Meta,
    Day,
    Night,
}

/// What has been read so far.
pub struct ReadState {
    pub section: Option<Section>,
    pub day: Map<Seq<char>, Seq<i64>>,
    pub night: Map<Seq<char>, Seq<i64>>,
    pub day_tail: Seq<u8>,
    pub night_tail: Seq<u8>,
    pub profile_bytes: nat,
}

/// Why a text was refused, with its line number (counted from 1).
pub enum TomlErrorView {
    ExpectedKeyValue { line: nat },
    DataBeforeSection { line: nat },
    BadProfileBytes { line: nat, kind: IntErrorKind },
    BadHex { line: nat, error: HexError },
    UnknownField { line: nat, key: Seq<char> },
    BadValue { line: nat, text: Seq<char>, kind: IntErrorKind },
    WrongCount { line: nat, key: Seq<char>, expected: nat, got: nat },
    OutOfRange { line: nat, key: Seq<char>, value: int, min: int, max: int },
    MissingField { night: bool, name: Seq<char> },
}

/// Why a text was refused.
#[derive(Debug, Clone)]
pub enum TomlError {
    /// A line that is not a section header, comment or `KEY = VALUE`.
    ExpectedKeyValue { line: usize },
    /// A `KEY = VALUE` line before the first section header.
    DataBeforeSection { line: usize },
    /// The value of `profile_bytes` is not a `usize`.
    BadProfileBytes { line: usize, kind: IntErrorKind },
    /// The value of `day_tail` or `night_tail` is not hexadecimal bytes.
    BadHex { line: usize, error: HexError },
    /// A field line whose name is not in the layout.
    UnknownField { line: usize, key: String },
    /// A value that is not an `i64`.
    BadValue { line: usize, text: String, kind: IntErrorKind },
    /// A field line with the wrong number of values.
    WrongCount { line: usize, key: String, expected: usize, got: usize },
    /// A value outside the range of its field's element type.
    OutOfRange { line: usize, key: String, value: i64, min: i64, max: i64 },
    /// A field of the layout that a section does not set.
    MissingField { night: bool, name: String },
}

impl View for TomlError {
    type V = TomlErrorView;

    open spec fn view(&self) -> TomlErrorView {
        match *self {
            TomlError::ExpectedKeyValue { line } => TomlErrorView::ExpectedKeyValue { line: line as nat },
            TomlError::DataBeforeSection { line } => TomlErrorView::DataBeforeSection { line: line as nat },
            TomlError::BadProfileBytes { line, kind } => TomlErrorView::BadProfileBytes {
                line: line as nat,
                kind,
            },
            TomlError::BadHex { line, error } => TomlErrorView::BadHex { line: line as nat, error },
            TomlError::UnknownField { line, key } => TomlErrorView::UnknownField {
                line: line as nat,
                key: key@,
            },
            TomlError::BadValue { line, text, kind } => TomlErrorView::BadValue {
                line: line as nat,
                text: text@,
                kind,
            },
            TomlError::WrongCount { line, key, expected, got } => TomlErrorView::WrongCount {
                line: line as nat,
                key: key@,
                expected: expected as nat,
                got: got as nat,
            },
            TomlError::OutOfRange { line, key, value, min, max } => TomlErrorView::OutOfRange {
                line: line as nat,
                key: key@,
                value: value as int,
                min: min as int,
                max: max as int,
            },
            TomlError::MissingField { night, name } => TomlErrorView::MissingField {
                night,
                name: name@,
            },
        }
    }
}

/// The index of the first `c` in `s`, or `-1`.
pub open spec fn index_of(s: Seq<char>, c: char) -> int
    decreases s.len(),
{
    if s.len() == 0 {
        -1
    } else if s[0] == c {
        0
    } else {
        let r = index_of(s.drop_first(), c);
        if r < 0 {
            -1
        } else {
            r + 1
        }
    }
}

pub proof fn lemma_index_of(s: Seq<char>, c: char)
    ensures
        -1 <= index_of(s, c) < s.len(),
        index_of(s, c) >= 0 ==> s[index_of(s, c)] == c,
        forall|j: int| 0 <= j < s.len() && (index_of(s, c) < 0 || j < index_of(s, c)) ==> s[j] != c,
    decreases s.len(),
{
    if s.len() > 0 {
        lemma_index_of(s.drop_first(), c);
        assert forall|j: int|
            0 <= j < s.len() && (index_of(s, c) < 0 || j < index_of(s, c)) implies s[j] != c by {
            if j > 0 {
                assert(s[j] == s.drop_first()[j - 1]);
            }
        }
    }
}

/// The index of the last field whose short name is `key`, among the first
/// `n`, or `-1`.
pub open spec fn lookup_field(fields: Seq<FieldSpec>, key: Seq<char>, n: int) -> int
    decreases n,
{
    if n <= 0 {
        -1
    } else if spec_short_name(fields[n - 1].name@) == key {
        n - 1
    } else {
        lookup_field(fields, key, n - 1)
    }
}

/// `s` without a surrounding `[` and `]`, when it has both.
pub open spec fn strip_brackets(s: Seq<char>) -> Seq<char> {
    if s.len() >= 2 && s[0] == '[' && s.last() == ']' {
        s.subrange(1, s.len() - 1)
    } else {
        s
    }
}

/// The comma-separated values in `s`, each trimmed and read as an `i64`;
/// the first that is not one gives its text and why.
pub open spec fn parse_values(s: Seq<char>) -> Result<Seq<i64>, (Seq<char>, IntErrorKind)>
    decreases s.len(),
{
    let i = index_of(s, ',');
    let piece = trim(
        if i < 0 {
            s
        } else {
            s.take(i)
        },
    );
    match parse_int(piece, 10, true, i64::MIN as int, i64::MAX as int) {
        Err(k) => Err((piece, k)),
        Ok(v) => if i < 0 {
            Ok(seq![v as i64])
        } else {
            proof {
                lemma_index_of(s, ',');
            }
            match parse_values(s.skip(i + 1)) {
                Ok(rest) => Ok(seq![v as i64] + rest),
                Err(e) => Err(e),
            }
        },
    }
}

/// The index of the first of `vals[k..]` outside the element range, or `-1`.
pub open spec fn range_violation(vals: Seq<i64>, w: nat, signed: bool, k: int) -> int
    decreases vals.len() - k,
{
    if k >= vals.len() || k < 0 {
        -1
    } else if !element_in_range(vals[k] as int, w, signed) {
        k
    } else {
        range_violation(vals, w, signed, k + 1)
    }
}

/// A field line `key = val` in the day (or night) section.
pub open spec fn field_step(
    fields: Seq<FieldSpec>,
    st: ReadState,
    line: nat,
    night: bool,
    key: Seq<char>,
    val: Seq<char>,
) -> Result<ReadState, TomlErrorView> {
    let i = lookup_field(fields, key, fields.len() as int);
    if i < 0 {
        Err(TomlErrorView::UnknownField { line, key })
    } else {
        let f = fields[i];
        let w = f.elem_bytes as nat;
        match parse_values(strip_brackets(val)) {
            Err((text, kind)) => Err(TomlErrorView::BadValue { line, text, kind }),
            Ok(vals) => if vals.len() != f.cols {
                Err(TomlErrorView::WrongCount { line, key, expected: f.cols as nat, got: vals.len() })
            } else if range_violation(vals, w, f.signed, 0) >= 0 {
                Err(
                    TomlErrorView::OutOfRange {
                        line,
                        key,
                        value: vals[range_violation(vals, w, f.signed, 0)] as int,
                        min: element_min(w, f.signed),
                        max: element_max(w, f.signed),
                    },
                )
            } else if night {
                Ok(ReadState { night: st.night.insert(f.name@, vals), ..st })
            } else {
                Ok(ReadState { day: st.day.insert(f.name@, vals), ..st })
            },
        }
    }
}

/// A `key = val` line in the `[meta]` section; unknown keys are ignored.
pub open spec fn meta_step(st: ReadState, line: nat, key: Seq<char>, val: Seq<char>) -> Result<
    ReadState,
    TomlErrorView,
> {
    if key == "profile_bytes"@ {
        match parse_int(val, 10, false, 0, usize::MAX as int) {
            Ok(v) => Ok(ReadState { profile_bytes: v as nat, ..st }),
            Err(kind) => Err(TomlErrorView::BadProfileBytes { line, kind }),
        }
    } else if key == "day_tail"@ {
        match spec_hex_decode(trim_quotes(val)) {
            Ok(b) => Ok(ReadState { day_tail: b, ..st }),
            Err(error) => Err(TomlErrorView::BadHex { line, error }),
        }
    } else if key == "night_tail"@ {
        match spec_hex_decode(trim_quotes(val)) {
            Ok(b) => Ok(ReadState { night_tail: b, ..st }),
            Err(error) => Err(TomlErrorView::BadHex { line, error }),
        }
    } else {
        Ok(st)
    }
}

/// One line, numbered `line`.
pub open spec fn line_step(fields: Seq<FieldSpec>, st: ReadState, line: nat, raw: Seq<char>) -> Result<
    ReadState,
    TomlErrorView,
> {
    let t = trim(raw);
    if t.len() == 0 || t[0] == '#' {
        Ok(st)
    } else if t == "[meta]"@ {
        Ok(ReadState { section: Some(Section::Meta), ..st })
    } else if t == "[day]"@ {
        Ok(ReadState { section: Some(Section::Day), ..st })
    } else if t == "[night]"@ {
        Ok(ReadState { section: Some(Section::Night), ..st })
    } else {
        let e = index_of(t, '=');
        if e < 0 {
            Err(TomlErrorView::ExpectedKeyValue { line })
        } else {
            let key = trim(t.take(e));
            let val = trim(t.skip(e + 1));
            match st.section {
                None => Err(TomlErrorView::DataBeforeSection { line }),
                Some(Section::Meta) => meta_step(st, line, key, val),
                Some(Section::Day) => field_step(fields, st, line, false, key, val),
                Some(Section::Night) => field_step(fields, st, line, true, key, val),
            }
        }
    }
}

/// A line indented with a tab or a space, or with one after it, reads as
/// the line itself.
pub proof fn lemma_line_step_indent(fields: Seq<FieldSpec>, st: ReadState, line: nat, raw: Seq<char>)
    ensures
        line_step(fields, st, line, seq!['\t'] + raw) == line_step(fields, st, line, raw),
        line_step(fields, st, line, seq![' '] + raw) == line_step(fields, st, line, raw),
        line_step(fields, st, line, raw + seq!['\t']) == line_step(fields, st, line, raw),
        line_step(fields, st, line, raw + seq![' ']) == line_step(fields, st, line, raw),
{
    crate::text::lemma_white_chars('\t');
    crate::text::lemma_white_chars(' ');
    crate::text::lemma_trim_white_ends(raw, '\t');
    crate::text::lemma_trim_white_ends(raw, ' ');
}

/// Reads the lines of `t`, the first numbered `line`. Lines end at a line
/// feed; a carriage return before it is white space that trimming removes.
pub open spec fn read_lines(fields: Seq<FieldSpec>, st: ReadState, t: Seq<char>, line: nat) -> Result<
    ReadState,
    TomlErrorView,
>
    decreases t.len(),
{
    if t.len() == 0 {
        Ok(st)
    } else {
        let i = index_of(t, '\n');
        proof {
            lemma_index_of(t, '\n');
        }
        let raw = if i < 0 {
            t
        } else {
            t.take(i)
        };
        let rest = if i < 0 {
            Seq::empty()
        } else {
            t.skip(i + 1)
        };
        match line_step(fields, st, line, raw) {
            Ok(s2) => read_lines(fields, s2, rest, line + 1),
            Err(e) => Err(e),
        }
    }
}

/// The first field, from `k` on, that the day or the night section lacks.
pub open spec fn missing_field(fields: Seq<FieldSpec>, st: ReadState, k: int) -> Option<TomlErrorView>
    decreases fields.len() - k,
{
    if k >= fields.len() || k < 0 {
        None
    } else if !st.day.contains_key(fields[k].name@) {
        Some(TomlErrorView::MissingField { night: false, name: fields[k].name@ })
    } else if !st.night.contains_key(fields[k].name@) {
        Some(TomlErrorView::MissingField { night: true, name: fields[k].name@ })
    } else {
        missing_field(fields, st, k + 1)
    }
}

/// The state before the first line.
pub open spec fn initial_state(fields: Seq<FieldSpec>) -> ReadState {
    ReadState {
        section: None,
        day: Map::empty(),
        night: Map::empty(),
        day_tail: Seq::empty(),
        night_tail: Seq::empty(),
        profile_bytes: data_bytes(fields) as nat,
    }
}

/// What reading the text `t` gives.
pub open spec fn spec_from_toml(schema: Schema, t: Seq<char>) -> Result<IspParamsView, TomlErrorView> {
    let fields = schema.fields@;
    match read_lines(fields, initial_state(fields), t, 1) {
        Err(e) => Err(e),
        Ok(st) => match missing_field(fields, st, 0) {
            Some(e) => Err(e),
            None => Ok(
                IspParamsView {
                    day: st.day,
                    night: st.night,
                    day_tail: st.day_tail,
                    night_tail: st.night_tail,
                    profile_bytes: st.profile_bytes,
                },
            ),
        },
    }
}

/// The position of the first `c` in `v[lo..hi]`, or `hi`.
pub(crate) fn find_char(v: &Vec<char>, lo: usize, hi: usize, c: char) -> (r: usize)
    requires
        lo <= hi <= v@.len(),
    ensures
        lo <= r <= hi,
        r == if index_of(v@.subrange(lo as int, hi as int), c) < 0 {
            hi as int
        } else {
            lo + index_of(v@.subrange(lo as int, hi as int), c)
        },
{
    let ghost s = v@.subrange(lo as int, hi as int);
    proof {
        lemma_index_of(s, c);
    }
    let mut k = lo;
    while k < hi
        invariant
            lo <= k <= hi <= v@.len(),
            s == v@.subrange(lo as int, hi as int),
            forall|j: int| lo <= j < k ==> v@[j] != c,
            -1 <= index_of(s, c) < s.len(),
            index_of(s, c) >= 0 ==> s[index_of(s, c)] == c,
            forall|j: int| 0 <= j < s.len() && (index_of(s, c) < 0 || j < index_of(s, c)) ==> s[j] != c,
        decreases hi - k,
    {
        if v[k] == c {
            proof {
                assert(s[k - lo] == c);
                if index_of(s, c) >= 0 {
                    assert(s[index_of(s, c)] == v@[lo + index_of(s, c)]);
                }
            }
            return k;
        }
        k = k + 1;
    }
    proof {
        if index_of(s, c) >= 0 {
            assert(s[index_of(s, c)] == v@[lo + index_of(s, c)]);
        }
    }
    hi
}

/// Whether `v[lo..hi]` is `w`.
pub(crate) fn range_eq(v: &Vec<char>, lo: usize, hi: usize, w: &Vec<char>) -> (r: bool)
    requires
        lo <= hi <= v@.len(),
    ensures
        r == (v@.subrange(lo as int, hi as int) == w@),
{
    if hi - lo != w.len() {
        return false;
    }
    let mut k: usize = 0;
    while k < w.len()
        invariant
            lo <= hi <= v@.len(),
            hi - lo == w@.len(),
            k <= w@.len(),
            v@.subrange(lo as int, lo + k) == w@.take(k as int),
        decreases w@.len() - k,
    {
        if v[lo + k] != w[k] {
            assert(v@.subrange(lo as int, hi as int)[k as int] != w@[k as int]);
            return false;
        }
        assert(v@.subrange(lo as int, lo + k + 1) =~= v@.subrange(lo as int, lo + k).push(v@[lo + k]));
        assert(w@.take(k + 1) =~= w@.take(k as int).push(w@[k as int]));
        k = k + 1;
    }
    assert(w@.take(w@.len() as int) =~= w@);
    true
}

/// The text `v[lo..hi]` as a `String`.
pub(crate) fn string_of_range(v: &Vec<char>, lo: usize, hi: usize) -> (r: String)
    requires
        lo <= hi <= v@.len(),
    ensures
        r@ == v@.subrange(lo as int, hi as int),
{
    let mut s = String::new();
    let mut k = lo;
    while k < hi
        invariant
            lo <= k <= hi <= v@.len(),
            s@ =~= v@.subrange(lo as int, k as int),
        decreases hi - k,
    {
        push_char(&mut s, v[k]);
        k = k + 1;
    }
    s
}

/// The short names of the fields, in order.
pub open spec fn shorts_match(fields: Seq<FieldSpec>, shorts: Seq<Vec<char>>) -> bool {
    &&& shorts.len() == fields.len()
    &&& forall|i: int| 0 <= i < fields.len() ==> #[trigger] shorts[i]@ == spec_short_name(fields[i].name@)
}

fn lookup_field_exec(
    fields: &Vec<FieldSpec>,
    shorts: &Vec<Vec<char>>,
    v: &Vec<char>,
    lo: usize,
    hi: usize,
) -> (r: Option<usize>)
    requires
        lo <= hi <= v@.len(),
        shorts_match(fields@, shorts@),
    ensures
        match r {
            Some(i) => i == lookup_field(fields@, v@.subrange(lo as int, hi as int), fields@.len() as int)
                && i < fields@.len(),
            None => lookup_field(fields@, v@.subrange(lo as int, hi as int), fields@.len() as int) < 0,
        },
{
    let ghost key = v@.subrange(lo as int, hi as int);
    let mut n = shorts.len();
    while n > 0
        invariant
            n <= fields@.len(),
            lo <= hi <= v@.len(),
            key == v@.subrange(lo as int, hi as int),
            shorts_match(fields@, shorts@),
            lookup_field(fields@, key, fields@.len() as int) == lookup_field(fields@, key, n as int),
        decreases n,
    {
        if range_eq(v, lo, hi, &shorts[n - 1]) {
            assert(shorts@[n - 1]@ == spec_short_name(fields@[n - 1].name@));
            return Some(n - 1);
        }
        assert(shorts@[n - 1]@ == spec_short_name(fields@[n - 1].name@));
        n = n - 1;
    }
    None
}

pub open spec fn prepend_values(
    p: Seq<i64>,
    r: Result<Seq<i64>, (Seq<char>, IntErrorKind)>,
) -> Result<Seq<i64>, (Seq<char>, IntErrorKind)> {
    match r {
        Ok(b) => Ok(p + b),
        Err(e) => Err(e),
    }
}

/// Reads the comma-separated values of `v[lo..hi]` (see `parse_values`);
/// an error gives the bounds of the offending text.
fn parse_values_exec(v: &Vec<char>, lo: usize, hi: usize) -> (r: Result<
    Vec<i64>,
    (usize, usize, IntErrorKind),
>)
    requires
        lo <= hi <= v@.len(),
    ensures
        match (r, parse_values(v@.subrange(lo as int, hi as int))) {
            (Ok(x), Ok(y)) => x@ == y,
            (Err((a, b, k)), Err((t, k2))) => a <= b <= v@.len() && v@.subrange(a as int, b as int)
                == t && k == k2,
            _ => false,
        },
{
    let mut out: Vec<i64> = Vec::new();
    let mut k = lo;
    loop
        invariant
            lo <= k <= hi <= v@.len(),
            parse_values(v@.subrange(lo as int, hi as int)) == prepend_values(
                out@,
                parse_values(v@.subrange(k as int, hi as int)),
            ),
        decreases hi - k,
    {
        let ghost s = v@.subrange(k as int, hi as int);
        proof {
            lemma_index_of(s, ',');
        }
        let c = find_char(v, k, hi, ',');
        assert(v@.subrange(k as int, c as int) =~= if index_of(s, ',') < 0 {
            s
        } else {
            s.take(index_of(s, ','))
        });
        let (a, b) = trim_range(v, k, c);
        match parse_int_range(v, a, b, 10, true, i64::MIN as i128, i64::MAX as i128) {
            Err(kind) => {
                return Err((a, b, kind));
            },
            Ok(x) => {
                let ghost before = out@;
                out.push(x as i64);
                if c == hi {
                    assert(prepend_values(before, parse_values(s)) == Ok::<
                        Seq<i64>,
                        (Seq<char>, IntErrorKind),
                    >(out@)) by {
                        assert(before + seq![x as i64] =~= out@);
                    }
                    return Ok(out);
                }
                assert(v@.subrange(c + 1, hi as int) =~= s.skip(index_of(s, ',') + 1));
                assert(parse_values(v@.subrange(lo as int, hi as int)) == prepend_values(
                    out@,
                    parse_values(v@.subrange(c + 1, hi as int)),
                )) by {
                    match parse_values(v@.subrange(c + 1, hi as int)) {
                        Ok(rest) => {
                            assert(before + (seq![x as i64] + rest) =~= out@ + rest);
                        },
                        Err(e) => {},
                    }
                }
                k = c + 1;
            },
        }
    }
}

fn element_bounds(w: usize, signed: bool) -> (r: (i64, i64))
    requires
        valid_width(w as nat),
    ensures
        r.0 == element_min(w as nat, signed),
        r.1 == element_max(w as nat, signed),
{
    if w == 1 {
        if signed {
            (-128, 127)
        } else {
            (0, 255)
        }
    } else if w == 2 {
        if signed {
            (-32768, 32767)
        } else {
            (0, 65535)
        }
    } else {
        if signed {
            (-2147483648, 2147483647)
        } else {
            (0, 4294967295)
        }
    }
}

fn range_violation_exec(vals: &Vec<i64>, w: usize, signed: bool) -> (r: Option<usize>)
    requires
        valid_width(w as nat),
    ensures
        match r {
            Some(i) => i == range_violation(vals@, w as nat, signed, 0) && i < vals@.len(),
            None => range_violation(vals@, w as nat, signed, 0) < 0,
        },
{
    let (lo, hi) = element_bounds(w, signed);
    let mut k: usize = 0;
    while k < vals.len()
        invariant
            k <= vals@.len(),
            lo == element_min(w as nat, signed),
            hi == element_max(w as nat, signed),
            range_violation(vals@, w as nat, signed, 0) == range_violation(vals@, w as nat, signed, k as int),
        decreases vals@.len() - k,
    {
        if vals[k] < lo || vals[k] > hi {
            return Some(k);
        }
        k = k + 1;
    }
    None
}

/// What has been read so far.
struct Reader {
    section: Option<Section>,
    day: ParamMap,
    night: ParamMap,
    day_tail: Vec<u8>,
    night_tail: Vec<u8>,
    profile_bytes: usize,
}

impl View for Reader {
    type V = ReadState;

    closed spec fn view(&self) -> ReadState {
        ReadState {
            section: self.section,
            day: self.day@,
            night: self.night@,
            day_tail: self.day_tail@,
            night_tail: self.night_tail@,
            profile_bytes: self.profile_bytes as nat,
        }
    }
}

/// The words that lines are compared with.
struct Words {
    meta: Vec<char>,
    day: Vec<char>,
    night: Vec<char>,
    profile_bytes: Vec<char>,
    day_tail: Vec<char>,
    night_tail: Vec<char>,
}

impl Words {
    spec fn wf(&self) -> bool {
        &&& self.meta@ == "[meta]"@
        &&& self.day@ == "[day]"@
        &&& self.night@ == "[night]"@
        &&& self.profile_bytes@ == "profile_bytes"@
        &&& self.day_tail@ == "day_tail"@
        &&& self.night_tail@ == "night_tail"@
    }

    fn new() -> (r: Words)
        ensures
            r.wf(),
    {
        Words {
            meta: chars_of("[meta]"),
            day: chars_of("[day]"),
            night: chars_of("[night]"),
            profile_bytes: chars_of("profile_bytes"),
            day_tail: chars_of("day_tail"),
            night_tail: chars_of("night_tail"),
        }
    }
}

fn meta_step_exec(
    words: &Words,
    st: &mut Reader,
    v: &Vec<char>,
    ka: usize,
    kb: usize,
    va: usize,
    vb: usize,
    line: usize,
) -> (r: Result<(), TomlError>)
    requires
        words.wf(),
        ka <= kb <= v@.len(),
        va <= vb <= v@.len(),
    ensures
        match (
            r,
            meta_step(
                old(st)@,
                line as nat,
                v@.subrange(ka as int, kb as int),
                v@.subrange(va as int, vb as int),
            ),
        ) {
            (Ok(_), Ok(s2)) => final(st)@ == s2,
            (Err(e), Err(e2)) => e@ == e2,
            _ => false,
        },
{
    if range_eq(v, ka, kb, &words.profile_bytes) {
        match parse_int_range(v, va, vb, 10, false, 0, usize::MAX as i128) {
            Ok(x) => {
                st.profile_bytes = x as usize;
                Ok(())
            },
            Err(kind) => Err(TomlError::BadProfileBytes { line, kind }),
        }
    } else if range_eq(v, ka, kb, &words.day_tail) {
        let (qa, qb) = trim_quotes_range(v, va, vb);
        match hex_decode_range(v, qa, qb) {
            Ok(b) => {
                st.day_tail = b;
                Ok(())
            },
            Err(error) => Err(TomlError::BadHex { line, error }),
        }
    } else if range_eq(v, ka, kb, &words.night_tail) {
        let (qa, qb) = trim_quotes_range(v, va, vb);
        match hex_decode_range(v, qa, qb) {
            Ok(b) => {
                st.night_tail = b;
                Ok(())
            },
            Err(error) => Err(TomlError::BadHex { line, error }),
        }
    } else {
        Ok(())
    }
}

#[verifier::rlimit(50)]
fn field_step_exec(
    fields: &Vec<FieldSpec>,
    shorts: &Vec<Vec<char>>,
    st: &mut Reader,
    v: &Vec<char>,
    ka: usize,
    kb: usize,
    va: usize,
    vb: usize,
    line: usize,
    night: bool,
) -> (r: Result<(), TomlError>)
    requires
        valid_fields(fields@),
        shorts_match(fields@, shorts@),
        ka <= kb <= v@.len(),
        va <= vb <= v@.len(),
    ensures
        match (
            r,
            field_step(
                fields@,
                old(st)@,
                line as nat,
                night,
                v@.subrange(ka as int, kb as int),
                v@.subrange(va as int, vb as int),
            ),
        ) {
            (Ok(_), Ok(s2)) => final(st)@ == s2,
            (Err(e), Err(e2)) => e@ == e2,
            _ => false,
        },
{
    match lookup_field_exec(fields, shorts, v, ka, kb) {
        None => Err(TomlError::UnknownField { line, key: string_of_range(v, ka, kb) }),
        Some(i) => {
            let f = &fields[i];
            assert(valid_width(fields@[i as int].elem_bytes as nat));
            let ghost val = v@.subrange(va as int, vb as int);
            let (ia, ib) = if vb - va >= 2 && v[va] == '[' && v[vb - 1] == ']' {
                assert(v@.subrange(va + 1, vb - 1) =~= val.subrange(1, val.len() - 1));
                (va + 1, vb - 1)
            } else {
                (va, vb)
            };
            assert(v@.subrange(ia as int, ib as int) == strip_brackets(val));
            match parse_values_exec(v, ia, ib) {
                Err((x, y, kind)) => Err(
                    TomlError::BadValue { line, text: string_of_range(v, x, y), kind },
                ),
                Ok(vals) => {
                    if vals.len() != f.cols {
                        Err(
                            TomlError::WrongCount {
                                line,
                                key: string_of_range(v, ka, kb),
                                expected: f.cols,
                                got: vals.len(),
                            },
                        )
                    } else {
                        match range_violation_exec(&vals, f.elem_bytes, f.signed) {
                            Some(j) => {
                                let (min, max) = element_bounds(f.elem_bytes, f.signed);
                                Err(
                                    TomlError::OutOfRange {
                                        line,
                                        key: string_of_range(v, ka, kb),
                                        value: vals[j],
                                        min,
                                        max,
                                    },
                                )
                            },
                            None => {
                                if night {
                                    st.night.insert(f.name.clone(), vals);
                                } else {
                                    st.day.insert(f.name.clone(), vals);
                                }
                                Ok(())
                            },
                        }
                    }
                },
            }
        },
    }
}

fn step_line(
    fields: &Vec<FieldSpec>,
    shorts: &Vec<Vec<char>>,
    words: &Words,
    st: &mut Reader,
    v: &Vec<char>,
    lo: usize,
    hi: usize,
    line: usize,
) -> (r: Result<(), TomlError>)
    requires
        valid_fields(fields@),
        shorts_match(fields@, shorts@),
        words.wf(),
        lo <= hi <= v@.len(),
    ensures
        match (r, line_step(fields@, old(st)@, line as nat, v@.subrange(lo as int, hi as int))) {
            (Ok(_), Ok(s2)) => final(st)@ == s2,
            (Err(e), Err(e2)) => e@ == e2,
            _ => false,
        },
{
    let (a, b) = trim_range(v, lo, hi);
    let ghost t = v@.subrange(a as int, b as int);
    if a == b || v[a] == '#' {
        return Ok(());
    }
    if range_eq(v, a, b, &words.meta) {
        st.section = Some(Section::Meta);
        return Ok(());
    }
    if range_eq(v, a, b, &words.day) {
        st.section = Some(Section::Day);
        return Ok(());
    }
    if range_eq(v, a, b, &words.night) {
        st.section = Some(Section::Night);
        return Ok(());
    }
    proof {
        lemma_index_of(t, '=');
    }
    let e = find_char(v, a, b, '=');
    if e == b {
        return Err(TomlError::ExpectedKeyValue { line });
    }
    assert(v@.subrange(a as int, e as int) =~= t.take(e - a));
    assert(v@.subrange(e + 1, b as int) =~= t.skip(e - a + 1));
    let (ka, kb) = trim_range(v, a, e);
    let (va, vb) = trim_range(v, e + 1, b);
    match st.section {
        None => Err(TomlError::DataBeforeSection { line }),
        Some(Section::Meta) => meta_step_exec(words, st, v, ka, kb, va, vb, line),
        Some(Section::Day) => field_step_exec(fields, shorts, st, v, ka, kb, va, vb, line, false),
        Some(Section::Night) => field_step_exec(fields, shorts, st, v, ka, kb, va, vb, line, true),
    }
}

/// Reads the textual form back (see `spec_from_toml`).
#[verifier::rlimit(50)]
pub fn from_toml(schema: &Schema, text: &str) -> (r: Result<IspParams, TomlError>)
    requires
        schema.wf(),
        text@.len() < usize::MAX,
    ensures
        match (r, spec_from_toml(*schema, text@)) {
            (Ok(p), Ok(x)) => p@ == x,
            (Err(e), Err(e2)) => e@ == e2,
            _ => false,
        },
{
    let ghost fields = schema.fields@;
    let v = chars_of(text);
    let mut shorts: Vec<Vec<char>> = Vec::new();
    let mut i: usize = 0;
    while i < schema.fields.len()
        invariant
            i <= fields.len(),
            fields == schema.fields@,
            shorts@.len() == i,
            forall|j: int| 0 <= j < i ==> #[trigger] shorts@[j]@ == spec_short_name(fields[j].name@),
        decreases fields.len() - i,
    {
        shorts.push(chars_of(short_name(schema.fields[i].name.as_str()).as_str()));
        i = i + 1;
    }
    let words = Words::new();
    let mut st = Reader {
        section: None,
        day: ParamMap::new(),
        night: ParamMap::new(),
        day_tail: Vec::new(),
        night_tail: Vec::new(),
        profile_bytes: schema.params_data_bytes,
    };
    assert(st@ == initial_state(fields));
    assert(v@.skip(0) =~= v@);
    let mut pos: usize = 0;
    let mut line: usize = 1;
    while pos < v.len()
        invariant
            schema.wf(),
            fields == schema.fields@,
            shorts_match(fields, shorts@),
            words.wf(),
            v@ == text@,
            v@.len() < usize::MAX,
            pos <= v@.len(),
            1 <= line <= pos + 1,
            read_lines(fields, initial_state(fields), v@, 1) == read_lines(
                fields,
                st@,
                v@.skip(pos as int),
                line as nat,
            ),
        decreases v@.len() - pos,
    {
        let ghost t = v@.skip(pos as int);
        let ghost old_st = st@;
        let len = v.len();
        let c = find_char(&v, pos, len, '\n');
        assert(v@.subrange(pos as int, len as int) =~= t);
        proof {
            lemma_index_of(t, '\n');
        }
        assert(v@.subrange(pos as int, c as int) =~= if index_of(t, '\n') < 0 {
            t
        } else {
            t.take(index_of(t, '\n'))
        });
        match step_line(&schema.fields, &shorts, &words, &mut st, &v, pos, c, line) {
            Err(e) => {
                return Err(e);
            },
            Ok(()) => {},
        }
        if c == len {
            assert(v@.skip(len as int) =~= Seq::<char>::empty());
            pos = len;
        } else {
            assert(v@.skip(c + 1) =~= t.skip(index_of(t, '\n') + 1));
            pos = c + 1;
        }
        line = line + 1;
    }
    assert(v@.skip(pos as int) =~= Seq::<char>::empty());
    let ghost fin = st@;
    assert(read_lines(fields, initial_state(fields), text@, 1) == Ok::<ReadState, TomlErrorView>(fin));
    let mut k: usize = 0;
    while k < schema.fields.len()
        invariant
            k <= fields.len(),
            fields == schema.fields@,
            fin == st@,
            read_lines(fields, initial_state(fields), text@, 1) == Ok::<ReadState, TomlErrorView>(fin),
            missing_field(fields, fin, 0) == missing_field(fields, fin, k as int),
        decreases fields.len() - k,
    {
        let name = &schema.fields[k].name;
        if !st.day.contains_key(name.as_str()) {
            return Err(TomlError::MissingField { night: false, name: name.clone() });
        }
        if !st.night.contains_key(name.as_str()) {
            return Err(TomlError::MissingField { night: true, name: name.clone() });
        }
        k = k + 1;
    }
    Ok(
        IspParams {
            day: st.day,
            night: st.night,
            day_tail: st.day_tail,
            night_tail: st.night_tail,
            profile_bytes: st.profile_bytes,
        },
    )
}

} // verus!
