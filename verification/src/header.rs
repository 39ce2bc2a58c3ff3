//! Reading the layout from the firmware's C header `tiziano_params.h`: the
//! `#define NAME_COLS N` lines give array lengths (`N` may be a product
//! such as `30*7*5`), and the fields of the `typedef struct { ... }
//! tisp_params_data_t;` give names, element types and order.
use crate::schema::{data_bytes, fields_end, FieldSpec, FieldView, Schema};
use crate::text::{is_white, parse_int, trim, trim_start};
use crate::toml_read::{find_char, index_of, lemma_index_of, range_eq, string_of_range};
use crate::text::{chars_of, parse_int_range, trim_range};
use vstd::prelude::*;

verus! {

pub open spec fn starts_with(s: Seq<char>, p: Seq<char>) -> bool {
    s.len() >= p.len() && s.take(p.len() as int) == p
}

pub open spec fn ends_with(s: Seq<char>, p: Seq<char>) -> bool {
    s.len() >= p.len() && s.skip(s.len() - p.len()) == p
}

/// The index of the first white space character of `s`, or `-1`.
pub open spec fn white_index(s: Seq<char>) -> int
    decreases s.len(),
{
    if s.len() == 0 {
        -1
    } else if is_white(s[0]) {
        0
    } else {
        let r = white_index(s.drop_first());
        if r < 0 {
            -1
        } else {
            r + 1
        }
    }
}

pub proof fn lemma_white_index(s: Seq<char>)
    ensures
        -1 <= white_index(s) < s.len(),
        white_index(s) >= 0 ==> is_white(s[white_index(s)]),
        forall|j: int| 0 <= j < s.len() && (white_index(s) < 0 || j < white_index(s)) ==> !is_white(s[j]),
    decreases s.len(),
{
    if s.len() > 0 {
        lemma_white_index(s.drop_first());
        assert forall|j: int|
            0 <= j < s.len() && (white_index(s) < 0 || j < white_index(s)) implies !is_white(s[j]) by {
            if j > 0 {
                assert(s[j] == s.drop_first()[j - 1]);
            }
        }
    }
}

pub proof fn lemma_trim_start(s: Seq<char>)
    ensures
        trim_start(s).len() <= s.len(),
        trim_start(s).len() > 0 ==> !is_white(trim_start(s)[0]),
        trim_start(s) == s.skip(s.len() - trim_start(s).len()),
    decreases s.len(),
{
    if s.len() > 0 && is_white(s[0]) {
        lemma_trim_start(s.drop_first());
        assert(s.drop_first().skip(s.drop_first().len() - trim_start(s).len()) =~= s.skip(
            s.len() - trim_start(s).len(),
        ));
    } else {
        assert(s.skip(0) =~= s);
    }
}

/// The white-space separated words of `s`, as `str::split_whitespace`
/// gives them.
pub open spec fn tokens(s: Seq<char>) -> Seq<Seq<char>>
    decreases s.len(),
{
    let r = trim_start(s);
    if r.len() == 0 {
        Seq::empty()
    } else {
        let i = white_index(r);
        if i < 0 {
            seq![r]
        } else {
            proof {
                lemma_trim_start(s);
                lemma_white_index(r);
            }
            seq![r.take(i)] + tokens(r.skip(i))
        }
    }
}

/// The value of a `COLS` define: a decimal `u32`, or a product of
/// decimal `u32` factors separated by `*` (each factor trimmed); `None` when
/// a factor is not a `u32` or the product overflows a `u32`.
pub open spec fn eval_expr(s: Seq<char>) -> Option<int> {
    if index_of(s, '*') >= 0 {
        eval_product(s, 1)
    } else {
        match parse_int(s, 10, false, 0, u32::MAX as int) {
            Ok(v) => Some(v),
            Err(_) => None,
        }
    }
}

/// Multiplies `acc` by the `*`-separated factors of `s`, left to right.
pub open spec fn eval_product(s: Seq<char>, acc: int) -> Option<int>
    decreases s.len(),
{
    let i = index_of(s, '*');
    let piece = trim(
        if i < 0 {
            s
        } else {
            s.take(i)
        },
    );
    match parse_int(piece, 10, false, 0, u32::MAX as int) {
        Err(_) => None,
        Ok(v) => if acc * v > u32::MAX {
            None
        } else if i < 0 {
            Some(acc * v)
        } else {
            proof {
                lemma_index_of(s, '*');
            }
            eval_product(s.skip(i + 1), acc * v)
        },
    }
}

/// The first line of `t` (without its line feed).
pub open spec fn first_line(t: Seq<char>) -> Seq<char> {
    if index_of(t, '\n') < 0 {
        t
    } else {
        t.take(index_of(t, '\n'))
    }
}

/// What follows the first line of `t`.
pub open spec fn after_first_line(t: Seq<char>) -> Seq<char> {
    if index_of(t, '\n') < 0 {
        Seq::empty()
    } else {
        t.skip(index_of(t, '\n') + 1)
    }
}

pub proof fn lemma_after_first_line(t: Seq<char>)
    requires
        t.len() > 0,
    ensures
        after_first_line(t).len() < t.len(),
{
    lemma_index_of(t, '\n');
}

/// The first token of `v[lo..hi]` and where it ends, or `None` when there
/// is none.
fn next_token(v: &Vec<char>, lo: usize, hi: usize) -> (r: Option<(usize, usize)>)
    requires
        lo <= hi <= v@.len(),
    ensures
        match r {
            None => tokens(v@.subrange(lo as int, hi as int)) == Seq::<Seq<char>>::empty(),
            Some((a, b)) => lo <= a < b <= hi && tokens(v@.subrange(lo as int, hi as int)) == seq![
                v@.subrange(a as int, b as int),
            ] + tokens(v@.subrange(b as int, hi as int)),
        },
{
    let ghost s = v@.subrange(lo as int, hi as int);
    let mut a = lo;
    while a < hi && crate::text::is_white_char(v[a])
        invariant
            lo <= a <= hi <= v@.len(),
            s == v@.subrange(lo as int, hi as int),
            trim_start(s) == trim_start(v@.subrange(a as int, hi as int)),
        decreases hi - a,
    {
        assert(v@.subrange(a as int, hi as int).drop_first() =~= v@.subrange(a + 1, hi as int));
        a = a + 1;
    }
    let ghost r = v@.subrange(a as int, hi as int);
    assert(trim_start(r) == r);
    if a == hi {
        return None;
    }
    let mut b = a;
    while b < hi && !crate::text::is_white_char(v[b])
        invariant
            a <= b <= hi <= v@.len(),
            forall|j: int| a <= j < b ==> !is_white(v@[j]),
        decreases hi - b,
    {
        b = b + 1;
    }
    proof {
        lemma_white_index(r);
        let i = white_index(r);
        if b < hi {
            assert(is_white(r[b - a]));
            if i >= 0 {
                assert(r[i] == v@[a + i]);
            }
            assert(i == b - a);
            assert(r.take(i) =~= v@.subrange(a as int, b as int));
            assert(r.skip(i) =~= v@.subrange(b as int, hi as int));
        } else {
            if i >= 0 {
                assert(r[i] == v@[a + i]);
            }
            assert(i < 0);
            assert(r =~= v@.subrange(a as int, b as int));
            assert(v@.subrange(b as int, hi as int) =~= Seq::<char>::empty());
            assert(tokens(Seq::<char>::empty()) == Seq::<Seq<char>>::empty());
            assert(seq![r] + Seq::<Seq<char>>::empty() =~= seq![r]);
        }
    }
    Some((a, b))
}

/// The value of the `COLS` expression `v[lo..hi]` (see `eval_expr`).
fn eval_expr_exec(v: &Vec<char>, lo: usize, hi: usize) -> (r: Option<u32>)
    requires
        lo <= hi <= v@.len(),
    ensures
        match (r, eval_expr(v@.subrange(lo as int, hi as int))) {
            (Some(x), Some(y)) => x == y,
            (None, None) => true,
            _ => false,
        },
{
    let ghost s = v@.subrange(lo as int, hi as int);
    let star = find_char(v, lo, hi, '*');
    if star == hi {
        proof {
            lemma_index_of(s, '*');
        }
        return match parse_int_range(v, lo, hi, 10, false, 0, u32::MAX as i128) {
            Ok(x) => Some(x as u32),
            Err(_) => None,
        };
    }
    let mut acc: u64 = 1;
    let mut k = lo;
    loop
        invariant
            lo <= k <= hi <= v@.len(),
            s == v@.subrange(lo as int, hi as int),
            acc <= u32::MAX,
            eval_expr(s) == eval_product(v@.subrange(k as int, hi as int), acc as int),
        decreases hi - k,
    {
        let ghost t = v@.subrange(k as int, hi as int);
        proof {
            lemma_index_of(t, '*');
        }
        let c = find_char(v, k, hi, '*');
        assert(v@.subrange(k as int, c as int) =~= if index_of(t, '*') < 0 {
            t
        } else {
            t.take(index_of(t, '*'))
        });
        let (a, b) = trim_range(v, k, c);
        match parse_int_range(v, a, b, 10, false, 0, u32::MAX as i128) {
            Err(_) => {
                return None;
            },
            Ok(x) => {
                let xv = x as u64;
                assert(acc * xv <= 0xffff_ffff * 0xffff_ffff) by (nonlinear_arith)
                    requires
                        acc <= 0xffff_ffff,
                        xv <= 0xffff_ffff,
                ;
                let prod = acc * xv;
                if prod > u32::MAX as u64 {
                    return None;
                }
                if c == hi {
                    return Some(prod as u32);
                }
                assert(v@.subrange(c + 1, hi as int) =~= t.skip(index_of(t, '*') + 1));
                acc = prod;
                k = c + 1;
            },
        }
    }
}

/// The `COLS` values defined so far: a later entry for a name replaces an
/// earlier one.
pub open spec fn cols_map(s: Seq<(Vec<char>, u32)>) -> Map<Seq<char>, u32>
    decreases s.len(),
{
    if s.len() == 0 {
        Map::empty()
    } else {
        cols_map(s.drop_last()).insert(s.last().0@, s.last().1)
    }
}

/// The value of the last entry for `key`, searching `s[..n]`.
fn cols_lookup(s: &Vec<(Vec<char>, u32)>, key: &Vec<char>) -> (r: Option<u32>)
    ensures
        match r {
            Some(x) => cols_map(s@).contains_key(key@) && cols_map(s@)[key@] == x,
            None => !cols_map(s@).contains_key(key@),
        },
{
    let mut n = s.len();
    assert(s@.take(n as int) =~= s@);
    while n > 0
        invariant
            n <= s@.len(),
            cols_map(s@).contains_key(key@) == cols_map(s@.take(n as int)).contains_key(key@),
            cols_map(s@).contains_key(key@) ==> cols_map(s@)[key@] == cols_map(s@.take(n as int))[key@],
        decreases n,
    {
        let ghost pre = s@.take(n as int);
        assert(pre.drop_last() =~= s@.take(n - 1));
        assert(pre.last() == s@[n - 1]);
        if range_eq_vec(&s[n - 1].0, key) {
            return Some(s[n - 1].1);
        }
        n = n - 1;
    }
    assert(s@.take(0) =~= Seq::<(Vec<char>, u32)>::empty());
    None
}

fn range_eq_vec(a: &Vec<char>, b: &Vec<char>) -> (r: bool)
    ensures
        r == (a@ == b@),
{
    let r = range_eq(a, 0, a.len(), b);
    assert(a@.subrange(0, a@.len() as int) =~= a@);
    r
}

/// One line of the header in the pass over `#define`s.
pub open spec fn define_line(m: Map<Seq<char>, u32>, raw: Seq<char>) -> Map<Seq<char>, u32> {
    let t = trim(raw);
    if starts_with(t, "#define "@) {
        let parts = tokens(t.skip(8));
        if parts.len() == 2 && ends_with(parts[0], "_COLS"@) {
            match eval_expr(parts[1]) {
                Some(n) => m.insert(parts[0], n as u32),
                None => m,
            }
        } else {
            m
        }
    } else {
        m
    }
}

/// The `COLS` values that the lines of `t` define, on top of `m`.
pub open spec fn defines(m: Map<Seq<char>, u32>, t: Seq<char>) -> Map<Seq<char>, u32>
    decreases t.len(),
{
    if t.len() == 0 {
        m
    } else {
        proof {
            lemma_after_first_line(t);
        }
        defines(define_line(m, first_line(t)), after_first_line(t))
    }
}

fn starts_with_range(v: &Vec<char>, lo: usize, hi: usize, p: &Vec<char>) -> (r: bool)
    requires
        lo <= hi <= v@.len(),
    ensures
        r == starts_with(v@.subrange(lo as int, hi as int), p@),
{
    if hi - lo < p.len() {
        return false;
    }
    let r = range_eq(v, lo, lo + p.len(), p);
    assert(v@.subrange(lo as int, hi as int).take(p@.len() as int) =~= v@.subrange(
        lo as int,
        lo + p@.len(),
    ));
    r
}

fn ends_with_range(v: &Vec<char>, lo: usize, hi: usize, p: &Vec<char>) -> (r: bool)
    requires
        lo <= hi <= v@.len(),
    ensures
        r == ends_with(v@.subrange(lo as int, hi as int), p@),
{
    if hi - lo < p.len() {
        return false;
    }
    let r = range_eq(v, hi - p.len(), hi, p);
    assert(v@.subrange(lo as int, hi as int).skip(hi - lo - p@.len()) =~= v@.subrange(
        hi - p@.len(),
        hi as int,
    ));
    r
}

fn chars_range(v: &Vec<char>, lo: usize, hi: usize) -> (r: Vec<char>)
    requires
        lo <= hi <= v@.len(),
    ensures
        r@ == v@.subrange(lo as int, hi as int),
{
    let mut out: Vec<char> = Vec::new();
    let mut k = lo;
    while k < hi
        invariant
            lo <= k <= hi <= v@.len(),
            out@ =~= v@.subrange(lo as int, k as int),
        decreases hi - k,
    {
        out.push(v[k]);
        k = k + 1;
    }
    out
}

fn define_line_exec(
    entries: &mut Vec<(Vec<char>, u32)>,
    v: &Vec<char>,
    lo: usize,
    hi: usize,
    define_word: &Vec<char>,
    cols_word: &Vec<char>,
)
    requires
        lo <= hi <= v@.len(),
        define_word@ == "#define "@,
        cols_word@ == "_COLS"@,
    ensures
        cols_map(final(entries)@) == define_line(cols_map(old(entries)@), v@.subrange(lo as int, hi as int)),
{
    proof {
        reveal_strlit("#define ");
    }
    let (a, b) = trim_range(v, lo, hi);
    let ghost t = v@.subrange(a as int, b as int);
    if !starts_with_range(v, a, b, define_word) {
        return;
    }
    assert(t.skip(8) =~= v@.subrange(a + 8, b as int));
    let t1 = next_token(v, a + 8, b);
    match t1 {
        None => {},
        Some((a1, b1)) => {
            let t2 = next_token(v, b1, b);
            match t2 {
                None => {
                    assert(tokens(v@.subrange(b1 as int, b as int)) == Seq::<Seq<char>>::empty());
                },
                Some((a2, b2)) => {
                    let t3 = next_token(v, b2, b);
                    if t3.is_some() {
                        return;
                    }
                    let ghost parts = tokens(t.skip(8));
                    assert(parts =~= seq![v@.subrange(a1 as int, b1 as int), v@.subrange(a2 as int, b2 as int)]);
                    if ends_with_range(v, a1, b1, cols_word) {
                        match eval_expr_exec(v, a2, b2) {
                            Some(n) => {
                                let ghost before = entries@;
                                entries.push((chars_range(v, a1, b1), n));
                                assert(entries@.drop_last() =~= before);
                            },
                            None => {},
                        }
                    }
                },
            }
        },
    }
}

/// The `COLS` values that the header `v` defines (see `defines`).
fn define_pass(v: &Vec<char>) -> (r: Vec<(Vec<char>, u32)>)
    ensures
        cols_map(r@) == defines(Map::empty(), v@),
{
    let define_word = chars_of("#define ");
    let cols_word = chars_of("_COLS");
    let mut entries: Vec<(Vec<char>, u32)> = Vec::new();
    let mut pos: usize = 0;
    assert(v@.skip(0) =~= v@);
    assert(cols_map(entries@) == Map::<Seq<char>, u32>::empty());
    while pos < v.len()
        invariant
            pos <= v@.len(),
            define_word@ == "#define "@,
            cols_word@ == "_COLS"@,
            defines(Map::empty(), v@) == defines(cols_map(entries@), v@.skip(pos as int)),
        decreases v@.len() - pos,
    {
        let ghost t = v@.skip(pos as int);
        let len = v.len();
        let c = find_char(v, pos, len, '\n');
        assert(v@.subrange(pos as int, len as int) =~= t);
        proof {
            lemma_index_of(t, '\n');
        }
        assert(v@.subrange(pos as int, c as int) =~= first_line(t));
        define_line_exec(&mut entries, v, pos, c, &define_word, &cols_word);
        if c == len {
            assert(v@.skip(len as int) =~= after_first_line(t));
            pos = len;
        } else {
            assert(v@.skip(c + 1) =~= after_first_line(t));
            pos = c + 1;
        }
    }
    assert(v@.skip(pos as int) =~= Seq::<char>::empty());
    entries
}

/// Why a header gives no layout.
#[derive(Debug, Clone)]
pub enum HeaderError {
    /// A field whose `NAME_COLS` is not defined.
    MissingCols { name: String },
    /// The structure has no fields.
    NoFields,
    /// The layout's size does not fit in a `usize`.
    TooLarge,
}

pub enum HeaderErrorView {
    MissingCols { name: Seq<char> },
    NoFields,
    TooLarge,
}

impl View for HeaderError {
    type V = HeaderErrorView;

    open spec fn view(&self) -> HeaderErrorView {
        match *self {
            HeaderError::MissingCols { name } => HeaderErrorView::MissingCols { name: name@ },
            HeaderError::NoFields => HeaderErrorView::NoFields,
            HeaderError::TooLarge => HeaderErrorView::TooLarge,
        }
    }
}

/// The element type that a field declaration starts with: the length of
/// its type word and the space after it, the width, and the signedness.
pub open spec fn decl_type(l: Seq<char>) -> Option<(int, nat, bool)> {
    if starts_with(l, "uint32_t "@) {
        Some(("uint32_t "@.len() as int, 4, false))
    } else if starts_with(l, "int32_t "@) {
        Some(("int32_t "@.len() as int, 4, true))
    } else if starts_with(l, "uint16_t "@) {
        Some(("uint16_t "@.len() as int, 2, false))
    } else if starts_with(l, "int16_t "@) {
        Some(("int16_t "@.len() as int, 2, true))
    } else if starts_with(l, "uint8_t "@) {
        Some(("uint8_t "@.len() as int, 1, false))
    } else if starts_with(l, "int8_t "@) {
        Some(("int8_t "@.len() as int, 1, true))
    } else {
        None
    }
}

/// The field that the trimmed line `l` inside the structure declares: an
/// array with a name starting with `TISP_`, whose length is the value of
/// `NAME_COLS`.
pub open spec fn field_decl(cols: Map<Seq<char>, u32>, l: Seq<char>) -> Result<
    Option<FieldView>,
    HeaderErrorView,
> {
    match decl_type(l) {
        None => Ok(None),
        Some((plen, w, signed)) => {
            let rest = l.skip(plen);
            let b = index_of(rest, '[');
            if b < 0 {
                Ok(None)
            } else {
                let name = trim(rest.take(b));
                if starts_with(name, "TISP_"@) {
                    let key = name + "_COLS"@;
                    if cols.contains_key(key) {
                        Ok(Some(FieldView { name, cols: cols[key] as nat, elem_bytes: w, signed }))
                    } else {
                        Err(HeaderErrorView::MissingCols { name })
                    }
                } else {
                    Ok(None)
                }
            }
        },
    }
}

/// The fields that the lines of `t` declare, after `acc`: from the first
/// `typedef struct {` line on, up to the first line that starts with
/// `} tisp_params_data_t;`.
pub open spec fn struct_fields(
    cols: Map<Seq<char>, u32>,
    in_struct: bool,
    acc: Seq<FieldView>,
    t: Seq<char>,
) -> Result<Seq<FieldView>, HeaderErrorView>
    decreases t.len(),
{
    if t.len() == 0 {
        Ok(acc)
    } else {
        let l = trim(first_line(t));
        proof {
            lemma_after_first_line(t);
        }
        if starts_with(l, "} tisp_params_data_t;"@) {
            Ok(acc)
        } else if l == "typedef struct {"@ && !in_struct {
            struct_fields(cols, true, Seq::empty(), after_first_line(t))
        } else if !in_struct {
            struct_fields(cols, false, acc, after_first_line(t))
        } else {
            match field_decl(cols, l) {
                Err(e) => Err(e),
                Ok(None) => struct_fields(cols, true, acc, after_first_line(t)),
                Ok(Some(f)) => struct_fields(cols, true, acc.push(f), after_first_line(t)),
            }
        }
    }
}

/// The fields that the header `t` declares.
pub open spec fn spec_header_fields(t: Seq<char>) -> Result<Seq<FieldView>, HeaderErrorView> {
    match struct_fields(defines(Map::empty(), t), false, Seq::empty(), t) {
        Err(e) => Err(e),
        Ok(fs) => if fs.len() == 0 {
            Err(HeaderErrorView::NoFields)
        } else {
            Ok(fs)
        },
    }
}

/// The values of `fields`.
pub open spec fn field_views(fields: Seq<FieldSpec>) -> Seq<FieldView> {
    fields.map_values(|f: FieldSpec| f@)
}

struct HeaderWords {
    u32_word: Vec<char>,
    i32_word: Vec<char>,
    u16_word: Vec<char>,
    i16_word: Vec<char>,
    u8_word: Vec<char>,
    i8_word: Vec<char>,
    tisp: Vec<char>,
    cols: Vec<char>,
    end: Vec<char>,
    start: Vec<char>,
}

impl HeaderWords {
    spec fn wf(&self) -> bool {
        &&& self.u32_word@ == "uint32_t "@
        &&& self.i32_word@ == "int32_t "@
        &&& self.u16_word@ == "uint16_t "@
        &&& self.i16_word@ == "int16_t "@
        &&& self.u8_word@ == "uint8_t "@
        &&& self.i8_word@ == "int8_t "@
        &&& self.tisp@ == "TISP_"@
        &&& self.cols@ == "_COLS"@
        &&& self.end@ == "} tisp_params_data_t;"@
        &&& self.start@ == "typedef struct {"@
    }

    fn new() -> (r: HeaderWords)
        ensures
            r.wf(),
    {
        HeaderWords {
            u32_word: chars_of("uint32_t "),
            i32_word: chars_of("int32_t "),
            u16_word: chars_of("uint16_t "),
            i16_word: chars_of("int16_t "),
            u8_word: chars_of("uint8_t "),
            i8_word: chars_of("int8_t "),
            tisp: chars_of("TISP_"),
            cols: chars_of("_COLS"),
            end: chars_of("} tisp_params_data_t;"),
            start: chars_of("typedef struct {"),
        }
    }
}

fn decl_type_exec(words: &HeaderWords, v: &Vec<char>, a: usize, b: usize) -> (r: Option<(usize, usize, bool)>)
    requires
        words.wf(),
        a <= b <= v@.len(),
    ensures
        match (r, decl_type(v@.subrange(a as int, b as int))) {
            (Some((p, w, s)), Some((p2, w2, s2))) => p == p2 && w == w2 && s == s2 && a + p <= b,
            (None, None) => true,
            _ => false,
        },
{
    if starts_with_range(v, a, b, &words.u32_word) {
        Some((words.u32_word.len(), 4, false))
    } else if starts_with_range(v, a, b, &words.i32_word) {
        Some((words.i32_word.len(), 4, true))
    } else if starts_with_range(v, a, b, &words.u16_word) {
        Some((words.u16_word.len(), 2, false))
    } else if starts_with_range(v, a, b, &words.i16_word) {
        Some((words.i16_word.len(), 2, true))
    } else if starts_with_range(v, a, b, &words.u8_word) {
        Some((words.u8_word.len(), 1, false))
    } else if starts_with_range(v, a, b, &words.i8_word) {
        Some((words.i8_word.len(), 1, true))
    } else {
        None
    }
}

fn field_decl_exec(
    cols: &Vec<(Vec<char>, u32)>,
    words: &HeaderWords,
    v: &Vec<char>,
    a: usize,
    b: usize,
) -> (r: Result<Option<FieldSpec>, HeaderError>)
    requires
        words.wf(),
        a <= b <= v@.len(),
    ensures
        match (r, field_decl(cols_map(cols@), v@.subrange(a as int, b as int))) {
            (Ok(Some(f)), Ok(Some(fv))) => f@ == fv && crate::element::valid_width(f.elem_bytes as nat),
            (Ok(None), Ok(None)) => true,
            (Err(e), Err(e2)) => e@ == e2,
            _ => false,
        },
{
    let ghost l = v@.subrange(a as int, b as int);
    match decl_type_exec(words, v, a, b) {
        None => Ok(None),
        Some((plen, w, signed)) => {
            let ra = a + plen;
            assert(l.skip(plen as int) =~= v@.subrange(ra as int, b as int));
            let ghost rest = v@.subrange(ra as int, b as int);
            proof {
                lemma_index_of(rest, '[');
            }
            let br = find_char(v, ra, b, '[');
            if br == b {
                return Ok(None);
            }
            assert(rest.take(br - ra) =~= v@.subrange(ra as int, br as int));
            let (na, nb) = trim_range(v, ra, br);
            if !starts_with_range(v, na, nb, &words.tisp) {
                return Ok(None);
            }
            let mut key = chars_range(v, na, nb);
            let mut k: usize = 0;
            let ghost name = v@.subrange(na as int, nb as int);
            while k < words.cols.len()
                invariant
                    k <= words.cols@.len(),
                    key@ == name + words.cols@.take(k as int),
                decreases words.cols@.len() - k,
            {
                key.push(words.cols[k]);
                k = k + 1;
                assert(key@ =~= name + words.cols@.take(k as int));
            }
            assert(words.cols@.take(words.cols@.len() as int) =~= words.cols@);
            match cols_lookup(cols, &key) {
                Some(n) => Ok(
                    Some(
                        FieldSpec {
                            name: string_of_range(v, na, nb),
                            cols: n as usize,
                            elem_bytes: w,
                            signed,
                        },
                    ),
                ),
                None => Err(HeaderError::MissingCols { name: string_of_range(v, na, nb) }),
            }
        },
    }
}

fn struct_pass(cols: &Vec<(Vec<char>, u32)>, v: &Vec<char>) -> (r: Result<Vec<FieldSpec>, HeaderError>)
    ensures
        match (r, struct_fields(cols_map(cols@), false, Seq::empty(), v@)) {
            (Ok(fs), Ok(fv)) => field_views(fs@) == fv && crate::schema::valid_fields(fs@),
            (Err(e), Err(e2)) => e@ == e2,
            _ => false,
        },
{
    let ghost cm = cols_map(cols@);
    let words = HeaderWords::new();
    let mut fields: Vec<FieldSpec> = Vec::new();
    let mut in_struct = false;
    let mut pos: usize = 0;
    assert(v@.skip(0) =~= v@);
    assert(field_views(fields@) =~= Seq::<FieldView>::empty());
    while pos < v.len()
        invariant
            pos <= v@.len(),
            words.wf(),
            cm == cols_map(cols@),
            crate::schema::valid_fields(fields@),
            struct_fields(cm, false, Seq::empty(), v@) == struct_fields(
                cm,
                in_struct,
                field_views(fields@),
                v@.skip(pos as int),
            ),
        decreases v@.len() - pos,
    {
        let ghost t = v@.skip(pos as int);
        let len = v.len();
        let c = find_char(v, pos, len, '\n');
        assert(v@.subrange(pos as int, len as int) =~= t);
        proof {
            lemma_index_of(t, '\n');
        }
        assert(v@.subrange(pos as int, c as int) =~= first_line(t));
        let next = if c == len {
            len
        } else {
            c + 1
        };
        assert(v@.skip(next as int) =~= after_first_line(t));
        let (a, b) = trim_range(v, pos, c);
        if starts_with_range(v, a, b, &words.end) {
            return Ok(fields);
        }
        if range_eq(v, a, b, &words.start) && !in_struct {
            in_struct = true;
            fields = Vec::new();
            assert(field_views(fields@) =~= Seq::<FieldView>::empty());
        } else if in_struct {
            match field_decl_exec(cols, &words, v, a, b) {
                Err(e) => {
                    return Err(e);
                },
                Ok(None) => {},
                Ok(Some(f)) => {
                    let ghost before = fields@;
                    fields.push(f);
                    assert(field_views(fields@) =~= field_views(before).push(f@));
                    assert(forall|i: int| 0 <= i < before.len() ==> fields@[i] == before[i]);
                },
            }
        }
        pos = next;
    }
    assert(struct_fields(cm, in_struct, field_views(fields@), Seq::<char>::empty()) == Ok::<
        Seq<FieldView>,
        HeaderErrorView,
    >(field_views(fields@)));
    assert(v@.skip(pos as int) =~= Seq::<char>::empty());
    Ok(fields)
}

proof fn lemma_views_layout(x: Seq<FieldSpec>, y: Seq<FieldSpec>, n: int)
    requires
        field_views(x) == field_views(y),
        0 <= n <= x.len(),
    ensures
        fields_end(x, n) == fields_end(y, n),
    decreases n,
{
    assert(x.len() == field_views(x).len());
    if n > 0 {
        lemma_views_layout(x, y, n - 1);
        assert(field_views(x)[n - 1] == x[n - 1]@);
        assert(field_views(y)[n - 1] == y[n - 1]@);
    }
}

/// The layout that the header text declares (see `spec_header_fields`).
pub fn parse_schema(header: &str) -> (r: Result<Schema, HeaderError>)
    ensures
        match (r, spec_header_fields(header@)) {
            (Ok(s), Ok(fs)) => s.wf() && field_views(s.fields@) == fs,
            (Err(HeaderError::TooLarge), Ok(fs)) => forall|x: Seq<FieldSpec>|
                field_views(x) == fs ==> #[trigger] data_bytes(x) > usize::MAX,
            (Err(e), Err(e2)) => e@ == e2,
            _ => false,
        },
{
    let v = chars_of(header);
    let cols = define_pass(&v);
    match struct_pass(&cols, &v) {
        Err(e) => Err(e),
        Ok(fields) => {
            if fields.len() == 0 {
                return Err(HeaderError::NoFields);
            }
            let ghost fs = fields@;
            proof {
                crate::schema::lemma_valid_no_bad_width(fs, 0);
            }
            match Schema::from_fields(fields) {
                Ok(s) => Ok(s),
                Err(_) => {
                    assert forall|x: Seq<FieldSpec>|
                        field_views(x) == field_views(fs) implies #[trigger] data_bytes(x)
                        > usize::MAX by {
                        assert(x.len() == field_views(x).len());
                        lemma_views_layout(x, fs, x.len() as int);
                    }
                    Err(HeaderError::TooLarge)
                },
            }
        },
    }
}

} // verus!
