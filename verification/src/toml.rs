//! The textual form of the parameters: a `[meta]` section with the profile
//! size and the unknown tail bytes, then a `[day]` and a `[night]` section
//! with one `NAME = [v1, v2, ...]` line per field.
use crate::params::{IspParams, IspParamsView, ParamMap};
use crate::schema::{FieldSpec, Schema};
use crate::text::{
    chars_of, hex_text, int_text, push_char, push_hex, push_int, push_usize,
};
use vstd::prelude::*;

verus! {

/// `"TISP_PARAM_"`.
pub open spec fn param_prefix() -> Seq<char> {
    seq!['T', 'I', 'S', 'P', '_', 'P', 'A', 'R', 'A', 'M', '_']
}

/// `"TISP_"`.
pub open spec fn tisp_prefix() -> Seq<char> {
    seq!['T', 'I', 'S', 'P', '_']
}

/// The name shown in the text: without its `TISP_PARAM_` prefix, or else
/// without its `TISP_` prefix.
pub open spec fn spec_short_name(name: Seq<char>) -> Seq<char> {
    if name.len() >= 11 && name.take(11) == param_prefix() {
        name.skip(11)
    } else if name.len() >= 5 && name.take(5) == tisp_prefix() {
        name.skip(5)
    } else {
        name
    }
}

fn starts_with_at(v: &Vec<char>, p: &[char]) -> (r: bool)
    ensures
        r == (v@.len() >= p@.len() && v@.take(p@.len() as int) == p@),
{
    if v.len() < p.len() {
        return false;
    }
    let mut k: usize = 0;
    while k < p.len()
        invariant
            k <= p@.len() <= v@.len(),
            v@.take(k as int) == p@.take(k as int),
        decreases p@.len() - k,
    {
        if v[k] != p[k] {
            assert(v@.take(p@.len() as int)[k as int] != p@[k as int]);
            return false;
        }
        assert(v@.take(k + 1) =~= v@.take(k as int).push(v@[k as int]));
        assert(p@.take(k + 1) =~= p@.take(k as int).push(p@[k as int]));
        k = k + 1;
    }
    assert(p@.take(p@.len() as int) =~= p@);
    true
}

/// The name shown for `name` in the text (see `spec_short_name`).
pub fn short_name(name: &str) -> (r: String)
    ensures
        r@ == spec_short_name(name@),
{
    let v = chars_of(name);
    let pp = ['T', 'I', 'S', 'P', '_', 'P', 'A', 'R', 'A', 'M', '_'];
    assert(pp@ =~= param_prefix());
    let tp = ['T', 'I', 'S', 'P', '_'];
    assert(tp@ =~= tisp_prefix());
    let start: usize = if starts_with_at(&v, &pp) {
        11
    } else if starts_with_at(&v, &tp) {
        5
    } else {
        0
    };
    let mut out = String::new();
    let mut k = start;
    while k < v.len()
        invariant
            start <= k <= v@.len(),
            out@ =~= v@.subrange(start as int, k as int),
        decreases v@.len() - k,
    {
        push_char(&mut out, v[k]);
        k = k + 1;
    }
    assert(v@.skip(start as int) =~= v@.subrange(start as int, v@.len() as int));
    out
}

/// The values of a field line: decimal, separated by `", "`.
pub open spec fn values_text(vals: Seq<i64>) -> Seq<char>
    decreases vals.len(),
{
    if vals.len() == 0 {
        Seq::empty()
    } else if vals.len() == 1 {
        int_text(vals[0] as int)
    } else {
        values_text(vals.drop_last()) + ", "@ + int_text(vals.last() as int)
    }
}

/// The line of field `f` with values `vals`.
pub open spec fn field_line(f: FieldSpec, vals: Seq<i64>) -> Seq<char> {
    spec_short_name(f.name@) + " = ["@ + values_text(vals) + "]"@
}

/// The lines of the first `n` fields that `m` holds.
pub open spec fn field_lines(fields: Seq<FieldSpec>, m: Map<Seq<char>, Seq<i64>>, n: int) -> Seq<Seq<char>>
    decreases n,
{
    if n <= 0 {
        Seq::empty()
    } else if m.contains_key(fields[n - 1].name@) {
        field_lines(fields, m, n - 1).push(field_line(fields[n - 1], m[fields[n - 1].name@]))
    } else {
        field_lines(fields, m, n - 1)
    }
}

/// The lines of one profile's section.
pub open spec fn section_lines(title: Seq<char>, fields: Seq<FieldSpec>, m: Map<Seq<char>, Seq<i64>>) -> Seq<Seq<char>> {
    seq![title] + field_lines(fields, m, fields.len() as int) + seq![Seq::<char>::empty()]
}

/// The `[meta]` section's lines.
pub open spec fn meta_lines(p: IspParamsView) -> Seq<Seq<char>> {
    seq!["[meta]"@, "profile_bytes = "@ + int_text(p.profile_bytes as int)] + (if p.day_tail.len() > 0 {
        seq!["day_tail = \""@ + hex_text(p.day_tail) + "\""@]
    } else {
        Seq::empty()
    }) + (if p.night_tail.len() > 0 {
        seq!["night_tail = \""@ + hex_text(p.night_tail) + "\""@]
    } else {
        Seq::empty()
    }) + seq![Seq::<char>::empty()]
}

/// The two comment lines at the top, and an empty line.
pub open spec fn comment_lines() -> Seq<Seq<char>> {
    seq![
        "# ISP Parameters — auto-generated from gc2053-t31.bin"@,
        "# Edit values and re-encode with: tiziano-params encode params.toml output.bin"@,
        Seq::<char>::empty(),
    ]
}

/// All lines of the text form of `p`.
pub open spec fn toml_lines(schema: Schema, p: IspParamsView) -> Seq<Seq<char>> {
    comment_lines() + meta_lines(p) + section_lines("[day]"@, schema.fields@, p.day) + section_lines(
        "[night]"@,
        schema.fields@,
        p.night,
    )
}

/// Lines, each followed by a line feed.
pub open spec fn join_lines(lines: Seq<Seq<char>>) -> Seq<char>
    decreases lines.len(),
{
    if lines.len() == 0 {
        Seq::empty()
    } else {
        join_lines(lines.drop_last()) + lines.last() + seq!['\n']
    }
}

/// The text form of `p`.
pub open spec fn toml_text(schema: Schema, p: IspParamsView) -> Seq<char> {
    join_lines(toml_lines(schema, p))
}

fn push_values(s: &mut String, vals: &Vec<i64>)
    ensures
        final(s)@ == old(s)@ + values_text(vals@),
{
    let ghost start = s@;
    let mut k: usize = 0;
    while k < vals.len()
        invariant
            k <= vals@.len(),
            s@ == start + values_text(vals@.take(k as int)),
        decreases vals@.len() - k,
    {
        let ghost before = s@;
        assert(vals@.take(k + 1).drop_last() =~= vals@.take(k as int));
        if k > 0 {
            s.append(", ");
        }
        push_int(s, vals[k]);
        k = k + 1;
        assert(s@ =~= start + values_text(vals@.take(k as int)));
    }
    assert(vals@.take(vals@.len() as int) =~= vals@);
}

fn push_section(s: &mut String, title: &str, fields: &Vec<FieldSpec>, m: &ParamMap)
    ensures
        final(s)@ == old(s)@ + join_lines(section_lines(title@, fields@, m@)),
{
    let ghost start = s@;
    s.append(title);
    push_char(s, '\n');
    assert(seq![title@].drop_last() =~= Seq::<Seq<char>>::empty());
    assert(join_lines(Seq::<Seq<char>>::empty()) == Seq::<char>::empty());
    assert(seq![title@].last() == title@);
    assert(seq![title@] + field_lines(fields@, m@, 0) =~= seq![title@]);
    assert(s@ =~= start + join_lines(seq![title@]));
    let mut i: usize = 0;
    while i < fields.len()
        invariant
            i <= fields@.len(),
            s@ == start + join_lines(seq![title@] + field_lines(fields@, m@, i as int)),
        decreases fields@.len() - i,
    {
        let f = &fields[i];
        let ghost before = s@;
        match m.get(f.name.as_str()) {
            Some(vals) => {
                let short = short_name(f.name.as_str());
                s.append(short.as_str());
                s.append(" = [");
                push_values(s, vals);
                s.append("]");
                push_char(s, '\n');
                let ghost lines = seq![title@] + field_lines(fields@, m@, i as int + 1);
                assert(lines =~= (seq![title@] + field_lines(fields@, m@, i as int)).push(
                    field_line(fields@[i as int], m@[fields@[i as int].name@]),
                ));
                assert(lines.drop_last() =~= seq![title@] + field_lines(fields@, m@, i as int));
                assert(s@ =~= start + join_lines(lines));
            },
            None => {
                assert(seq![title@] + field_lines(fields@, m@, i as int + 1) =~= seq![title@]
                    + field_lines(fields@, m@, i as int));
            },
        }
        i = i + 1;
    }
    push_char(s, '\n');
    let ghost all = section_lines(title@, fields@, m@);
    assert(all.drop_last() =~= seq![title@] + field_lines(fields@, m@, fields@.len() as int));
    assert(s@ =~= start + join_lines(all));
}

pub proof fn lemma_join_lines_append(a: Seq<Seq<char>>, b: Seq<Seq<char>>)
    ensures
        join_lines(a + b) == join_lines(a) + join_lines(b),
    decreases b.len(),
{
    if b.len() == 0 {
        assert(a + b =~= a);
        assert(join_lines(a) + join_lines(b) =~= join_lines(a));
    } else {
        lemma_join_lines_append(a, b.drop_last());
        assert((a + b).drop_last() =~= a + b.drop_last());
        assert((a + b).last() == b.last());
        assert(join_lines(a + b) =~= join_lines(a) + join_lines(b));
    }
}

proof fn lemma_join_single(l: Seq<char>)
    ensures
        join_lines(seq![l]) == l + seq!['\n'],
{
    assert(seq![l].drop_last() =~= Seq::<Seq<char>>::empty());
    assert(join_lines(Seq::<Seq<char>>::empty()) == Seq::<char>::empty());
    assert(seq![l].last() == l);
    assert(join_lines(seq![l]) =~= l + seq!['\n']);
}

proof fn lemma_comment_text(c: Seq<char>)
    requires
        c == Seq::<char>::empty() + "# ISP Parameters — auto-generated from gc2053-t31.bin"@ + seq!['\n']
            + "# Edit values and re-encode with: tiziano-params encode params.toml output.bin"@
            + seq!['\n'] + seq!['\n'],
    ensures
        c == join_lines(comment_lines()),
{
    let l0 = "# ISP Parameters — auto-generated from gc2053-t31.bin"@;
    let l1 = "# Edit values and re-encode with: tiziano-params encode params.toml output.bin"@;
    let e = Seq::<char>::empty();
    lemma_join_single(l0);
    lemma_join_single(l1);
    lemma_join_single(e);
    lemma_join_lines_append(seq![l0], seq![l1]);
    lemma_join_lines_append(seq![l0] + seq![l1], seq![e]);
    assert(comment_lines() =~= seq![l0] + seq![l1] + seq![e]);
    assert(c =~= join_lines(comment_lines()));
}

proof fn lemma_meta_text(pv: IspParamsView, c: Seq<char>, m1: Seq<char>, m2: Seq<char>, m3: Seq<char>, m4: Seq<char>)
    requires
        m1 == c + "[meta]"@ + seq!['\n'] + "profile_bytes = "@ + int_text(pv.profile_bytes as int)
            + seq!['\n'],
        pv.day_tail.len() > 0 ==> m2 == m1 + "day_tail = \""@ + hex_text(pv.day_tail) + "\""@ + seq!['\n'],
        pv.day_tail.len() == 0 ==> m2 == m1,
        pv.night_tail.len() > 0 ==> m3 == m2 + "night_tail = \""@ + hex_text(pv.night_tail) + "\""@
            + seq!['\n'],
        pv.night_tail.len() == 0 ==> m3 == m2,
        m4 == m3.push('\n'),
    ensures
        m4 == c + join_lines(meta_lines(pv)),
{
    let l0 = "[meta]"@;
    let l1 = "profile_bytes = "@ + int_text(pv.profile_bytes as int);
    let head = seq![l0, l1];
    let dl = if pv.day_tail.len() > 0 {
        seq!["day_tail = \""@ + hex_text(pv.day_tail) + "\""@]
    } else {
        Seq::empty()
    };
    let nl = if pv.night_tail.len() > 0 {
        seq!["night_tail = \""@ + hex_text(pv.night_tail) + "\""@]
    } else {
        Seq::empty()
    };
    let e = Seq::<char>::empty();
    let tail = seq![e];
    lemma_join_single(l0);
    lemma_join_single(l1);
    lemma_join_single(e);
    lemma_join_lines_append(seq![l0], seq![l1]);
    assert(head =~= seq![l0] + seq![l1]);
    assert(m1 =~= c + join_lines(head));
    if pv.day_tail.len() > 0 {
        lemma_join_single(dl[0]);
        assert(dl =~= seq![dl[0]]);
        assert(m2 =~= m1 + join_lines(dl));
    } else {
        assert(join_lines(dl) == Seq::<char>::empty());
        assert(m2 =~= m1 + join_lines(dl));
    }
    if pv.night_tail.len() > 0 {
        lemma_join_single(nl[0]);
        assert(nl =~= seq![nl[0]]);
        assert(m3 =~= m2 + join_lines(nl));
    } else {
        assert(join_lines(nl) == Seq::<char>::empty());
        assert(m3 =~= m2 + join_lines(nl));
    }
    assert(m4 =~= m3 + join_lines(tail));
    lemma_join_lines_append(head, dl);
    lemma_join_lines_append(head + dl, nl);
    lemma_join_lines_append(head + dl + nl, tail);
    assert(meta_lines(pv) =~= head + dl + nl + tail);
}

/// `data` in lower-case hexadecimal, two digits per byte.
pub fn hex_encode(data: &[u8]) -> (r: String)
    ensures
        r@ == hex_text(data@),
{
    let mut s = String::new();
    push_hex(&mut s, data);
    s
}

fn push_line(s: &mut String, line: &str)
    ensures
        final(s)@ == old(s)@ + line@ + seq!['\n'],
{
    s.append(line);
    push_char(s, '\n');
}

/// The text form of the parameters (see `toml_text`).
#[verifier::rlimit(50)]
pub fn to_toml(schema: &Schema, params: &IspParams) -> (r: String)
    ensures
        r@ == toml_text(*schema, params@),
{
    let p = params;
    let mut out = String::new();
    push_line(&mut out, "# ISP Parameters — auto-generated from gc2053-t31.bin");
    push_line(
        &mut out,
        "# Edit values and re-encode with: tiziano-params encode params.toml output.bin",
    );
    push_char(&mut out, '\n');
    let ghost c = out@;
    proof {
        assert(c =~= Seq::<char>::empty() + "# ISP Parameters — auto-generated from gc2053-t31.bin"@
            + seq!['\n']
            + "# Edit values and re-encode with: tiziano-params encode params.toml output.bin"@
            + seq!['\n'] + seq!['\n']);
        lemma_comment_text(c);
    }
    push_line(&mut out, "[meta]");
    out.append("profile_bytes = ");
    push_usize(&mut out, p.profile_bytes);
    push_char(&mut out, '\n');
    let ghost m1 = out@;
    assert(m1 =~= c + "[meta]"@ + seq!['\n'] + "profile_bytes = "@ + int_text(p.profile_bytes as int)
        + seq!['\n']);
    if p.day_tail.len() > 0 {
        out.append("day_tail = \"");
        out.append(hex_encode(p.day_tail.as_slice()).as_str());
        push_line(&mut out, "\"");
        assert(out@ =~= m1 + "day_tail = \""@ + hex_text(p.day_tail@) + "\""@ + seq!['\n']);
    }
    let ghost m2 = out@;
    if p.night_tail.len() > 0 {
        out.append("night_tail = \"");
        out.append(hex_encode(p.night_tail.as_slice()).as_str());
        push_line(&mut out, "\"");
        assert(out@ =~= m2 + "night_tail = \""@ + hex_text(p.night_tail@) + "\""@ + seq!['\n']);
    }
    let ghost m3 = out@;
    push_char(&mut out, '\n');
    proof {
        lemma_meta_text(params@, c, m1, m2, m3, out@);
    }
    push_section(&mut out, "[day]", &schema.fields, &p.day);
    push_section(&mut out, "[night]", &schema.fields, &p.night);
    proof {
        let pv = params@;
        lemma_join_lines_append(comment_lines(), meta_lines(pv));
        let a = comment_lines() + meta_lines(pv);
        let d = section_lines("[day]"@, schema.fields@, pv.day);
        let n = section_lines("[night]"@, schema.fields@, pv.night);
        lemma_join_lines_append(a, d);
        lemma_join_lines_append(a + d, n);
        assert(toml_lines(*schema, pv) =~= a + d + n);
    }
    out
}

} // verus!
