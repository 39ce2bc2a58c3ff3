//! The text form reads back to what was written.
use crate::element::element_in_range;
use crate::blob::{
    file_padding_is_zero, lemma_decoded_params, lemma_encode_decode, spec_decode, spec_encode,
    stored_size,
};
use crate::params::IspParamsView;
use crate::profile::{field_names, names_distinct, profile_complete, values_in_range};
use crate::schema::{FieldSpec, Schema};
use crate::text::{
    dec_digits, hex_text, int_text, is_white, lemma_hex_roundtrip,
    lemma_int_text_roundtrip, trim, trim_end, trim_quotes, trim_quotes_end,
    trim_quotes_start, trim_start, IntErrorKind,
};
use crate::toml::{
    comment_lines, field_line, field_lines, join_lines, lemma_join_lines_append, meta_lines,
    section_lines, spec_short_name, toml_lines, toml_text, values_text,
};
use crate::toml_read::{
    index_of, initial_state, lemma_index_of, line_step, lookup_field, missing_field, parse_values,
    range_violation, read_lines, spec_from_toml, strip_brackets, ReadState, Section, TomlErrorView,
};
use vstd::prelude::*;

verus! {

/// Reads `lines` one by one, the first numbered `line`.
pub open spec fn run_lines(fields: Seq<FieldSpec>, st: ReadState, lines: Seq<Seq<char>>, line: nat) -> Result<
    ReadState,
    TomlErrorView,
>
    decreases lines.len(),
{
    if lines.len() == 0 {
        Ok(st)
    } else {
        match line_step(fields, st, line, lines[0]) {
            Ok(s2) => run_lines(fields, s2, lines.drop_first(), line + 1),
            Err(e) => Err(e),
        }
    }
}

pub open spec fn no_newline(s: Seq<char>) -> bool {
    forall|i: int| 0 <= i < s.len() ==> s[i] != '\n'
}

proof fn lemma_join_first(l: Seq<char>, rest: Seq<Seq<char>>)
    ensures
        join_lines(seq![l] + rest) == l + seq!['\n'] + join_lines(rest),
{
    lemma_join_lines_append(seq![l], rest);
    assert(seq![l].drop_last() =~= Seq::<Seq<char>>::empty());
    assert(join_lines(Seq::<Seq<char>>::empty()) == Seq::<char>::empty());
    assert(join_lines(seq![l]) =~= l + seq!['\n']);
}

pub proof fn lemma_index_of_prefix(a: Seq<char>, b: Seq<char>, c: char)
    requires
        forall|i: int| 0 <= i < a.len() ==> a[i] != c,
        b.len() > 0,
        b[0] == c,
    ensures
        index_of(a + b, c) == a.len(),
    decreases a.len(),
{
    if a.len() == 0 {
        assert(a + b =~= b);
    } else {
        assert((a + b).drop_first() =~= a.drop_first() + b);
        lemma_index_of_prefix(a.drop_first(), b, c);
    }
}

/// Reading joined lines is reading them one by one.
pub proof fn lemma_read_joined(fields: Seq<FieldSpec>, st: ReadState, lines: Seq<Seq<char>>, line: nat)
    requires
        forall|i: int| 0 <= i < lines.len() ==> no_newline(#[trigger] lines[i]),
    ensures
        read_lines(fields, st, join_lines(lines), line) == run_lines(fields, st, lines, line),
    decreases lines.len(),
{
    if lines.len() > 0 {
        let l = lines[0];
        let rest = lines.drop_first();
        assert(lines =~= seq![l] + rest);
        lemma_join_first(l, rest);
        let t = join_lines(lines);
        assert(no_newline(l));
        lemma_index_of_prefix(l, seq!['\n'] + join_lines(rest), '\n');
        assert(t =~= l + (seq!['\n'] + join_lines(rest)));
        assert(t.take(l.len() as int) =~= l);
        assert(t.skip(l.len() as int + 1) =~= join_lines(rest));
        assert forall|i: int| 0 <= i < rest.len() implies no_newline(#[trigger] rest[i]) by {
            assert(rest[i] == lines[i + 1]);
        }
        match line_step(fields, st, line, l) {
            Ok(s2) => {
                lemma_read_joined(fields, s2, rest, line + 1);
            },
            Err(e) => {},
        }
    } else {
        assert(join_lines(lines) == Seq::<char>::empty());
    }
}

/// Reading `a + b` is reading `a`, then `b`.
pub proof fn lemma_run_append(fields: Seq<FieldSpec>, st: ReadState, a: Seq<Seq<char>>, b: Seq<Seq<char>>, line: nat)
    ensures
        run_lines(fields, st, a + b, line) == match run_lines(fields, st, a, line) {
            Ok(s2) => run_lines(fields, s2, b, line + a.len()),
            Err(e) => Err(e),
        },
    decreases a.len(),
{
    if a.len() == 0 {
        assert(a + b =~= b);
    } else {
        assert((a + b)[0] == a[0]);
        assert((a + b).drop_first() =~= a.drop_first() + b);
        match line_step(fields, st, line, a[0]) {
            Ok(s2) => {
                lemma_run_append(fields, s2, a.drop_first(), b, line + 1);
            },
            Err(e) => {},
        }
    }
}

pub proof fn lemma_trim_id(s: Seq<char>)
    requires
        s.len() > 0,
        !is_white(s[0]),
        !is_white(s.last()),
    ensures
        trim(s) == s,
        trim_start(s) == s,
{
}

proof fn lemma_trim_space_prefix(x: Seq<char>)
    requires
        x.len() > 0,
        !is_white(x[0]),
        !is_white(x.last()),
    ensures
        trim(seq![' '] + x) == x,
{
    let s = seq![' '] + x;
    assert(s.drop_first() =~= x);
    assert(trim_start(s) == trim_start(x));
    lemma_trim_id(x);
}

proof fn lemma_trim_space_suffix(x: Seq<char>)
    requires
        x.len() > 0,
        !is_white(x[0]),
        !is_white(x.last()),
    ensures
        trim(x + seq![' ']) == x,
{
    let s = x + seq![' '];
    assert(s[0] == x[0]);
    assert(trim_start(s) == s);
    assert(s.drop_last() =~= x);
    assert(trim_end(s) == trim_end(x));
    lemma_trim_id(x);
}

proof fn lemma_comments_run(fields: Seq<FieldSpec>, st: ReadState, line: nat)
    ensures
        run_lines(fields, st, comment_lines(), line) == Ok::<ReadState, TomlErrorView>(st),
{
    reveal_strlit("# ISP Parameters — auto-generated from gc2053-t31.bin");
    reveal_strlit("# Edit values and re-encode with: tiziano-params encode params.toml output.bin");
    let cl = comment_lines();
    let l0 = cl[0];
    let l1 = cl[1];
    lemma_trim_id(l0);
    lemma_trim_id(l1);
    assert(trim(Seq::<char>::empty()) == Seq::<char>::empty());
    assert(line_step(fields, st, line, l0) == Ok::<ReadState, TomlErrorView>(st));
    assert(line_step(fields, st, line + 1, l1) == Ok::<ReadState, TomlErrorView>(st));
    assert(line_step(fields, st, line + 2, cl[2]) == Ok::<ReadState, TomlErrorView>(st));
    assert(cl.drop_first().drop_first().drop_first() =~= Seq::<Seq<char>>::empty());
    reveal_with_fuel(run_lines, 4);
}

/// A character of an integer's decimal text.
pub open spec fn is_number_char(c: char) -> bool {
    c == '-' || ('0' <= c <= '9')
}

pub proof fn lemma_dec_digits_chars(n: nat)
    ensures
        dec_digits(n).len() > 0,
        forall|i: int| 0 <= i < dec_digits(n).len() ==> '0' <= #[trigger] dec_digits(n)[i] <= '9',
    decreases n,
{
    if n >= 10 {
        lemma_dec_digits_chars(n / 10);
        let d = dec_digits(n / 10);
        assert forall|i: int| 0 <= i < dec_digits(n).len() implies '0' <= #[trigger] dec_digits(n)[i]
            <= '9' by {
            if i < d.len() {
                assert(dec_digits(n)[i] == d[i]);
            }
        }
    }
}

proof fn lemma_int_text_chars(v: int)
    ensures
        int_text(v).len() > 0,
        forall|i: int| 0 <= i < int_text(v).len() ==> is_number_char(#[trigger] int_text(v)[i]),
        '0' <= int_text(v).last() <= '9',
{
    if v < 0 {
        lemma_dec_digits_chars((-v) as nat);
        let d = dec_digits((-v) as nat);
        assert forall|i: int| 0 <= i < int_text(v).len() implies is_number_char(#[trigger] int_text(v)[i]) by {
            if i > 0 {
                assert(int_text(v)[i] == d[i - 1]);
            }
        }
        assert(int_text(v).last() == d.last());
    } else {
        lemma_dec_digits_chars(v as nat);
    }
}

proof fn lemma_hex_text_chars(bytes: Seq<u8>)
    ensures
        forall|i: int|
            0 <= i < hex_text(bytes).len() ==> ('0' <= #[trigger] hex_text(bytes)[i] <= '9') || ('a'
                <= hex_text(bytes)[i] <= 'f'),
{
}

proof fn lemma_run_single(fields: Seq<FieldSpec>, st: ReadState, l: Seq<char>, line: nat)
    ensures
        run_lines(fields, st, seq![l], line) == line_step(fields, st, line, l),
{
    reveal_with_fuel(run_lines, 2);
    assert(seq![l].drop_first() =~= Seq::<Seq<char>>::empty());
}

proof fn lemma_profile_bytes_step(fields: Seq<FieldSpec>, st: ReadState, pb: nat, line: nat)
    requires
        st.section == Some(Section::Meta),
        pb <= usize::MAX,
    ensures
        line_step(fields, st, line, "profile_bytes = "@ + int_text(pb as int)) == Ok::<
            ReadState,
            TomlErrorView,
        >(ReadState { profile_bytes: pb, ..st }),
{
    reveal_strlit("profile_bytes = ");
    reveal_strlit("profile_bytes");
    reveal_strlit("[meta]");
    reveal_strlit("[day]");
    reveal_strlit("[night]");
    let n = int_text(pb as int);
    lemma_int_text_chars(pb as int);
    let l = "profile_bytes = "@ + n;
    assert(l[0] == 'p');
    assert(l.last() == n.last());
    lemma_trim_id(l);
    let a = l.take(14);
    let b = l.skip(14);
    assert(l =~= a + b);
    assert(b[0] == '=');
    lemma_index_of_prefix(a, b, '=');
    assert(a =~= "profile_bytes"@ + seq![' ']);
    lemma_trim_space_suffix("profile_bytes"@);
    assert(l.skip(15) =~= seq![' '] + n);
    lemma_trim_space_prefix(n);
    lemma_int_text_roundtrip(pb as int, false, 0, usize::MAX as int);
}

proof fn lemma_tail_step(fields: Seq<FieldSpec>, st: ReadState, bytes: Seq<u8>, night: bool, line: nat)
    requires
        st.section == Some(Section::Meta),
        bytes.len() > 0,
    ensures
        line_step(
            fields,
            st,
            line,
            (if night {
                "night_tail = \""@
            } else {
                "day_tail = \""@
            }) + hex_text(bytes) + "\""@,
        ) == Ok::<ReadState, TomlErrorView>(
            if night {
                ReadState { night_tail: bytes, ..st }
            } else {
                ReadState { day_tail: bytes, ..st }
            },
        ),
{
    reveal_strlit("night_tail = \"");
    reveal_strlit("day_tail = \"");
    reveal_strlit("\"");
    reveal_strlit("profile_bytes");
    reveal_strlit("day_tail");
    reveal_strlit("night_tail");
    reveal_strlit("[meta]");
    reveal_strlit("[day]");
    reveal_strlit("[night]");
    let h = hex_text(bytes);
    lemma_hex_text_chars(bytes);
    let head = if night {
        "night_tail = \""@
    } else {
        "day_tail = \""@
    };
    let word = if night {
        "night_tail"@
    } else {
        "day_tail"@
    };
    let eq_at: int = if night {
        11
    } else {
        9
    };
    let l = head + h + "\""@;
    assert(l[0] == word[0]);
    assert(l.last() == '"');
    lemma_trim_id(l);
    let a = l.take(eq_at);
    let b = l.skip(eq_at);
    assert(l =~= a + b);
    assert(b[0] == '=');
    lemma_index_of_prefix(a, b, '=');
    assert(a =~= word + seq![' ']);
    lemma_trim_space_suffix(word);
    let q = seq!['"'] + h + seq!['"'];
    assert(l.skip(eq_at + 1) =~= seq![' '] + q);
    lemma_trim_space_prefix(q);
    assert(q.drop_first() =~= h + seq!['"']);
    assert(h[0] != '"');
    assert(trim_quotes_start(q) == trim_quotes_start(h + seq!['"']));
    assert((h + seq!['"']).drop_last() =~= h);
    assert(trim_quotes_end(h + seq!['"']) == trim_quotes_end(h));
    assert(trim_quotes(q) == h);
    lemma_hex_roundtrip(bytes);
}

/// Reading the `[meta]` section's lines sets the profile size and the
/// tails that are written.
#[verifier::rlimit(50)]
proof fn lemma_meta_run(fields: Seq<FieldSpec>, st: ReadState, p: IspParamsView, line: nat)
    requires
        p.profile_bytes <= usize::MAX,
    ensures
        run_lines(fields, st, meta_lines(p), line) == Ok::<ReadState, TomlErrorView>(
            ReadState {
                section: Some(Section::Meta),
                day: st.day,
                night: st.night,
                day_tail: if p.day_tail.len() > 0 {
                    p.day_tail
                } else {
                    st.day_tail
                },
                night_tail: if p.night_tail.len() > 0 {
                    p.night_tail
                } else {
                    st.night_tail
                },
                profile_bytes: p.profile_bytes,
            },
        ),
{
    reveal_strlit("[meta]");
    let m0 = "[meta]"@;
    let m1 = "profile_bytes = "@ + int_text(p.profile_bytes as int);
    let dl = if p.day_tail.len() > 0 {
        seq!["day_tail = \""@ + hex_text(p.day_tail) + "\""@]
    } else {
        Seq::empty()
    };
    let nl = if p.night_tail.len() > 0 {
        seq!["night_tail = \""@ + hex_text(p.night_tail) + "\""@]
    } else {
        Seq::empty()
    };
    let e = seq![Seq::<char>::empty()];
    assert(meta_lines(p) =~= seq![m0] + seq![m1] + dl + nl + e);
    lemma_trim_id(m0);
    let s0 = ReadState { section: Some(Section::Meta), ..st };
    assert(line_step(fields, st, line, m0) == Ok::<ReadState, TomlErrorView>(s0));
    lemma_run_single(fields, st, m0, line);
    let s1 = ReadState { profile_bytes: p.profile_bytes, ..s0 };
    lemma_profile_bytes_step(fields, s0, p.profile_bytes, line + 1);
    lemma_run_single(fields, s0, m1, line + 1);
    let s2 = if p.day_tail.len() > 0 {
        ReadState { day_tail: p.day_tail, ..s1 }
    } else {
        s1
    };
    if p.day_tail.len() > 0 {
        lemma_tail_step(fields, s1, p.day_tail, false, line + 2);
        lemma_run_single(fields, s1, dl[0], line + 2);
        assert(dl =~= seq![dl[0]]);
    }
    assert(run_lines(fields, s1, dl, line + 2) == Ok::<ReadState, TomlErrorView>(s2));
    let s3 = if p.night_tail.len() > 0 {
        ReadState { night_tail: p.night_tail, ..s2 }
    } else {
        s2
    };
    if p.night_tail.len() > 0 {
        lemma_tail_step(fields, s2, p.night_tail, true, line + 2 + dl.len());
        lemma_run_single(fields, s2, nl[0], line + 2 + dl.len());
        assert(nl =~= seq![nl[0]]);
    }
    assert(run_lines(fields, s2, nl, line + 2 + dl.len()) == Ok::<ReadState, TomlErrorView>(s3));
    assert(trim(Seq::<char>::empty()) == Seq::<char>::empty());
    lemma_run_single(fields, s3, Seq::<char>::empty(), line + 2 + dl.len() + nl.len());
    lemma_run_append(fields, st, seq![m0], seq![m1], line);
    lemma_run_append(fields, st, seq![m0] + seq![m1], dl, line);
    lemma_run_append(fields, st, seq![m0] + seq![m1] + dl, nl, line);
    lemma_run_append(fields, st, seq![m0] + seq![m1] + dl + nl, e, line);
}

proof fn lemma_values_text_front(vals: Seq<i64>)
    requires
        vals.len() >= 2,
    ensures
        values_text(vals) == int_text(vals[0] as int) + ", "@ + values_text(vals.drop_first()),
    decreases vals.len(),
{
    let dl = vals.drop_last();
    let df = vals.drop_first();
    if vals.len() == 2 {
        assert(dl.len() == 1 && dl[0] == vals[0]);
        assert(df.len() == 1 && df[0] == vals[1]);
        assert(vals.last() == vals[1]);
        assert(values_text(dl) == int_text(vals[0] as int));
        assert(values_text(df) == int_text(vals[1] as int));
        assert(values_text(vals) =~= int_text(vals[0] as int) + ", "@ + values_text(df));
    } else {
        lemma_values_text_front(dl);
        assert(dl.drop_first() =~= df.drop_last());
        assert(df.last() == vals.last());
        assert(dl[0] == vals[0]);
        assert(values_text(df) == values_text(df.drop_last()) + ", "@ + int_text(df.last() as int));
        assert(values_text(vals) =~= int_text(vals[0] as int) + ", "@ + values_text(df));
    }
}

/// A character of a field line's values.
pub open spec fn is_values_char(c: char) -> bool {
    is_number_char(c) || c == ',' || c == ' '
}

proof fn lemma_values_text_chars(vals: Seq<i64>)
    requires
        vals.len() > 0,
    ensures
        values_text(vals).len() > 0,
        forall|i: int| 0 <= i < values_text(vals).len() ==> is_values_char(#[trigger] values_text(vals)[i]),
        is_number_char(values_text(vals)[0]),
        '0' <= values_text(vals).last() <= '9',
    decreases vals.len(),
{
    reveal_strlit(", ");
    lemma_int_text_chars(vals.last() as int);
    if vals.len() == 1 {
        lemma_int_text_chars(vals[0] as int);
    } else {
        lemma_values_text_chars(vals.drop_last());
        let a = values_text(vals.drop_last());
        let b = int_text(vals.last() as int);
        let t = values_text(vals);
        assert(t =~= a + ", "@ + b);
        assert forall|i: int| 0 <= i < t.len() implies is_values_char(#[trigger] t[i]) by {
            if i < a.len() {
                assert(t[i] == a[i]);
            } else if i < a.len() + 2 {
            } else {
                assert(t[i] == b[i - a.len() - 2]);
            }
        }
        assert(t[0] == a[0]);
        assert(t.last() == b.last());
    }
}

proof fn lemma_no_comma_index(s: Seq<char>, c: char)
    requires
        forall|i: int| 0 <= i < s.len() ==> s[i] != c,
    ensures
        index_of(s, c) == -1,
{
    lemma_index_of(s, c);
    if index_of(s, c) >= 0 {
        assert(s[index_of(s, c)] == c);
    }
}

/// The values of a field line read back as written.
#[verifier::rlimit(50)]
proof fn lemma_parse_values_text(pre: Seq<char>, vals: Seq<i64>)
    requires
        vals.len() > 0,
        pre == Seq::<char>::empty() || pre == seq![' '],
    ensures
        parse_values(pre + values_text(vals)) == Ok::<Seq<i64>, (Seq<char>, IntErrorKind)>(vals),
    decreases vals.len(),
{
    reveal_strlit(", ");
    let v0 = vals[0];
    let n0 = int_text(v0 as int);
    lemma_int_text_chars(v0 as int);
    lemma_int_text_roundtrip(v0 as int, true, i64::MIN as int, i64::MAX as int);
    let piece_src = pre + n0;
    assert(trim(piece_src) == n0) by {
        if pre.len() == 0 {
            assert(piece_src =~= n0);
            lemma_trim_id(n0);
        } else {
            assert(piece_src =~= seq![' '] + n0);
            lemma_trim_space_prefix(n0);
        }
    }
    if vals.len() == 1 {
        let x = pre + values_text(vals);
        assert(x =~= piece_src);
        lemma_no_comma_index(x, ',');
        assert(seq![v0] =~= vals);
    } else {
        lemma_values_text_front(vals);
        let rest = vals.drop_first();
        let x = pre + values_text(vals);
        assert(x =~= piece_src + (seq![','] + (seq![' '] + values_text(rest))));
        lemma_index_of_prefix(piece_src, seq![','] + (seq![' '] + values_text(rest)), ',');
        assert(x.take(piece_src.len() as int) =~= piece_src);
        assert(x.skip(piece_src.len() as int + 1) =~= seq![' '] + values_text(rest));
        lemma_parse_values_text(seq![' '], rest);
        assert(seq![v0] + rest =~= vals);
    }
}

/// Short names that a field line can carry: no `=` or line feed, no white
/// space at either end, and not starting with `#`.
pub open spec fn text_safe_name(sn: Seq<char>) -> bool {
    &&& forall|i: int| 0 <= i < sn.len() ==> sn[i] != '=' && sn[i] != '\n'
    &&& sn.len() > 0 ==> !is_white(sn[0]) && !is_white(sn.last()) && sn[0] != '#'
}

/// The fields' short names are safe and pairwise different, and every
/// field has at least one element.
pub open spec fn text_safe_fields(fields: Seq<FieldSpec>) -> bool {
    &&& forall|i: int| 0 <= i < fields.len() ==> text_safe_name(#[trigger] spec_short_name(fields[i].name@))
    &&& forall|i: int, j: int|
        0 <= i < j < fields.len() ==> #[trigger] spec_short_name(fields[i].name@) != #[trigger] spec_short_name(
            fields[j].name@,
        )
    &&& forall|i: int| 0 <= i < fields.len() ==> #[trigger] fields[i].cols > 0
}

proof fn lemma_lookup_unique(fields: Seq<FieldSpec>, i: int, n: int)
    requires
        text_safe_fields(fields),
        0 <= i < n <= fields.len(),
    ensures
        lookup_field(fields, spec_short_name(fields[i].name@), n) == i,
    decreases n,
{
    if i < n - 1 {
        assert(spec_short_name(fields[i].name@) != spec_short_name(fields[n - 1].name@));
        lemma_lookup_unique(fields, i, n - 1);
    }
}

proof fn lemma_no_violation(vals: Seq<i64>, w: nat, signed: bool, k: int)
    requires
        0 <= k <= vals.len(),
        forall|j: int| 0 <= j < vals.len() ==> element_in_range(#[trigger] vals[j] as int, w, signed),
    ensures
        range_violation(vals, w, signed, k) == -1,
    decreases vals.len() - k,
{
    if k < vals.len() {
        lemma_no_violation(vals, w, signed, k + 1);
    }
}

#[verifier::rlimit(50)]
proof fn lemma_field_step(
    fields: Seq<FieldSpec>,
    st: ReadState,
    i: int,
    vals: Seq<i64>,
    night: bool,
    line: nat,
)
    requires
        text_safe_fields(fields),
        0 <= i < fields.len(),
        vals.len() == fields[i].cols,
        forall|j: int|
            0 <= j < vals.len() ==> element_in_range(
                #[trigger] vals[j] as int,
                fields[i].elem_bytes as nat,
                fields[i].signed,
            ),
        st.section == Some(if night {
            Section::Night
        } else {
            Section::Day
        }),
    ensures
        line_step(fields, st, line, field_line(fields[i], vals)) == Ok::<ReadState, TomlErrorView>(
            if night {
                ReadState { night: st.night.insert(fields[i].name@, vals), ..st }
            } else {
                ReadState { day: st.day.insert(fields[i].name@, vals), ..st }
            },
        ),
{
    reveal_strlit(" = [");
    reveal_strlit("]");
    reveal_strlit("[meta]");
    reveal_strlit("[day]");
    reveal_strlit("[night]");
    let f = fields[i];
    let sn = spec_short_name(f.name@);
    assert(text_safe_name(sn));
    assert(f.cols > 0);
    let v = values_text(vals);
    lemma_values_text_chars(vals);
    let bracketed = seq!['['] + v + seq![']'];
    let l = field_line(f, vals);
    assert(l =~= sn + seq![' ', '='] + (seq![' '] + bracketed));
    lemma_trim_space_prefix(bracketed);
    let t = trim(l);
    let idx = sn.len() as int;
    if sn.len() > 0 {
        assert(l[0] == sn[0]);
        assert(l.last() == ']');
        lemma_trim_id(l);
        lemma_index_of_prefix(sn + seq![' '], seq!['='] + (seq![' '] + bracketed), '=');
        assert(l =~= (sn + seq![' ']) + (seq!['='] + (seq![' '] + bracketed)));
        assert(l.take(idx + 1) =~= sn + seq![' ']);
        lemma_trim_space_suffix(sn);
        assert(l.skip(idx + 2) =~= seq![' '] + bracketed);
        assert(t[idx + 1] == '=');
        assert(t.len() > 6);
    } else {
        let r = seq!['='] + (seq![' '] + bracketed);
        assert(l =~= seq![' '] + r);
        assert(l.drop_first() =~= r);
        assert(trim_start(l) == trim_start(r));
        lemma_trim_id(r);
        assert(t == r);
        lemma_index_of_prefix(Seq::<char>::empty(), r, '=');
        assert(Seq::<char>::empty() + r =~= r);
        assert(r.take(0) =~= Seq::<char>::empty());
        assert(trim(Seq::<char>::empty()) == Seq::<char>::empty());
        assert(r.skip(1) =~= seq![' '] + bracketed);
        assert(t[0] == '=');
    }
    assert(t != "[meta]"@ && t != "[day]"@ && t != "[night]"@) by {
        let k = if sn.len() > 0 {
            idx + 1
        } else {
            0
        };
        assert(t[k] == '=');
    }
    let e = if sn.len() > 0 {
        idx + 1
    } else {
        0
    };
    assert(index_of(t, '=') == e);
    assert(trim(t.take(e)) == sn);
    assert(trim(t.skip(e + 1)) == bracketed);
    assert(t.len() > 0 && t[0] != '#');
    assert(strip_brackets(bracketed) =~= v);
    lemma_parse_values_text(Seq::<char>::empty(), vals);
    assert(Seq::<char>::empty() + v =~= v);
    lemma_lookup_unique(fields, i, fields.len() as int);
    lemma_no_violation(vals, f.elem_bytes as nat, f.signed, 0);
    assert(parse_values(strip_brackets(bracketed)) == Ok::<Seq<i64>, (Seq<char>, IntErrorKind)>(vals));
}

/// `base` with the values of the first `n` fields from `m` stored under
/// their names, in order.
pub open spec fn insert_fields(
    base: Map<Seq<char>, Seq<i64>>,
    fields: Seq<FieldSpec>,
    m: Map<Seq<char>, Seq<i64>>,
    n: int,
) -> Map<Seq<char>, Seq<i64>>
    decreases n,
{
    if n <= 0 {
        base
    } else {
        insert_fields(base, fields, m, n - 1).insert(fields[n - 1].name@, m[fields[n - 1].name@])
    }
}

/// The state after reading a section header line.
pub open spec fn with_section(st: ReadState, night: bool) -> ReadState {
    ReadState {
        section: Some(
            if night {
                Section::Night
            } else {
                Section::Day
            },
        ),
        ..st
    }
}

/// The state after reading the field lines of a section.
pub open spec fn with_fields(st: ReadState, night: bool, fields: Seq<FieldSpec>, m: Map<Seq<char>, Seq<i64>>, n: int) -> ReadState {
    if night {
        ReadState { night: insert_fields(st.night, fields, m, n), ..st }
    } else {
        ReadState { day: insert_fields(st.day, fields, m, n), ..st }
    }
}

proof fn lemma_field_lines_run(
    fields: Seq<FieldSpec>,
    st: ReadState,
    m: Map<Seq<char>, Seq<i64>>,
    night: bool,
    n: int,
    line: nat,
)
    requires
        text_safe_fields(fields),
        0 <= n <= fields.len(),
        profile_complete(fields, m),
        values_in_range(fields, m),
        st.section == Some(if night {
            Section::Night
        } else {
            Section::Day
        }),
    ensures
        run_lines(fields, st, field_lines(fields, m, n), line) == Ok::<ReadState, TomlErrorView>(
            with_fields(st, night, fields, m, n),
        ),
    decreases n,
{
    if n == 0 {
        assert(field_lines(fields, m, 0) == Seq::<Seq<char>>::empty());
    } else {
        let i = n - 1;
        let prev = field_lines(fields, m, i);
        lemma_field_lines_run(fields, st, m, night, i, line);
        assert(m.contains_key(fields[i].name@));
        let l = field_line(fields[i], m[fields[i].name@]);
        assert(field_lines(fields, m, n) == prev + seq![l]);
        lemma_run_append(fields, st, prev, seq![l], line);
        let mid = with_fields(st, night, fields, m, i);
        lemma_field_step(fields, mid, i, m[fields[i].name@], night, line + prev.len());
        lemma_run_single(fields, mid, l, line + prev.len());
    }
}

proof fn lemma_section_run(
    fields: Seq<FieldSpec>,
    st: ReadState,
    m: Map<Seq<char>, Seq<i64>>,
    night: bool,
    line: nat,
)
    requires
        text_safe_fields(fields),
        profile_complete(fields, m),
        values_in_range(fields, m),
    ensures
        run_lines(
            fields,
            st,
            section_lines(
                if night {
                    "[night]"@
                } else {
                    "[day]"@
                },
                fields,
                m,
            ),
            line,
        ) == Ok::<ReadState, TomlErrorView>(
            with_fields(with_section(st, night), night, fields, m, fields.len() as int),
        ),
{
    reveal_strlit("[night]");
    reveal_strlit("[day]");
    reveal_strlit("[meta]");
    let title = if night {
        "[night]"@
    } else {
        "[day]"@
    };
    let fl = field_lines(fields, m, fields.len() as int);
    let e = seq![Seq::<char>::empty()];
    lemma_trim_id(title);
    let s1 = with_section(st, night);
    assert(line_step(fields, st, line, title) == Ok::<ReadState, TomlErrorView>(s1));
    lemma_run_single(fields, st, title, line);
    lemma_field_lines_run(fields, s1, m, night, fields.len() as int, line + 1);
    let s2 = with_fields(s1, night, fields, m, fields.len() as int);
    assert(trim(Seq::<char>::empty()) == Seq::<char>::empty());
    lemma_run_single(fields, s2, Seq::<char>::empty(), line + 1 + fl.len());
    lemma_run_append(fields, st, seq![title], fl, line);
    lemma_run_append(fields, st, seq![title] + fl, e, line);
}

proof fn lemma_insert_fields_all(
    base: Map<Seq<char>, Seq<i64>>,
    fields: Seq<FieldSpec>,
    m: Map<Seq<char>, Seq<i64>>,
    n: int,
)
    requires
        0 <= n <= fields.len(),
        base == Map::<Seq<char>, Seq<i64>>::empty(),
    ensures
        forall|k: Seq<char>| #[trigger] insert_fields(base, fields, m, n).contains_key(k) <==> exists|i: int|
            0 <= i < n && #[trigger] fields[i].name@ == k,
        forall|k: Seq<char>| #[trigger] insert_fields(base, fields, m, n).contains_key(k) ==> insert_fields(
            base,
            fields,
            m,
            n,
        )[k] == m[k],
    decreases n,
{
    if n > 0 {
        lemma_insert_fields_all(base, fields, m, n - 1);
        let prev = insert_fields(base, fields, m, n - 1);
        let cur = insert_fields(base, fields, m, n);
        assert forall|k: Seq<char>| #[trigger] cur.contains_key(k) <==> exists|i: int|
            0 <= i < n && #[trigger] fields[i].name@ == k by {
            if cur.contains_key(k) && k != fields[n - 1].name@ {
                assert(prev.contains_key(k));
                let i = choose|i: int| 0 <= i < n - 1 && #[trigger] fields[i].name@ == k;
                assert(0 <= i < n && fields[i].name@ == k);
            }
            if cur.contains_key(k) && k == fields[n - 1].name@ {
                assert(0 <= n - 1 < n && fields[n - 1].name@ == k);
            }
            if exists|i: int| 0 <= i < n && #[trigger] fields[i].name@ == k {
                let i = choose|i: int| 0 <= i < n && #[trigger] fields[i].name@ == k;
                if i < n - 1 {
                    assert(0 <= i < n - 1 && fields[i].name@ == k);
                    assert(prev.contains_key(k));
                }
            }
        }
        assert forall|k: Seq<char>| #[trigger] cur.contains_key(k) implies cur[k] == m[k] by {
            if k != fields[n - 1].name@ {
                assert(prev.contains_key(k));
            }
        }
    }
}

proof fn lemma_insert_fields_is(fields: Seq<FieldSpec>, m: Map<Seq<char>, Seq<i64>>)
    requires
        m.dom() == field_names(fields),
    ensures
        insert_fields(Map::empty(), fields, m, fields.len() as int) == m,
{
    let r = insert_fields(Map::empty(), fields, m, fields.len() as int);
    lemma_insert_fields_all(Map::empty(), fields, m, fields.len() as int);
    assert forall|k: Seq<char>| r.contains_key(k) <==> m.contains_key(k) by {
        if m.contains_key(k) {
            assert(field_names(fields).contains(k));
            let i = choose|i: int| 0 <= i < fields.len() && #[trigger] fields[i].name@ == k;
            assert(0 <= i < fields.len() && fields[i].name@ == k);
        }
        if r.contains_key(k) {
            let i = choose|i: int| 0 <= i < fields.len() && #[trigger] fields[i].name@ == k;
            assert(field_names(fields).contains(k));
        }
    }
    assert(r =~= m);
}

/// No line contains a line feed.
pub open spec fn lines_ok(lines: Seq<Seq<char>>) -> bool {
    forall|i: int| 0 <= i < lines.len() ==> no_newline(#[trigger] lines[i])
}

proof fn lemma_lines_ok_append(a: Seq<Seq<char>>, b: Seq<Seq<char>>)
    requires
        lines_ok(a),
        lines_ok(b),
    ensures
        lines_ok(a + b),
{
    assert forall|i: int| 0 <= i < (a + b).len() implies no_newline(#[trigger] (a + b)[i]) by {
        if i < a.len() {
            assert((a + b)[i] == a[i]);
        } else {
            assert((a + b)[i] == b[i - a.len()]);
        }
    }
}

proof fn lemma_no_newline_concat(a: Seq<char>, b: Seq<char>)
    requires
        no_newline(a),
        no_newline(b),
    ensures
        no_newline(a + b),
{
    assert forall|i: int| 0 <= i < (a + b).len() implies (a + b)[i] != '\n' by {
        if i < a.len() {
            assert((a + b)[i] == a[i]);
        } else {
            assert((a + b)[i] == b[i - a.len()]);
        }
    }
}

proof fn lemma_field_lines_ok(fields: Seq<FieldSpec>, m: Map<Seq<char>, Seq<i64>>, n: int)
    requires
        text_safe_fields(fields),
        0 <= n <= fields.len(),
        profile_complete(fields, m),
    ensures
        lines_ok(field_lines(fields, m, n)),
    decreases n,
{
    reveal_strlit(" = [");
    reveal_strlit("]");
    if n > 0 {
        lemma_field_lines_ok(fields, m, n - 1);
        let i = n - 1;
        assert(m.contains_key(fields[i].name@));
        assert(fields[i].cols > 0);
        let vals = m[fields[i].name@];
        lemma_values_text_chars(vals);
        let sn = spec_short_name(fields[i].name@);
        assert(text_safe_name(sn));
        assert(no_newline(values_text(vals)));
        lemma_no_newline_concat(sn, " = ["@);
        lemma_no_newline_concat(sn + " = ["@, values_text(vals));
        lemma_no_newline_concat(sn + " = ["@ + values_text(vals), "]"@);
        let prev = field_lines(fields, m, i);
        let l = field_line(fields[i], vals);
        assert(field_lines(fields, m, n) == prev.push(l));
        assert forall|k: int| 0 <= k < prev.push(l).len() implies no_newline(#[trigger] prev.push(l)[k]) by {
            if k < prev.len() {
                assert(prev.push(l)[k] == prev[k]);
            }
        }
    }
}

proof fn lemma_toml_lines_ok(schema: Schema, p: IspParamsView)
    requires
        text_safe_fields(schema.fields@),
        profile_complete(schema.fields@, p.day),
        profile_complete(schema.fields@, p.night),
    ensures
        lines_ok(toml_lines(schema, p)),
{
    reveal_strlit("# ISP Parameters — auto-generated from gc2053-t31.bin");
    reveal_strlit("# Edit values and re-encode with: tiziano-params encode params.toml output.bin");
    reveal_strlit("[meta]");
    reveal_strlit("[day]");
    reveal_strlit("[night]");
    reveal_strlit("profile_bytes = ");
    reveal_strlit("day_tail = \"");
    reveal_strlit("night_tail = \"");
    reveal_strlit("\"");
    let fields = schema.fields@;
    let cl = comment_lines();
    assert(lines_ok(cl));
    let ml = meta_lines(p);
    lemma_int_text_chars(p.profile_bytes as int);
    lemma_hex_text_chars(p.day_tail);
    lemma_hex_text_chars(p.night_tail);
    assert(no_newline(int_text(p.profile_bytes as int)));
    lemma_no_newline_concat("profile_bytes = "@, int_text(p.profile_bytes as int));
    assert(no_newline(hex_text(p.day_tail)));
    assert(no_newline(hex_text(p.night_tail)));
    lemma_no_newline_concat("day_tail = \""@, hex_text(p.day_tail));
    lemma_no_newline_concat("day_tail = \""@ + hex_text(p.day_tail), "\""@);
    lemma_no_newline_concat("night_tail = \""@, hex_text(p.night_tail));
    lemma_no_newline_concat("night_tail = \""@ + hex_text(p.night_tail), "\""@);
    assert(lines_ok(ml));
    lemma_field_lines_ok(fields, p.day, fields.len() as int);
    lemma_field_lines_ok(fields, p.night, fields.len() as int);
    let dl = section_lines("[day]"@, fields, p.day);
    let nl = section_lines("[night]"@, fields, p.night);
    let e = seq![Seq::<char>::empty()];
    assert(lines_ok(seq!["[day]"@]));
    assert(lines_ok(seq!["[night]"@]));
    assert(lines_ok(e));
    lemma_lines_ok_append(seq!["[day]"@], field_lines(fields, p.day, fields.len() as int));
    lemma_lines_ok_append(seq!["[day]"@] + field_lines(fields, p.day, fields.len() as int), e);
    lemma_lines_ok_append(seq!["[night]"@], field_lines(fields, p.night, fields.len() as int));
    lemma_lines_ok_append(seq!["[night]"@] + field_lines(fields, p.night, fields.len() as int), e);
    lemma_lines_ok_append(cl, ml);
    lemma_lines_ok_append(cl + ml, dl);
    lemma_lines_ok_append(cl + ml + dl, nl);
}

proof fn lemma_nothing_missing(fields: Seq<FieldSpec>, st: ReadState, k: int)
    requires
        0 <= k <= fields.len(),
        st.day.dom() == field_names(fields),
        st.night.dom() == field_names(fields),
    ensures
        missing_field(fields, st, k) is None,
    decreases fields.len() - k,
{
    if k < fields.len() {
        assert(field_names(fields).contains(fields[k].name@));
        lemma_nothing_missing(fields, st, k + 1);
    }
}

/// Reading back the text form gives the parameters, for every parameter
/// set whose profiles hold exactly the layout's fields with values that fit
/// them, when the layout's short names can be told apart in the text (they
/// are pairwise different, hold no `=` or line feed, have no white space at
/// either end and do not start with `#`) and every field has an element.
#[verifier::rlimit(50)]
pub proof fn lemma_from_toml_to_toml(schema: Schema, p: IspParamsView)
    requires
        schema.wf(),
        text_safe_fields(schema.fields@),
        p.day.dom() == field_names(schema.fields@),
        p.night.dom() == field_names(schema.fields@),
        profile_complete(schema.fields@, p.day),
        profile_complete(schema.fields@, p.night),
        values_in_range(schema.fields@, p.day),
        values_in_range(schema.fields@, p.night),
        p.profile_bytes <= usize::MAX,
    ensures
        spec_from_toml(schema, toml_text(schema, p)) == Ok::<IspParamsView, TomlErrorView>(p),
{
    let fields = schema.fields@;
    let n = fields.len() as int;
    let st0 = initial_state(fields);
    let cl = comment_lines();
    let ml = meta_lines(p);
    let dl = section_lines("[day]"@, fields, p.day);
    let nl = section_lines("[night]"@, fields, p.night);
    lemma_toml_lines_ok(schema, p);
    lemma_read_joined(fields, st0, toml_lines(schema, p), 1);
    assert(toml_lines(schema, p) == cl + ml + dl + nl);
    lemma_comments_run(fields, st0, 1);
    lemma_run_append(fields, st0, cl, ml, 1);
    lemma_meta_run(fields, st0, p, 1 + cl.len());
    let st1 = ReadState {
        section: Some(Section::Meta),
        day: st0.day,
        night: st0.night,
        day_tail: p.day_tail,
        night_tail: p.night_tail,
        profile_bytes: p.profile_bytes,
    };
    assert(p.day_tail.len() == 0 ==> p.day_tail =~= st0.day_tail);
    assert(p.night_tail.len() == 0 ==> p.night_tail =~= st0.night_tail);
    assert(run_lines(fields, st0, cl + ml, 1) == Ok::<ReadState, TomlErrorView>(st1));
    lemma_run_append(fields, st0, cl + ml, dl, 1);
    lemma_section_run(fields, st1, p.day, false, 1 + cl.len() + ml.len());
    let st2 = with_fields(with_section(st1, false), false, fields, p.day, n);
    lemma_run_append(fields, st0, cl + ml + dl, nl, 1);
    lemma_section_run(fields, st2, p.night, true, 1 + cl.len() + ml.len() + dl.len());
    let st3 = with_fields(with_section(st2, true), true, fields, p.night, n);
    lemma_insert_fields_is(fields, p.day);
    lemma_insert_fields_is(fields, p.night);
    assert(st3.day == p.day);
    assert(st3.night == p.night);
    lemma_nothing_missing(fields, st3, 0);
}

proof fn lemma_distinct_names(fields: Seq<FieldSpec>)
    requires
        text_safe_fields(fields),
    ensures
        names_distinct(fields),
{
    assert forall|i: int, j: int| 0 <= i < j < fields.len() implies #[trigger] fields[i].name@
        != #[trigger] fields[j].name@ by {
        assert(spec_short_name(fields[i].name@) != spec_short_name(fields[j].name@));
    }
}

/// A file decoded, written as text, read back and encoded gives the file
/// again, when the layout's short names can be told apart in the text,
/// every field has an element, the alignment padding is zero and nothing
/// follows the data.
pub proof fn lemma_file_text_roundtrip(schema: Schema, bin: Seq<u8>)
    requires
        schema.wf(),
        text_safe_fields(schema.fields@),
        spec_decode(schema, bin) is Ok,
        file_padding_is_zero(schema, bin),
        bin.len() == 24 + stored_size(bin),
    ensures
        spec_from_toml(schema, toml_text(schema, spec_decode(schema, bin)->Ok_0)) == Ok::<
            IspParamsView,
            TomlErrorView,
        >(spec_decode(schema, bin)->Ok_0),
        spec_encode(schema, spec_decode(schema, bin)->Ok_0) == bin,
{
    lemma_distinct_names(schema.fields@);
    lemma_decoded_params(schema, bin);
    let v = spec_decode(schema, bin)->Ok_0;
    lemma_from_toml_to_toml(schema, v);
    lemma_encode_decode(schema, bin);
}

} // verus!
