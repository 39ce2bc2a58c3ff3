//! What reading the text form gives can be encoded.
use crate::element::element_in_range;
use crate::profile::{field_names, names_distinct, profile_complete, values_in_range};
use crate::schema::{FieldSpec, Schema};
use crate::text::trim;
use crate::toml_read::{
    field_step, index_of, initial_state, lemma_index_of, line_step, lookup_field, missing_field,
    parse_values, range_violation, read_lines, spec_from_toml, strip_brackets, ReadState, Section,
};
use vstd::prelude::*;

verus! {

/// Every entry of `m` is the values of a field of the layout: as many as
/// the field has elements, each in its range.
pub open spec fn entries_fit(fields: Seq<FieldSpec>, m: Map<Seq<char>, Seq<i64>>) -> bool {
    forall|k: Seq<char>|
        #[trigger] m.contains_key(k) ==> exists|i: int|
            0 <= i < fields.len() && #[trigger] fields[i].name@ == k && m[k].len() == fields[i].cols
                && forall|j: int|
                0 <= j < m[k].len() ==> element_in_range(
                    #[trigger] m[k][j] as int,
                    fields[i].elem_bytes as nat,
                    fields[i].signed,
                )
}

proof fn lemma_no_violation_in_range(vals: Seq<i64>, w: nat, signed: bool, k: int)
    requires
        0 <= k <= vals.len(),
        range_violation(vals, w, signed, k) < 0,
    ensures
        forall|j: int| k <= j < vals.len() ==> element_in_range(#[trigger] vals[j] as int, w, signed),
    decreases vals.len() - k,
{
    if k < vals.len() {
        lemma_no_violation_in_range(vals, w, signed, k + 1);
    }
}

proof fn lemma_insert_fits(
    fields: Seq<FieldSpec>,
    m: Map<Seq<char>, Seq<i64>>,
    i: int,
    vals: Seq<i64>,
)
    requires
        entries_fit(fields, m),
        0 <= i < fields.len(),
        vals.len() == fields[i].cols,
        range_violation(vals, fields[i].elem_bytes as nat, fields[i].signed, 0) < 0,
    ensures
        entries_fit(fields, m.insert(fields[i].name@, vals)),
{
    lemma_no_violation_in_range(vals, fields[i].elem_bytes as nat, fields[i].signed, 0);
    let m2 = m.insert(fields[i].name@, vals);
    assert forall|k: Seq<char>| #[trigger] m2.contains_key(k) implies exists|x: int|
        0 <= x < fields.len() && #[trigger] fields[x].name@ == k && m2[k].len() == fields[x].cols
            && forall|j: int|
            0 <= j < m2[k].len() ==> element_in_range(
                #[trigger] m2[k][j] as int,
                fields[x].elem_bytes as nat,
                fields[x].signed,
            ) by {
        if k == fields[i].name@ {
            assert(0 <= i < fields.len() && fields[i].name@ == k);
        } else {
            assert(m.contains_key(k));
        }
    }
}

proof fn lemma_step_fits(fields: Seq<FieldSpec>, st: ReadState, line: nat, raw: Seq<char>)
    requires
        entries_fit(fields, st.day),
        entries_fit(fields, st.night),
        line_step(fields, st, line, raw) is Ok,
    ensures
        entries_fit(fields, line_step(fields, st, line, raw)->Ok_0.day),
        entries_fit(fields, line_step(fields, st, line, raw)->Ok_0.night),
{
    let t = trim(raw);
    let e = index_of(t, '=');
    let key = trim(t.take(e));
    let val = trim(t.skip(e + 1));
    if !(t.len() == 0 || t[0] == '#') && t != "[meta]"@ && t != "[day]"@ && t != "[night]"@ && e >= 0 {
        match st.section {
            Some(Section::Day) => {
                lemma_field_step_fits(fields, st, line, false, key, val);
            },
            Some(Section::Night) => {
                lemma_field_step_fits(fields, st, line, true, key, val);
            },
            _ => {},
        }
    }
}

proof fn lemma_field_step_fits(
    fields: Seq<FieldSpec>,
    st: ReadState,
    line: nat,
    night: bool,
    key: Seq<char>,
    val: Seq<char>,
)
    requires
        entries_fit(fields, st.day),
        entries_fit(fields, st.night),
        field_step(fields, st, line, night, key, val) is Ok,
    ensures
        entries_fit(fields, field_step(fields, st, line, night, key, val)->Ok_0.day),
        entries_fit(fields, field_step(fields, st, line, night, key, val)->Ok_0.night),
{
    let i = lookup_field(fields, key, fields.len() as int);
    lemma_lookup_range(fields, key, fields.len() as int);
    let vals = parse_values(strip_brackets(val))->Ok_0;
    if night {
        lemma_insert_fits(fields, st.night, i, vals);
    } else {
        lemma_insert_fits(fields, st.day, i, vals);
    }
}

proof fn lemma_lookup_range(fields: Seq<FieldSpec>, key: Seq<char>, n: int)
    requires
        0 <= n <= fields.len(),
    ensures
        -1 <= lookup_field(fields, key, n) < n,
    decreases n,
{
    if n > 0 {
        lemma_lookup_range(fields, key, n - 1);
    }
}

proof fn lemma_read_fits(fields: Seq<FieldSpec>, st: ReadState, t: Seq<char>, line: nat)
    requires
        entries_fit(fields, st.day),
        entries_fit(fields, st.night),
        read_lines(fields, st, t, line) is Ok,
    ensures
        entries_fit(fields, read_lines(fields, st, t, line)->Ok_0.day),
        entries_fit(fields, read_lines(fields, st, t, line)->Ok_0.night),
    decreases t.len(),
{
    if t.len() > 0 {
        let i = index_of(t, '\n');
        lemma_index_of(t, '\n');
        let raw = if i < 0 {
            t
        } else {
            t.take(i)
        };
        let rest = if i < 0 {
            Seq::empty()
        } else {
            t.skip(i + 1)
        };
        lemma_step_fits(fields, st, line, raw);
        let s2 = line_step(fields, st, line, raw)->Ok_0;
        lemma_read_fits(fields, s2, rest, line + 1);
    }
}

proof fn lemma_all_present(fields: Seq<FieldSpec>, st: ReadState, k: int)
    requires
        0 <= k <= fields.len(),
        missing_field(fields, st, k) is None,
    ensures
        forall|i: int| k <= i < fields.len() ==> #[trigger] st.day.contains_key(fields[i].name@)
            && st.night.contains_key(fields[i].name@),
    decreases fields.len() - k,
{
    if k < fields.len() {
        lemma_all_present(fields, st, k + 1);
    }
}

proof fn lemma_fit_complete(fields: Seq<FieldSpec>, m: Map<Seq<char>, Seq<i64>>)
    requires
        names_distinct(fields),
        entries_fit(fields, m),
        forall|i: int| 0 <= i < fields.len() ==> #[trigger] m.contains_key(fields[i].name@),
    ensures
        profile_complete(fields, m),
        values_in_range(fields, m),
        m.dom() == field_names(fields),
{
    assert forall|i: int| 0 <= i < fields.len() implies #[trigger] m.contains_key(fields[i].name@)
        && m[fields[i].name@].len() == fields[i].cols by {
        let k = fields[i].name@;
        assert(m.contains_key(k));
        let x = choose|x: int|
            0 <= x < fields.len() && #[trigger] fields[x].name@ == k && m[k].len() == fields[x].cols
                && forall|j: int|
                0 <= j < m[k].len() ==> element_in_range(
                    #[trigger] m[k][j] as int,
                    fields[x].elem_bytes as nat,
                    fields[x].signed,
                );
        if x != i {
            if x < i {
                assert(fields[x].name@ != fields[i].name@);
            } else {
                assert(fields[i].name@ != fields[x].name@);
            }
        }
    }
    assert forall|i: int, j: int|
        0 <= i < fields.len() && 0 <= j < m[fields[i].name@].len() implies element_in_range(
        #[trigger] m[fields[i].name@][j] as int,
        fields[i].elem_bytes as nat,
        fields[i].signed,
    ) by {
        let k = fields[i].name@;
        assert(m.contains_key(k));
        let x = choose|x: int|
            0 <= x < fields.len() && #[trigger] fields[x].name@ == k && m[k].len() == fields[x].cols
                && forall|j: int|
                0 <= j < m[k].len() ==> element_in_range(
                    #[trigger] m[k][j] as int,
                    fields[x].elem_bytes as nat,
                    fields[x].signed,
                );
        if x != i {
            if x < i {
                assert(fields[x].name@ != fields[i].name@);
            } else {
                assert(fields[i].name@ != fields[x].name@);
            }
        }
        assert(element_in_range(m[k][j] as int, fields[x].elem_bytes as nat, fields[x].signed));
    }
    assert forall|k: Seq<char>| m.dom().contains(k) <==> field_names(fields).contains(k) by {
        if m.contains_key(k) {
            let x = choose|x: int|
                0 <= x < fields.len() && #[trigger] fields[x].name@ == k && m[k].len() == fields[x].cols
                    && forall|j: int|
                    0 <= j < m[k].len() ==> element_in_range(
                        #[trigger] m[k][j] as int,
                        fields[x].elem_bytes as nat,
                        fields[x].signed,
                    );
            assert(0 <= x < fields.len() && fields[x].name@ == k);
        }
        if field_names(fields).contains(k) {
            let x = choose|x: int| 0 <= x < fields.len() && #[trigger] fields[x].name@ == k;
            assert(m.contains_key(fields[x].name@));
        }
    }
    assert(m.dom() =~= field_names(fields));
}

/// What reading a text gives can always be encoded, and its profiles hold
/// exactly the layout's fields with values in range, when no two fields
/// share a name.
pub proof fn lemma_read_is_encodable(schema: Schema, t: Seq<char>)
    requires
        names_distinct(schema.fields@),
        spec_from_toml(schema, t) is Ok,
    ensures
        ({
            let p = spec_from_toml(schema, t)->Ok_0;
            &&& profile_complete(schema.fields@, p.day)
            &&& profile_complete(schema.fields@, p.night)
            &&& values_in_range(schema.fields@, p.day)
            &&& values_in_range(schema.fields@, p.night)
            &&& p.day.dom() == field_names(schema.fields@)
            &&& p.night.dom() == field_names(schema.fields@)
        }),
{
    let fields = schema.fields@;
    let st0 = initial_state(fields);
    assert(entries_fit(fields, st0.day));
    assert(entries_fit(fields, st0.night));
    lemma_read_fits(fields, st0, t, 1);
    let st = read_lines(fields, st0, t, 1)->Ok_0;
    lemma_all_present(fields, st, 0);
    lemma_fit_complete(fields, st.day);
    assert forall|i: int| 0 <= i < fields.len() implies #[trigger] st.night.contains_key(fields[i].name@) by {
        assert(st.day.contains_key(fields[i].name@));
    }
    lemma_fit_complete(fields, st.night);
}

} // verus!
