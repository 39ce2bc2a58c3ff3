//! One profile (day or night) of parameter data: the fields laid out by the
//! schema, then bytes that the schema does not describe.
use crate::element::{
    align_to, align_up, element_bytes, element_in_range, element_value, read_element, valid_width,
    write_element,
};
use crate::params::ParamMap;
use crate::schema::{
    data_bytes, elem_pos, field_size, field_start, fields_end, lemma_layout_monotone, valid_fields,
    FieldSpec, Schema,
};
use vstd::prelude::*;

verus! {

/// The values of field `i` as they stand in `data`.
pub open spec fn decoded_field(fields: Seq<FieldSpec>, data: Seq<u8>, i: int) -> Seq<i64> {
    let f = fields[i];
    let w = f.elem_bytes as nat;
    let start = field_start(fields, i);
    Seq::new(
        f.cols as nat,
        |j: int| element_value(data.subrange(elem_pos(start, j, w), elem_pos(start, j, w) + w), f.signed) as i64,
    )
}

/// The first `n` fields of `data`, by name; a later field of the same name
/// replaces an earlier one.
pub open spec fn decoded_map(fields: Seq<FieldSpec>, data: Seq<u8>, n: int) -> Map<Seq<char>, Seq<i64>>
    decreases n,
{
    if n <= 0 {
        Map::empty()
    } else {
        decoded_map(fields, data, n - 1).insert(fields[n - 1].name@, decoded_field(fields, data, n - 1))
    }
}

/// The bytes after the schema's layout.
pub open spec fn profile_tail(fields: Seq<FieldSpec>, data: Seq<u8>) -> Seq<u8> {
    data.subrange(data_bytes(fields), data.len() as int)
}

/// `n` zero bytes.
pub open spec fn zeros(n: int) -> Seq<u8> {
    Seq::new(n as nat, |i: int| 0u8)
}

/// The element bytes of `vals`, one after another.
pub open spec fn encoded_values(vals: Seq<i64>, w: nat) -> Seq<u8>
    decreases vals.len(),
{
    if vals.len() == 0 {
        Seq::empty()
    } else {
        encoded_values(vals.drop_last(), w) + element_bytes(vals.last() as int, w)
    }
}

/// The first `n` fields with the values that `m` holds under their names,
/// zero padding before each field up to its alignment.
pub open spec fn encoded_fields(fields: Seq<FieldSpec>, m: Map<Seq<char>, Seq<i64>>, n: int) -> Seq<u8>
    decreases n,
{
    if n <= 0 {
        Seq::empty()
    } else {
        let prev = encoded_fields(fields, m, n - 1);
        let f = fields[n - 1];
        prev + zeros(align_up(prev.len() as int, f.elem_bytes as int) - prev.len()) + encoded_values(
            m[f.name@],
            f.elem_bytes as nat,
        )
    }
}

/// A whole profile: all fields, zero padding to a multiple of four, then
/// `tail`.
pub open spec fn encoded_profile(fields: Seq<FieldSpec>, m: Map<Seq<char>, Seq<i64>>, tail: Seq<u8>) -> Seq<u8> {
    let b = encoded_fields(fields, m, fields.len() as int);
    b + zeros(align_up(b.len() as int, 4) - b.len()) + tail
}

/// `m` holds every field of the layout, with as many values as the field
/// has elements.
pub open spec fn profile_complete(fields: Seq<FieldSpec>, m: Map<Seq<char>, Seq<i64>>) -> bool {
    forall|i: int|
        0 <= i < fields.len() ==> #[trigger] m.contains_key(fields[i].name@) && m[fields[i].name@].len()
            == fields[i].cols
}

pub proof fn lemma_encoded_values_len(vals: Seq<i64>, w: nat)
    requires
        valid_width(w),
    ensures
        encoded_values(vals, w).len() == elem_pos(0, vals.len() as int, w),
    decreases vals.len(),
{
    if vals.len() > 0 {
        lemma_encoded_values_len(vals.drop_last(), w);
    }
}

pub proof fn lemma_encoded_fields_len(fields: Seq<FieldSpec>, m: Map<Seq<char>, Seq<i64>>, n: int)
    requires
        valid_fields(fields),
        profile_complete(fields, m),
        0 <= n <= fields.len(),
    ensures
        encoded_fields(fields, m, n).len() == fields_end(fields, n),
    decreases n,
{
    if n > 0 {
        lemma_encoded_fields_len(fields, m, n - 1);
        let f = fields[n - 1];
        assert(valid_width(f.elem_bytes as nat));
        assert(m.contains_key(fields[n - 1].name@));
        lemma_encoded_values_len(m[f.name@], f.elem_bytes as nat);
        lemma_layout_monotone(fields, n - 1, n);
    }
}

/// Decodes one profile into its named fields and the bytes after them.
#[verifier::rlimit(50)]
pub fn decode_profile(schema: &Schema, data: &[u8]) -> (r: (ParamMap, Vec<u8>))
    requires
        schema.wf(),
        data_bytes(schema.fields@) <= data@.len(),
    ensures
        r.0@ == decoded_map(schema.fields@, data@, schema.fields@.len() as int),
        r.1@ == profile_tail(schema.fields@, data@),
{
    let ghost fields = schema.fields@;
    let mut map = ParamMap::new();
    let mut offset: usize = 0;
    let mut i: usize = 0;
    while i < schema.fields.len()
        invariant
            schema.wf(),
            fields == schema.fields@,
            data_bytes(fields) <= data@.len(),
            i <= fields.len(),
            offset == fields_end(fields, i as int),
            map@ == decoded_map(fields, data@, i as int),
        decreases fields.len() - i,
    {
        let f = &schema.fields[i];
        let w = f.elem_bytes;
        proof {
            lemma_layout_monotone(fields, i as int, i as int + 1);
            assert(valid_width(fields[i as int].elem_bytes as nat));
        }
        offset = align_to(offset, w);
        let ghost start = offset as int;
        let mut vals: Vec<i64> = Vec::new();
        let mut pos = offset;
        let mut j: usize = 0;
        while j < f.cols
            invariant
                valid_width(w as nat),
                w == f.elem_bytes,
                start == field_start(fields, i as int),
                start + field_size(*f) <= data.len(),
                j <= f.cols,
                pos == elem_pos(start, j as int, w as nat),
                vals@ =~= decoded_field(fields, data@, i as int).take(j as int),
                f == fields[i as int],
            decreases f.cols - j,
        {
            assert(pos + w <= start + field_size(*f));
            let v = read_element(data, pos, w, f.signed);
            vals.push(v);
            pos = pos + w;
            j = j + 1;
        }
        assert(vals@ =~= decoded_field(fields, data@, i as int));
        map.insert(f.name.clone(), vals);
        offset = pos;
        i = i + 1;
    }
    proof {
        lemma_layout_monotone(fields, fields.len() as int, fields.len() as int);
    }
    offset = align_to(offset, 4);
    let tail = vstd::slice::slice_to_vec(&data[offset..data.len()]);
    (map, tail)
}

/// Appends `n - buf.len()` zero bytes to `buf`.
fn pad_zeros(buf: &mut Vec<u8>, n: usize)
    requires
        old(buf)@.len() <= n,
    ensures
        final(buf)@ == old(buf)@ + zeros(n - old(buf)@.len()),
{
    let ghost start = buf@;
    while buf.len() < n
        invariant
            start.len() <= buf@.len() <= n,
            buf@ =~= start + zeros(buf@.len() - start.len()),
        decreases n - buf@.len(),
    {
        buf.push(0);
    }
}

/// Appends all of `src` to `buf`.
pub fn append_bytes(buf: &mut Vec<u8>, src: &[u8])
    requires
        old(buf)@.len() + src@.len() <= usize::MAX,
    ensures
        final(buf)@ == old(buf)@ + src@,
{
    let ghost start = buf@;
    let mut k: usize = 0;
    while k < src.len()
        invariant
            k <= src@.len(),
            start.len() + src@.len() <= usize::MAX,
            buf@ =~= start + src@.take(k as int),
        decreases src@.len() - k,
    {
        buf.push(src[k]);
        k = k + 1;
    }
    assert(src@.take(src@.len() as int) =~= src@);
}

/// Encodes one profile: every field of the schema with the values `map`
/// holds for it, zero padding as the layout asks, then `tail`.
#[verifier::rlimit(50)]
pub fn encode_profile(schema: &Schema, map: &ParamMap, tail: &[u8]) -> (r: Vec<u8>)
    requires
        schema.wf(),
        profile_complete(schema.fields@, map@),
        data_bytes(schema.fields@) + tail@.len() <= usize::MAX,
    ensures
        r@ == encoded_profile(schema.fields@, map@, tail@),
        r@.len() == data_bytes(schema.fields@) + tail@.len(),
{
    let ghost fields = schema.fields@;
    let ghost m = map@;
    let mut buf: Vec<u8> = Vec::new();
    let mut i: usize = 0;
    while i < schema.fields.len()
        invariant
            schema.wf(),
            fields == schema.fields@,
            m == map@,
            profile_complete(fields, m),
            i <= fields.len(),
            buf@ == encoded_fields(fields, m, i as int),
            buf@.len() == fields_end(fields, i as int),
        decreases fields.len() - i,
    {
        let f = &schema.fields[i];
        let w = f.elem_bytes;
        proof {
            lemma_layout_monotone(fields, i as int, i as int + 1);
            lemma_encoded_fields_len(fields, m, i as int + 1);
            assert(valid_width(fields[i as int].elem_bytes as nat));
            assert(m.contains_key(fields[i as int].name@));
        }
        let ghost prev = buf@;
        let aligned = align_to(buf.len(), w);
        pad_zeros(&mut buf, aligned);
        let ghost padded = buf@;
        let vals = map.get(f.name.as_str()).unwrap();
        let mut j: usize = 0;
        while j < vals.len()
            invariant
                valid_width(w as nat),
                j <= vals@.len(),
                buf@ == padded + encoded_values(vals@.take(j as int), w as nat),
                buf@.len() <= fields_end(fields, i as int + 1),
                padded.len() + elem_pos(0, vals@.len() as int, w as nat) == fields_end(fields, i as int + 1),
                fields_end(fields, i as int + 1) <= usize::MAX,
            decreases vals@.len() - j,
        {
            proof {
                assert(vals@.take(j as int + 1).drop_last() =~= vals@.take(j as int));
                lemma_encoded_values_len(vals@.take(j as int), w as nat);
                lemma_encoded_values_len(vals@.take(j as int + 1), w as nat);
            }
            write_element(&mut buf, vals[j], w, f.signed);
            j = j + 1;
        }
        assert(vals@.take(vals@.len() as int) =~= vals@);
        i = i + 1;
    }
    proof {
        lemma_layout_monotone(fields, fields.len() as int, fields.len() as int);
        crate::element::lemma_align_up(buf@.len() as int, 4);
    }
    let aligned = align_to(buf.len(), 4);
    pad_zeros(&mut buf, aligned);
    append_bytes(&mut buf, tail);
    buf
}

/// The names of the fields.
pub open spec fn field_names(fields: Seq<FieldSpec>) -> Set<Seq<char>> {
    Set::new(|k: Seq<char>| exists|i: int| 0 <= i < fields.len() && #[trigger] fields[i].name@ == k)
}

/// No two fields share a name.
pub open spec fn names_distinct(fields: Seq<FieldSpec>) -> bool {
    forall|i: int, j: int|
        0 <= i < j < fields.len() ==> #[trigger] fields[i].name@ != #[trigger] fields[j].name@
}

/// Every value that `m` holds for a field fits that field's element type.
pub open spec fn values_in_range(fields: Seq<FieldSpec>, m: Map<Seq<char>, Seq<i64>>) -> bool {
    forall|i: int, j: int|
        0 <= i < fields.len() && 0 <= j < m[fields[i].name@].len() ==> element_in_range(
            #[trigger] m[fields[i].name@][j] as int,
            fields[i].elem_bytes as nat,
            fields[i].signed,
        )
}

/// The alignment padding of `data`: before each field, and after the last
/// field up to the profile's size.
pub open spec fn padding_is_zero(fields: Seq<FieldSpec>, data: Seq<u8>) -> bool {
    &&& forall|i: int, p: int|
        #![trigger field_start(fields, i), data[p]]
        0 <= i < fields.len() && fields_end(fields, i) <= p < field_start(fields, i) ==> data[p] == 0
    &&& forall|p: int|
        fields_end(fields, fields.len() as int) <= p < data_bytes(fields) ==> #[trigger] data[p] == 0
}

proof fn lemma_decoded_map_at(fields: Seq<FieldSpec>, data: Seq<u8>, n: int, i: int)
    requires
        names_distinct(fields),
        0 <= i < n <= fields.len(),
    ensures
        decoded_map(fields, data, n).contains_key(fields[i].name@),
        decoded_map(fields, data, n)[fields[i].name@] == decoded_field(fields, data, i),
    decreases n,
{
    if i < n - 1 {
        lemma_decoded_map_at(fields, data, n - 1, i);
    }
}

proof fn lemma_decoded_map_dom(fields: Seq<FieldSpec>, data: Seq<u8>, n: int)
    requires
        0 <= n <= fields.len(),
    ensures
        decoded_map(fields, data, n).dom() == field_names(fields.take(n)),
    decreases n,
{
    if n > 0 {
        lemma_decoded_map_dom(fields, data, n - 1);
        assert forall|k: Seq<char>| #[trigger] field_names(fields.take(n)).contains(k) <==> field_names(
            fields.take(n - 1),
        ).contains(k) || k == fields[n - 1].name@ by {
            if field_names(fields.take(n)).contains(k) {
                let i = choose|i: int| 0 <= i < n && #[trigger] fields.take(n)[i].name@ == k;
                if i < n - 1 {
                    assert(fields.take(n - 1)[i] == fields.take(n)[i]);
                }
            }
            if field_names(fields.take(n - 1)).contains(k) {
                let i = choose|i: int| 0 <= i < n - 1 && #[trigger] fields.take(n - 1)[i].name@ == k;
                assert(fields.take(n - 1)[i] == fields.take(n)[i]);
            }
            if k == fields[n - 1].name@ {
                assert(fields.take(n)[n - 1] == fields[n - 1]);
            }
        }
        assert(decoded_map(fields, data, n).dom() =~= field_names(fields.take(n)));
    } else {
        assert(decoded_map(fields, data, n).dom() =~= field_names(fields.take(n)));
    }
}

proof fn lemma_encoded_values_at(vals: Seq<i64>, w: nat, j: int)
    requires
        valid_width(w),
        0 <= j < vals.len(),
    ensures
        encoded_values(vals, w).subrange(elem_pos(0, j, w), elem_pos(0, j, w) + w) == element_bytes(
            vals[j] as int,
            w,
        ),
    decreases vals.len(),
{
    lemma_encoded_values_len(vals.drop_last(), w);
    let ev = encoded_values(vals, w);
    let prev = encoded_values(vals.drop_last(), w);
    if j == vals.len() - 1 {
        assert(ev.subrange(elem_pos(0, j, w), elem_pos(0, j, w) + w) =~= element_bytes(vals[j] as int, w));
    } else {
        lemma_encoded_values_at(vals.drop_last(), w, j);
        lemma_encoded_values_len(vals.drop_last().drop_last(), w);
        assert(elem_pos(0, j, w) + w <= prev.len());
        assert(ev.subrange(elem_pos(0, j, w), elem_pos(0, j, w) + w) =~= prev.subrange(
            elem_pos(0, j, w),
            elem_pos(0, j, w) + w,
        ));
    }
}

proof fn lemma_encoded_fields_prefix(fields: Seq<FieldSpec>, m: Map<Seq<char>, Seq<i64>>, k: int, n: int)
    requires
        valid_fields(fields),
        profile_complete(fields, m),
        0 <= k <= n <= fields.len(),
    ensures
        encoded_fields(fields, m, n).subrange(0, fields_end(fields, k)) == encoded_fields(fields, m, k),
    decreases n - k,
{
    lemma_encoded_fields_len(fields, m, k);
    lemma_encoded_fields_len(fields, m, n);
    if k == n {
        assert(encoded_fields(fields, m, n).subrange(0, fields_end(fields, k)) =~= encoded_fields(
            fields,
            m,
            k,
        ));
    } else {
        lemma_encoded_fields_prefix(fields, m, k, n - 1);
        lemma_encoded_fields_len(fields, m, n - 1);
        lemma_layout_monotone(fields, k, n - 1);
        assert(encoded_fields(fields, m, n).subrange(0, fields_end(fields, k)) =~= encoded_fields(
            fields,
            m,
            n - 1,
        ).subrange(0, fields_end(fields, k)));
    }
}

/// The bytes of field `i` in an encoded profile are the element bytes of
/// its values.
proof fn lemma_encoded_field_bytes(fields: Seq<FieldSpec>, m: Map<Seq<char>, Seq<i64>>, tail: Seq<u8>, i: int)
    requires
        valid_fields(fields),
        profile_complete(fields, m),
        0 <= i < fields.len(),
    ensures
        encoded_profile(fields, m, tail).subrange(field_start(fields, i), field_start(fields, i) + field_size(fields[i]))
            == encoded_values(m[fields[i].name@], fields[i].elem_bytes as nat),
{
    let n = fields.len() as int;
    let enc = encoded_profile(fields, m, tail);
    let all = encoded_fields(fields, m, n);
    let upto = encoded_fields(fields, m, i + 1);
    lemma_encoded_fields_prefix(fields, m, i + 1, n);
    lemma_encoded_fields_len(fields, m, i);
    lemma_encoded_fields_len(fields, m, n);
    lemma_layout_monotone(fields, i, n);
    lemma_layout_monotone(fields, i + 1, n);
    assert(valid_width(fields[i].elem_bytes as nat));
    assert(m.contains_key(fields[i].name@));
    lemma_encoded_values_len(m[fields[i].name@], fields[i].elem_bytes as nat);
    let lo = field_start(fields, i);
    let hi = field_start(fields, i) + field_size(fields[i]);
    assert(enc.subrange(lo, hi) =~= all.subrange(lo, hi));
    assert(all.subrange(lo, hi) =~= upto.subrange(lo, hi));
    assert(upto.subrange(lo, hi) =~= encoded_values(m[fields[i].name@], fields[i].elem_bytes as nat));
}

/// Where an encoded profile puts each value: value `j` of field `i`, of
/// element width `w`, is the `w` little-endian bytes at
/// `field_start(fields, i) + j * w`, a multiple of `w`; the alignment
/// padding before each field and after the last one is zero; the tail
/// follows the profile's size.
pub proof fn lemma_encoded_value_at(
    fields: Seq<FieldSpec>,
    m: Map<Seq<char>, Seq<i64>>,
    tail: Seq<u8>,
    i: int,
    j: int,
)
    requires
        valid_fields(fields),
        profile_complete(fields, m),
        0 <= i < fields.len(),
        0 <= j < fields[i].cols,
    ensures
        ({
            let w = fields[i].elem_bytes as int;
            let p = field_start(fields, i) + j * w;
            let enc = encoded_profile(fields, m, tail);
            &&& p % w == 0
            &&& enc.subrange(p, p + w) == element_bytes(m[fields[i].name@][j] as int, w as nat)
            &&& padding_is_zero(fields, enc)
            &&& enc.subrange(data_bytes(fields), enc.len() as int) == tail
        }),
{
    let n = fields.len() as int;
    let f = fields[i];
    let w = f.elem_bytes as int;
    let vals = m[f.name@];
    let start = field_start(fields, i);
    let enc = encoded_profile(fields, m, tail);
    crate::schema::lemma_c_layout(fields, i);
    assert(valid_width(w as nat));
    assert(m.contains_key(fields[i].name@));
    lemma_encoded_field_bytes(fields, m, tail, i);
    lemma_encoded_values_len(vals, w as nat);
    lemma_encoded_values_at(vals, w as nat, j);
    lemma_layout_monotone(fields, i, n);
    lemma_layout_monotone(fields, i + 1, n);
    lemma_encoded_fields_len(fields, m, n);
    assert(elem_pos(0, j, w as nat) == j * w);
    assert(elem_pos(0, j, w as nat) + w <= field_size(f));
    lemma_subrange_of_subrange(enc, start, start + field_size(f), j * w, j * w + w);
    assert((start + j * w) % w == 0) by (nonlinear_arith)
        requires
            start % w == 0,
            w > 0,
    {
        vstd::arithmetic::div_mod::lemma_mod_multiples_vanish(j, start, w);
    }
    lemma_encoded_padding_zero(fields, m, tail);
    crate::element::lemma_align_up(fields_end(fields, n), 4);
    assert(enc.subrange(data_bytes(fields), enc.len() as int) =~= tail);
}

/// Where decoding reads each value: value `j` of field `i`, of element
/// width `w`, is the `w` little-endian bytes of `data` at
/// `field_start(fields, i) + j * w`, a multiple of `w`, read as signed or
/// unsigned as the field says.
pub proof fn lemma_decoded_value_at(fields: Seq<FieldSpec>, data: Seq<u8>, i: int, j: int)
    requires
        valid_fields(fields),
        0 <= i < fields.len(),
        0 <= j < fields[i].cols,
    ensures
        ({
            let w = fields[i].elem_bytes as int;
            let p = field_start(fields, i) + j * w;
            &&& p % w == 0
            &&& decoded_field(fields, data, i)[j] == element_value(data.subrange(p, p + w), fields[i].signed)
                as i64
        }),
{
    let w = fields[i].elem_bytes as int;
    let start = field_start(fields, i);
    crate::schema::lemma_c_layout(fields, i);
    assert(valid_width(w as nat));
    assert(elem_pos(start, j, w as nat) == start + j * w) by {
        if w == 1 {
            assert(j * w == j) by (nonlinear_arith) requires w == 1;
        } else if w == 2 {
            assert(j * w == 2 * j) by (nonlinear_arith) requires w == 2;
        } else {
            assert(j * w == 4 * j) by (nonlinear_arith) requires w == 4;
        }
    }
    assert((start + j * w) % w == 0) by (nonlinear_arith)
        requires
            start % w == 0,
            w > 0,
    {
        vstd::arithmetic::div_mod::lemma_mod_multiples_vanish(j, start, w);
    }
}

proof fn lemma_encoded_padding_zero(fields: Seq<FieldSpec>, m: Map<Seq<char>, Seq<i64>>, tail: Seq<u8>)
    requires
        valid_fields(fields),
        profile_complete(fields, m),
    ensures
        padding_is_zero(fields, encoded_profile(fields, m, tail)),
{
    let n = fields.len() as int;
    let enc = encoded_profile(fields, m, tail);
    let all = encoded_fields(fields, m, n);
    lemma_encoded_fields_len(fields, m, n);
    lemma_layout_monotone(fields, n, n);
    crate::element::lemma_align_up(fields_end(fields, n), 4);
    assert forall|i: int, p: int|
        #![trigger field_start(fields, i), enc[p]]
        0 <= i < n && fields_end(fields, i) <= p < field_start(fields, i) implies enc[p] == 0 by {
        lemma_layout_monotone(fields, i, i + 1);
        lemma_layout_monotone(fields, i + 1, n);
        lemma_encoded_fields_prefix(fields, m, i + 1, n);
        lemma_encoded_fields_len(fields, m, i);
        let upto = encoded_fields(fields, m, i + 1);
        assert(all.subrange(0, fields_end(fields, i + 1))[p] == all[p]);
        assert(upto[p] == 0);
    }
    assert forall|p: int| fields_end(fields, n) <= p < data_bytes(fields) implies #[trigger] enc[p] == 0 by {}
}

/// Decoding an encoded profile gives back its values and its tail, for
/// every complete map whose names are the schema's and whose values fit
/// their fields.
#[verifier::rlimit(50)]
pub proof fn lemma_decode_encode_profile(
    fields: Seq<FieldSpec>,
    m: Map<Seq<char>, Seq<i64>>,
    tail: Seq<u8>,
)
    requires
        valid_fields(fields),
        profile_complete(fields, m),
        m.dom() == field_names(fields),
        values_in_range(fields, m),
    ensures
        decoded_map(fields, encoded_profile(fields, m, tail), fields.len() as int) == m,
        profile_tail(fields, encoded_profile(fields, m, tail)) == tail,
        encoded_profile(fields, m, tail).len() == data_bytes(fields) + tail.len(),
{
    let n = fields.len() as int;
    let enc = encoded_profile(fields, m, tail);
    lemma_encoded_fields_len(fields, m, n);
    lemma_layout_monotone(fields, n, n);
    crate::element::lemma_align_up(fields_end(fields, n), 4);
    assert(profile_tail(fields, enc) =~= tail);
    assert forall|i: int| 0 <= i < n implies decoded_field(fields, enc, i) == m[fields[i].name@] by {
        let f = fields[i];
        let w = f.elem_bytes as nat;
        let vals = m[f.name@];
        let start = field_start(fields, i);
        assert(valid_width(w));
        assert(m.contains_key(fields[i].name@));
        lemma_encoded_field_bytes(fields, m, tail, i);
        lemma_encoded_values_len(vals, w);
        assert forall|j: int| 0 <= j < f.cols implies #[trigger] decoded_field(fields, enc, i)[j] == vals[j] by {
            lemma_encoded_values_at(vals, w, j);
            lemma_layout_monotone(fields, i, n);
            lemma_layout_monotone(fields, i + 1, n);
            assert(start + field_size(f) <= enc.len());
            assert(elem_pos(0, j, w) + w <= field_size(f));
            lemma_subrange_of_subrange(enc, start, start + field_size(f), elem_pos(0, j, w), elem_pos(0, j, w) + w);
            assert(element_in_range(vals[j] as int, w, f.signed));
            crate::element::lemma_element_value_of_bytes(vals[j] as int, w, f.signed);
        }
        assert(decoded_field(fields, enc, i) =~= vals);
    }
    lemma_decoded_map_values(fields, enc, m, n);
    assert(fields.take(n) =~= fields);
    assert(m.restrict(field_names(fields)) =~= m);
}

pub proof fn lemma_subrange_of_subrange<A>(s: Seq<A>, a: int, b: int, c: int, d: int)
    requires
        0 <= a <= b <= s.len(),
        0 <= c <= d <= b - a,
    ensures
        s.subrange(a, b).subrange(c, d) == s.subrange(a + c, a + d),
{
    assert(s.subrange(a, b).subrange(c, d) =~= s.subrange(a + c, a + d));
}

proof fn lemma_decoded_map_values(fields: Seq<FieldSpec>, data: Seq<u8>, m: Map<Seq<char>, Seq<i64>>, n: int)
    requires
        0 <= n <= fields.len(),
        m.dom() == field_names(fields),
        forall|i: int| 0 <= i < fields.len() ==> decoded_field(fields, data, i) == m[#[trigger] fields[i].name@],
    ensures
        decoded_map(fields, data, n) == m.restrict(field_names(fields.take(n))),
    decreases n,
{
    lemma_decoded_map_dom(fields, data, n);
    if n > 0 {
        lemma_decoded_map_values(fields, data, m, n - 1);
        lemma_decoded_map_dom(fields, data, n - 1);
    }
    assert forall|k: Seq<char>| #[trigger] decoded_map(fields, data, n).contains_key(k) implies decoded_map(
        fields,
        data,
        n,
    )[k] == m[k] by {
        if n > 0 && k != fields[n - 1].name@ {
        }
        if field_names(fields.take(n)).contains(k) {
            let i = choose|i: int| 0 <= i < n && #[trigger] fields.take(n)[i].name@ == k;
            assert(fields.take(n)[i] == fields[i]);
            assert(field_names(fields).contains(k));
        }
    }
    assert(fields.take(fields.len() as int) =~= fields);
    assert forall|k: Seq<char>| field_names(fields.take(n)).contains(k) implies #[trigger] m.dom().contains(k) by {
        let i = choose|i: int| 0 <= i < n && #[trigger] fields.take(n)[i].name@ == k;
        assert(fields.take(n)[i] == fields[i]);
    }
    assert(decoded_map(fields, data, n) =~= m.restrict(field_names(fields.take(n))));
}

proof fn lemma_decoded_field_bytes(fields: Seq<FieldSpec>, data: Seq<u8>, i: int, j: int)
    requires
        valid_fields(fields),
        0 <= i < fields.len(),
        0 <= j <= fields[i].cols,
        field_start(fields, i) + field_size(fields[i]) <= data.len(),
        0 <= field_start(fields, i),
    ensures
        encoded_values(decoded_field(fields, data, i).take(j), fields[i].elem_bytes as nat) == data.subrange(
            field_start(fields, i),
            elem_pos(field_start(fields, i), j, fields[i].elem_bytes as nat),
        ),
        forall|k: int|
            0 <= k < j ==> element_in_range(
                #[trigger] decoded_field(fields, data, i)[k] as int,
                fields[i].elem_bytes as nat,
                fields[i].signed,
            ),
    decreases j,
{
    let f = fields[i];
    let w = f.elem_bytes as nat;
    let start = field_start(fields, i);
    let df = decoded_field(fields, data, i);
    assert(valid_width(w));
    if j == 0 {
        assert(encoded_values(df.take(0), w) =~= data.subrange(start, start));
    } else {
        lemma_decoded_field_bytes(fields, data, i, j - 1);
        assert(df.take(j).drop_last() =~= df.take(j - 1));
        let bytes = data.subrange(elem_pos(start, j - 1, w), elem_pos(start, j - 1, w) + w);
        crate::element::lemma_element_bytes_of_value(bytes, f.signed);
        assert(df[j - 1] as int == element_value(bytes, f.signed));
        assert(encoded_values(df.take(j), w) =~= data.subrange(start, elem_pos(start, j, w)));
    }
}

proof fn lemma_padding_piece(fields: Seq<FieldSpec>, data: Seq<u8>, i: int)
    requires
        padding_is_zero(fields, data),
        0 <= i < fields.len(),
        0 <= fields_end(fields, i) <= field_start(fields, i) <= data.len(),
    ensures
        zeros(field_start(fields, i) - fields_end(fields, i)) == data.subrange(
            fields_end(fields, i),
            field_start(fields, i),
        ),
{
    let fe = fields_end(fields, i);
    let fs = field_start(fields, i);
    assert forall|p: int| fe <= p < fs implies data[p] == 0 by {}
    assert(zeros(fs - fe) =~= data.subrange(fe, fs));
}

proof fn lemma_field_piece(fields: Seq<FieldSpec>, data: Seq<u8>, i: int)
    requires
        valid_fields(fields),
        names_distinct(fields),
        0 <= i < fields.len(),
        0 <= field_start(fields, i),
        field_start(fields, i) + field_size(fields[i]) <= data.len(),
    ensures
        encoded_values(
            decoded_map(fields, data, fields.len() as int)[fields[i].name@],
            fields[i].elem_bytes as nat,
        ) == data.subrange(field_start(fields, i), field_start(fields, i) + field_size(fields[i])),
{
    let n = fields.len() as int;
    lemma_decoded_map_at(fields, data, n, i);
    let f = fields[i];
    assert(valid_width(f.elem_bytes as nat));
    lemma_decoded_field_bytes(fields, data, i, f.cols as int);
    let df = decoded_field(fields, data, i);
    assert(df.take(f.cols as int) =~= df);
}

proof fn lemma_concat_pieces(data: Seq<u8>, a: Seq<u8>, b: Seq<u8>, c: Seq<u8>, x: int, y: int, z: int)
    requires
        0 <= x <= y <= z <= data.len(),
        a == data.subrange(0, x),
        b == data.subrange(x, y),
        c == data.subrange(y, z),
    ensures
        a + b + c == data.subrange(0, z),
{
    assert(a + b + c =~= data.subrange(0, z));
}

#[verifier::rlimit(50)]
proof fn lemma_encoded_decoded_fields(fields: Seq<FieldSpec>, data: Seq<u8>, k: int)
    requires
        valid_fields(fields),
        names_distinct(fields),
        data_bytes(fields) <= data.len(),
        padding_is_zero(fields, data),
        0 <= k <= fields.len(),
    ensures
        encoded_fields(fields, decoded_map(fields, data, fields.len() as int), k) == data.subrange(
            0,
            fields_end(fields, k),
        ),
    decreases k,
{
    let n = fields.len() as int;
    let dm = decoded_map(fields, data, n);
    if k == 0 {
        assert(encoded_fields(fields, dm, 0) =~= data.subrange(0, 0));
    } else {
        let i = k - 1;
        lemma_encoded_decoded_fields(fields, data, i);
        lemma_layout_monotone(fields, i, n);
        lemma_layout_monotone(fields, k, n);
        let fe = fields_end(fields, i);
        let fs = field_start(fields, i);
        let fk = fields_end(fields, k);
        lemma_padding_piece(fields, data, i);
        lemma_field_piece(fields, data, i);
        let prev = encoded_fields(fields, dm, i);
        assert(prev.len() == fe);
        lemma_concat_pieces(
            data,
            prev,
            zeros(fs - fe),
            encoded_values(dm[fields[i].name@], fields[i].elem_bytes as nat),
            fe,
            fs,
            fk,
        );
    }
}

/// Encoding a decoded profile gives back its bytes, when its alignment
/// padding is zero and no two fields share a name.
pub proof fn lemma_encode_decode_profile(fields: Seq<FieldSpec>, data: Seq<u8>)
    requires
        valid_fields(fields),
        names_distinct(fields),
        data_bytes(fields) <= data.len(),
        padding_is_zero(fields, data),
    ensures
        profile_complete(fields, decoded_map(fields, data, fields.len() as int)),
        values_in_range(fields, decoded_map(fields, data, fields.len() as int)),
        decoded_map(fields, data, fields.len() as int).dom() == field_names(fields),
        encoded_profile(
            fields,
            decoded_map(fields, data, fields.len() as int),
            profile_tail(fields, data),
        ) == data,
{
    lemma_decoded_complete(fields, data);
    lemma_decoded_in_range(fields, data);
    lemma_decoded_bytes(fields, data);
}

pub proof fn lemma_decoded_complete(fields: Seq<FieldSpec>, data: Seq<u8>)
    requires
        names_distinct(fields),
    ensures
        profile_complete(fields, decoded_map(fields, data, fields.len() as int)),
        decoded_map(fields, data, fields.len() as int).dom() == field_names(fields),
{
    let n = fields.len() as int;
    let dm = decoded_map(fields, data, n);
    lemma_decoded_map_dom(fields, data, n);
    assert(fields.take(n) =~= fields);
    assert forall|i: int| 0 <= i < n implies #[trigger] dm.contains_key(fields[i].name@) && dm[fields[i].name@].len()
        == fields[i].cols by {
        lemma_decoded_map_at(fields, data, n, i);
    }
}

pub proof fn lemma_decoded_in_range(fields: Seq<FieldSpec>, data: Seq<u8>)
    requires
        valid_fields(fields),
        names_distinct(fields),
        data_bytes(fields) <= data.len(),
    ensures
        values_in_range(fields, decoded_map(fields, data, fields.len() as int)),
{
    let n = fields.len() as int;
    let dm = decoded_map(fields, data, n);
    assert forall|i: int, j: int|
        0 <= i < n && 0 <= j < dm[fields[i].name@].len() implies element_in_range(
        #[trigger] dm[fields[i].name@][j] as int,
        fields[i].elem_bytes as nat,
        fields[i].signed,
    ) by {
        lemma_decoded_map_at(fields, data, n, i);
        lemma_layout_monotone(fields, i, n);
        lemma_layout_monotone(fields, i + 1, n);
        lemma_decoded_field_bytes(fields, data, i, fields[i].cols as int);
        assert(decoded_field(fields, data, i)[j] == dm[fields[i].name@][j]);
    }
}

#[verifier::rlimit(50)]
proof fn lemma_decoded_bytes(fields: Seq<FieldSpec>, data: Seq<u8>)
    requires
        valid_fields(fields),
        names_distinct(fields),
        data_bytes(fields) <= data.len(),
        padding_is_zero(fields, data),
    ensures
        encoded_profile(
            fields,
            decoded_map(fields, data, fields.len() as int),
            profile_tail(fields, data),
        ) == data,
{
    let n = fields.len() as int;
    let dm = decoded_map(fields, data, n);
    lemma_encoded_decoded_fields(fields, data, n);
    lemma_layout_monotone(fields, n, n);
    crate::element::lemma_align_up(fields_end(fields, n), 4);
    let b = encoded_fields(fields, dm, n);
    let fe = fields_end(fields, n);
    let db = data_bytes(fields);
    assert(b.len() == fe);
    assert(zeros(db - fe) == data.subrange(fe, db)) by {
        assert forall|p: int| fe <= p < db implies data[p] == 0 by {}
        assert(zeros(db - fe) =~= data.subrange(fe, db));
    }
    assert(Seq::<u8>::empty() =~= data.subrange(db, db));
    lemma_concat_pieces(data, b, zeros(db - fe), Seq::<u8>::empty(), fe, db, db);
    let pre = b + zeros(db - fe);
    assert(pre + Seq::<u8>::empty() =~= pre);
    assert(pre == data.subrange(0, db));
    let tail = profile_tail(fields, data);
    assert(encoded_profile(fields, dm, tail) == pre + tail);
    assert(pre + tail =~= data);
}

/// Encoding looks at a map only under the layout's field names: two maps
/// that agree there encode alike.
pub proof fn lemma_encoded_fields_congruent(
    fields: Seq<FieldSpec>,
    m1: Map<Seq<char>, Seq<i64>>,
    m2: Map<Seq<char>, Seq<i64>>,
    n: int,
)
    requires
        n <= fields.len(),
        forall|i: int| 0 <= i < fields.len() ==> m1[#[trigger] fields[i].name@] == m2[fields[i].name@],
    ensures
        encoded_fields(fields, m1, n) == encoded_fields(fields, m2, n),
    decreases n,
{
    if n > 0 {
        lemma_encoded_fields_congruent(fields, m1, m2, n - 1);
        assert(m1[fields[n - 1].name@] == m2[fields[n - 1].name@]);
    }
}

/// Whether byte `p` of a profile is alignment padding: before a field, up
/// to its aligned start, or after the last field, up to the profile's size.
pub open spec fn is_padding(fields: Seq<FieldSpec>, p: int) -> bool {
    ||| exists|j: int|
        0 <= j < fields.len() && fields_end(fields, j) <= p < #[trigger] field_start(fields, j)
    ||| fields_end(fields, fields.len() as int) <= p < data_bytes(fields)
}

/// `data` with its alignment padding set to zero.
pub open spec fn zero_padding(fields: Seq<FieldSpec>, data: Seq<u8>) -> Seq<u8> {
    Seq::new(
        data.len(),
        |p: int|
            if is_padding(fields, p) {
                0u8
            } else {
                data[p]
            },
    )
}

proof fn lemma_field_not_padding(fields: Seq<FieldSpec>, i: int, p: int)
    requires
        valid_fields(fields),
        0 <= i < fields.len(),
        field_start(fields, i) <= p < field_start(fields, i) + field_size(fields[i]),
    ensures
        !is_padding(fields, p),
{
    let n = fields.len() as int;
    lemma_layout_monotone(fields, i, i + 1);
    lemma_layout_monotone(fields, i + 1, n);
    assert forall|j: int| 0 <= j < n implies !(fields_end(fields, j) <= p < #[trigger] field_start(
        fields,
        j,
    )) by {
        if j < i {
            lemma_layout_monotone(fields, j, j + 1);
            lemma_layout_monotone(fields, j + 1, i);
        } else if j > i {
            lemma_layout_monotone(fields, i + 1, j);
        }
    }
}

proof fn lemma_tail_not_padding(fields: Seq<FieldSpec>, p: int)
    requires
        valid_fields(fields),
        data_bytes(fields) <= p,
    ensures
        !is_padding(fields, p),
{
    let n = fields.len() as int;
    assert forall|j: int| 0 <= j < n implies !(fields_end(fields, j) <= p < #[trigger] field_start(
        fields,
        j,
    )) by {
        lemma_layout_monotone(fields, j, j + 1);
        lemma_layout_monotone(fields, j + 1, n);
    }
}

proof fn lemma_zero_padding_decodes_alike(fields: Seq<FieldSpec>, data: Seq<u8>, k: int)
    requires
        valid_fields(fields),
        data_bytes(fields) <= data.len(),
        0 <= k <= fields.len(),
    ensures
        decoded_map(fields, zero_padding(fields, data), k) == decoded_map(fields, data, k),
    decreases k,
{
    if k > 0 {
        let i = k - 1;
        let n = fields.len() as int;
        lemma_zero_padding_decodes_alike(fields, data, i);
        let zp = zero_padding(fields, data);
        let f = fields[i];
        let w = f.elem_bytes as nat;
        let start = field_start(fields, i);
        assert(valid_width(w));
        lemma_layout_monotone(fields, i, i + 1);
        lemma_layout_monotone(fields, i + 1, n);
        assert forall|j: int| 0 <= j < f.cols implies #[trigger] decoded_field(fields, zp, i)[j]
            == decoded_field(fields, data, i)[j] by {
            let a = elem_pos(start, j, w);
            assert forall|q: int| a <= q < a + w implies zp[q] == data[q] by {
                lemma_field_not_padding(fields, i, q);
            }
            assert(zp.subrange(a, a + w) =~= data.subrange(a, a + w));
        }
        assert(decoded_field(fields, zp, i) =~= decoded_field(fields, data, i));
    }
}

proof fn lemma_zero_padding_is_zero(fields: Seq<FieldSpec>, data: Seq<u8>)
    requires
        valid_fields(fields),
        data_bytes(fields) <= data.len(),
    ensures
        padding_is_zero(fields, zero_padding(fields, data)),
{
    let zp = zero_padding(fields, data);
    let n = fields.len() as int;
    lemma_layout_monotone(fields, n, n);
    assert forall|i: int, p: int|
        #![trigger field_start(fields, i), zp[p]]
        0 <= i < n && fields_end(fields, i) <= p < field_start(fields, i) implies zp[p] == 0 by {
        lemma_layout_monotone(fields, i, i + 1);
        lemma_layout_monotone(fields, i + 1, n);
        assert(is_padding(fields, p));
    }
}

/// Encoding a decoded profile gives back its bytes with the alignment
/// padding set to zero, when no two fields share a name.
pub proof fn lemma_encode_decode_profile_padded(fields: Seq<FieldSpec>, data: Seq<u8>)
    requires
        valid_fields(fields),
        names_distinct(fields),
        data_bytes(fields) <= data.len(),
    ensures
        encoded_profile(
            fields,
            decoded_map(fields, data, fields.len() as int),
            profile_tail(fields, data),
        ) == zero_padding(fields, data),
{
    let n = fields.len() as int;
    let zp = zero_padding(fields, data);
    lemma_zero_padding_is_zero(fields, data);
    lemma_zero_padding_decodes_alike(fields, data, n);
    lemma_zero_padding_tail(fields, data);
    assert(zp.len() == data.len());
    lemma_decoded_bytes(fields, zp);
}

proof fn lemma_zero_padding_tail(fields: Seq<FieldSpec>, data: Seq<u8>)
    requires
        valid_fields(fields),
        data_bytes(fields) <= data.len(),
    ensures
        profile_tail(fields, zero_padding(fields, data)) == profile_tail(fields, data),
{
    let zp = zero_padding(fields, data);
    let d = data_bytes(fields);
    let n = fields.len() as int;
    lemma_layout_monotone(fields, n, n);
    assert(zp.len() == data.len());
    assert forall|q: int| 0 <= q < data.len() - d implies #[trigger] profile_tail(fields, zp)[q]
        == profile_tail(fields, data)[q] by {
        lemma_tail_not_padding(fields, d + q);
        assert(!is_padding(fields, d + q));
        assert(zp[d + q] == data[d + q]);
        assert(profile_tail(fields, zp)[q] == zp[d + q]);
        assert(profile_tail(fields, data)[q] == data[d + q]);
    }
    assert(profile_tail(fields, zp) =~= profile_tail(fields, data));
}

} // verus!
