//! The layout of one parameter profile: its fields, in order, with the C
//! alignment rules of the firmware's `tisp_params_data_t` structure.
use crate::element::{align_to, align_up, lemma_align_up, valid_width};
use vstd::prelude::*;

verus! {

/// One field of the parameter structure: an array of `cols` integers of
/// `elem_bytes` bytes each.
#[derive(Clone, Debug)]
pub struct FieldSpec {
    pub name: String,
    pub cols: usize,
    pub elem_bytes: usize,
    pub signed: bool,
}

/// The mathematical value of a `FieldSpec`.
pub struct FieldView {
    pub name: Seq<char>,
    pub cols: nat,
    pub elem_bytes: nat,
    pub signed: bool,
}

impl View for FieldSpec {
    type V = FieldView;

    open spec fn view(&self) -> FieldView {
        FieldView {
            name: self.name@,
            cols: self.cols as nat,
            elem_bytes: self.elem_bytes as nat,
            signed: self.signed,
        }
    }
}

/// The fields of the parameter structure and its size in bytes.
#[derive(Clone, Debug)]
pub struct Schema {
    pub fields: Vec<FieldSpec>,
    /// Bytes in one profile, alignment padding included.
    pub params_data_bytes: usize,
}

/// Bytes taken by the values of field `f`.
pub open spec fn field_size(f: FieldSpec) -> int {
    if f.elem_bytes == 1 {
        f.cols as int
    } else if f.elem_bytes == 2 {
        2 * f.cols
    } else {
        4 * f.cols
    }
}

/// Position of element `j` of a field of width `w` that starts at `start`.
pub open spec fn elem_pos(start: int, j: int, w: nat) -> int {
    if w == 1 {
        start + j
    } else if w == 2 {
        start + 2 * j
    } else {
        start + 4 * j
    }
}

/// Where the first `n` fields end.
pub open spec fn fields_end(fields: Seq<FieldSpec>, n: int) -> int
    decreases n,
{
    if n <= 0 {
        0
    } else {
        align_up(fields_end(fields, n - 1), fields[n - 1].elem_bytes as int) + field_size(
            fields[n - 1],
        )
    }
}

/// Where field `i` starts: after the fields before it, aligned to its own
/// element width.
pub open spec fn field_start(fields: Seq<FieldSpec>, i: int) -> int {
    align_up(fields_end(fields, i), fields[i].elem_bytes as int)
}

/// Bytes in one profile: the end of the last field, aligned to four.
pub open spec fn data_bytes(fields: Seq<FieldSpec>) -> int {
    align_up(fields_end(fields, fields.len() as int), 4)
}

pub open spec fn valid_fields(fields: Seq<FieldSpec>) -> bool {
    forall|i: int| 0 <= i < fields.len() ==> valid_width(#[trigger] fields[i].elem_bytes as nat)
}

impl Schema {
    /// Element widths are 1, 2 or 4; `params_data_bytes` is the layout's
    /// size, which a `usize` can hold.
    pub open spec fn wf(&self) -> bool {
        &&& valid_fields(self.fields@)
        &&& self.params_data_bytes == data_bytes(self.fields@)
        &&& data_bytes(self.fields@) <= usize::MAX
    }
}

/// The layout grows field by field, and every field lies within the
/// profile.
pub proof fn lemma_layout_monotone(fields: Seq<FieldSpec>, i: int, k: int)
    requires
        valid_fields(fields),
        0 <= i <= k <= fields.len(),
    ensures
        0 <= fields_end(fields, i) <= fields_end(fields, k) <= data_bytes(fields),
        i < k ==> fields_end(fields, i) <= field_start(fields, i) && field_start(fields, i)
            + field_size(fields[i]) == fields_end(fields, i + 1),
{
    let n = fields.len() as int;
    lemma_fields_end_mono(fields, i, k);
    lemma_fields_end_mono(fields, k, n);
    lemma_align_up(fields_end(fields, n), 4);
}

/// The C layout of the fields: the first field starts at zero; each field
/// starts at the first multiple of its own element width at or after the
/// end of the field before it, and takes `cols * elem_bytes` bytes; the
/// profile's size is the end of the last field rounded up to a multiple of
/// four.
pub proof fn lemma_c_layout(fields: Seq<FieldSpec>, i: int)
    requires
        valid_fields(fields),
        0 <= i < fields.len(),
    ensures
        fields_end(fields, 0) == 0,
        field_start(fields, i) % (fields[i].elem_bytes as int) == 0,
        fields_end(fields, i) <= field_start(fields, i) < fields_end(fields, i) + fields[i].elem_bytes,
        fields_end(fields, i + 1) == field_start(fields, i) + fields[i].cols * fields[i].elem_bytes,
        data_bytes(fields) % 4 == 0,
        fields_end(fields, fields.len() as int) <= data_bytes(fields) < fields_end(
            fields,
            fields.len() as int,
        ) + 4,
{
    let n = fields.len() as int;
    let w = fields[i].elem_bytes;
    assert(valid_width(w as nat));
    lemma_fields_end_nonneg(fields, i);
    lemma_fields_end_nonneg(fields, n);
    lemma_align_up(fields_end(fields, i), w as int);
    lemma_align_up(fields_end(fields, n), 4);
    assert(field_size(fields[i]) == fields[i].cols * w);
}

proof fn lemma_fields_end_mono(fields: Seq<FieldSpec>, i: int, k: int)
    requires
        valid_fields(fields),
        0 <= i <= k <= fields.len(),
    ensures
        0 <= fields_end(fields, i) <= fields_end(fields, k),
        i < k ==> fields_end(fields, i) <= field_start(fields, i) && field_start(fields, i)
            + field_size(fields[i]) == fields_end(fields, i + 1),
    decreases k - i,
{
    lemma_fields_end_nonneg(fields, i);
    if i < k {
        assert(valid_width(fields[i].elem_bytes as nat));
        lemma_align_up(fields_end(fields, i), fields[i].elem_bytes as int);
        lemma_fields_end_mono(fields, i + 1, k);
    }
}

proof fn lemma_fields_end_nonneg(fields: Seq<FieldSpec>, n: int)
    requires
        valid_fields(fields),
        n <= fields.len(),
    ensures
        fields_end(fields, n) >= 0,
    decreases n,
{
    if n > 0 {
        lemma_fields_end_nonneg(fields, n - 1);
        assert(valid_width(fields[n - 1].elem_bytes as nat));
        lemma_align_up(fields_end(fields, n - 1), fields[n - 1].elem_bytes as int);
    }
}

/// Why a list of fields is not a layout this library handles.
#[derive(Debug, PartialEq, Eq, Structural, Clone, Copy)]
pub enum LayoutError {
    /// The field at this index has an element width other than 1, 2 or 4.
    BadWidth { index: usize },
    /// The layout's size does not fit in a `usize`.
    TooLarge,
}

/// The first field whose width is not 1, 2 or 4, from `k` on.
pub open spec fn first_bad_width(fields: Seq<FieldSpec>, k: int) -> int
    decreases fields.len() - k,
{
    if k >= fields.len() || k < 0 {
        -1
    } else if !valid_width(fields[k].elem_bytes as nat) {
        k
    } else {
        first_bad_width(fields, k + 1)
    }
}

proof fn lemma_first_bad_width(fields: Seq<FieldSpec>, k: int)
    requires
        0 <= k <= fields.len(),
        first_bad_width(fields, k) < 0,
    ensures
        forall|i: int| k <= i < fields.len() ==> valid_width(#[trigger] fields[i].elem_bytes as nat),
    decreases fields.len() - k,
{
    if k < fields.len() {
        lemma_first_bad_width(fields, k + 1);
    }
}

pub proof fn lemma_valid_no_bad_width(fields: Seq<FieldSpec>, k: int)
    requires
        valid_fields(fields),
        0 <= k <= fields.len(),
    ensures
        first_bad_width(fields, k) < 0,
    decreases fields.len() - k,
{
    if k < fields.len() {
        assert(valid_width(fields[k].elem_bytes as nat));
        lemma_valid_no_bad_width(fields, k + 1);
    }
}

/// The size of the layout of `fields` (see `data_bytes`), or `None` when
/// it does not fit in a `usize`.
pub fn layout_bytes(fields: &Vec<FieldSpec>) -> (r: Option<usize>)
    requires
        valid_fields(fields@),
    ensures
        match r {
            Some(n) => n == data_bytes(fields@),
            None => data_bytes(fields@) > usize::MAX,
        },
{
    let ghost fs = fields@;
    let mut offset: usize = 0;
    let mut i: usize = 0;
    while i < fields.len()
        invariant
            fs == fields@,
            valid_fields(fs),
            i <= fs.len(),
            offset == fields_end(fs, i as int),
        decreases fs.len() - i,
    {
        let f = &fields[i];
        let w = f.elem_bytes;
        proof {
            lemma_layout_monotone(fs, i as int, i as int + 1);
            lemma_layout_monotone(fs, i as int + 1, fs.len() as int);
            assert(valid_width(fs[i as int].elem_bytes as nat));
            lemma_align_up(offset as int, w as int);
        }
        let rem = offset % w;
        if rem != 0 && offset > usize::MAX - (w - rem) {
            return None;
        }
        let start = align_to(offset, w);
        if f.cols > usize::MAX / w {
            return None;
        }
        let size: usize = if w == 1 {
            f.cols
        } else if w == 2 {
            2 * f.cols
        } else {
            4 * f.cols
        };
        if size > usize::MAX - start {
            return None;
        }
        offset = start + size;
        i = i + 1;
    }
    proof {
        lemma_layout_monotone(fs, fs.len() as int, fs.len() as int);
        lemma_align_up(offset as int, 4);
    }
    let rem = offset % 4;
    if rem != 0 && offset > usize::MAX - (4 - rem) {
        return None;
    }
    Some(align_to(offset, 4))
}

impl Schema {
    /// The layout of `fields`: the first field with a width other than 1,
    /// 2 or 4 is refused, then a layout whose size does not fit a `usize`.
    pub fn from_fields(fields: Vec<FieldSpec>) -> (r: Result<Schema, LayoutError>)
        ensures
            match r {
                Ok(s) => s.wf() && s.fields@ == fields@,
                Err(LayoutError::BadWidth { index }) => index == first_bad_width(fields@, 0),
                Err(LayoutError::TooLarge) => first_bad_width(fields@, 0) < 0 && data_bytes(fields@)
                    > usize::MAX,
            },
            r is Ok <==> first_bad_width(fields@, 0) < 0 && data_bytes(fields@) <= usize::MAX,
    {
        let mut k: usize = 0;
        while k < fields.len()
            invariant
                k <= fields@.len(),
                first_bad_width(fields@, 0) == first_bad_width(fields@, k as int),
            decreases fields@.len() - k,
        {
            let w = fields[k].elem_bytes;
            if !(w == 1 || w == 2 || w == 4) {
                return Err(LayoutError::BadWidth { index: k });
            }
            k = k + 1;
        }
        proof {
            lemma_first_bad_width(fields@, 0);
        }
        match layout_bytes(&fields) {
            Some(n) => Ok(Schema { fields, params_data_bytes: n }),
            None => Err(LayoutError::TooLarge),
        }
    }
}

} // verus!
