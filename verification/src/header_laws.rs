//! What reading the C header means, stated without the reader's own
//! definitions: the value of a product of factors, and the element type
//! that each C type name stands for.
use crate::header::{eval_expr, eval_product, field_decl, starts_with};
use crate::text::{dec_digits, int_text, lemma_int_text_roundtrip, trim};
use crate::toml_laws::{lemma_dec_digits_chars, lemma_index_of_prefix, lemma_trim_id};
use crate::toml_read::{index_of, lemma_index_of};
use vstd::prelude::*;

verus! {

/// The decimal texts of `fs`, joined by `*`.
pub open spec fn factors_text(fs: Seq<nat>) -> Seq<char>
    decreases fs.len(),
{
    if fs.len() == 0 {
        Seq::empty()
    } else if fs.len() == 1 {
        int_text(fs[0] as int)
    } else {
        int_text(fs[0] as int) + seq!['*'] + factors_text(fs.drop_first())
    }
}

/// The product of `fs`.
pub open spec fn product(fs: Seq<nat>) -> nat
    decreases fs.len(),
{
    if fs.len() == 0 {
        1
    } else {
        product(fs.drop_last()) * fs.last()
    }
}

proof fn lemma_digits_no_star(v: nat)
    ensures
        int_text(v as int).len() > 0,
        index_of(int_text(v as int), '*') < 0,
        trim(int_text(v as int)) == int_text(v as int),
        forall|i: int| 0 <= i < int_text(v as int).len() ==> #[trigger] int_text(v as int)[i] != '*',
{
    lemma_dec_digits_chars(v);
    let t = int_text(v as int);
    assert(t == dec_digits(v));
    lemma_index_of(t, '*');
    if index_of(t, '*') >= 0 {
        assert(t[index_of(t, '*')] == '*');
    }
    assert(crate::text::is_white(t[0]) == false) by {
        crate::text::lemma_white_chars(t[0]);
    }
    assert(crate::text::is_white(t.last()) == false) by {
        crate::text::lemma_white_chars(t.last());
    }
    lemma_trim_id(t);
}

proof fn lemma_eval_factors_from(fs: Seq<nat>, k: int)
    requires
        0 <= k < fs.len(),
        forall|i: int| 0 <= i < fs.len() ==> fs[i] <= u32::MAX,
        forall|j: int| 1 <= j <= fs.len() ==> #[trigger] product(fs.take(j)) <= u32::MAX,
    ensures
        eval_product(factors_text(fs.skip(k)), product(fs.take(k)) as int) == Some(product(fs) as int),
    decreases fs.len() - k,
{
    let g = fs.skip(k);
    let t = factors_text(g);
    let v = fs[k];
    let acc = product(fs.take(k));
    lemma_digits_no_star(v);
    lemma_int_text_roundtrip(v as int, false, 0, u32::MAX as int);
    assert(fs.take(k + 1).drop_last() =~= fs.take(k));
    assert(product(fs.take(k + 1)) == acc * v);
    assert(g[0] == v);
    if g.len() == 1 {
        assert(t == int_text(v as int));
        assert(fs.take(k + 1) =~= fs);
    } else {
        let rest = factors_text(g.drop_first());
        assert(t == int_text(v as int) + seq!['*'] + rest);
        assert(int_text(v as int) + seq!['*'] + rest =~= int_text(v as int) + (seq!['*'] + rest));
        lemma_index_of_prefix(int_text(v as int), seq!['*'] + rest, '*');
        let i = int_text(v as int).len() as int;
        assert(t.take(i) =~= int_text(v as int));
        assert(t.skip(i + 1) =~= rest);
        assert(g.drop_first() =~= fs.skip(k + 1));
        lemma_eval_factors_from(fs, k + 1);
    }
}

/// A `COLS` value written as factors `a*b*c...` in decimal is the product
/// of all of them, when every factor and every product of the first ones
/// fits a `u32`.
pub proof fn lemma_eval_factors(fs: Seq<nat>)
    requires
        fs.len() >= 1,
        forall|i: int| 0 <= i < fs.len() ==> fs[i] <= u32::MAX,
        forall|j: int| 1 <= j <= fs.len() ==> #[trigger] product(fs.take(j)) <= u32::MAX,
    ensures
        eval_expr(factors_text(fs)) == Some(product(fs) as int),
{
    lemma_digits_no_star(fs[0]);
    assert(fs.take(0) =~= Seq::<nat>::empty());
    assert(fs.skip(0) =~= fs);
    lemma_eval_factors_from(fs, 0);
    if fs.len() == 1 {
        lemma_int_text_roundtrip(fs[0] as int, false, 0, u32::MAX as int);
        assert(fs.drop_last() =~= Seq::<nat>::empty());
    } else {
        let t = factors_text(fs);
        let rest = factors_text(fs.drop_first());
        assert(int_text(fs[0] as int) + seq!['*'] + rest =~= int_text(fs[0] as int) + (seq!['*'] + rest));
        lemma_index_of_prefix(int_text(fs[0] as int), seq!['*'] + rest, '*');
    }
}

/// The C type that a field's line starts with gives the field's element:
/// `intN_t` is signed and `uintN_t` unsigned, `N` bits wide, for `N` 8, 16
/// or 32; a field's width is `N / 8` bytes.
pub proof fn lemma_field_decl_type(cols: Map<Seq<char>, u32>, l: Seq<char>)
    requires
        field_decl(cols, l) is Ok,
        field_decl(cols, l)->Ok_0 is Some,
    ensures
        ({
            let f = field_decl(cols, l)->Ok_0->Some_0;
            &&& f.elem_bytes == 1 || f.elem_bytes == 2 || f.elem_bytes == 4
            &&& starts_with(
                l,
                (if f.signed {
                    "int"@
                } else {
                    "uint"@
                }) + int_text(8 * f.elem_bytes as int) + "_t "@,
            )
        }),
{
    reveal_strlit("int");
    reveal_strlit("uint");
    reveal_strlit("_t ");
    reveal_strlit("uint32_t ");
    reveal_strlit("int32_t ");
    reveal_strlit("uint16_t ");
    reveal_strlit("int16_t ");
    reveal_strlit("uint8_t ");
    reveal_strlit("int8_t ");
    assert(int_text(8) =~= seq!['8']);
    assert(dec_digits(1) =~= seq!['1']);
    assert(dec_digits(3) =~= seq!['3']);
    assert(int_text(16) =~= seq!['1', '6']);
    assert(int_text(32) =~= seq!['3', '2']);
    let f = field_decl(cols, l)->Ok_0->Some_0;
    let word = (if f.signed {
        "int"@
    } else {
        "uint"@
    }) + int_text(8 * f.elem_bytes as int) + "_t "@;
    if starts_with(l, "uint32_t "@) {
        assert(word =~= "uint32_t "@);
    } else if starts_with(l, "int32_t "@) {
        assert(word =~= "int32_t "@);
    } else if starts_with(l, "uint16_t "@) {
        assert(word =~= "uint16_t "@);
    } else if starts_with(l, "int16_t "@) {
        assert(word =~= "int16_t "@);
    } else if starts_with(l, "uint8_t "@) {
        assert(word =~= "uint8_t "@);
    } else {
        assert(word =~= "int8_t "@);
    }
}

} // verus!
