//! Whether a parameter map holds what encoding a profile needs.
use crate::params::ParamMap;
use crate::profile::profile_complete;
use crate::schema::{FieldSpec, Schema};
use vstd::prelude::*;

verus! {

/// Why a profile cannot be encoded: a field that is missing, or that has
/// the wrong number of values.
#[derive(Debug, PartialEq, Eq, Structural, Clone, Copy)]
pub enum IncompleteField {
    Missing { index: usize },
    WrongLength { index: usize, got: usize },
}

/// The first field, from `k` on, that `m` lacks or holds with the wrong
/// number of values.
pub open spec fn first_incomplete(fields: Seq<FieldSpec>, m: Map<Seq<char>, Seq<i64>>, k: int) -> Option<
    IncompleteField,
>
    decreases fields.len() - k,
{
    if k >= fields.len() || k < 0 {
        None
    } else if !m.contains_key(fields[k].name@) {
        Some(IncompleteField::Missing { index: k as usize })
    } else if m[fields[k].name@].len() != fields[k].cols {
        Some(IncompleteField::WrongLength { index: k as usize, got: m[fields[k].name@].len() as usize })
    } else {
        first_incomplete(fields, m, k + 1)
    }
}

pub proof fn lemma_first_incomplete(fields: Seq<FieldSpec>, m: Map<Seq<char>, Seq<i64>>, k: int)
    requires
        0 <= k <= fields.len(),
    ensures
        first_incomplete(fields, m, k) is None <==> forall|i: int|
            k <= i < fields.len() ==> #[trigger] m.contains_key(fields[i].name@) && m[fields[i].name@].len()
                == fields[i].cols,
    decreases fields.len() - k,
{
    if k < fields.len() {
        lemma_first_incomplete(fields, m, k + 1);
        if first_incomplete(fields, m, k) is None {
            assert forall|i: int| k <= i < fields.len() implies #[trigger] m.contains_key(fields[i].name@)
                && m[fields[i].name@].len() == fields[i].cols by {
                if i > k {
                    assert(m.contains_key(fields[i].name@));
                }
            }
        } else {
            if forall|i: int| k <= i < fields.len() ==> #[trigger] m.contains_key(fields[i].name@)
                && m[fields[i].name@].len() == fields[i].cols {
                assert(m.contains_key(fields[k].name@));
                assert forall|i: int| k + 1 <= i < fields.len() implies #[trigger] m.contains_key(fields[i].name@)
                    && m[fields[i].name@].len() == fields[i].cols by {
                    assert(m.contains_key(fields[i].name@));
                }
            }
        }
    }
}

/// The first field of the layout that `map` lacks or holds with the wrong
/// number of values, in the order in which encoding looks at them; `None`
/// exactly when the profile is complete.
pub fn check_profile(schema: &Schema, map: &ParamMap) -> (r: Option<IncompleteField>)
    ensures
        r == first_incomplete(schema.fields@, map@, 0),
        r is None <==> profile_complete(schema.fields@, map@),
{
    let ghost fields = schema.fields@;
    proof {
        lemma_first_incomplete(fields, map@, 0);
    }
    let mut k: usize = 0;
    while k < schema.fields.len()
        invariant
            k <= fields.len(),
            fields == schema.fields@,
            first_incomplete(fields, map@, 0) == first_incomplete(fields, map@, k as int),
        decreases fields.len() - k,
    {
        let f = &schema.fields[k];
        match map.get(f.name.as_str()) {
            None => {
                return Some(IncompleteField::Missing { index: k });
            },
            Some(vals) => {
                if vals.len() != f.cols {
                    return Some(IncompleteField::WrongLength { index: k, got: vals.len() });
                }
            },
        }
        k = k + 1;
    }
    None
}

} // verus!
