//! Fields a view can show on its nodes, and the frozen values a calculation
//! leaves behind.
use vstd::prelude::*;

verus! {

/// A field of the visible nodes: a source property by name, or one column of
/// a frozen calculation.
#[derive(Debug, Clone)]
pub enum FieldRef {
    Property { name: String },
    Derived { calculation_id: String, column: String },
}

/// The values of one frozen column: node identity and integer value, in node
/// order, captured from the subset revision named here.
#[derive(Debug, Clone)]
pub struct FrozenField {
    pub input_subset_revision: String,
    pub values: Vec<(u32, u32)>,
}

/// One frozen column, keyed by the calculation that made it and the
/// column's name.
#[derive(Debug, Clone)]
pub struct DerivedColumn {
    pub calculation_id: String,
    pub column: String,
    pub field: FrozenField,
}

/// Column `j` of `fields` is keyed `(id, column)`.
pub open spec fn has_key(fields: Seq<DerivedColumn>, j: int, id: Seq<char>, column: Seq<char>) -> bool {
    fields[j].calculation_id@ == id && fields[j].column@ == column
}

/// No two columns share a key, as in a map from key to column.
pub open spec fn keys_unique(fields: Seq<DerivedColumn>) -> bool {
    forall|i: int, j: int|
        #![trigger fields[i], fields[j]]
        0 <= i < j < fields.len() ==> !(fields[i].calculation_id@ == fields[j].calculation_id@
            && fields[i].column@ == fields[j].column@)
}

/// The position of the column keyed `(id, column)`, if there is one.
pub open spec fn column_index(fields: Seq<DerivedColumn>, id: Seq<char>, column: Seq<char>) -> Option<int> {
    if exists|j: int| 0 <= j < fields.len() && #[trigger] has_key(fields, j, id, column) {
        Some(choose|j: int| 0 <= j < fields.len() && #[trigger] has_key(fields, j, id, column))
    } else {
        None
    }
}

/// The node identities of a frozen column, in order.
pub open spec fn members(values: Seq<(u32, u32)>) -> Seq<u32> {
    values.map_values(|p: (u32, u32)| p.0)
}

/// The integer values of a frozen column, in order.
pub open spec fn column_numbers(values: Seq<(u32, u32)>) -> Seq<u32> {
    values.map_values(|p: (u32, u32)| p.1)
}

/// The first column keyed `(id, column)`: with unique keys, the only one.
pub fn find_column(fields: &Vec<DerivedColumn>, id: &String, column: &str) -> (r: Option<usize>)
    requires
        keys_unique(fields@),
    ensures
        r is Some <==> column_index(fields@, id@, column@) is Some,
        r matches Some(j) ==> j == column_index(fields@, id@, column@)->0 && has_key(
            fields@,
            j as int,
            id@,
            column@,
        ),
{
    let mut j: usize = 0;
    while j < fields.len()
        invariant
            keys_unique(fields@),
            j <= fields@.len(),
            forall|k: int| 0 <= k < j ==> !#[trigger] has_key(fields@, k, id@, column@),
        decreases fields@.len() - j,
    {
        if fields[j].calculation_id == *id && crate::export::str_eq(fields[j].column.as_str(), column) {
            proof {
                assert(has_key(fields@, j as int, id@, column@));
                let c = choose|k: int| 0 <= k < fields@.len() && #[trigger] has_key(fields@, k, id@, column@);
                assert(0 <= c < fields@.len() && has_key(fields@, c, id@, column@));
                if c < j {
                    assert(!has_key(fields@, c, id@, column@));
                } else if c > j {
                    let fj = fields@[j as int];
                    let fc = fields@[c];
                    assert(!(fj.calculation_id@ == fc.calculation_id@ && fj.column@ == fc.column@));
                }
                assert(c == j);
            }
            return Some(j);
        }
        j = j + 1;
    }
    None
}

} // verus!
