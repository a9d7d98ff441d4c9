//! Frozen, namespaced calculations over an acknowledged visible input.
use std::collections::HashSet;
use std::time::Instant;

use kglite::api::DirGraph;

use vstd::prelude::*;
use vstd::utf8::encode_utf8;

use crate::calculation_kernels::{
    self, connected, deadline_message, lemma_leaders_monotone, degree_row, endpoints_within, input_problem, is_leader,
    leaders_before, members_before,
    CalculationInput, MAX_LOADED_EDGES, MAX_LOADED_NODES,
};
use crate::error::{is_refusal, refusal, CoreError};
use crate::graph_reads::{edge_endpoints, graph_edges};
use crate::export::str_eq;
use crate::shared::RevisionStamp;
use crate::subset::{
    column_index, column_numbers, find_column, has_key, keys_unique, members, DerivedColumn,
    FieldRef, FrozenField,
};
use crate::text::{concat, decimal_string, parse_u64, parses_u64, spec_decimal};

verus! {

/// Frozen calculations one view may hold.
pub const MAX_CALCULATIONS: usize = 8;

/// Serialized bytes all frozen calculations of one view may take.
pub const MAX_DERIVED_BYTES: usize = 8388608;

/// The largest value a frozen degree or component column may hold.
pub const MAX_DERIVED_VALUE: u32 = 40000;

/// The algorithms a view can freeze over its visible input.
#[derive(Debug, Clone, Copy, PartialEq, Eq, Structural)]
pub enum CalculationKind {
    Degree,
    WeakComponents,
}

/// A request to freeze a calculation, or to recompute the one it names.
#[derive(Debug, Clone)]
pub struct CalculateRequest {
    pub kind: CalculationKind,
    pub calculation_id: Option<String>,
}

/// The definition of one frozen column.
#[derive(Debug, Clone)]
pub struct CalculationField {
    pub field: FieldRef,
    pub label: String,
    pub value_type: String,
}

/// What a frozen calculation records about itself. Its run time is counted
/// in whole microseconds.
#[derive(Debug, Clone)]
pub struct CalculationMeta {
    pub id: String,
    pub kind: CalculationKind,
    pub input_stamp: RevisionStamp,
    pub input_subset_revision: String,
    pub scope: String,
    pub node_count: u32,
    pub edge_count: u32,
    pub fields: Vec<CalculationField>,
    pub status: String,
    pub elapsed_micros: u64,
    pub semantics: String,
}

/// The `(name, label)` of each column a kind produces, in order.
pub open spec fn column_specs(kind: CalculationKind) -> Seq<(Seq<char>, Seq<char>)> {
    match kind {
        CalculationKind::Degree => seq![
            ("in"@, "In degree"@),
            ("out"@, "Out degree"@),
            ("total"@, "Total degree"@),
        ],
        CalculationKind::WeakComponents => seq![
            ("component_id"@, "Weak component"@),
            ("component_size"@, "Component size"@),
        ],
    }
}

/// What a kind's values mean, in the words a caller is shown.
pub open spec fn semantics_text(kind: CalculationKind) -> Seq<char> {
    match kind {
        CalculationKind::Degree => "directed visible relation records; parallel edges count separately; a self-loop adds one in, one out, and two total"@,
        CalculationKind::WeakComponents => "visible relation records with direction ignored; isolates included; component IDs ordered by minimum source node identity"@,
    }
}

impl CalculationKind {
    /// The `(name, label)` of each column this kind produces.
    pub fn columns(self) -> (r: Vec<(&'static str, &'static str)>)
        ensures
            r@.len() == column_specs(self).len(),
            forall|i: int|
                0 <= i < r@.len() ==> (#[trigger] r@[i]).0@ == column_specs(self)[i].0 && r@[i].1@
                    == column_specs(self)[i].1,
    {
        match self {
            CalculationKind::Degree => vec![
                ("in", "In degree"),
                ("out", "Out degree"),
                ("total", "Total degree"),
            ],
            CalculationKind::WeakComponents => vec![
                ("component_id", "Weak component"),
                ("component_size", "Component size"),
            ],
        }
    }

    /// What this kind's values mean.
    pub fn semantics(self) -> (r: &'static str)
        ensures
            r@ == semantics_text(self),
    {
        match self {
            CalculationKind::Degree => "directed visible relation records; parallel edges count separately; a self-loop adds one in, one out, and two total",
            CalculationKind::WeakComponents => "visible relation records with direction ignored; isolates included; component IDs ordered by minimum source node identity",
        }
    }
}

/// The number of bytes `s` takes in UTF-8.
pub open spec fn byte_len(s: Seq<char>) -> nat {
    encode_utf8(s).len()
}

/// `f` is the frozen column `column` of calculation `id`.
pub open spec fn is_derived_field(f: FieldRef, id: Seq<char>, column: Seq<char>) -> bool {
    f matches FieldRef::Derived { calculation_id, column: c } && calculation_id@ == id && c@
        == column
}

/// The identity, stamp, counts and wording of a calculation are in range.
pub open spec fn meta_header_ok(meta: CalculationMeta) -> bool {
    &&& 0 < byte_len(meta.id@) <= 128
    &&& 0 < byte_len(meta.input_stamp.generation@) <= 128
    &&& parses_u64(meta.input_stamp.revision@)
    &&& parses_u64(meta.input_subset_revision@)
    &&& meta.scope@ == "visible"@
    &&& meta.status@ == "ready"@
    &&& meta.node_count <= MAX_LOADED_NODES
    &&& meta.edge_count <= MAX_LOADED_EDGES
    &&& meta.semantics@ == semantics_text(meta.kind)
    &&& meta.fields@.len() == column_specs(meta.kind).len()
}

/// Each field definition names its own column, label and integer type.
pub open spec fn meta_fields_ok(meta: CalculationMeta) -> bool {
    forall|i: int|
        0 <= i < meta.fields@.len() ==> {
            let f = #[trigger] meta.fields@[i];
            &&& f.value_type@ == "int64"@
            &&& f.label@ == column_specs(meta.kind)[i].1
            &&& is_derived_field(f.field, meta.id@, column_specs(meta.kind)[i].0)
        }
}

/// Why a calculation's own record is refused, if it is.
pub open spec fn meta_problem(meta: CalculationMeta) -> Option<Seq<char>> {
    if !meta_header_ok(meta) {
        Some("calculation metadata is invalid or unsupported"@)
    } else if !meta_fields_ok(meta) {
        Some("calculation field definition does not match its algorithm"@)
    } else {
        None
    }
}

fn string_is(s: &String, lit: &str) -> (r: bool)
    ensures
        r == (s@ == lit@),
{
    str_eq(s.as_str(), lit)
}

fn validate_meta(meta: &CalculationMeta) -> (r: Result<(), CoreError>)
    ensures
        r is Ok <==> meta_problem(*meta) is None,
        r matches Err(e) ==> is_refusal(e, meta_problem(*meta)->0),
{
    let id_len = meta.id.as_str().as_bytes().len();
    let gen_len = meta.input_stamp.generation.as_str().as_bytes().len();
    let columns = meta.kind.columns();
    if id_len == 0 || id_len > 128 || gen_len == 0 || gen_len > 128
        || parse_u64(meta.input_stamp.revision.as_str()).is_none()
        || parse_u64(meta.input_subset_revision.as_str()).is_none()
        || !string_is(&meta.scope, "visible")
        || !string_is(&meta.status, "ready")
        || meta.node_count as usize > MAX_LOADED_NODES
        || meta.edge_count as usize > MAX_LOADED_EDGES
        || !string_is(&meta.semantics, meta.kind.semantics())
        || meta.fields.len() != columns.len()
    {
        return Err(refusal("calculation metadata is invalid or unsupported"));
    }
    let mut i: usize = 0;
    while i < meta.fields.len()
        invariant
            meta_header_ok(*meta),
            columns@.len() == meta.fields@.len(),
            forall|k: int|
                0 <= k < columns@.len() ==> (#[trigger] columns@[k]).0@ == column_specs(
                    meta.kind,
                )[k].0 && columns@[k].1@ == column_specs(meta.kind)[k].1,
            i <= meta.fields@.len(),
            forall|k: int|
                0 <= k < i ==> {
                    let f = #[trigger] meta.fields@[k];
                    &&& f.value_type@ == "int64"@
                    &&& f.label@ == column_specs(meta.kind)[k].1
                    &&& is_derived_field(f.field, meta.id@, column_specs(meta.kind)[k].0)
                },
        decreases meta.fields@.len() - i,
    {
        let field = &meta.fields[i];
        let (column, label) = columns[i];
        assert(columns@[i as int].0@ == column_specs(meta.kind)[i as int].0);
        let named = match &field.field {
            FieldRef::Derived { calculation_id, column: c } => *calculation_id == meta.id
                && str_eq(c.as_str(), column),
            FieldRef::Property { .. } => false,
        };
        if !string_is(&field.value_type, "int64") || !string_is(&field.label, label) || !named {
            return Err(refusal("calculation field definition does not match its algorithm"));
        }
        i = i + 1;
    }
    Ok(())
}


/// Why the frozen columns of `meta`, from column `c` on, are refused, given
/// the node identities `prev` of the column before `c`.
pub open spec fn columns_problem(
    meta: CalculationMeta,
    fields: Seq<DerivedColumn>,
    c: int,
    prev: Option<Seq<u32>>,
) -> Option<Seq<char>>
    decreases column_specs(meta.kind).len() - c,
{
    if c < 0 || c >= column_specs(meta.kind).len() {
        None
    } else {
        match column_index(fields, meta.id@, column_specs(meta.kind)[c].0) {
            None => Some("calculation field values are missing"@),
            Some(j) => {
                let f = fields[j].field;
                if f.input_subset_revision@ != meta.input_subset_revision@ || f.values@.len()
                    != meta.node_count {
                    Some("calculation field input metadata does not match its frozen values"@)
                } else if prev matches Some(p) && p != members(f.values@) {
                    Some(
                        "calculation columns must share exactly the same captured node identities"@,
                    )
                } else if exists|k: int|
                    0 <= k < f.values@.len() && #[trigger] f.values@[k].1 > MAX_DERIVED_VALUE {
                    Some(
                        "degree and weak-component values must be bounded nonnegative integers"@,
                    )
                } else {
                    columns_problem(meta, fields, c + 1, Some(members(f.values@)))
                }
            },
        }
    }
}

/// The values of column `c` of `meta`, in node order.
pub open spec fn frozen_numbers(meta: CalculationMeta, fields: Seq<DerivedColumn>, c: int) -> Seq<
    u32,
> {
    column_numbers(
        fields[column_index(fields, meta.id@, column_specs(meta.kind)[c].0)->0].field.values@,
    )
}

/// Every column from `c` on is present, captured from the meta's subset
/// revision, one value per counted node, bounded, over the same nodes.
pub open spec fn columns_sound(
    meta: CalculationMeta,
    fields: Seq<DerivedColumn>,
    c: int,
    prev: Option<Seq<u32>>,
) -> bool {
    forall|k: int|
        c <= k < column_specs(meta.kind).len() ==> {
            &&& #[trigger] column_index(fields, meta.id@, column_specs(meta.kind)[k].0) is Some
            &&& frozen_numbers(meta, fields, k).len() == meta.node_count
            &&& forall|x: int|
                0 <= x < meta.node_count ==> #[trigger] frozen_numbers(meta, fields, k)[x]
                    <= MAX_DERIVED_VALUE
            &&& (prev matches Some(p) ==> members(
                fields[column_index(
                    fields,
                    meta.id@,
                    column_specs(meta.kind)[k].0,
                )->0].field.values@,
            ) == p)
        }
}

proof fn lemma_columns_sound(
    meta: CalculationMeta,
    fields: Seq<DerivedColumn>,
    c: int,
    prev: Option<Seq<u32>>,
)
    requires
        0 <= c,
        columns_problem(meta, fields, c, prev) is None,
    ensures
        columns_sound(meta, fields, c, prev),
    decreases column_specs(meta.kind).len() - c,
{
    if c < column_specs(meta.kind).len() {
        let j = column_index(fields, meta.id@, column_specs(meta.kind)[c].0)->0;
        let f = fields[j].field;
        let m = members(f.values@);
        lemma_columns_sound(meta, fields, c + 1, Some(m));
        assert forall|x: int| 0 <= x < meta.node_count implies #[trigger] frozen_numbers(
            meta,
            fields,
            c,
        )[x] <= MAX_DERIVED_VALUE by {
            assert(f.values@[x].1 <= MAX_DERIVED_VALUE);
        }
    }
}

fn members_of(values: &Vec<(u32, u32)>) -> (r: Vec<u32>)
    ensures
        r@ == members(values@),
{
    let mut r: Vec<u32> = Vec::new();
    let mut i: usize = 0;
    while i < values.len()
        invariant
            i <= values@.len(),
            r@ == members(values@.subrange(0, i as int)),
        decreases values@.len() - i,
    {
        r.push(values[i].0);
        i = i + 1;
        assert(members(values@.subrange(0, i as int)) =~= members(
            values@.subrange(0, i - 1),
        ).push(values@[i - 1].0));
    }
    assert(values@.subrange(0, i as int) =~= values@);
    r
}

fn numbers_of(values: &Vec<(u32, u32)>) -> (r: Vec<u32>)
    ensures
        r@ == column_numbers(values@),
{
    let mut r: Vec<u32> = Vec::new();
    let mut i: usize = 0;
    while i < values.len()
        invariant
            i <= values@.len(),
            r@ == column_numbers(values@.subrange(0, i as int)),
        decreases values@.len() - i,
    {
        r.push(values[i].1);
        i = i + 1;
        assert(column_numbers(values@.subrange(0, i as int)) =~= column_numbers(
            values@.subrange(0, i - 1),
        ).push(values@[i - 1].1));
    }
    assert(values@.subrange(0, i as int) =~= values@);
    r
}

fn same_u32s(a: &Vec<u32>, b: &Vec<u32>) -> (r: bool)
    ensures
        r == (a@ == b@),
{
    if a.len() != b.len() {
        return false;
    }
    let mut i: usize = 0;
    while i < a.len()
        invariant
            a@.len() == b@.len(),
            i <= a@.len(),
            forall|k: int| 0 <= k < i ==> a@[k] == b@[k],
        decreases a@.len() - i,
    {
        if a[i] != b[i] {
            return false;
        }
        i = i + 1;
    }
    assert(a@ =~= b@);
    true
}

#[verifier::loop_isolation(false)]
fn check_columns(meta: &CalculationMeta, fields: &Vec<DerivedColumn>) -> (r: Result<(), CoreError>)
    requires
        keys_unique(fields@),
    ensures
        r is Ok <==> columns_problem(*meta, fields@, 0, None) is None,
        r matches Err(e) ==> is_refusal(e, columns_problem(*meta, fields@, 0, None)->0),
{
    let columns = meta.kind.columns();
    let mut prev: Option<Vec<u32>> = None;
    let ghost mut prev_spec: Option<Seq<u32>> = None;
    let mut c: usize = 0;
    while c < columns.len()
        invariant
            c <= columns@.len(),
            prev_spec == (match prev {
                Some(v) => Some(v@),
                None => None::<Seq<u32>>,
            }),
            c == 0 ==> prev_spec is None,
            columns_problem(*meta, fields@, 0, None) == columns_problem(
                *meta,
                fields@,
                c as int,
                prev_spec,
            ),
        decreases columns@.len() - c,
    {
        let (name, _) = columns[c];
        assert(columns@[c as int].0@ == column_specs(meta.kind)[c as int].0);
        let found = find_column(fields, &meta.id, name);
        match found {
            None => {
                return Err(refusal("calculation field values are missing"));
            },
            Some(j) => {
                let field = &fields[j].field;
                if field.input_subset_revision != meta.input_subset_revision || field.values.len()
                    != meta.node_count as usize {
                    return Err(
                        refusal("calculation field input metadata does not match its frozen values"),
                    );
                }
                let m = members_of(&field.values);
                let differs = match &prev {
                    Some(p) => !same_u32s(p, &m),
                    None => false,
                };
                if differs {
                    return Err(
                        refusal(
                            "calculation columns must share exactly the same captured node identities",
                        ),
                    );
                }
                let mut k: usize = 0;
                while k < field.values.len()
                    invariant
                        k <= field.values@.len(),
                        forall|x: int| 0 <= x < k ==> field.values@[x].1 <= MAX_DERIVED_VALUE,
                    decreases field.values@.len() - k,
                {
                    if field.values[k].1 > MAX_DERIVED_VALUE {
                        return Err(
                            refusal(
                                "degree and weak-component values must be bounded nonnegative integers",
                            ),
                        );
                    }
                    k = k + 1;
                }
                proof {
                    prev_spec = Some(m@);
                }
                prev = Some(m);
            },
        }
        c = c + 1;
    }
    Ok(())
}


/// The sum of the first `k` values of `s`.
pub open spec fn sum_prefix(s: Seq<u32>, k: int) -> int
    decreases k,
{
    if k <= 0 {
        0
    } else {
        sum_prefix(s, k - 1) + s[k - 1]
    }
}

/// How many of the first `k` labels are `v`.
pub open spec fn label_count(labels: Seq<u32>, k: int, v: u32) -> nat
    decreases k,
{
    if k <= 0 {
        0
    } else {
        label_count(labels, k - 1, v) + if labels[k - 1] == v {
            1nat
        } else {
            0nat
        }
    }
}

/// How many different labels the first `k` labels hold.
pub open spec fn distinct_labels(labels: Seq<u32>, k: int) -> nat
    decreases k,
{
    if k <= 0 {
        0
    } else {
        distinct_labels(labels, k - 1) + if label_count(labels, k - 1, labels[k - 1]) == 0 {
            1nat
        } else {
            0nat
        }
    }
}

/// Why the frozen values of `meta` contradict its algorithm, if they do.
pub open spec fn algorithm_problem(meta: CalculationMeta, fields: Seq<DerivedColumn>) -> Option<
    Seq<char>,
> {
    match meta.kind {
        CalculationKind::Degree => {
            let ins = frozen_numbers(meta, fields, 0);
            let outs = frozen_numbers(meta, fields, 1);
            let total = frozen_numbers(meta, fields, 2);
            if sum_prefix(ins, ins.len() as int) != meta.edge_count || sum_prefix(
                outs,
                outs.len() as int,
            ) != meta.edge_count || exists|i: int|
                0 <= i < ins.len() && #[trigger] ins[i] + outs[i] != total[i] {
                Some("frozen degree values do not match their captured relation count"@)
            } else {
                None
            }
        },
        CalculationKind::WeakComponents => {
            let labels = frozen_numbers(meta, fields, 0);
            let sizes = frozen_numbers(meta, fields, 1);
            let n = labels.len() as int;
            let d = distinct_labels(labels, n);
            if (meta.node_count == 0 && meta.edge_count != 0) || meta.edge_count < meta.node_count
                - d {
                Some("frozen component relation count cannot connect its reported members"@)
            } else if exists|v: u32| (#[trigger] label_count(labels, n, v) > 0) != (1 <= v <= d) {
                Some("frozen component labels must be contiguous positive integers"@)
            } else if exists|i: int|
                0 <= i < n && label_count(labels, n, #[trigger] labels[i]) != sizes[i] {
                Some("frozen component sizes do not match their captured members"@)
            } else {
                None
            }
        },
    }
}

proof fn lemma_label_count_bounded(labels: Seq<u32>, k: int, v: u32)
    requires
        0 <= k,
    ensures
        label_count(labels, k, v) <= k,
        distinct_labels(labels, k) <= k,
    decreases k,
{
    if k > 0 {
        lemma_label_count_bounded(labels, k - 1, v);
        lemma_label_count_bounded(labels, k - 1, labels[k - 1]);
    }
}

proof fn lemma_label_absent(labels: Seq<u32>, k: int, v: u32)
    requires
        0 <= k <= labels.len(),
        forall|x: int| 0 <= x < k ==> #[trigger] labels[x] <= MAX_DERIVED_VALUE,
        v > MAX_DERIVED_VALUE,
    ensures
        label_count(labels, k, v) == 0,
    decreases k,
{
    if k > 0 {
        lemma_label_absent(labels, k - 1, v);
    }
}

fn column_values(meta: &CalculationMeta, fields: &Vec<DerivedColumn>, c: usize) -> (r: Vec<u32>)
    requires
        keys_unique(fields@),
        c < column_specs(meta.kind).len(),
        column_index(fields@, meta.id@, column_specs(meta.kind)[c as int].0) is Some,
    ensures
        r@ == frozen_numbers(*meta, fields@, c as int),
{
    let columns = meta.kind.columns();
    let (name, _) = columns[c];
    let j = find_column(fields, &meta.id, name).unwrap();
    numbers_of(&fields[j].field.values)
}

fn sum_values(v: &Vec<u32>) -> (r: u64)
    requires
        v@.len() <= MAX_LOADED_NODES,
        forall|x: int| 0 <= x < v@.len() ==> #[trigger] v@[x] <= MAX_DERIVED_VALUE,
    ensures
        r == sum_prefix(v@, v@.len() as int),
{
    let mut total: u64 = 0;
    let mut i: usize = 0;
    while i < v.len()
        invariant
            i <= v@.len(),
            v@.len() <= MAX_LOADED_NODES,
            forall|x: int| 0 <= x < v@.len() ==> #[trigger] v@[x] <= MAX_DERIVED_VALUE,
            total == sum_prefix(v@, i as int),
            total <= i * MAX_DERIVED_VALUE,
        decreases v@.len() - i,
    {
        total = total + v[i] as u64;
        i = i + 1;
    }
    total
}

#[verifier::loop_isolation(false)]
#[verifier::rlimit(40)]
fn validate_algorithm_values(meta: &CalculationMeta, fields: &Vec<DerivedColumn>) -> (r: Result<
    (),
    CoreError,
>)
    requires
        keys_unique(fields@),
        meta_problem(*meta) is None,
        columns_problem(*meta, fields@, 0, None) is None,
    ensures
        r is Ok <==> algorithm_problem(*meta, fields@) is None,
        r matches Err(e) ==> is_refusal(e, algorithm_problem(*meta, fields@)->0),
{
    proof {
        lemma_columns_sound(*meta, fields@, 0, None);
        assert(column_index(fields@, meta.id@, column_specs(meta.kind)[0].0) is Some);
        assert(column_index(fields@, meta.id@, column_specs(meta.kind)[1].0) is Some);
    }
    let n = meta.node_count as usize;
    match meta.kind {
        CalculationKind::Degree => {
            proof {
                assert(column_index(fields@, meta.id@, column_specs(meta.kind)[2].0) is Some);
            }
            let ins = column_values(meta, fields, 0);
            let outs = column_values(meta, fields, 1);
            let total = column_values(meta, fields, 2);
            proof {
                assert(ins@.len() == n && outs@.len() == n && total@.len() == n);
                assert forall|x: int| 0 <= x < n implies #[trigger] ins@[x] <= MAX_DERIVED_VALUE
                    && outs@[x] <= MAX_DERIVED_VALUE by {
                    assert(frozen_numbers(*meta, fields@, 0)[x] <= MAX_DERIVED_VALUE);
                    assert(frozen_numbers(*meta, fields@, 1)[x] <= MAX_DERIVED_VALUE);
                }
            }
            if sum_values(&ins) != meta.edge_count as u64 || sum_values(&outs)
                != meta.edge_count as u64 {
                return Err(
                    refusal("frozen degree values do not match their captured relation count"),
                );
            }
            let mut i: usize = 0;
            while i < n
                invariant
                    i <= n,
                    forall|x: int| 0 <= x < i ==> #[trigger] ins@[x] + outs@[x] == total@[x],
                decreases n - i,
            {
                if ins[i] + outs[i] != total[i] {
                    return Err(
                        refusal("frozen degree values do not match their captured relation count"),
                    );
                }
                i = i + 1;
            }
            Ok(())
        },
        CalculationKind::WeakComponents => {
            let labels = column_values(meta, fields, 0);
            let sizes = column_values(meta, fields, 1);
            let ghost ls = labels@;
            proof {
                assert(labels@.len() == n && sizes@.len() == n);
                assert forall|x: int| 0 <= x < n implies #[trigger] labels@[x]
                    <= MAX_DERIVED_VALUE by {
                    assert(frozen_numbers(*meta, fields@, 0)[x] <= MAX_DERIVED_VALUE);
                }
            }
            let mut counts: Vec<u32> = Vec::new();
            let mut v: usize = 0;
            while v <= MAX_DERIVED_VALUE as usize
                invariant
                    v <= MAX_DERIVED_VALUE + 1,
                    counts@.len() == v,
                    forall|x: int| 0 <= x < v ==> #[trigger] counts@[x] == 0,
                decreases MAX_DERIVED_VALUE + 1 - v,
            {
                counts.push(0);
                v = v + 1;
            }
            let mut distinct: usize = 0;
            let mut i: usize = 0;
            while i < n
                invariant
                    i <= n,
                    counts@.len() == MAX_DERIVED_VALUE + 1,
                    forall|x: int|
                        0 <= x <= MAX_DERIVED_VALUE ==> #[trigger] counts@[x] == label_count(
                            ls,
                            i as int,
                            x as u32,
                        ),
                    distinct == distinct_labels(ls, i as int),
                decreases n - i,
            {
                let l = labels[i] as usize;
                proof {
                    lemma_label_count_bounded(ls, i as int, l as u32);
                    lemma_label_count_bounded(ls, i as int, 0);
                }
                if counts[l] == 0 {
                    distinct = distinct + 1;
                }
                let ghost before = counts@;
                counts.set(l, counts[l] + 1);
                proof {
                    assert forall|x: int| 0 <= x <= MAX_DERIVED_VALUE implies #[trigger] counts@[x]
                        == label_count(ls, i + 1, x as u32) by {
                        assert(before[x] == label_count(ls, i as int, x as u32));
                    }
                }
                i = i + 1;
            }
            proof {
                lemma_label_count_bounded(ls, n as int, 0);
            }
            if (meta.node_count == 0 && meta.edge_count != 0) || (meta.edge_count as usize) < n
                - distinct {
                return Err(
                    refusal(
                        "frozen component relation count cannot connect its reported members",
                    ),
                );
            }
            let mut v: usize = 0;
            while v <= MAX_DERIVED_VALUE as usize
                invariant
                    v <= MAX_DERIVED_VALUE + 1,
                    forall|x: u32|
                        x < v ==> (#[trigger] label_count(ls, n as int, x) > 0) == (1 <= x
                            <= distinct),
                decreases MAX_DERIVED_VALUE + 1 - v,
            {
                if (counts[v] > 0) != (1 <= v && v <= distinct) {
                    proof {
                        assert(label_count(ls, n as int, v as u32) == counts@[v as int]);
                    }
                    return Err(
                        refusal("frozen component labels must be contiguous positive integers"),
                    );
                }
                proof {
                    assert(label_count(ls, n as int, v as u32) == counts@[v as int]);
                }
                v = v + 1;
            }
            proof {
                assert forall|x: u32| (#[trigger] label_count(ls, n as int, x) > 0) == (1 <= x
                    <= distinct) by {
                    if x > MAX_DERIVED_VALUE {
                        lemma_label_absent(ls, n as int, x);
                    }
                }
            }
            let mut i: usize = 0;
            while i < n
                invariant
                    i <= n,
                    forall|x: int|
                        0 <= x < i ==> label_count(ls, n as int, #[trigger] ls[x]) == sizes@[x],
                decreases n - i,
            {
                let l = labels[i] as usize;
                assert(counts@[l as int] == label_count(ls, n as int, ls[i as int]));
                if counts[l] != sizes[i] {
                    return Err(
                        refusal("frozen component sizes do not match their captured members"),
                    );
                }
                i = i + 1;
            }
            Ok(())
        },
    }
}


/// Why the calculations from position `i` on are refused, in the order
/// they are checked.
pub open spec fn metas_problem(metas: Seq<CalculationMeta>, fields: Seq<DerivedColumn>, i: int) -> Option<
    Seq<char>,
>
    decreases metas.len() - i,
{
    if i < 0 || i >= metas.len() {
        None
    } else if meta_problem(metas[i]) is Some {
        meta_problem(metas[i])
    } else if exists|k: int| 0 <= k < i && #[trigger] metas[k].id@ == metas[i].id@ {
        Some("calculation identities must be unique"@)
    } else if columns_problem(metas[i], fields, 0, None) is Some {
        columns_problem(metas[i], fields, 0, None)
    } else if algorithm_problem(metas[i], fields) is Some {
        algorithm_problem(metas[i], fields)
    } else {
        metas_problem(metas, fields, i + 1)
    }
}

/// `kind` produces a column named `column`.
pub open spec fn kind_has_column(kind: CalculationKind, column: Seq<char>) -> bool {
    exists|c: int| 0 <= c < column_specs(kind).len() && #[trigger] column_specs(kind)[c].0 == column
}

/// Column `j` belongs to no calculation in `metas`.
pub open spec fn orphaned(metas: Seq<CalculationMeta>, fields: Seq<DerivedColumn>, j: int) -> bool {
    !exists|m: int|
        0 <= m < metas.len() && #[trigger] metas[m].id@ == fields[j].calculation_id@
            && kind_has_column(metas[m].kind, fields[j].column@)
}

/// Why a view's frozen calculations and their columns are refused, if they
/// are.
pub open spec fn results_problem(metas: Seq<CalculationMeta>, fields: Seq<DerivedColumn>) -> Option<
    Seq<char>,
> {
    if metas.len() > MAX_CALCULATIONS {
        Some("at most eight frozen calculations are allowed"@)
    } else if metas_problem(metas, fields, 0) is Some {
        metas_problem(metas, fields, 0)
    } else if exists|j: int| 0 <= j < fields.len() && #[trigger] orphaned(metas, fields, j) {
        Some("derived values have no matching calculation metadata"@)
    } else {
        None
    }
}

fn has_column(kind: CalculationKind, column: &String) -> (r: bool)
    ensures
        r == kind_has_column(kind, column@),
{
    let columns = kind.columns();
    let mut c: usize = 0;
    while c < columns.len()
        invariant
            c <= columns@.len(),
            columns@.len() == column_specs(kind).len(),
            forall|k: int|
                0 <= k < columns@.len() ==> (#[trigger] columns@[k]).0@ == column_specs(kind)[k].0,
            forall|k: int| 0 <= k < c ==> column_specs(kind)[k].0 != column@,
        decreases columns@.len() - c,
    {
        let (name, _) = columns[c];
        assert(columns@[c as int].0@ == column_specs(kind)[c as int].0);
        if str_eq(column.as_str(), name) {
            return true;
        }
        c = c + 1;
    }
    false
}

/// Checks a view's frozen calculations against their columns: each record
/// well formed and unique, each column present, captured from the record's
/// subset, over the same nodes and bounded, the values consistent with the
/// algorithm, and no column without its calculation.
#[verifier::loop_isolation(false)]
pub fn validate_results(metadata: &Vec<CalculationMeta>, fields: &Vec<DerivedColumn>) -> (r: Result<
    (),
    CoreError,
>)
    requires
        keys_unique(fields@),
    ensures
        r is Ok <==> results_problem(metadata@, fields@) is None,
        r matches Err(e) ==> is_refusal(e, results_problem(metadata@, fields@)->0),
{
    if metadata.len() > MAX_CALCULATIONS {
        return Err(refusal("at most eight frozen calculations are allowed"));
    }
    let mut i: usize = 0;
    while i < metadata.len()
        invariant
            i <= metadata@.len(),
            metas_problem(metadata@, fields@, 0) == metas_problem(metadata@, fields@, i as int),
        decreases metadata@.len() - i,
    {
        let meta = &metadata[i];
        validate_meta(meta)?;
        let mut k: usize = 0;
        while k < i
            invariant
                k <= i,
                forall|x: int| 0 <= x < k ==> #[trigger] metadata@[x].id@ != metadata@[i as int].id@,
            decreases i - k,
        {
            if metadata[k].id == meta.id {
                return Err(refusal("calculation identities must be unique"));
            }
            k = k + 1;
        }
        check_columns(meta, fields)?;
        validate_algorithm_values(meta, fields)?;
        i = i + 1;
    }
    let mut j: usize = 0;
    while j < fields.len()
        invariant
            j <= fields@.len(),
            metas_problem(metadata@, fields@, 0) is None,
            forall|x: int| 0 <= x < j ==> !#[trigger] orphaned(metadata@, fields@, x),
        decreases fields@.len() - j,
    {
        let mut found = false;
        let mut m: usize = 0;
        while m < metadata.len()
            invariant
                m <= metadata@.len(),
                found ==> !orphaned(metadata@, fields@, j as int),
                !found ==> forall|x: int|
                    0 <= x < m ==> !(#[trigger] metadata@[x].id@ == fields@[j as int].calculation_id@
                        && kind_has_column(metadata@[x].kind, fields@[j as int].column@)),
            decreases metadata@.len() - m,
        {
            if metadata[m].id == fields[j].calculation_id && has_column(
                metadata[m].kind,
                &fields[j].column,
            ) {
                found = true;
            }
            m = m + 1;
        }
        if !found {
            assert(orphaned(metadata@, fields@, j as int));
            return Err(refusal("derived values have no matching calculation metadata"));
        }
        j = j + 1;
    }
    Ok(())
}

/// The first calculation in `existing` whose identity is `id`.
pub open spec fn first_with_id(existing: Seq<CalculationMeta>, id: Seq<char>) -> Option<int> {
    if exists|k: int| 0 <= k < existing.len() && #[trigger] existing[k].id@ == id {
        Some(
            choose|k: int|
                0 <= k < existing.len() && #[trigger] existing[k].id@ == id && forall|l: int|
                    0 <= l < k ==> #[trigger] existing[l].id@ != id,
        )
    } else {
        None
    }
}

/// The identity a calculation request gets, or the refusal's message.
pub open spec fn spec_calculation_id(
    request: CalculateRequest,
    existing: Seq<CalculationMeta>,
    generation: Seq<char>,
    revision: u64,
) -> Result<Seq<char>, Seq<char>> {
    match request.calculation_id {
        Some(id) => match first_with_id(existing, id@) {
            None => Err("calculation_id must name an existing frozen calculation to recompute"@),
            Some(k) => if existing[k].kind != request.kind {
                Err("recompute must preserve the existing calculation kind"@)
            } else {
                Ok(id@)
            },
        },
        None => if existing.len() >= MAX_CALCULATIONS {
            Err("at most eight calculations are allowed; recompute an existing calculation"@)
        } else if revision == u64::MAX {
            Err("view revision exhausted"@)
        } else {
            Ok("calc-"@ + generation + "-"@ + spec_decimal((revision + 1) as nat))
        },
    }
}

/// The identity of the calculation a request freezes: the one it names, to
/// recompute, or `calc-<generation>-<next revision>` for a new one.
#[verifier::loop_isolation(false)]
pub fn calculation_id(
    request: &CalculateRequest,
    existing: &Vec<CalculationMeta>,
    generation: &str,
    revision: u64,
) -> (r: Result<String, CoreError>)
    ensures
        r matches Ok(s) ==> spec_calculation_id(*request, existing@, generation@, revision) == Ok::<
            Seq<char>,
            Seq<char>,
        >(s@),
        r matches Err(e) ==> spec_calculation_id(
            *request,
            existing@,
            generation@,
            revision,
        ) matches Err(m) && is_refusal(e, m),
{
    match &request.calculation_id {
        Some(id) => {
            let mut k: usize = 0;
            while k < existing.len()
                invariant
                    k <= existing@.len(),
                    forall|l: int| 0 <= l < k ==> #[trigger] existing@[l].id@ != id@,
                decreases existing@.len() - k,
            {
                if existing[k].id == *id {
                    proof {
                        assert(0 <= k < existing@.len() && existing@[k as int].id@ == id@
                            && forall|l: int| 0 <= l < k ==> #[trigger] existing@[l].id@ != id@);
                        let c = choose|x: int|
                            0 <= x < existing@.len() && #[trigger] existing@[x].id@ == id@
                                && forall|l: int| 0 <= l < x ==> #[trigger] existing@[l].id@ != id@;
                        assert(existing@[k as int].id@ == id@);
                        if c < k {
                            assert(existing@[c].id@ != id@);
                        } else if c > k {
                            assert(existing@[k as int].id@ != id@);
                        }
                        assert(first_with_id(existing@, id@) == Some(k as int));
                    }
                    if existing[k].kind != request.kind {
                        return Err(refusal("recompute must preserve the existing calculation kind"));
                    }
                    return Ok(id.clone());
                }
                k = k + 1;
            }
            Err(refusal("calculation_id must name an existing frozen calculation to recompute"))
        },
        None => {
            if existing.len() >= MAX_CALCULATIONS {
                return Err(
                    refusal(
                        "at most eight calculations are allowed; recompute an existing calculation",
                    ),
                );
            }
            if revision == u64::MAX {
                return Err(refusal("view revision exhausted"));
            }
            let head = concat("calc-", generation);
            let with_dash = concat(head.as_str(), "-");
            let number = decimal_string(revision + 1);
            let id = concat(with_dash.as_str(), number.as_str());
            Ok(id)
        },
    }
}


/// The record and columns `run` produces for a valid input: named, stamped
/// and counted after the input, one column per column of the kind, each over
/// exactly the input's nodes.
pub open spec fn run_shape(
    input: CalculationInput,
    kind: CalculationKind,
    id: Seq<char>,
    stamp: RevisionStamp,
    subset_revision: Seq<char>,
    meta: CalculationMeta,
    fields: Seq<DerivedColumn>,
) -> bool {
    let cols = column_specs(kind);
    &&& meta.id@ == id
    &&& meta.kind == kind
    &&& meta.input_stamp == stamp
    &&& meta.input_subset_revision@ == subset_revision
    &&& meta.scope@ == "visible"@
    &&& meta.status@ == "ready"@
    &&& meta.semantics@ == semantics_text(kind)
    &&& meta.node_count == input.node_ids@.len()
    &&& meta.edge_count == input.edges@.len()
    &&& meta.fields@.len() == cols.len()
    &&& meta_fields_ok(meta)
    &&& fields.len() == cols.len()
    &&& forall|c: int|
        0 <= c < cols.len() ==> {
            let f = #[trigger] fields[c];
            &&& f.calculation_id@ == id
            &&& f.column@ == cols[c].0
            &&& f.field.input_subset_revision@ == subset_revision
            &&& members(f.field.values@) == input.node_ids@
        }
}

/// The degree columns hold, for each node, its in, out and total degree.
pub open spec fn degree_columns_hold(input: CalculationInput, fields: Seq<DerivedColumn>) -> bool {
    forall|c: int, v: int|
        0 <= c < 3 && 0 <= v < input.node_ids@.len() ==> #[trigger] column_numbers(
            fields[c].field.values@,
        )[v] == degree_row(input.edges@, v)@[c]
}

/// The component columns label two nodes alike exactly when they are
/// connected, label each component after its minimum member's rank, and
/// give each node its component's size.
pub open spec fn component_columns_hold(input: CalculationInput, fields: Seq<DerivedColumn>) -> bool {
    let n = input.node_ids@.len();
    let edges = input.edges@;
    let labels = column_numbers(fields[0].field.values@);
    let sizes = column_numbers(fields[1].field.values@);
    &&& forall|i: int, j: int|
        0 <= i < n && 0 <= j < n ==> (#[trigger] labels[i] == #[trigger] labels[j] <==> connected(
            edges,
            n,
            i,
            j,
        ))
    &&& forall|i: int|
        0 <= i < n && is_leader(edges, n, i) ==> #[trigger] labels[i] == leaders_before(edges, n, i)
            + 1
    &&& forall|i: int| 0 <= i < n ==> #[trigger] sizes[i] == members_before(edges, n, i, n as int)
}

fn degree_value_columns(rows: &Vec<[u32; 3]>) -> (r: Vec<Vec<u32>>)
    ensures
        r@.len() == 3,
        forall|c: int, v: int|
            0 <= c < 3 && 0 <= v < rows@.len() ==> #[trigger] r@[c]@[v] == rows@[v]@[c],
        forall|c: int| 0 <= c < 3 ==> (#[trigger] r@[c])@.len() == rows@.len(),
{
    let mut r: Vec<Vec<u32>> = Vec::new();
    let mut c: usize = 0;
    while c < 3
        invariant
            c <= 3,
            r@.len() == c,
            forall|k: int, v: int|
                0 <= k < c && 0 <= v < rows@.len() ==> #[trigger] r@[k]@[v] == rows@[v]@[k],
            forall|k: int| 0 <= k < c ==> (#[trigger] r@[k])@.len() == rows@.len(),
        decreases 3 - c,
    {
        let mut col: Vec<u32> = Vec::new();
        let mut v: usize = 0;
        while v < rows.len()
            invariant
                c < 3,
                v <= rows@.len(),
                col@.len() == v,
                forall|x: int| 0 <= x < v ==> #[trigger] col@[x] == rows@[x]@[c as int],
            decreases rows@.len() - v,
        {
            col.push(rows[v][c]);
            v = v + 1;
        }
        r.push(col);
        c = c + 1;
    }
    r
}

fn component_value_columns(rows: &Vec<[u32; 2]>) -> (r: Vec<Vec<u32>>)
    ensures
        r@.len() == 2,
        forall|c: int, v: int|
            0 <= c < 2 && 0 <= v < rows@.len() ==> #[trigger] r@[c]@[v] == rows@[v]@[c],
        forall|c: int| 0 <= c < 2 ==> (#[trigger] r@[c])@.len() == rows@.len(),
{
    let mut r: Vec<Vec<u32>> = Vec::new();
    let mut c: usize = 0;
    while c < 2
        invariant
            c <= 2,
            r@.len() == c,
            forall|k: int, v: int|
                0 <= k < c && 0 <= v < rows@.len() ==> #[trigger] r@[k]@[v] == rows@[v]@[k],
            forall|k: int| 0 <= k < c ==> (#[trigger] r@[k])@.len() == rows@.len(),
        decreases 2 - c,
    {
        let mut col: Vec<u32> = Vec::new();
        let mut v: usize = 0;
        while v < rows.len()
            invariant
                c < 2,
                v <= rows@.len(),
                col@.len() == v,
                forall|x: int| 0 <= x < v ==> #[trigger] col@[x] == rows@[x]@[c as int],
            decreases rows@.len() - v,
        {
            col.push(rows[v][c]);
            v = v + 1;
        }
        r.push(col);
        c = c + 1;
    }
    r
}

fn frozen_values(node_ids: &Vec<u32>, numbers: &Vec<u32>) -> (r: Vec<(u32, u32)>)
    requires
        node_ids@.len() == numbers@.len(),
    ensures
        members(r@) == node_ids@,
        column_numbers(r@) == numbers@,
{
    let mut r: Vec<(u32, u32)> = Vec::new();
    let mut i: usize = 0;
    while i < node_ids.len()
        invariant
            node_ids@.len() == numbers@.len(),
            i <= node_ids@.len(),
            r@.len() == i,
            forall|x: int| 0 <= x < i ==> #[trigger] r@[x] == (node_ids@[x], numbers@[x]),
        decreases node_ids@.len() - i,
    {
        r.push((node_ids[i], numbers[i]));
        i = i + 1;
    }
    assert(members(r@) =~= node_ids@);
    assert(column_numbers(r@) =~= numbers@);
    r
}

/// Runs `kind` over a captured input and freezes its columns under `id`.
///
/// The record carries the input's stamp and subset revision, its node and
/// relation counts, a definition per column and the kind's semantics; each
/// column holds one value per captured node.
#[verifier::loop_isolation(false)]
pub fn run(
    input: &CalculationInput,
    kind: CalculationKind,
    id: String,
    stamp: RevisionStamp,
    subset_revision: String,
    deadline: Option<Instant>,
) -> (r: Result<(CalculationMeta, Vec<DerivedColumn>), CoreError>)
    ensures
        input.problem() matches Some(msg) ==> r matches Err(e) && is_refusal(e, msg),
        input.problem() is None && deadline is None ==> r is Ok,
        r matches Err(e) ==> input.problem() is Some || (deadline is Some && is_refusal(
            e,
            deadline_message(),
        )),
        r matches Ok((meta, fields)) ==> {
            &&& run_shape(*input, kind, id@, stamp, subset_revision@, meta, fields@)
            &&& kind == CalculationKind::Degree ==> degree_columns_hold(*input, fields@)
            &&& kind == CalculationKind::WeakComponents ==> component_columns_hold(*input, fields@)
        },
{
    let started = crate::clock::now();
    let value_columns = match kind {
        CalculationKind::Degree => {
            let rows = calculation_kernels::degree(input, deadline)?;
            degree_value_columns(&rows)
        },
        CalculationKind::WeakComponents => {
            let rows = calculation_kernels::weak_components(input, deadline)?;
            component_value_columns(&rows)
        },
    };
    let ghost degree_ok = kind == CalculationKind::Degree ==> forall|c: int, v: int|
        0 <= c < 3 && 0 <= v < input.node_ids@.len() ==> #[trigger] value_columns@[c]@[v]
            == degree_row(input.edges@, v)@[c];
    assert(degree_ok);
    let columns = kind.columns();
    let mut fields: Vec<DerivedColumn> = Vec::new();
    let mut definitions: Vec<CalculationField> = Vec::new();
    let mut c: usize = 0;
    while c < columns.len()
        invariant
            c <= columns@.len(),
            columns@.len() == column_specs(kind).len(),
            value_columns@.len() == columns@.len(),
            forall|k: int|
                0 <= k < columns@.len() ==> (#[trigger] value_columns@[k])@.len()
                    == input.node_ids@.len(),
            forall|k: int|
                0 <= k < columns@.len() ==> (#[trigger] columns@[k]).0@ == column_specs(kind)[k].0
                    && columns@[k].1@ == column_specs(kind)[k].1,
            fields@.len() == c,
            definitions@.len() == c,
            forall|k: int|
                0 <= k < c ==> {
                    let f = #[trigger] fields@[k];
                    &&& f.calculation_id@ == id@
                    &&& f.column@ == column_specs(kind)[k].0
                    &&& f.field.input_subset_revision@ == subset_revision@
                    &&& members(f.field.values@) == input.node_ids@
                    &&& column_numbers(f.field.values@) == value_columns@[k]@
                },
            forall|k: int|
                0 <= k < c ==> {
                    let f = #[trigger] definitions@[k];
                    &&& f.value_type@ == "int64"@
                    &&& f.label@ == column_specs(kind)[k].1
                    &&& is_derived_field(f.field, id@, column_specs(kind)[k].0)
                },
        decreases columns@.len() - c,
    {
        calculation_kernels::check_deadline(deadline)?;
        let (name, label) = columns[c];
        assert(columns@[c as int].0@ == column_specs(kind)[c as int].0);
        let values = frozen_values(&input.node_ids, &value_columns[c]);
        fields.push(
            DerivedColumn {
                calculation_id: id.clone(),
                column: name.to_owned(),
                field: FrozenField { input_subset_revision: subset_revision.clone(), values },
            },
        );
        definitions.push(
            CalculationField {
                field: FieldRef::Derived { calculation_id: id.clone(), column: name.to_owned() },
                label: label.to_owned(),
                value_type: "int64".to_owned(),
            },
        );
        c = c + 1;
    }
    let elapsed = crate::clock::elapsed_micros(&started);
    let meta = CalculationMeta {
        id,
        kind,
        input_stamp: stamp,
        input_subset_revision: subset_revision,
        scope: "visible".to_owned(),
        node_count: input.node_ids.len() as u32,
        edge_count: input.edges.len() as u32,
        fields: definitions,
        status: "ready".to_owned(),
        elapsed_micros: elapsed,
        semantics: kind.semantics().to_owned(),
    };
    Ok((meta, fields))
}


/// The in degrees, over the first `k` records, of the nodes below `n`.
pub open spec fn in_degree_total(edges: Seq<(usize, usize)>, k: int, n: int) -> int
    decreases n,
{
    if n <= 0 {
        0
    } else {
        in_degree_total(edges, k, n - 1) + calculation_kernels::in_degree(edges, k, n - 1)
    }
}

/// The out degrees, over the first `k` records, of the nodes below `n`.
pub open spec fn out_degree_total(edges: Seq<(usize, usize)>, k: int, n: int) -> int
    decreases n,
{
    if n <= 0 {
        0
    } else {
        out_degree_total(edges, k, n - 1) + calculation_kernels::out_degree(edges, k, n - 1)
    }
}

proof fn lemma_degree_total_step(edges: Seq<(usize, usize)>, k: int, n: int)
    requires
        0 < k,
        0 <= n,
    ensures
        in_degree_total(edges, k, n) == in_degree_total(edges, k - 1, n) + if edges[k - 1].1 < n {
            1int
        } else {
            0int
        },
        out_degree_total(edges, k, n) == out_degree_total(edges, k - 1, n) + if edges[k - 1].0 < n {
            1int
        } else {
            0int
        },
    decreases n,
{
    if n > 0 {
        lemma_degree_total_step(edges, k, n - 1);
    }
}

proof fn lemma_degree_total(edges: Seq<(usize, usize)>, k: int, n: int)
    requires
        0 <= k <= edges.len(),
        0 <= n,
        forall|e: int| 0 <= e < edges.len() ==> (#[trigger] edges[e]).0 < n && edges[e].1 < n,
    ensures
        in_degree_total(edges, k, n) == k,
        out_degree_total(edges, k, n) == k,
    decreases k,
{
    if k == 0 {
        lemma_degree_total_zero(edges, n);
    } else {
        lemma_degree_total(edges, k - 1, n);
        lemma_degree_total_step(edges, k, n);
        assert(edges[k - 1].0 < n && edges[k - 1].1 < n);
    }
}

proof fn lemma_degree_total_zero(edges: Seq<(usize, usize)>, n: int)
    requires
        0 <= n,
    ensures
        in_degree_total(edges, 0, n) == 0,
        out_degree_total(edges, 0, n) == 0,
    decreases n,
{
    if n > 0 {
        lemma_degree_total_zero(edges, n - 1);
    }
}

proof fn lemma_degree_column_sums(input: CalculationInput, fields: Seq<DerivedColumn>, j: int)
    requires
        input.problem() is None,
        fields.len() == 3,
        degree_columns_hold(input, fields),
        forall|c: int|
            0 <= c < 3 ==> (#[trigger] column_numbers(fields[c].field.values@)).len()
                == input.node_ids@.len(),
        0 <= j <= input.node_ids@.len(),
    ensures
        sum_prefix(column_numbers(fields[0].field.values@), j) == in_degree_total(
            input.edges@,
            input.edges@.len() as int,
            j,
        ),
        sum_prefix(column_numbers(fields[1].field.values@), j) == out_degree_total(
            input.edges@,
            input.edges@.len() as int,
            j,
        ),
    decreases j,
{
    if j > 0 {
        lemma_degree_column_sums(input, fields, j - 1);
        let m = input.edges@.len() as int;
        calculation_kernels::lemma_degree_bounded(input.edges@, m, j - 1);
        assert(column_numbers(fields[0].field.values@)[j - 1] == degree_row(input.edges@, j - 1)@[0]);
        assert(column_numbers(fields[1].field.values@)[j - 1] == degree_row(input.edges@, j - 1)@[1]);
    }
}

/// A degree calculation that `run` freezes over a valid input, under an
/// identity, stamp and subset revision that are themselves well formed,
/// passes `validate_results` on its own: its columns are keyed apart, and
/// its in and out degrees each sum to the relation count.
pub proof fn lemma_frozen_degree_validates(
    input: CalculationInput,
    id: Seq<char>,
    stamp: RevisionStamp,
    subset_revision: Seq<char>,
    meta: CalculationMeta,
    fields: Seq<DerivedColumn>,
)
    requires
        input.problem() is None,
        0 < byte_len(id) <= 128,
        0 < byte_len(stamp.generation@) <= 128,
        parses_u64(stamp.revision@),
        parses_u64(subset_revision),
        run_shape(input, CalculationKind::Degree, id, stamp, subset_revision, meta, fields),
        degree_columns_hold(input, fields),
    ensures
        keys_unique(fields),
        results_problem(seq![meta], fields) is None,
{
    reveal_strlit("in");
    reveal_strlit("out");
    reveal_strlit("total");
    let cols = column_specs(CalculationKind::Degree);
    let n = input.node_ids@.len() as int;
    let m = input.edges@.len() as int;
    assert(fields[0].column@ == cols[0].0 && fields[1].column@ == cols[1].0 && fields[2].column@
        == cols[2].0);
    assert(cols[0].0 != cols[1].0 && cols[0].0 != cols[2].0 && cols[1].0 != cols[2].0) by {
        assert(cols[0].0.len() != cols[1].0.len());
        assert(cols[1].0.len() != cols[2].0.len());
        assert(cols[0].0.len() != cols[2].0.len());
    }
    assert(keys_unique(fields));
    assert forall|c: int| 0 <= c < 3 implies column_index(fields, id, #[trigger] cols[c].0) == Some(
        c,
    ) by {
        assert(has_key(fields, c, id, cols[c].0));
        let j = choose|j: int| 0 <= j < fields.len() && #[trigger] has_key(fields, j, id, cols[c].0);
        assert(j == c);
    }
    assert forall|c: int| 0 <= c < 3 implies (#[trigger] column_numbers(
        fields[c].field.values@,
    )).len() == n by {
        assert(members(fields[c].field.values@) == input.node_ids@);
    }
    assert forall|c: int, x: int|
        0 <= c < 3 && 0 <= x < n implies #[trigger] column_numbers(fields[c].field.values@)[x]
        <= MAX_DERIVED_VALUE by {
        calculation_kernels::lemma_degree_bounded(input.edges@, m, x);
        assert(column_numbers(fields[c].field.values@)[x] == degree_row(input.edges@, x)@[c]);
    }
    assert(columns_problem(meta, fields, 3, Some(input.node_ids@)) is None);
    assert(columns_problem(meta, fields, 2, Some(input.node_ids@)) is None) by {
        assert(column_numbers(fields[2].field.values@).len() == n);
        assert(!exists|k: int|
            0 <= k < fields[2].field.values@.len() && #[trigger] fields[2].field.values@[k].1
                > MAX_DERIVED_VALUE) by {
            assert forall|k: int| 0 <= k < fields[2].field.values@.len() implies #[trigger] fields[2].field.values@[k].1
                <= MAX_DERIVED_VALUE by {
                assert(column_numbers(fields[2].field.values@)[k] <= MAX_DERIVED_VALUE);
            }
        }
    }
    assert(columns_problem(meta, fields, 1, Some(input.node_ids@)) is None) by {
        assert(column_numbers(fields[1].field.values@).len() == n);
        assert(!exists|k: int|
            0 <= k < fields[1].field.values@.len() && #[trigger] fields[1].field.values@[k].1
                > MAX_DERIVED_VALUE) by {
            assert forall|k: int| 0 <= k < fields[1].field.values@.len() implies #[trigger] fields[1].field.values@[k].1
                <= MAX_DERIVED_VALUE by {
                assert(column_numbers(fields[1].field.values@)[k] <= MAX_DERIVED_VALUE);
            }
        }
    }
    assert(columns_problem(meta, fields, 0, None) is None) by {
        assert(column_numbers(fields[0].field.values@).len() == n);
        assert(!exists|k: int|
            0 <= k < fields[0].field.values@.len() && #[trigger] fields[0].field.values@[k].1
                > MAX_DERIVED_VALUE) by {
            assert forall|k: int| 0 <= k < fields[0].field.values@.len() implies #[trigger] fields[0].field.values@[k].1
                <= MAX_DERIVED_VALUE by {
                assert(column_numbers(fields[0].field.values@)[k] <= MAX_DERIVED_VALUE);
            }
        }
    }
    lemma_degree_column_sums(input, fields, n);
    lemma_degree_total(input.edges@, m, n);
    let ins = frozen_numbers(meta, fields, 0);
    let outs = frozen_numbers(meta, fields, 1);
    let total = frozen_numbers(meta, fields, 2);
    assert(ins == column_numbers(fields[0].field.values@));
    assert(outs == column_numbers(fields[1].field.values@));
    assert(total == column_numbers(fields[2].field.values@));
    assert forall|i: int| 0 <= i < ins.len() implies #[trigger] ins[i] + outs[i] == total[i] by {
        calculation_kernels::lemma_degree_bounded(input.edges@, m, i);
        assert(column_numbers(fields[0].field.values@)[i] == degree_row(input.edges@, i)@[0]);
        assert(column_numbers(fields[1].field.values@)[i] == degree_row(input.edges@, i)@[1]);
        assert(column_numbers(fields[2].field.values@)[i] == degree_row(input.edges@, i)@[2]);
    }
    assert(algorithm_problem(meta, fields) is None);
    let metas = seq![meta];
    assert(metas_problem(metas, fields, 1) is None);
    assert(metas_problem(metas, fields, 0) is None);
    assert forall|j: int| 0 <= j < fields.len() implies !#[trigger] orphaned(metas, fields, j) by {
        assert(kind_has_column(meta.kind, fields[j].column@)) by {
            assert(column_specs(meta.kind)[j].0 == fields[j].column@);
        }
        assert(metas[0].id@ == fields[j].calculation_id@);
    }
}

proof fn lemma_label_present(labels: Seq<u32>, k: int, v: u32, j: int)
    requires
        0 <= j < k,
        labels[j] == v,
    ensures
        label_count(labels, k, v) > 0,
    decreases k,
{
    if j < k - 1 {
        lemma_label_present(labels, k - 1, v, j);
    }
}

proof fn lemma_label_witness(labels: Seq<u32>, k: int, v: u32)
    requires
        label_count(labels, k, v) > 0,
    ensures
        exists|j: int| 0 <= j < k && labels[j] == v,
    decreases k,
{
    if k > 0 && labels[k - 1] != v {
        lemma_label_witness(labels, k - 1, v);
    }
}


proof fn lemma_members_bounded(edges: Seq<(usize, usize)>, n: nat, i: int, m: int)
    requires
        0 <= m,
    ensures
        members_before(edges, n, i, m) <= m,
    decreases m,
{
    if m > 0 {
        lemma_members_bounded(edges, n, i, m - 1);
    }
}

/// Every rank below the leader count belongs to some leader.
proof fn lemma_rank_has_leader(edges: Seq<(usize, usize)>, n: nat, t: int, m: int)
    requires
        0 <= t < leaders_before(edges, n, m),
        0 <= m,
    ensures
        exists|l: int| 0 <= l < m && is_leader(edges, n, l) && #[trigger] leaders_before(edges, n, l) == t,
    decreases m,
{
    if t < leaders_before(edges, n, m - 1) {
        lemma_rank_has_leader(edges, n, t, m - 1);
        let l = choose|l: int| 0 <= l < m - 1 && is_leader(edges, n, l) && #[trigger] leaders_before(edges, n, l) == t;
        assert(0 <= l < m && is_leader(edges, n, l) && leaders_before(edges, n, l) == t);
    } else {
        assert(is_leader(edges, n, m - 1) && leaders_before(edges, n, m - 1) == t);
    }
}

/// Labels that are equal exactly on connected positions count, among the
/// first `m`, one new label per leader.
proof fn lemma_distinct_are_leaders(edges: Seq<(usize, usize)>, n: nat, labels: Seq<u32>, m: int)
    requires
        0 <= m <= n,
        labels.len() == n,
        forall|i: int, j: int|
            0 <= i < n && 0 <= j < n ==> (#[trigger] labels[i] == #[trigger] labels[j] <==> connected(
                edges,
                n,
                i,
                j,
            )),
    ensures
        distinct_labels(labels, m) == leaders_before(edges, n, m),
    decreases m,
{
    if m > 0 {
        lemma_distinct_are_leaders(edges, n, labels, m - 1);
        let i = m - 1;
        if label_count(labels, i, labels[i]) == 0 {
            assert forall|j: int| 0 <= j < i implies !#[trigger] connected(edges, n, j, i) by {
                if connected(edges, n, j, i) {
                    assert(labels[j] == labels[i]);
                    lemma_label_present(labels, i, labels[i], j);
                }
            }
        } else {
            lemma_label_witness(labels, i, labels[i]);
            let j = choose|j: int| 0 <= j < i && labels[j] == labels[i];
            assert(connected(edges, n, j, i));
        }
    }
}

/// Counting a position's label counts its component's members.
proof fn lemma_label_count_is_members(edges: Seq<(usize, usize)>, n: nat, labels: Seq<u32>, i: int, m: int)
    requires
        0 <= i < n,
        0 <= m <= n,
        labels.len() == n,
        forall|x: int, y: int|
            0 <= x < n && 0 <= y < n ==> (#[trigger] labels[x] == #[trigger] labels[y] <==> connected(
                edges,
                n,
                x,
                y,
            )),
    ensures
        label_count(labels, m, labels[i]) == members_before(edges, n, i, m),
    decreases m,
{
    if m > 0 {
        lemma_label_count_is_members(edges, n, labels, i, m - 1);
        assert(labels[m - 1] == labels[i] <==> connected(edges, n, i, m - 1));
    }
}

/// A weak-component calculation that `run` freezes over a valid input,
/// under an identity, stamp and subset revision that are themselves well
/// formed, passes `validate_results` on its own: its labels are the
/// contiguous ranks of the components, each size counts its component's
/// members, and its relation count can connect what it reports.
pub proof fn lemma_frozen_components_validate(
    input: CalculationInput,
    id: Seq<char>,
    stamp: RevisionStamp,
    subset_revision: Seq<char>,
    meta: CalculationMeta,
    fields: Seq<DerivedColumn>,
)
    requires
        input.problem() is None,
        0 < byte_len(id) <= 128,
        0 < byte_len(stamp.generation@) <= 128,
        parses_u64(stamp.revision@),
        parses_u64(subset_revision),
        run_shape(input, CalculationKind::WeakComponents, id, stamp, subset_revision, meta, fields),
        component_columns_hold(input, fields),
    ensures
        keys_unique(fields),
        results_problem(seq![meta], fields) is None,
{
    reveal_strlit("component_id");
    reveal_strlit("component_size");
    let cols = column_specs(CalculationKind::WeakComponents);
    let n = input.node_ids@.len() as int;
    let nn = input.node_ids@.len();
    let edges = input.edges@;
    let m = edges.len() as int;
    assert(fields[0].column@ == cols[0].0 && fields[1].column@ == cols[1].0);
    assert(cols[0].0 != cols[1].0) by {
        assert(cols[0].0.len() != cols[1].0.len());
    }
    assert(keys_unique(fields));
    assert forall|c: int| 0 <= c < 2 implies column_index(fields, id, #[trigger] cols[c].0) == Some(
        c,
    ) by {
        assert(has_key(fields, c, id, cols[c].0));
        let j = choose|j: int| 0 <= j < fields.len() && #[trigger] has_key(fields, j, id, cols[c].0);
        assert(j == c);
    }
    assert forall|c: int| 0 <= c < 2 implies (#[trigger] column_numbers(
        fields[c].field.values@,
    )).len() == n by {
        assert(members(fields[c].field.values@) == input.node_ids@);
    }
    let labels = column_numbers(fields[0].field.values@);
    let sizes = column_numbers(fields[1].field.values@);
    assert(endpoints_within(edges, nn)) by {
        assert forall|e: int| 0 <= e < edges.len() implies edges[e].0 < nn && edges[e].1 < nn by {
            if !(edges[e].0 < nn && edges[e].1 < nn) {
                assert(input_problem(input.node_ids@, edges) is Some);
            }
        }
    }
    assert(n <= MAX_LOADED_NODES) by {
        if n > MAX_LOADED_NODES {
            assert(input_problem(input.node_ids@, edges) is Some);
        }
    }
    // Every label is a leader's rank plus one, and every size a count.
    assert forall|x: int| 0 <= x < n implies #[trigger] labels[x] <= MAX_DERIVED_VALUE && 1 <= labels[x]
        <= leaders_before(edges, nn, n) by {
        calculation_kernels::lemma_leader_exists(edges, nn, x);
        let l = choose|l: int| 0 <= l <= x && connected(edges, nn, l, x) && #[trigger] is_leader(edges, nn, l);
        assert(labels[l] == labels[x]);
        assert(labels[l] == leaders_before(edges, nn, l) + 1);
        lemma_leaders_monotone(edges, nn, l + 1, n);
        lemma_leaders_monotone(edges, nn, 0, n);
    }
    assert forall|x: int| 0 <= x < n implies #[trigger] sizes[x] <= MAX_DERIVED_VALUE by {
        lemma_members_bounded(edges, nn, x, n);
    }
    assert(columns_problem(meta, fields, 2, Some(input.node_ids@)) is None);
    assert(columns_problem(meta, fields, 1, Some(input.node_ids@)) is None) by {
        assert(!exists|k: int|
            0 <= k < fields[1].field.values@.len() && #[trigger] fields[1].field.values@[k].1
                > MAX_DERIVED_VALUE) by {
            assert forall|k: int| 0 <= k < fields[1].field.values@.len() implies #[trigger] fields[1].field.values@[k].1
                <= MAX_DERIVED_VALUE by {
                assert(sizes[k] <= MAX_DERIVED_VALUE);
            }
        }
    }
    assert(columns_problem(meta, fields, 0, None) is None) by {
        assert(!exists|k: int|
            0 <= k < fields[0].field.values@.len() && #[trigger] fields[0].field.values@[k].1
                > MAX_DERIVED_VALUE) by {
            assert forall|k: int| 0 <= k < fields[0].field.values@.len() implies #[trigger] fields[0].field.values@[k].1
                <= MAX_DERIVED_VALUE by {
                assert(labels[k] <= MAX_DERIVED_VALUE);
            }
        }
    }
    let flabels = frozen_numbers(meta, fields, 0);
    let fsizes = frozen_numbers(meta, fields, 1);
    assert(flabels == labels);
    assert(fsizes == sizes);
    let d = distinct_labels(labels, n);
    lemma_distinct_are_leaders(edges, nn, labels, n);
    assert(d == leaders_before(edges, nn, n));
    calculation_kernels::lemma_components_at_least(edges, nn);
    assert(!(meta.node_count == 0 && meta.edge_count != 0)) by {
        if n == 0 && m > 0 {
            assert(edges[0].0 < nn);
        }
    }
    assert(meta.edge_count >= meta.node_count - d);
    assert forall|v: u32| #[trigger] label_count(labels, n, v) > 0 <==> 1 <= v <= d by {
        if label_count(labels, n, v) > 0 {
            lemma_label_witness(labels, n, v);
            let j = choose|j: int| 0 <= j < n && labels[j] == v;
            assert(labels[j] <= leaders_before(edges, nn, n));
        }
        if 1 <= v <= d {
            lemma_rank_has_leader(edges, nn, v - 1, n);
            let l = choose|l: int| 0 <= l < n && is_leader(edges, nn, l) && #[trigger] leaders_before(edges, nn, l) == v - 1;
            assert(labels[l] == v);
            lemma_label_present(labels, n, v, l);
        }
    }
    assert forall|i: int| 0 <= i < n implies label_count(labels, n, #[trigger] labels[i]) == sizes[i] by {
        lemma_label_count_is_members(edges, nn, labels, i, n);
    }
    assert(algorithm_problem(meta, fields) is None);
    let metas = seq![meta];
    assert(metas_problem(metas, fields, 1) is None);
    assert(metas_problem(metas, fields, 0) is None);
    assert forall|j: int| 0 <= j < fields.len() implies !#[trigger] orphaned(metas, fields, j) by {
        assert(kind_has_column(meta.kind, fields[j].column@)) by {
            assert(column_specs(meta.kind)[j].0 == fields[j].column@);
        }
        assert(metas[0].id@ == fields[j].calculation_id@);
    }
}

/// `s` is strictly increasing: sorted, each value once.
pub open spec fn strictly_increasing(s: Seq<u32>) -> bool {
    forall|i: int, j: int| 0 <= i < j < s.len() ==> s[i] < s[j]
}

/// The position of `x` in `s`, where it occurs.
pub open spec fn position_of(s: Seq<u32>, x: u32) -> int {
    choose|i: int| 0 <= i < s.len() && s[i] == x
}

/// The relation records a calculation reads, as pairs of positions in
/// `node_ids`: each visible relation once, in the order first named, where
/// `ends[k]` is what the graph holds as the endpoints of `visible[k]`. The
/// first defect found refuses the whole input.
pub open spec fn input_edges(
    node_ids: Seq<u32>,
    retained: Set<u32>,
    visible: Seq<u32>,
    ends: Seq<Option<(u32, u32)>>,
    k: int,
) -> Result<Seq<(usize, usize)>, Seq<char>>
    decreases k,
{
    if k <= 0 {
        Ok(Seq::empty())
    } else {
        match input_edges(node_ids, retained, visible, ends, k - 1) {
            Err(m) => Err(m),
            Ok(es) => {
                let id = visible[k - 1];
                if !retained.contains(id) {
                    Err("visible calculation relation is not retained"@)
                } else if visible.take(k - 1).contains(id) {
                    Ok(es)
                } else {
                    match ends[k - 1] {
                        None => Err("calculation relation is absent from source"@),
                        Some(st) => if !node_ids.contains(st.0) {
                            Err("calculation relation source is outside visible input"@)
                        } else if !node_ids.contains(st.1) {
                            Err("calculation relation target is outside visible input"@)
                        } else {
                            Ok(
                                es.push(
                                    (
                                        position_of(node_ids, st.0) as usize,
                                        position_of(node_ids, st.1) as usize,
                                    ),
                                ),
                            )
                        },
                    }
                }
            },
        }
    }
}

proof fn lemma_input_error_sticks(
    node_ids: Seq<u32>,
    retained: Set<u32>,
    visible: Seq<u32>,
    ends: Seq<Option<(u32, u32)>>,
    k: int,
    n: int,
)
    requires
        0 <= k <= n,
        input_edges(node_ids, retained, visible, ends, k) is Err,
    ensures
        input_edges(node_ids, retained, visible, ends, n) == input_edges(node_ids, retained, visible, ends, k),
    decreases n - k,
{
    if k < n {
        lemma_input_error_sticks(node_ids, retained, visible, ends, k, n - 1);
    }
}

/// The same numbers, ascending, each once.
pub fn sorted_unique(v: &Vec<u32>) -> (r: Vec<u32>)
    ensures
        strictly_increasing(r@),
        r@.to_set() == v@.to_set(),
{
    let mut copy: Vec<u32> = Vec::new();
    let mut i: usize = 0;
    while i < v.len()
        invariant
            i <= v@.len(),
            copy@ == v@.take(i as int),
        decreases v@.len() - i,
    {
        copy.push(v[i]);
        assert(copy@ =~= v@.take(i + 1));
        i = i + 1;
    }
    assert(copy@ =~= v@);
    let sorted = crate::export::sort_ascending(copy);
    let ghost ms = sorted@.to_multiset();
    let mut out: Vec<u32> = Vec::new();
    let mut k: usize = 0;
    while k < sorted.len()
        invariant
            k <= sorted@.len(),
            forall|a: int, b: int| 0 <= a < b < sorted@.len() ==> sorted@[a] <= sorted@[b],
            strictly_increasing(out@),
            out@.to_set() == sorted@.take(k as int).to_set(),
            out@.len() > 0 ==> out@.last() == sorted@[k - 1],
            k == 0 ==> out@.len() == 0,
        decreases sorted@.len() - k,
    {
        let x = sorted[k];
        let ghost before = out@;
        let ghost s0 = sorted@.take(k as int);
        let ghost s1 = sorted@.take(k + 1);
        assert(s1 =~= s0.push(x));
        if out.len() == 0 || out[out.len() - 1] != x {
            out.push(x);
            proof {
                assert forall|a: int, b: int| 0 <= a < b < out@.len() implies out@[a] < out@[b] by {
                    if b == out@.len() - 1 && a < b {
                        assert(out@[a] == before[a]);
                        if before.len() > 0 {
                            assert(before[a] <= before.last());
                            assert(before.last() == sorted@[k - 1]);
                            assert(sorted@[k - 1] <= sorted@[k as int]);
                        }
                    }
                }
                assert(out@ =~= before.push(x));
                before.lemma_push_to_set_commute(x);
                s0.lemma_push_to_set_commute(x);
            }
        } else {
            proof {
                s0.lemma_push_to_set_commute(x);
                assert(before.to_set().contains(x)) by {
                    assert(before[before.len() - 1] == x);
                }
                assert(s1.to_set() =~= s0.to_set());
            }
        }
        k = k + 1;
    }
    proof {
        assert(sorted@.take(sorted@.len() as int) =~= sorted@);
        assert(sorted@.to_set() =~= v@.to_set()) by {
            assert forall|y: u32| sorted@.to_set().contains(y) <==> v@.to_set().contains(y) by {
                vstd::seq_lib::to_multiset_contains(sorted@, y);
                vstd::seq_lib::to_multiset_contains(v@, y);
            }
        }
    }
    out
}

/// Where `x` sits in the strictly increasing `s`, by binary search.
fn find_position(s: &Vec<u32>, x: u32) -> (r: Option<usize>)
    requires
        strictly_increasing(s@),
    ensures
        r matches Some(i) ==> i < s@.len() && s@[i as int] == x && i == position_of(s@, x),
        r is None ==> !s@.contains(x),
{
    let mut lo: usize = 0;
    let mut hi: usize = s.len();
    while lo < hi
        invariant
            lo <= hi <= s@.len(),
            strictly_increasing(s@),
            forall|i: int| 0 <= i < lo ==> s@[i] < x,
            forall|i: int| hi <= i < s@.len() ==> s@[i] > x,
        decreases hi - lo,
    {
        let mid = lo + (hi - lo) / 2;
        if s[mid] == x {
            proof {
                let j = position_of(s@, x);
                assert(0 <= j < s@.len() && s@[j] == x);
                if j < mid {
                    assert(s@[j] < s@[mid as int]);
                } else if j > mid {
                    assert(s@[mid as int] < s@[j]);
                }
            }
            return Some(mid);
        } else if s[mid] < x {
            proof {
                assert forall|i: int| 0 <= i < mid + 1 implies s@[i] < x by {
                    if i < mid {
                        assert(s@[i] < s@[mid as int]);
                    }
                }
            }
            lo = mid + 1;
        } else {
            proof {
                assert forall|i: int| mid <= i < s@.len() implies s@[i] > x by {
                    if i > mid {
                        assert(s@[mid as int] < s@[i]);
                    }
                }
            }
            hi = mid;
        }
    }
    proof {
        assert forall|i: int| 0 <= i < s@.len() implies s@[i] != x by {
            if i < lo {
            } else {
                assert(i >= hi);
            }
        }
    }
    None
}

/// The input a calculation reads, from the visible nodes, the relation
/// records the view retained, the visible relation records, and what the
/// graph holds as the endpoints of each visible record (`ends[k]` for
/// `visible_edges[k]`). Nodes are taken each once, ascending; relations
/// each once, in the order first named, as positions among the nodes.
pub fn input_from_endpoints(
    visible_nodes: &Vec<u32>,
    retained: &Vec<u32>,
    visible_edges: &Vec<u32>,
    ends: &Vec<Option<(u32, u32)>>,
) -> (r: Result<CalculationInput, CoreError>)
    requires
        ends@.len() == visible_edges@.len(),
    ensures
        match input_edges(
            r_nodes(visible_nodes@),
            retained@.to_set(),
            visible_edges@,
            ends@,
            visible_edges@.len() as int,
        ) {
            Ok(es) => r matches Ok(input) && strictly_increasing(input.node_ids@)
                && input.node_ids@.to_set() == visible_nodes@.to_set() && input.edges@ == es,
            Err(m) => r matches Err(e) && is_refusal(e, m),
        },
{
    broadcast use vstd::std_specs::hash::group_hash_axioms;

    let node_ids = sorted_unique(visible_nodes);
    proof {
        lemma_unique_sorted_is_canonical(node_ids@, visible_nodes@);
    }
    let mut kept: HashSet<u32> = HashSet::new();
    let mut i: usize = 0;
    while i < retained.len()
        invariant
            i <= retained@.len(),
            kept@ == retained@.take(i as int).to_set(),
        decreases retained@.len() - i,
    {
        kept.insert(retained[i]);
        proof {
            assert(retained@.take(i + 1) =~= retained@.take(i as int).push(retained@[i as int]));
            retained@.take(i as int).lemma_push_to_set_commute(retained@[i as int]);
        }
        i = i + 1;
    }
    assert(retained@.take(retained@.len() as int) =~= retained@);
    let mut seen: HashSet<u32> = HashSet::new();
    let mut edges: Vec<(usize, usize)> = Vec::new();
    let mut k: usize = 0;
    while k < visible_edges.len()
        invariant
            k <= visible_edges@.len(),
            ends@.len() == visible_edges@.len(),
            strictly_increasing(node_ids@),
            node_ids@ == r_nodes(visible_nodes@),
            kept@ == retained@.to_set(),
            seen@ == visible_edges@.take(k as int).to_set(),
            input_edges(node_ids@, retained@.to_set(), visible_edges@, ends@, k as int) == Ok::<
                Seq<(usize, usize)>,
                Seq<char>,
            >(edges@),
        decreases visible_edges@.len() - k,
    {
        let id = visible_edges[k];
        assert(visible_edges@.take(k + 1) =~= visible_edges@.take(k as int).push(id));
        proof {
            visible_edges@.take(k as int).lemma_push_to_set_commute(id);
            assert(visible_edges@.take(k as int).contains(id) <==> visible_edges@.take(
                k as int,
            ).to_set().contains(id));
        }
        if !kept.contains(&id) {
            proof {
                lemma_input_error_sticks(
                    node_ids@,
                    retained@.to_set(),
                    visible_edges@,
                    ends@,
                    k + 1,
                    visible_edges@.len() as int,
                );
            }
            return Err(refusal("visible calculation relation is not retained"));
        }
        if seen.contains(&id) {
            k = k + 1;
            continue;
        }
        seen.insert(id);
        match ends[k] {
            None => {
                proof {
                    lemma_input_error_sticks(
                        node_ids@,
                        retained@.to_set(),
                        visible_edges@,
                        ends@,
                        k + 1,
                        visible_edges@.len() as int,
                    );
                }
                return Err(refusal("calculation relation is absent from source"));
            },
            Some(st) => {
                let source = match find_position(&node_ids, st.0) {
                    Some(p) => p,
                    None => {
                        proof {
                            lemma_input_error_sticks(
                                node_ids@,
                                retained@.to_set(),
                                visible_edges@,
                                ends@,
                                k + 1,
                                visible_edges@.len() as int,
                            );
                        }
                        return Err(refusal("calculation relation source is outside visible input"));
                    },
                };
                let target = match find_position(&node_ids, st.1) {
                    Some(p) => p,
                    None => {
                        proof {
                            lemma_input_error_sticks(
                                node_ids@,
                                retained@.to_set(),
                                visible_edges@,
                                ends@,
                                k + 1,
                                visible_edges@.len() as int,
                            );
                        }
                        return Err(refusal("calculation relation target is outside visible input"));
                    },
                };
                proof {
                    assert(node_ids@.contains(st.0));
                    assert(node_ids@.contains(st.1));
                }
                edges.push((source, target));
            },
        }
        k = k + 1;
    }
    assert(visible_edges@.take(visible_edges@.len() as int) =~= visible_edges@);
    Ok(CalculationInput { node_ids, edges })
}

/// The visible nodes each once, ascending: the only strictly increasing
/// sequence with their values.
pub open spec fn r_nodes(visible: Seq<u32>) -> Seq<u32> {
    choose|s: Seq<u32>| strictly_increasing(s) && s.to_set() == visible.to_set()
}

proof fn lemma_strictly_increasing_unique(a: Seq<u32>, b: Seq<u32>)
    requires
        strictly_increasing(a),
        strictly_increasing(b),
        a.to_set() == b.to_set(),
    ensures
        a == b,
    decreases a.len() + b.len(),
{
    if a.len() == 0 || b.len() == 0 {
        if a.len() > 0 {
            assert(a.to_set().contains(a[0]));
        }
        if b.len() > 0 {
            assert(b.to_set().contains(b[0]));
        }
        assert(a =~= b);
    } else {
        // The largest elements agree, and the rests are again equal sets.
        let x = a.last();
        let y = b.last();
        assert(a.to_set().contains(x));
        assert(b.to_set().contains(y));
        let i = choose|i: int| 0 <= i < b.len() && b[i] == x;
        let j = choose|j: int| 0 <= j < a.len() && a[j] == y;
        if x != y {
            if x < y {
                assert(a[j] <= x) by {
                    if j < a.len() - 1 {
                        assert(a[j] < a[a.len() - 1]);
                    }
                }
            } else {
                assert(b[i] <= y) by {
                    if i < b.len() - 1 {
                        assert(b[i] < b[b.len() - 1]);
                    }
                }
            }
        }
        let a0 = a.drop_last();
        let b0 = b.drop_last();
        assert(a0.to_set() =~= b0.to_set()) by {
            assert forall|z: u32| a0.to_set().contains(z) implies b0.to_set().contains(z) by {
                let m = choose|m: int| 0 <= m < a0.len() && a0[m] == z;
                assert(a[m] < a[a.len() - 1]);
                assert(b.to_set().contains(z));
                let n = choose|n: int| 0 <= n < b.len() && b[n] == z;
                if n == b.len() - 1 {
                    assert(z == y);
                }
                assert(b0[n] == z);
            }
            assert forall|z: u32| b0.to_set().contains(z) implies a0.to_set().contains(z) by {
                let n = choose|n: int| 0 <= n < b0.len() && b0[n] == z;
                assert(b[n] < b[b.len() - 1]);
                assert(a.to_set().contains(z));
                let m = choose|m: int| 0 <= m < a.len() && a[m] == z;
                if m == a.len() - 1 {
                    assert(z == x);
                }
                assert(a0[m] == z);
            }
        }
        lemma_strictly_increasing_unique(a0, b0);
        assert(a =~= a0.push(x));
        assert(b =~= b0.push(y));
    }
}

pub(crate) proof fn lemma_unique_sorted_is_canonical(s: Seq<u32>, visible: Seq<u32>)
    requires
        strictly_increasing(s),
        s.to_set() == visible.to_set(),
    ensures
        s == r_nodes(visible),
{
    let c = r_nodes(visible);
    assert(strictly_increasing(c) && c.to_set() == visible.to_set());
    lemma_strictly_increasing_unique(s, c);
}

/// What the graph holds for relation record `edge`: its endpoints, or
/// `None` when it holds no such record.
pub open spec fn held_end(graph: DirGraph, edge: u32) -> Option<(u32, u32)> {
    if graph_edges(graph).contains_key(edge) {
        Some(graph_edges(graph)[edge])
    } else {
        None
    }
}

/// The endpoints the graph holds for each of `edges`, in order.
pub open spec fn held_ends(graph: DirGraph, edges: Seq<u32>) -> Seq<Option<(u32, u32)>> {
    edges.map_values(|e: u32| held_end(graph, e))
}

/// The input a calculation reads from the graph: the visible nodes each
/// once, ascending, and each visible relation record once, as positions
/// among them, its endpoints read from the graph. A relation the view did
/// not retain, one the graph does not hold, or one with an endpoint outside
/// the visible nodes refuses the input; so does a passed deadline.
pub fn capture_input(
    graph: &DirGraph,
    visible_nodes: &Vec<u32>,
    retained: &Vec<u32>,
    visible_edges: &Vec<u32>,
    deadline: Option<Instant>,
) -> (r: Result<CalculationInput, CoreError>)
    ensures
        match input_edges(
            r_nodes(visible_nodes@),
            retained@.to_set(),
            visible_edges@,
            held_ends(*graph, visible_edges@),
            visible_edges@.len() as int,
        ) {
            Ok(es) => ((r matches Ok(input) && strictly_increasing(input.node_ids@)
                && input.node_ids@.to_set() == visible_nodes@.to_set() && input.edges@ == es) || (
            deadline is Some && (r matches Err(e) && is_refusal(e, deadline_message())))),
            Err(m) => r matches Err(e) && (is_refusal(e, m) || (deadline is Some && is_refusal(
                e,
                deadline_message(),
            ))),
        },
{
    let mut ends: Vec<Option<(u32, u32)>> = Vec::new();
    let mut k: usize = 0;
    while k < visible_edges.len()
        invariant
            k <= visible_edges@.len(),
            ends@.len() == k,
            forall|j: int| 0 <= j < k ==> #[trigger] ends@[j] == held_end(*graph, visible_edges@[j]),
        decreases visible_edges@.len() - k,
    {
        calculation_kernels::check_deadline(deadline)?;
        ends.push(edge_endpoints(graph, visible_edges[k]));
        k = k + 1;
    }
    assert(ends@ =~= held_ends(*graph, visible_edges@));
    input_from_endpoints(visible_nodes, retained, visible_edges, &ends)
}

} // verus!
