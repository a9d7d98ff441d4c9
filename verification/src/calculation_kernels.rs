//! Kernels consume only the bounded visible relation multiset, never source
//! adjacency.
use std::time::Instant;

use vstd::prelude::*;

use crate::clock::deadline_reached;
use crate::error::{is_refusal, refuse_when, refusal, CoreError};

verus! {

/// Instance nodes one loaded view may hold.
pub const MAX_LOADED_NODES: usize = 5000;

/// Relation records one loaded view may hold.
pub const MAX_LOADED_EDGES: usize = 20000;

/// A captured visible input: sorted node identities, and relation records as
/// positions into `node_ids`.
pub struct CalculationInput {
    pub node_ids: Vec<u32>,
    pub edges: Vec<(usize, usize)>,
}

/// The first defect of an input, in the order the checks run.
pub open spec fn input_problem(node_ids: Seq<u32>, edges: Seq<(usize, usize)>) -> Option<
    Seq<char>,
> {
    if node_ids.len() > MAX_LOADED_NODES || edges.len() > MAX_LOADED_EDGES {
        Some("calculation input exceeds 5000 nodes or 20000 relation records"@)
    } else if exists|i: int| 0 <= i < node_ids.len() - 1 && #[trigger] node_ids[i] >= node_ids[i + 1] {
        Some("calculation node identities must be unique and sorted"@)
    } else if exists|e: int|
        0 <= e < edges.len() && (edges[e].0 >= node_ids.len() || edges[e].1 >= node_ids.len()) {
        Some("calculation relation endpoint is outside its captured input"@)
    } else {
        None
    }
}

/// The message a deadline refusal carries.
pub open spec fn deadline_message() -> Seq<char> {
    "visible-subset calculation exceeded its work deadline"@
}

impl CalculationInput {
    pub open spec fn problem(&self) -> Option<Seq<char>> {
        input_problem(self.node_ids@, self.edges@)
    }

    pub fn validate(&self) -> (r: Result<(), CoreError>)
        ensures
            r is Ok <==> self.problem() is None,
            r matches Err(e) ==> is_refusal(e, self.problem()->0),
    {
        if self.node_ids.len() > MAX_LOADED_NODES || self.edges.len() > MAX_LOADED_EDGES {
            return Err(refusal("calculation input exceeds 5000 nodes or 20000 relation records"));
        }
        let n = self.node_ids.len();
        let mut i: usize = 0;
        while i + 1 < n
            invariant
                n == self.node_ids@.len(),
                n <= MAX_LOADED_NODES,
                self.edges@.len() <= MAX_LOADED_EDGES,
                i <= n,
                forall|j: int|
                    0 <= j < i && j < n - 1 ==> #[trigger] self.node_ids@[j] < self.node_ids@[j
                        + 1],
            decreases n - i,
        {
            if self.node_ids[i] >= self.node_ids[i + 1] {
                assert(self.node_ids@[i as int] >= self.node_ids@[i + 1]);
                return Err(refusal("calculation node identities must be unique and sorted"));
            }
            i = i + 1;
        }
        let m = self.edges.len();
        let mut e: usize = 0;
        while e < m
            invariant
                m == self.edges@.len(),
                n == self.node_ids@.len(),
                n <= MAX_LOADED_NODES,
                m <= MAX_LOADED_EDGES,
                e <= m,
                forall|j: int|
                    0 <= j < n - 1 ==> self.node_ids@[j] < #[trigger] self.node_ids@[j + 1],
                forall|f: int|
                    0 <= f < e ==> #[trigger] self.edges@[f].0 < n && self.edges@[f].1 < n,
            decreases m - e,
        {
            let (source, target) = self.edges[e];
            if source >= n || target >= n {
                assert(self.edges@[e as int].0 >= n || self.edges@[e as int].1 >= n);
                return Err(
                    refusal("calculation relation endpoint is outside its captured input"),
                );
            }
            e = e + 1;
        }
        Ok(())
    }
}

/// Refuse once the work deadline, if any, has been reached.
pub fn check_deadline(deadline: Option<Instant>) -> (r: Result<(), CoreError>)
    ensures
        deadline is None ==> r is Ok,
        r matches Err(e) ==> is_refusal(e, deadline_message()),
{
    match deadline {
        Some(d) => refuse_when(
            deadline_reached(d),
            "visible-subset calculation exceeded its work deadline",
        ),
        None => Ok(()),
    }
}

/// Relation records among the first `k` whose target is `v`.
pub open spec fn in_degree(edges: Seq<(usize, usize)>, k: int, v: int) -> nat
    decreases k,
{
    if k <= 0 {
        0
    } else {
        in_degree(edges, k - 1, v) + if edges[k - 1].1 == v {
            1nat
        } else {
            0nat
        }
    }
}

/// Relation records among the first `k` whose source is `v`.
pub open spec fn out_degree(edges: Seq<(usize, usize)>, k: int, v: int) -> nat
    decreases k,
{
    if k <= 0 {
        0
    } else {
        out_degree(edges, k - 1, v) + if edges[k - 1].0 == v {
            1nat
        } else {
            0nat
        }
    }
}

/// `[in, out, total]` degree of node position `v` over every relation record:
/// parallel records count separately, and a self-loop adds one in, one out.
pub open spec fn degree_row(edges: Seq<(usize, usize)>, v: int) -> [u32; 3] {
    let i = in_degree(edges, edges.len() as int, v);
    let o = out_degree(edges, edges.len() as int, v);
    [i as u32, o as u32, (i + o) as u32]
}

pub proof fn lemma_degree_bounded(edges: Seq<(usize, usize)>, k: int, v: int)
    requires
        0 <= k,
    ensures
        in_degree(edges, k, v) <= k,
        out_degree(edges, k, v) <= k,
    decreases k,
{
    if k > 0 {
        lemma_degree_bounded(edges, k - 1, v);
    }
}

/// In, out and total degree of every captured node over the visible
/// relation records.
pub fn degree(input: &CalculationInput, deadline: Option<Instant>) -> (r: Result<
    Vec<[u32; 3]>,
    CoreError,
>)
    ensures
        input.problem() matches Some(msg) ==> r matches Err(e) && is_refusal(e, msg),
        input.problem() is None && deadline is None ==> r is Ok,
        r matches Ok(rows) ==> {
            &&& input.problem() is None
            &&& rows@.len() == input.node_ids@.len()
            &&& forall|v: int|
                0 <= v < rows@.len() ==> #[trigger] rows@[v]@ == degree_row(input.edges@, v)@
        },
        r matches Err(e) ==> input.problem() is Some || (deadline is Some && is_refusal(
            e,
            deadline_message(),
        )),
{
    input.validate()?;
    check_deadline(deadline)?;
    let n = input.node_ids.len();
    let m = input.edges.len();
    let mut ins: Vec<u32> = Vec::new();
    let mut outs: Vec<u32> = Vec::new();
    let mut v: usize = 0;
    while v < n
        invariant
            v <= n,
            ins@.len() == v,
            outs@.len() == v,
            forall|x: int| 0 <= x < v ==> ins@[x] == 0 && outs@[x] == 0,
        decreases n - v,
    {
        ins.push(0);
        outs.push(0);
        v = v + 1;
    }
    let mut e: usize = 0;
    while e < m
        invariant
            n == input.node_ids@.len(),
            m == input.edges@.len(),
            m <= MAX_LOADED_EDGES,
            input.problem() is None,
            e <= m,
            ins@.len() == n,
            outs@.len() == n,
            forall|x: int| 0 <= x < n ==> #[trigger] ins@[x] == in_degree(input.edges@, e as int, x),
            forall|x: int|
                0 <= x < n ==> #[trigger] outs@[x] == out_degree(input.edges@, e as int, x),
        decreases m - e,
    {
        check_deadline(deadline)?;
        let (source, target) = input.edges[e];
        assert(input.edges@[e as int].0 < n && input.edges@[e as int].1 < n);
        proof {
            lemma_degree_bounded(input.edges@, e as int, source as int);
            lemma_degree_bounded(input.edges@, e as int, target as int);
        }
        let ghost ins0 = ins@;
        let ghost outs0 = outs@;
        outs[source] = outs[source] + 1;
        ins[target] = ins[target] + 1;
        proof {
            assert forall|x: int| 0 <= x < n implies #[trigger] ins@[x] == in_degree(
                input.edges@,
                e + 1,
                x,
            ) by {
                assert(in_degree(input.edges@, e + 1, x) == in_degree(input.edges@, e as int, x) + if input.edges@[e as int].1 == x { 1nat } else { 0nat });
                assert(ins0[x] == in_degree(input.edges@, e as int, x));
            }
            assert forall|x: int| 0 <= x < n implies #[trigger] outs@[x] == out_degree(
                input.edges@,
                e + 1,
                x,
            ) by {
                assert(out_degree(input.edges@, e + 1, x) == out_degree(input.edges@, e as int, x) + if input.edges@[e as int].0 == x { 1nat } else { 0nat });
                assert(outs0[x] == out_degree(input.edges@, e as int, x));
            }
        }
        e = e + 1;
    }
    let mut rows: Vec<[u32; 3]> = Vec::new();
    let mut x: usize = 0;
    while x < n
        invariant
            n == input.node_ids@.len(),
            m == input.edges@.len(),
            m <= MAX_LOADED_EDGES,
            x <= n,
            ins@.len() == n,
            outs@.len() == n,
            rows@.len() == x,
            forall|y: int| 0 <= y < n ==> #[trigger] ins@[y] == in_degree(input.edges@, m as int, y),
            forall|y: int|
                0 <= y < n ==> #[trigger] outs@[y] == out_degree(input.edges@, m as int, y),
            forall|y: int| 0 <= y < x ==> #[trigger] rows@[y]@ == degree_row(input.edges@, y)@,
        decreases n - x,
    {
        proof {
            lemma_degree_bounded(input.edges@, m as int, x as int);
        }
        let row: [u32; 3] = [ins[x], outs[x], ins[x] + outs[x]];
        rows.push(row);
        assert(rows@[x as int]@ =~= degree_row(input.edges@, x as int)@);
        x = x + 1;
    }
    Ok(rows)
}

/// Labelling `c` gives both ends of each of the first `k` relation records
/// the same value.
pub open spec fn edge_consistent(edges: Seq<(usize, usize)>, k: int, c: Seq<int>) -> bool {
    forall|e: int|
        0 <= e < k ==> #[trigger] c[edges[e].0 as int] == c[edges[e].1 as int]
}

/// Every labelling of `n` positions consistent with the first `k` records
/// gives `i` and `j` the same value: the two are joined, direction ignored.
pub open spec fn linked_by(edges: Seq<(usize, usize)>, k: int, n: nat, i: int, j: int) -> bool {
    forall|c: Seq<int>|
        c.len() == n && #[trigger] edge_consistent(edges, k, c) ==> c[i] == c[j]
}

/// `i` and `j` lie in one weak component of the visible relation records.
pub open spec fn connected(edges: Seq<(usize, usize)>, n: nat, i: int, j: int) -> bool {
    linked_by(edges, edges.len() as int, n, i, j)
}

/// No earlier position shares `i`'s component: `i` is its minimum member.
pub open spec fn is_leader(edges: Seq<(usize, usize)>, n: nat, i: int) -> bool {
    forall|j: int| 0 <= j < i ==> !#[trigger] connected(edges, n, j, i)
}

/// Components whose minimum member is among the first `i` positions.
pub open spec fn leaders_before(edges: Seq<(usize, usize)>, n: nat, i: int) -> nat
    decreases i,
{
    if i <= 0 {
        0
    } else {
        leaders_before(edges, n, i - 1) + if is_leader(edges, n, i - 1) {
            1nat
        } else {
            0nat
        }
    }
}

/// Positions among the first `m` in `i`'s component.
pub open spec fn members_before(edges: Seq<(usize, usize)>, n: nat, i: int, m: int) -> nat
    decreases m,
{
    if m <= 0 {
        0
    } else {
        members_before(edges, n, i, m - 1) + if connected(edges, n, i, m - 1) {
            1nat
        } else {
            0nat
        }
    }
}

/// Every relation record's endpoints are positions below `n`.
pub open spec fn endpoints_within(edges: Seq<(usize, usize)>, n: nat) -> bool {
    forall|e: int| #![trigger edges[e]] 0 <= e < edges.len() ==> edges[e].0 < n && edges[e].1 < n
}

/// The union-find state after the first `k` records: a labelling of
/// positions by representative that is consistent with those records and
/// merges only positions they join.
pub open spec fn uf_inv(edges: Seq<(usize, usize)>, k: int, n: nat, comp: Seq<usize>) -> bool {
    &&& comp.len() == n
    &&& forall|i: int| 0 <= i < n ==> #[trigger] comp[i] < n
    &&& forall|e: int|
        0 <= e < k ==> #[trigger] comp[edges[e].0 as int] == comp[edges[e].1 as int]
    &&& forall|i: int, j: int|
        0 <= i < n && 0 <= j < n && #[trigger] comp[i] == #[trigger] comp[j] ==> linked_by(
            edges,
            k,
            n,
            i,
            j,
        )
}

pub open spec fn as_ints(comp: Seq<usize>) -> Seq<int> {
    comp.map_values(|x: usize| x as int)
}

proof fn lemma_linked_monotone(edges: Seq<(usize, usize)>, k: int, n: nat, i: int, j: int)
    requires
        0 <= k < edges.len(),
        linked_by(edges, k, n, i, j),
    ensures
        linked_by(edges, k + 1, n, i, j),
{
    assert forall|c: Seq<int>| c.len() == n && #[trigger] edge_consistent(edges, k + 1, c) implies c[i]
        == c[j] by {
        assert(edge_consistent(edges, k, c));
    }
}

proof fn lemma_initial(edges: Seq<(usize, usize)>, n: nat, comp: Seq<usize>)
    requires
        comp.len() == n,
        forall|i: int| 0 <= i < n ==> #[trigger] comp[i] == i,
    ensures
        uf_inv(edges, 0, n, comp),
{
    assert forall|i: int, j: int|
        0 <= i < n && 0 <= j < n && #[trigger] comp[i] == #[trigger] comp[j] implies linked_by(
        edges,
        0,
        n,
        i,
        j,
    ) by {
        assert(i == j);
    }
}

proof fn lemma_no_union(edges: Seq<(usize, usize)>, k: int, n: nat, comp: Seq<usize>)
    requires
        endpoints_within(edges, n),
        0 <= k < edges.len(),
        uf_inv(edges, k, n, comp),
        comp[edges[k].0 as int] == comp[edges[k].1 as int],
    ensures
        uf_inv(edges, k + 1, n, comp),
{
    assert forall|i: int, j: int|
        0 <= i < n && 0 <= j < n && #[trigger] comp[i] == #[trigger] comp[j] implies linked_by(
        edges,
        k + 1,
        n,
        i,
        j,
    ) by {
        lemma_linked_monotone(edges, k, n, i, j);
    }
    assert forall|e: int| 0 <= e < k + 1 implies #[trigger] comp[edges[e].0 as int]
        == comp[edges[e].1 as int] by {}
}

proof fn lemma_union(
    edges: Seq<(usize, usize)>,
    k: int,
    n: nat,
    old_comp: Seq<usize>,
    comp: Seq<usize>,
    a: usize,
    b: usize,
)
    requires
        0 <= k < edges.len(),
        endpoints_within(edges, n),
        uf_inv(edges, k, n, old_comp),
        edges[k].0 < n,
        edges[k].1 < n,
        a == old_comp[edges[k].0 as int],
        b == old_comp[edges[k].1 as int],
        a != b,
        comp.len() == n,
        forall|q: int|
            0 <= q < n ==> #[trigger] comp[q] == if old_comp[q] == b {
                a
            } else {
                old_comp[q]
            },
    ensures
        uf_inv(edges, k + 1, n, comp),
{
    let s = edges[k].0 as int;
    let t = edges[k].1 as int;
    assert forall|i: int| 0 <= i < n implies #[trigger] comp[i] < n by {
        assert(old_comp[i] < n);
    }
    assert forall|e: int| 0 <= e < k + 1 implies #[trigger] comp[edges[e].0 as int]
        == comp[edges[e].1 as int] by {
        assert(edges[e].0 < n && edges[e].1 < n);
        if e < k {
            assert(old_comp[edges[e].0 as int] == old_comp[edges[e].1 as int]);
        }
    }
    assert forall|i: int, j: int|
        0 <= i < n && 0 <= j < n && #[trigger] comp[i] == #[trigger] comp[j] implies linked_by(
        edges,
        k + 1,
        n,
        i,
        j,
    ) by {
        let oi = old_comp[i];
        let oj = old_comp[j];
        if oi == oj {
            lemma_linked_monotone(edges, k, n, i, j);
        } else {
            assert forall|c: Seq<int>|
                c.len() == n && #[trigger] edge_consistent(edges, k + 1, c) implies c[i] == c[j] by {
                assert(edge_consistent(edges, k, c));
                assert(c[s] == c[t]) by {
                    assert(c[edges[k].0 as int] == c[edges[k].1 as int]);
                }
                if oi == b {
                    // i joins t's old class, j joins s's old class.
                    assert(old_comp[i] == old_comp[t]);
                    assert(linked_by(edges, k, n, i, t));
                    assert(old_comp[j] == old_comp[s]);
                    assert(linked_by(edges, k, n, j, s));
                } else {
                    assert(old_comp[j] == old_comp[t]);
                    assert(linked_by(edges, k, n, j, t));
                    assert(old_comp[i] == old_comp[s]);
                    assert(linked_by(edges, k, n, i, s));
                }
            }
        }
    }
}

/// At the end, two positions share a representative exactly when they are
/// connected.
proof fn lemma_final(edges: Seq<(usize, usize)>, n: nat, comp: Seq<usize>)
    requires
        endpoints_within(edges, n),
        uf_inv(edges, edges.len() as int, n, comp),
    ensures
        forall|i: int, j: int|
            0 <= i < n && 0 <= j < n ==> (#[trigger] connected(edges, n, i, j) <==> comp[i]
                == comp[j]),
{
    let w = as_ints(comp);
    assert(edge_consistent(edges, edges.len() as int, w)) by {
        assert forall|e: int| 0 <= e < edges.len() implies #[trigger] w[edges[e].0 as int]
            == w[edges[e].1 as int] by {
            assert(edges[e].0 < n && edges[e].1 < n);
            assert(comp[edges[e].0 as int] == comp[edges[e].1 as int]);
        }
    }
    assert forall|i: int, j: int| 0 <= i < n && 0 <= j < n implies (#[trigger] connected(
        edges,
        n,
        i,
        j,
    ) <==> comp[i] == comp[j]) by {
        if connected(edges, n, i, j) {
            assert(w.len() == n);
            assert(w[i] == w[j]);
        }
    }
}

/// Union-find over the first-k relation records, relabelling the smaller
/// representative's class on each merge.
fn union_components(input: &CalculationInput, deadline: Option<Instant>) -> (r: Result<
    Vec<usize>,
    CoreError,
>)
    requires
        input.problem() is None,
    ensures
        deadline is None ==> r is Ok,
        r matches Ok(comp) ==> uf_inv(
            input.edges@,
            input.edges@.len() as int,
            input.node_ids@.len(),
            comp@,
        ),
        r matches Err(e) ==> deadline is Some && is_refusal(e, deadline_message()),
{
    let n = input.node_ids.len();
    let m = input.edges.len();
    let ghost edges = input.edges@;
    let mut comp: Vec<usize> = Vec::new();
    let mut v: usize = 0;
    while v < n
        invariant
            v <= n,
            comp@.len() == v,
            forall|x: int| 0 <= x < v ==> #[trigger] comp@[x] == x,
        decreases n - v,
    {
        comp.push(v);
        v = v + 1;
    }
    proof {
        lemma_initial(edges, n as nat, comp@);
        assert forall|e: int| #![trigger edges[e]] 0 <= e < edges.len() implies edges[e].0 < n && edges[e].1 < n by {
            if !(edges[e].0 < n && edges[e].1 < n) {
                assert(input.problem() is Some);
            }
        }
    }
    let mut e: usize = 0;
    while e < m
        invariant
            n == input.node_ids@.len(),
            m == edges.len(),
            edges == input.edges@,
            input.problem() is None,
            e <= m,
            endpoints_within(edges, n as nat),
            uf_inv(edges, e as int, n as nat, comp@),
        decreases m - e,
    {
        check_deadline(deadline)?;
        let (s, t) = input.edges[e];
        assert(edges[e as int].0 < n && edges[e as int].1 < n);
        let a = comp[s];
        let b = comp[t];
        if a == b {
            proof {
                lemma_no_union(edges, e as int, n as nat, comp@);
            }
        } else {
            let ghost old_comp = comp@;
            let mut p: usize = 0;
            while p < n
                invariant
                    p <= n,
                    comp@.len() == n,
                    old_comp.len() == n,
                    forall|q: int|
                        0 <= q < p ==> #[trigger] comp@[q] == if old_comp[q] == b {
                            a
                        } else {
                            old_comp[q]
                        },
                    forall|q: int| p <= q < n ==> #[trigger] comp@[q] == old_comp[q],
                decreases n - p,
            {
                if comp[p] == b {
                    comp[p] = a;
                }
                p = p + 1;
            }
            proof {
                lemma_union(edges, e as int, n as nat, old_comp, comp@, a, b);
            }
        }
        e = e + 1;
    }
    Ok(comp)
}

/// Positions among the first `m` whose representative is `r`.
pub open spec fn count_eq(comp: Seq<usize>, m: int, r: usize) -> nat
    decreases m,
{
    if m <= 0 {
        0
    } else {
        count_eq(comp, m - 1, r) + if comp[m - 1] == r {
            1nat
        } else {
            0nat
        }
    }
}

proof fn lemma_count_eq_bounded(comp: Seq<usize>, m: int, r: usize)
    requires
        0 <= m,
    ensures
        count_eq(comp, m, r) <= m,
    decreases m,
{
    if m > 0 {
        lemma_count_eq_bounded(comp, m - 1, r);
    }
}

proof fn lemma_members_count(
    edges: Seq<(usize, usize)>,
    n: nat,
    comp: Seq<usize>,
    i: int,
    m: int,
)
    requires
        0 <= i < n,
        0 <= m <= n,
        comp.len() == n,
        forall|x: int, y: int|
            0 <= x < n && 0 <= y < n ==> (#[trigger] connected(edges, n, x, y) <==> comp[x]
                == comp[y]),
    ensures
        members_before(edges, n, i, m) == count_eq(comp, m, comp[i]),
    decreases m,
{
    if m > 0 {
        lemma_members_count(edges, n, comp, i, m - 1);
        assert(connected(edges, n, i, m - 1) <==> comp[i] == comp[m - 1]);
    }
}

pub(crate) proof fn lemma_leaders_monotone(edges: Seq<(usize, usize)>, n: nat, a: int, b: int)
    requires
        0 <= a <= b,
    ensures
        leaders_before(edges, n, a) <= leaders_before(edges, n, b),
        leaders_before(edges, n, b) <= leaders_before(edges, n, a) + (b - a),
    decreases b - a,
{
    if a < b {
        lemma_leaders_monotone(edges, n, a, b - 1);
    }
}

/// Some row carries label `v`.
pub open spec fn labels(rows: Seq<[u32; 2]>, v: int) -> bool {
    exists|i: int| 0 <= i < rows.len() && #[trigger] rows[i][0] == v
}

/// Component labels run exactly from 1 to the number of components: every
/// label is in that range, and every number in it labels some node.
pub proof fn lemma_component_labels_dense(input: CalculationInput, rows: Seq<[u32; 2]>)
    requires
        component_rows(input, rows),
    ensures
        forall|i: int|
            0 <= i < rows.len() ==> 1 <= #[trigger] rows[i][0] <= leaders_before(
                input.edges@,
                rows.len(),
                rows.len() as int,
            ),
        forall|v: int|
            1 <= v <= leaders_before(input.edges@, rows.len(), rows.len() as int) ==> #[trigger] labels(
                rows,
                v,
            ),
{
    let n = rows.len();
    let edges = input.edges@;
    assert forall|i: int| 0 <= i < n implies 1 <= #[trigger] rows[i][0] <= leaders_before(
        edges,
        n,
        n as int,
    ) by {
        lemma_leader_exists(edges, n, i);
        let l = choose|l: int| 0 <= l <= i && connected(edges, n, l, i) && #[trigger] is_leader(edges, n, l);
        assert(rows[l][0] == rows[i][0]);
        lemma_leaders_monotone(edges, n, l + 1, n as int);
    }
    assert forall|v: int| 1 <= v <= leaders_before(edges, n, n as int) implies #[trigger] labels(
        rows,
        v,
    ) by {
        let l = lemma_leader_reaching(edges, n, n as int, v);
        assert(rows[l][0] == v);
    }
}

/// Below any count `m`, every value `v` from 1 to the leaders before `m` is
/// one plus the leaders before some leader `l < m`.
proof fn lemma_leader_reaching(edges: Seq<(usize, usize)>, n: nat, m: int, v: int) -> (l: int)
    requires
        0 <= m,
        1 <= v <= leaders_before(edges, n, m),
    ensures
        0 <= l < m,
        is_leader(edges, n, l),
        leaders_before(edges, n, l) + 1 == v,
    decreases m,
{
    if leaders_before(edges, n, m - 1) >= v {
        lemma_leader_reaching(edges, n, m - 1, v)
    } else {
        m - 1
    }
}

/// Weak component label and component size of every captured node.
///
/// Direction is ignored and isolates are their own components. Labels are
/// 1, 2, ... in the order of each component's minimum member, so a
/// component's label does not depend on the order of the records.
pub fn weak_components(input: &CalculationInput, deadline: Option<Instant>) -> (r: Result<
    Vec<[u32; 2]>,
    CoreError,
>)
    ensures
        input.problem() matches Some(msg) ==> r matches Err(e) && is_refusal(e, msg),
        input.problem() is None && deadline is None ==> r is Ok,
        r matches Ok(rows) ==> input.problem() is None && component_rows(*input, rows@),
        r matches Err(e) ==> input.problem() is Some || (deadline is Some && is_refusal(
            e,
            deadline_message(),
        )),
{
    input.validate()?;
    check_deadline(deadline)?;
    let n = input.node_ids.len();
    let ghost edges = input.edges@;
    let comp = union_components(input, deadline)?;
    proof {
        assert forall|e: int| #![trigger edges[e]] 0 <= e < edges.len() implies edges[e].0 < n && edges[e].1 < n by {
            if !(edges[e].0 < n && edges[e].1 < n) {
                assert(input.problem() is Some);
            }
        }
        lemma_final(edges, n as nat, comp@);
    }
    // Component sizes, indexed by representative.
    let mut sizes: Vec<u32> = Vec::new();
    let mut r: usize = 0;
    while r < n
        invariant
            r <= n,
            sizes@.len() == r,
            forall|x: int| 0 <= x < r ==> #[trigger] sizes@[x] == 0,
        decreases n - r,
    {
        sizes.push(0);
        r = r + 1;
    }
    let mut p: usize = 0;
    while p < n
        invariant
            n == input.node_ids@.len(),
            n <= MAX_LOADED_NODES,
            p <= n,
            comp@.len() == n,
            sizes@.len() == n,
            forall|i: int| 0 <= i < n ==> #[trigger] comp@[i] < n,
            forall|x: int| 0 <= x < n ==> #[trigger] sizes@[x] == count_eq(comp@, p as int, x as usize),
        decreases n - p,
    {
        let c = comp[p];
        proof {
            lemma_count_eq_bounded(comp@, p as int, c);
        }
        sizes[c] = sizes[c] + 1;
        p = p + 1;
    }
    // Labels by first appearance, in ascending node order.
    let mut label_of: Vec<u32> = Vec::new();
    let mut q: usize = 0;
    while q < n
        invariant
            q <= n,
            label_of@.len() == q,
            forall|x: int| 0 <= x < q ==> #[trigger] label_of@[x] == 0,
        decreases n - q,
    {
        label_of.push(0);
        q = q + 1;
    }
    let mut rows: Vec<[u32; 2]> = Vec::new();
    let mut next: u32 = 0;
    let mut node: usize = 0;
    while node < n
        invariant
            n == input.node_ids@.len(),
            n <= MAX_LOADED_NODES,
            edges == input.edges@,
            input.problem() is None,
            node <= n,
            comp@.len() == n,
            sizes@.len() == n,
            label_of@.len() == n,
            rows@.len() == node,
            forall|i: int| 0 <= i < n ==> #[trigger] comp@[i] < n,
            forall|x: int, y: int|
                0 <= x < n && 0 <= y < n ==> (#[trigger] connected(edges, n as nat, x, y)
                    <==> comp@[x] == comp@[y]),
            forall|x: int| 0 <= x < n ==> #[trigger] sizes@[x] == count_eq(comp@, n as int, x as usize),
            next == leaders_before(edges, n as nat, node as int),
            next <= node,
            forall|x: int|
                0 <= x < n ==> (#[trigger] label_of@[x] != 0 <==> exists|j: int|
                    0 <= j < node && comp@[j] == x),
            forall|x: int| 0 <= x < n ==> #[trigger] label_of@[x] <= next,
            forall|x: int, y: int|
                0 <= x < n && 0 <= y < n && #[trigger] label_of@[x] != 0 && #[trigger] label_of@[y]
                    == label_of@[x] ==> x == y,
            forall|j: int| 0 <= j < node ==> #[trigger] rows@[j][0] == label_of@[comp@[j] as int],
            forall|j: int|
                0 <= j < node ==> #[trigger] rows@[j][1] == count_eq(comp@, n as int, comp@[j]),
            forall|j: int|
                0 <= j < node && is_leader(edges, n as nat, j) ==> #[trigger] rows@[j][0]
                    == leaders_before(edges, n as nat, j) + 1,
        decreases n - node,
    {
        check_deadline(deadline)?;
        let c = comp[node];
        let ghost before = label_of@;
        proof {
            // `node` leads its component exactly when no earlier node shares
            // its representative.
            if label_of@[c as int] == 0 {
                assert forall|j: int| 0 <= j < node implies !#[trigger] connected(
                    edges,
                    n as nat,
                    j,
                    node as int,
                ) by {
                    if comp@[j] == c {
                        assert(exists|jj: int| 0 <= jj < node && comp@[jj] == c as int);
                    }
                }
                assert(is_leader(edges, n as nat, node as int));
            } else {
                let j = choose|j: int| 0 <= j < node && comp@[j] == c as int;
                assert(connected(edges, n as nat, j, node as int));
                assert(!is_leader(edges, n as nat, node as int));
            }
        }
        if label_of[c] == 0 {
            next = next + 1;
            label_of[c] = next;
        }
        let label = label_of[c];
        rows.push([label, sizes[c]]);
        proof {
            assert forall|x: int| 0 <= x < n implies (#[trigger] label_of@[x] != 0 <==> exists|j: int|
                0 <= j < node + 1 && comp@[j] == x) by {
                if label_of@[x] != 0 && x != c {
                    let j = choose|j: int| 0 <= j < node && comp@[j] == x;
                    assert(0 <= j < node + 1 && comp@[j] == x);
                }
                if x == c {
                    assert(0 <= node < node + 1 && comp@[node as int] == x);
                }
                if exists|j: int| 0 <= j < node + 1 && comp@[j] == x {
                    let j = choose|j: int| 0 <= j < node + 1 && comp@[j] == x;
                    if j < node {
                        assert(before[x] != 0);
                    }
                }
            }
        }
        node = node + 1;
    }
    proof {
        assert forall|i: int, j: int|
            0 <= i < n && 0 <= j < n implies (#[trigger] rows@[i][0] == #[trigger] rows@[j][0]
            <==> connected(edges, n as nat, i, j)) by {
            assert(label_of@[comp@[i] as int] != 0);
            assert(label_of@[comp@[j] as int] != 0);
        }
        assert forall|i: int| 0 <= i < n implies #[trigger] rows@[i][1] == members_before(
            edges,
            n as nat,
            i,
            n as int,
        ) by {
            lemma_members_count(edges, n as nat, comp@, i, n as int);
        }
    }
    Ok(rows)
}

/// `b` holds the records of `a` and `a` those of `b`, each possibly
/// reversed, in any order.
pub open spec fn same_relations(a: Seq<(usize, usize)>, b: Seq<(usize, usize)>) -> bool {
    &&& forall|e: int|
        0 <= e < a.len() ==> exists|f: int|
            0 <= f < b.len() && (#[trigger] b[f] == #[trigger] a[e] || b[f] == (a[e].1, a[e].0))
    &&& forall|f: int|
        0 <= f < b.len() ==> exists|e: int|
            0 <= e < a.len() && (#[trigger] a[e] == #[trigger] b[f] || a[e] == (b[f].1, b[f].0))
}

/// What `weak_components` returns for a valid input: labels equal exactly
/// within a component, numbered by the rank of its minimum member, and each
/// node's component size.
pub open spec fn component_rows(input: CalculationInput, rows: Seq<[u32; 2]>) -> bool {
    let n = input.node_ids@.len();
    let edges = input.edges@;
    &&& rows.len() == n
    &&& forall|i: int, j: int|
        0 <= i < n && 0 <= j < n ==> (#[trigger] rows[i][0] == #[trigger] rows[j][0] <==> connected(
            edges,
            n,
            i,
            j,
        ))
    &&& forall|i: int|
        0 <= i < n && is_leader(edges, n, i) ==> #[trigger] rows[i][0] == leaders_before(edges, n, i)
            + 1
    &&& forall|i: int| 0 <= i < n ==> #[trigger] rows[i][1] == members_before(edges, n, i, n as int)
}

proof fn lemma_same_consistency(a: Seq<(usize, usize)>, b: Seq<(usize, usize)>, c: Seq<int>)
    requires
        same_relations(a, b),
    ensures
        edge_consistent(a, a.len() as int, c) == edge_consistent(b, b.len() as int, c),
{
    if edge_consistent(a, a.len() as int, c) {
        assert forall|f: int| 0 <= f < b.len() implies #[trigger] c[b[f].0 as int] == c[b[f].1 as int] by {
            let e = choose|e: int| 0 <= e < a.len() && (a[e] == b[f] || a[e] == (b[f].1, b[f].0));
            assert(c[a[e].0 as int] == c[a[e].1 as int]);
        }
    }
    if edge_consistent(b, b.len() as int, c) {
        assert forall|e: int| 0 <= e < a.len() implies #[trigger] c[a[e].0 as int] == c[a[e].1 as int] by {
            let f = choose|f: int| 0 <= f < b.len() && (b[f] == a[e] || b[f] == (a[e].1, a[e].0));
            assert(c[b[f].0 as int] == c[b[f].1 as int]);
        }
    }
}

/// Direction and order do not connect anything: two lists of the same
/// records, each possibly reversed and in any order, join the same nodes.
pub proof fn lemma_connected_ignores_order_and_direction(
    a: Seq<(usize, usize)>,
    b: Seq<(usize, usize)>,
    n: nat,
    i: int,
    j: int,
)
    requires
        same_relations(a, b),
    ensures
        connected(a, n, i, j) == connected(b, n, i, j),
{
    assert forall|c: Seq<int>| c.len() == n implies #[trigger] edge_consistent(a, a.len() as int, c)
        == edge_consistent(b, b.len() as int, c) by {
        lemma_same_consistency(a, b, c);
    }
    if connected(a, n, i, j) {
        assert forall|c: Seq<int>| c.len() == n && #[trigger] edge_consistent(b, b.len() as int, c)
            implies c[i] == c[j] by {
            lemma_same_consistency(a, b, c);
        }
    }
    if connected(b, n, i, j) {
        assert forall|c: Seq<int>| c.len() == n && #[trigger] edge_consistent(a, a.len() as int, c)
            implies c[i] == c[j] by {
            lemma_same_consistency(a, b, c);
        }
    }
}

proof fn lemma_connected_equivalence(edges: Seq<(usize, usize)>, n: nat, i: int, j: int, k: int)
    ensures
        connected(edges, n, i, i),
        connected(edges, n, i, j) ==> connected(edges, n, j, i),
        connected(edges, n, i, j) && connected(edges, n, j, k) ==> connected(edges, n, i, k),
{
}

pub(crate) proof fn lemma_leader_exists(edges: Seq<(usize, usize)>, n: nat, i: int)
    requires
        0 <= i < n,
    ensures
        exists|l: int| 0 <= l <= i && connected(edges, n, l, i) && #[trigger] is_leader(edges, n, l),
    decreases i,
{
    lemma_connected_equivalence(edges, n, i, i, i);
    if !is_leader(edges, n, i) {
        let j = choose|j: int| 0 <= j < i && #[trigger] connected(edges, n, j, i);
        lemma_leader_exists(edges, n, j);
        let l = choose|l: int| 0 <= l <= j && connected(edges, n, l, j) && #[trigger] is_leader(edges, n, l);
        lemma_connected_equivalence(edges, n, l, j, i);
        assert(connected(edges, n, l, i));
    }
}

proof fn lemma_same_counts(a: Seq<(usize, usize)>, b: Seq<(usize, usize)>, n: nat, i: int, m: int)
    requires
        same_relations(a, b),
    ensures
        leaders_before(a, n, m) == leaders_before(b, n, m),
        members_before(a, n, i, m) == members_before(b, n, i, m),
    decreases m,
{
    if m > 0 {
        lemma_same_counts(a, b, n, i, m - 1);
        lemma_connected_ignores_order_and_direction(a, b, n, i, m - 1);
        if is_leader(a, n, m - 1) {
            assert forall|j: int| 0 <= j < m - 1 implies !#[trigger] connected(b, n, j, m - 1) by {
                lemma_connected_ignores_order_and_direction(a, b, n, j, m - 1);
            }
        }
        if is_leader(b, n, m - 1) {
            assert forall|j: int| 0 <= j < m - 1 implies !#[trigger] connected(a, n, j, m - 1) by {
                lemma_connected_ignores_order_and_direction(a, b, n, j, m - 1);
            }
        }
    }
}

/// Weak components ignore direction and record order: over the same nodes,
/// two inputs holding the same records, each possibly reversed and in any
/// order, get the same label and size for every node.
pub proof fn lemma_weak_components_ignore_order_and_direction(
    a: CalculationInput,
    b: CalculationInput,
    ra: Seq<[u32; 2]>,
    rb: Seq<[u32; 2]>,
)
    requires
        a.node_ids@ == b.node_ids@,
        same_relations(a.edges@, b.edges@),
        component_rows(a, ra),
        component_rows(b, rb),
    ensures
        ra.len() == rb.len(),
        forall|i: int, k: int| 0 <= i < ra.len() && 0 <= k < 2 ==> #[trigger] ra[i][k] == rb[i][k],
{
    let n = a.node_ids@.len();
    assert forall|i: int, k: int| 0 <= i < ra.len() && 0 <= k < 2 implies #[trigger] ra[i][k]
        == rb[i][k] by {
        lemma_leader_exists(a.edges@, n, i);
        let l = choose|l: int| 0 <= l <= i && connected(a.edges@, n, l, i) && #[trigger] is_leader(
            a.edges@,
            n,
            l,
        );
        lemma_connected_ignores_order_and_direction(a.edges@, b.edges@, n, l, i);
        lemma_connected_equivalence(a.edges@, n, l, i, i);
        lemma_connected_equivalence(b.edges@, n, l, i, i);
        assert(is_leader(b.edges@, n, l)) by {
            assert forall|j: int| 0 <= j < l implies !#[trigger] connected(b.edges@, n, j, l) by {
                lemma_connected_ignores_order_and_direction(a.edges@, b.edges@, n, j, l);
            }
        }
        lemma_same_counts(a.edges@, b.edges@, n, i, l);
        lemma_same_counts(a.edges@, b.edges@, n, i, n as int);
        assert(ra[i][0] == ra[l][0]);
        assert(rb[i][0] == rb[l][0]);
    }
}

/// No earlier position is joined to `i` by the first `k` records.
pub open spec fn leader_by(edges: Seq<(usize, usize)>, k: int, n: nat, i: int) -> bool {
    forall|j: int| 0 <= j < i ==> !#[trigger] linked_by(edges, k, n, j, i)
}

/// Positions among the first `m` that lead their component under the first
/// `k` records.
pub open spec fn leaders_by(edges: Seq<(usize, usize)>, k: int, n: nat, m: int) -> nat
    decreases m,
{
    if m <= 0 {
        0
    } else {
        leaders_by(edges, k, n, m - 1) + if leader_by(edges, k, n, m - 1) {
            1nat
        } else {
            0nat
        }
    }
}

proof fn lemma_linked_equivalence(edges: Seq<(usize, usize)>, k: int, n: nat, i: int, j: int, l: int)
    ensures
        linked_by(edges, k, n, i, i),
        linked_by(edges, k, n, i, j) ==> linked_by(edges, k, n, j, i),
        linked_by(edges, k, n, i, j) && linked_by(edges, k, n, j, l) ==> linked_by(edges, k, n, i, l),
{
}

proof fn lemma_record_linked(edges: Seq<(usize, usize)>, k: int, n: nat, e: int)
    requires
        0 <= e < k,
    ensures
        linked_by(edges, k, n, edges[e].0 as int, edges[e].1 as int),
{
    assert forall|c: Seq<int>| c.len() == n && #[trigger] edge_consistent(edges, k, c) implies c[edges[e].0 as int]
        == c[edges[e].1 as int] by {
    }
}

/// One more record joins two positions exactly when they were joined
/// already, or each was joined to one end of the record.
proof fn lemma_step(edges: Seq<(usize, usize)>, k: int, n: nat, i: int, j: int)
    requires
        0 <= k < edges.len(),
        endpoints_within(edges, n),
        0 <= i < n,
        0 <= j < n,
    ensures
        linked_by(edges, k + 1, n, i, j) <==> (linked_by(edges, k, n, i, j) || (linked_by(
            edges,
            k,
            n,
            i,
            edges[k].0 as int,
        ) && linked_by(edges, k, n, edges[k].1 as int, j)) || (linked_by(
            edges,
            k,
            n,
            i,
            edges[k].1 as int,
        ) && linked_by(edges, k, n, edges[k].0 as int, j))),
{
    let a = edges[k].0 as int;
    let b = edges[k].1 as int;
    let before = linked_by(edges, k, n, i, j) || (linked_by(edges, k, n, i, a) && linked_by(
        edges,
        k,
        n,
        b,
        j,
    )) || (linked_by(edges, k, n, i, b) && linked_by(edges, k, n, a, j));
    if before {
        assert forall|c: Seq<int>| c.len() == n && #[trigger] edge_consistent(edges, k + 1, c) implies c[i]
            == c[j] by {
            assert(edge_consistent(edges, k, c));
            assert(c[edges[k].0 as int] == c[edges[k].1 as int]);
        }
    } else {
        let merged = linked_by(edges, k, n, i, a) || linked_by(edges, k, n, i, b);
        let c = Seq::new(
            n,
            |x: int|
                if linked_by(edges, k, n, i, x) || (merged && (linked_by(edges, k, n, a, x)
                    || linked_by(edges, k, n, b, x))) {
                    1int
                } else {
                    0int
                },
        );
        assert(edge_consistent(edges, k + 1, c)) by {
            assert forall|e: int| 0 <= e < k + 1 implies #[trigger] c[edges[e].0 as int]
                == c[edges[e].1 as int] by {
                let u = edges[e].0 as int;
                let v = edges[e].1 as int;
                assert(0 <= u < n && 0 <= v < n);
                if e < k {
                    lemma_record_linked(edges, k, n, e);
                    lemma_linked_equivalence(edges, k, n, i, u, v);
                    lemma_linked_equivalence(edges, k, n, i, v, u);
                    lemma_linked_equivalence(edges, k, n, a, u, v);
                    lemma_linked_equivalence(edges, k, n, a, v, u);
                    lemma_linked_equivalence(edges, k, n, b, u, v);
                    lemma_linked_equivalence(edges, k, n, b, v, u);
                    lemma_linked_equivalence(edges, k, n, u, v, u);
                } else {
                    lemma_linked_equivalence(edges, k, n, a, a, a);
                    lemma_linked_equivalence(edges, k, n, b, b, b);
                }
            }
        }
        lemma_linked_equivalence(edges, k, n, i, i, i);
        lemma_linked_equivalence(edges, k, n, i, a, j);
        lemma_linked_equivalence(edges, k, n, i, b, j);
        assert(c[i] == 1);
        assert(c[j] == 0);
    }
}

proof fn lemma_leader_by_exists(edges: Seq<(usize, usize)>, k: int, n: nat, i: int)
    requires
        0 <= i < n,
    ensures
        exists|l: int| 0 <= l <= i && linked_by(edges, k, n, l, i) && #[trigger] leader_by(edges, k, n, l),
    decreases i,
{
    lemma_linked_equivalence(edges, k, n, i, i, i);
    if !leader_by(edges, k, n, i) {
        let j = choose|j: int| 0 <= j < i && #[trigger] linked_by(edges, k, n, j, i);
        lemma_leader_by_exists(edges, k, n, j);
        let l = choose|l: int| 0 <= l <= j && linked_by(edges, k, n, l, j) && #[trigger] leader_by(edges, k, n, l);
        lemma_linked_equivalence(edges, k, n, l, j, i);
    }
}

/// A leader comes no later than any member of its component.
proof fn lemma_leader_first(edges: Seq<(usize, usize)>, k: int, n: nat, l: int, j: int)
    requires
        leader_by(edges, k, n, l),
        linked_by(edges, k, n, l, j),
        0 <= j,
    ensures
        l <= j,
{
    if j < l {
        lemma_linked_equivalence(edges, k, n, l, j, l);
        assert(linked_by(edges, k, n, j, l));
    }
}

/// Only one position can stop leading when a record is added: the later of
/// the two leaders it joins.
proof fn lemma_one_leader_lost(edges: Seq<(usize, usize)>, k: int, n: nat) -> (p: int)
    requires
        0 <= k < edges.len(),
        endpoints_within(edges, n),
    ensures
        forall|i: int|
            0 <= i < n && #[trigger] leader_by(edges, k, n, i) && !leader_by(edges, k + 1, n, i) ==> i
                == p,
{
    let a = edges[k].0 as int;
    let b = edges[k].1 as int;
    assert(0 <= a < n && 0 <= b < n);
    lemma_leader_by_exists(edges, k, n, a);
    lemma_leader_by_exists(edges, k, n, b);
    let la = choose|l: int| 0 <= l <= a && linked_by(edges, k, n, l, a) && #[trigger] leader_by(edges, k, n, l);
    let lb = choose|l: int| 0 <= l <= b && linked_by(edges, k, n, l, b) && #[trigger] leader_by(edges, k, n, l);
    let p = if la < lb {
        lb
    } else {
        la
    };
    assert forall|i: int|
        0 <= i < n && #[trigger] leader_by(edges, k, n, i) && !leader_by(edges, k + 1, n, i) implies i
        == p by {
        let j = choose|j: int| 0 <= j < i && #[trigger] linked_by(edges, k + 1, n, j, i);
        lemma_step(edges, k, n, j, i);
        if linked_by(edges, k, n, j, a) && linked_by(edges, k, n, b, i) {
            // `i` leads `b`'s component, and `j`, before it, is in `a`'s.
            lemma_linked_equivalence(edges, k, n, lb, b, i);
            lemma_leader_first(edges, k, n, lb, i);
            lemma_leader_first(edges, k, n, i, lb);
            lemma_linked_equivalence(edges, k, n, la, a, j);
            lemma_linked_equivalence(edges, k, n, j, a, la);
            lemma_leader_first(edges, k, n, la, j);
        } else {
            assert(linked_by(edges, k, n, j, b) && linked_by(edges, k, n, a, i));
            lemma_linked_equivalence(edges, k, n, la, a, i);
            lemma_leader_first(edges, k, n, la, i);
            lemma_leader_first(edges, k, n, i, la);
            lemma_linked_equivalence(edges, k, n, lb, b, j);
            lemma_leader_first(edges, k, n, lb, j);
        }
    }
    p
}

proof fn lemma_leaders_keep(edges: Seq<(usize, usize)>, k: int, n: nat, i: int)
    requires
        0 <= k < edges.len(),
        leader_by(edges, k + 1, n, i),
    ensures
        leader_by(edges, k, n, i),
{
    assert forall|j: int| 0 <= j < i implies !#[trigger] linked_by(edges, k, n, j, i) by {
        if linked_by(edges, k, n, j, i) {
            lemma_linked_monotone(edges, k, n, j, i);
        }
    }
}

proof fn lemma_leaders_step(edges: Seq<(usize, usize)>, k: int, n: nat, p: int, m: int)
    requires
        0 <= k < edges.len(),
        0 <= m <= n,
        forall|i: int|
            0 <= i < n && #[trigger] leader_by(edges, k, n, i) && !leader_by(edges, k + 1, n, i) ==> i
                == p,
    ensures
        leaders_by(edges, k, n, m) <= leaders_by(edges, k + 1, n, m) + if p < m {
            1int
        } else {
            0int
        },
    decreases m,
{
    if m > 0 {
        lemma_leaders_step(edges, k, n, p, m - 1);
        if leader_by(edges, k + 1, n, m - 1) {
            lemma_leaders_keep(edges, k, n, m - 1);
        }
    }
}

proof fn lemma_every_position_leads(edges: Seq<(usize, usize)>, n: nat, m: int)
    requires
        0 <= m <= n,
    ensures
        leaders_by(edges, 0, n, m) == m,
    decreases m,
{
    if m > 0 {
        lemma_every_position_leads(edges, n, m - 1);
        let i = m - 1;
        let c = Seq::new(n, |x: int| x);
        assert(edge_consistent(edges, 0, c));
        assert forall|j: int| 0 <= j < i implies !#[trigger] linked_by(edges, 0, n, j, i) by {
            assert(c[j] != c[i]);
        }
    }
}

proof fn lemma_leaders_at_least(edges: Seq<(usize, usize)>, n: nat, k: int)
    requires
        0 <= k <= edges.len(),
        endpoints_within(edges, n),
    ensures
        leaders_by(edges, k, n, n as int) + k >= n,
    decreases k,
{
    if k == 0 {
        lemma_every_position_leads(edges, n, n as int);
    } else {
        lemma_leaders_at_least(edges, n, k - 1);
        let p = lemma_one_leader_lost(edges, k - 1, n);
        lemma_leaders_step(edges, k - 1, n, p, n as int);
    }
}

proof fn lemma_leaders_by_all(edges: Seq<(usize, usize)>, n: nat, m: int)
    requires
        0 <= m,
    ensures
        leaders_by(edges, edges.len() as int, n, m) == leaders_before(edges, n, m),
    decreases m,
{
    if m > 0 {
        lemma_leaders_by_all(edges, n, m - 1);
        let i = m - 1;
        if leader_by(edges, edges.len() as int, n, i) {
            assert forall|j: int| 0 <= j < i implies !#[trigger] connected(edges, n, j, i) by {
                assert(!linked_by(edges, edges.len() as int, n, j, i));
            }
        }
        if is_leader(edges, n, i) {
            assert forall|j: int| 0 <= j < i implies !#[trigger] linked_by(edges, edges.len() as int, n, j, i) by {
                assert(!connected(edges, n, j, i));
            }
        }
    }
}

/// Each relation record joins at most two components into one, so `n`
/// positions and `m` records make at least `n - m` weak components.
pub proof fn lemma_components_at_least(edges: Seq<(usize, usize)>, n: nat)
    requires
        endpoints_within(edges, n),
    ensures
        leaders_before(edges, n, n as int) + edges.len() >= n,
{
    lemma_leaders_at_least(edges, n, edges.len() as int);
    lemma_leaders_by_all(edges, n, n as int);
}

} // verus!
