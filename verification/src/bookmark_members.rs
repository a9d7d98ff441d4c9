//! Bookmark members resolved to the source nodes they name: a session
//! handle names a node of one session generation, a durable key names the
//! one node of a type whose `id` cell holds that key.
use std::collections::HashSet;
use std::time::Instant;

use vstd::prelude::*;
use vstd::utf8::encode_utf8;

use kglite::api::DirGraph;

use crate::calculation_kernels::MAX_LOADED_NODES;
use crate::clock::deadline_reached;
use crate::error::{is_refusal, refusal, refuse_when, CoreError};
use crate::export::str_eq;
use crate::graph_reads::{id_cell, id_cell_held, node_held, node_present, typed_nodes, typed_nodes_held};
use crate::shared::NodeHandle;
use crate::text::text_order;

verus! {

/// A durable member key: the value a node's `id` cell must hold. Only the
/// scalar kinds name a node; a null, a list or a map (`Record`) is carried
/// so that it can be refused.
#[derive(Debug, Clone)]
pub enum MemberKey {
    Null,
    Int(i64),
    Text(String),
    Bool(bool),
    Unique(u32),
    List,
    Record,
}

/// One member of a saved view.
#[derive(Debug, Clone)]
pub enum BookmarkMember {
    /// A node of one session generation, by its index.
    Handle { handle: NodeHandle },
    /// The node of `node_type` whose `id` cell holds `key`.
    Key { node_type: String, key: MemberKey },
}

/// A key as plain values: a tag for its kind, its number, its text.
pub open spec fn key_view(k: MemberKey) -> (u8, int, Seq<char>) {
    match k {
        MemberKey::Null => (0u8, 0int, Seq::empty()),
        MemberKey::Int(i) => (1u8, i as int, Seq::empty()),
        MemberKey::Text(s) => (2u8, 0int, s@),
        MemberKey::Bool(b) => (3u8, if b { 1int } else { 0int }, Seq::empty()),
        MemberKey::Unique(u) => (4u8, u as int, Seq::empty()),
        MemberKey::List => (5u8, 0int, Seq::empty()),
        MemberKey::Record => (6u8, 0int, Seq::empty()),
    }
}

/// A key of a kind that names a node: neither null, a list nor a map.
pub open spec fn scalar_view(v: (u8, int, Seq<char>)) -> bool {
    1 <= v.0 <= 4
}

/// The refusal of too many members.
pub open spec fn too_many_members_message() -> Seq<char> {
    "bookmark exceeds 5000 members"@
}

/// The refusal of a handle of another session generation or of no node.
pub open spec fn foreign_handle_message() -> Seq<char> {
    "session-only bookmark belongs to another source session"@
}

/// The refusal of a key that is not a scalar.
pub open spec fn scalar_key_message() -> Seq<char> {
    "durable member keys must be non-null scalar values"@
}

/// The refusal of a repeated key or an overlong type name.
pub open spec fn duplicate_key_message() -> Seq<char> {
    "bookmark has duplicate or invalid member keys"@
}

/// The refusal of a type the graph does not index.
pub open spec fn absent_type_message() -> Seq<char> {
    "bookmark node type is absent"@
}

/// The refusal of a key more than one node holds.
pub open spec fn ambiguous_key_message() -> Seq<char> {
    "source keys are ambiguous; exact durable restoration is unavailable"@
}

/// The refusal of a key no node holds.
pub open spec fn absent_member_message() -> Seq<char> {
    "bookmark source member is absent"@
}

/// The refusal of two members naming one node.
pub open spec fn repeated_member_message() -> Seq<char> {
    "bookmark repeats a source member"@
}

/// The refusal once the deadline has passed.
pub open spec fn members_deadline_message() -> Seq<char> {
    "bookmark member resolution exceeded its work deadline"@
}

/// The key a node answers to: its `id` cell, where that holds a scalar.
pub open spec fn node_key(graph: DirGraph, node: u32) -> Option<(u8, int, Seq<char>)> {
    match id_cell_held(graph, node) {
        Some(v) => if scalar_view(v) {
            Some(v)
        } else {
            None
        },
        None => None,
    }
}

/// Member `q` is a key member of type `t` with key `kv`.
pub open spec fn keyed_as(members: Seq<BookmarkMember>, q: int, t: Seq<char>, kv: (u8, int, Seq<char>)) -> bool {
    members[q] matches BookmarkMember::Key { node_type, key } && node_type@ == t && key_view(key) == kv
}

/// What is wrong with member `p` on its own or against the members before
/// it, if anything.
pub open spec fn member_problem(graph: DirGraph, generation: Seq<char>, members: Seq<BookmarkMember>, p: int) -> Option<
    Seq<char>,
> {
    match members[p] {
        BookmarkMember::Handle { handle } => if handle.generation@ != generation || !node_held(
            graph,
            handle.node_id,
        ) {
            Some(foreign_handle_message())
        } else {
            None
        },
        BookmarkMember::Key { node_type, key } => if !scalar_view(key_view(key)) {
            Some(scalar_key_message())
        } else if encode_utf8(node_type@).len() > 256 || exists|q: int|
            0 <= q < p && #[trigger] keyed_as(members, q, node_type@, key_view(key)) {
            Some(duplicate_key_message())
        } else {
            None
        },
    }
}

/// The first problem among the first `k` members.
pub open spec fn first_problem(graph: DirGraph, generation: Seq<char>, members: Seq<BookmarkMember>, k: int) -> Option<
    Seq<char>,
>
    decreases k,
{
    if k <= 0 {
        None
    } else {
        match first_problem(graph, generation, members, k - 1) {
            Some(m) => Some(m),
            None => member_problem(graph, generation, members, k - 1),
        }
    }
}

/// How many of the first `j` nodes of `c` answer to `kv`.
pub open spec fn key_count(graph: DirGraph, c: Seq<u32>, kv: (u8, int, Seq<char>), j: int) -> nat
    decreases j,
{
    if j <= 0 || j > c.len() {
        0
    } else {
        key_count(graph, c, kv, j - 1) + if node_key(graph, c[j - 1]) == Some(kv) {
            1nat
        } else {
            0nat
        }
    }
}

/// `id` is what member `p` names: its handle's node, or the one node of its
/// type that answers to its key.
pub open spec fn resolves(graph: DirGraph, members: Seq<BookmarkMember>, p: int, id: u32) -> bool {
    match members[p] {
        BookmarkMember::Handle { handle } => id == handle.node_id,
        BookmarkMember::Key { node_type, key } => match typed_nodes_held(graph, node_type@) {
            Some(c) => key_count(graph, c, key_view(key), c.len() as int) == 1 && c.contains(id) && node_key(
                graph,
                id,
            ) == Some(key_view(key)),
            None => false,
        },
    }
}

/// A problem among the first `k` members is the first problem among all
/// of them.
proof fn lemma_first_problem_stays(graph: DirGraph, generation: Seq<char>, members: Seq<BookmarkMember>, k: int, n: int)
    requires
        0 <= k <= n,
        first_problem(graph, generation, members, k) is Some,
    ensures
        first_problem(graph, generation, members, n) == first_problem(graph, generation, members, k),
    decreases n - k,
{
    if k < n {
        lemma_first_problem_stays(graph, generation, members, k, n - 1);
    }
}

/// Refuse once `deadline`, if there is one, has been reached.
fn check_members_deadline(deadline: Option<Instant>) -> (r: Result<(), CoreError>)
    ensures
        deadline is None ==> r is Ok,
        r matches Err(e) ==> is_refusal(e, members_deadline_message()),
{
    match deadline {
        None => Ok(()),
        Some(d) => refuse_when(deadline_reached(d), "bookmark member resolution exceeded its work deadline"),
    }
}

/// Two keys are the same key.
fn same_key(a: &MemberKey, b: &MemberKey) -> (r: bool)
    ensures
        r == (key_view(*a) == key_view(*b)),
{
    match (a, b) {
        (MemberKey::Null, MemberKey::Null) => true,
        (MemberKey::Int(x), MemberKey::Int(y)) => *x == *y,
        (MemberKey::Text(x), MemberKey::Text(y)) => str_eq(x.as_str(), y.as_str()),
        (MemberKey::Bool(x), MemberKey::Bool(y)) => *x == *y,
        (MemberKey::Unique(x), MemberKey::Unique(y)) => *x == *y,
        (MemberKey::List, MemberKey::List) => true,
        (MemberKey::Record, MemberKey::Record) => true,
        _ => false,
    }
}

/// Whether a key is a scalar.
fn is_scalar(k: &MemberKey) -> (r: bool)
    ensures
        r == scalar_view(key_view(*k)),
{
    match k {
        MemberKey::Int(_) | MemberKey::Text(_) | MemberKey::Bool(_) | MemberKey::Unique(_) => true,
        _ => false,
    }
}

/// Where member `q`'s slot stands after the first `j` nodes of `c` were
/// read: empty while none answered to `kv`, else the one that did.
pub open spec fn scanned(graph: DirGraph, c: Seq<u32>, kv: (u8, int, Seq<char>), j: int, slot: Option<u32>) -> bool {
    match slot {
        None => key_count(graph, c, kv, j) == 0,
        Some(x) => key_count(graph, c, kv, j) == 1 && c.contains(x) && node_key(graph, x) == Some(kv),
    }
}

/// The type name of member `q`, if it is a key member.
pub open spec fn member_type(members: Seq<BookmarkMember>, q: int) -> Option<Seq<char>> {
    match members[q] {
        BookmarkMember::Key { node_type, .. } => Some(node_type@),
        BookmarkMember::Handle { .. } => None,
    }
}

/// A slot that holds a node holds what the member names.
pub open spec fn slot_sound(graph: DirGraph, members: Seq<BookmarkMember>, q: int, slot: Option<u32>) -> bool {
    slot matches Some(x) ==> resolves(graph, members, q, x)
}

/// The key of member `q`, if it is a key member.
pub open spec fn member_key(members: Seq<BookmarkMember>, q: int) -> MemberKey {
    match members[q] {
        BookmarkMember::Key { key, .. } => key,
        BookmarkMember::Handle { .. } => MemberKey::Null,
    }
}

/// Member `q`'s slot once the types in `done` were resolved: a handle's and
/// a resolved key's slot holds what the member names; a key of a type not
/// yet resolved has an empty slot.
pub open spec fn settled(
    graph: DirGraph,
    members: Seq<BookmarkMember>,
    done: Seq<Seq<char>>,
    q: int,
    slot: Option<u32>,
) -> bool {
    match member_type(members, q) {
        None => slot is Some && slot_sound(graph, members, q, slot),
        Some(t) => if done.contains(t) {
            typed_nodes_held(graph, t) matches Some(c) && scanned(
                graph,
                c,
                key_view(member_key(members, q)),
                c.len() as int,
                slot,
            )
        } else {
            slot is None
        },
    }
}

/// `ids` are what the members name, one each, no node twice.
pub open spec fn names_all(graph: DirGraph, members: Seq<BookmarkMember>, ids: Seq<u32>) -> bool {
    &&& ids.len() == members.len()
    &&& forall|p: int| 0 <= p < members.len() ==> resolves(graph, members, p, #[trigger] ids[p])
    &&& forall|a: int, b: int| 0 <= a < b < members.len() ==> ids[a] != ids[b]
}

/// Every member names a node, and no two the same one.
pub open spec fn resolvable(graph: DirGraph, generation: Seq<char>, members: Seq<BookmarkMember>) -> bool {
    &&& members.len() <= MAX_LOADED_NODES
    &&& first_problem(graph, generation, members, members.len() as int) is None
    &&& exists|ids: Seq<u32>| #[trigger] names_all(graph, members, ids)
}

/// Counts only grow as more nodes are read.
proof fn lemma_count_grows(graph: DirGraph, c: Seq<u32>, kv: (u8, int, Seq<char>), j: int, k: int)
    requires
        0 <= j <= k <= c.len(),
    ensures
        key_count(graph, c, kv, j) <= key_count(graph, c, kv, k),
    decreases k - j,
{
    if j < k {
        lemma_count_grows(graph, c, kv, j, k - 1);
    }
}

/// Two different nodes of `c` that answer to `kv` make its count at least
/// two.
proof fn lemma_two_answers(graph: DirGraph, c: Seq<u32>, kv: (u8, int, Seq<char>), a: u32, b: u32, j: int)
    requires
        0 <= j <= c.len(),
        a != b,
        c.take(j).contains(a),
        c.take(j).contains(b),
        node_key(graph, a) == Some(kv),
        node_key(graph, b) == Some(kv),
    ensures
        key_count(graph, c, kv, j) >= 2,
    decreases j,
{
    let last = c[j - 1];
    assert(c.take(j - 1) =~= c.take(j).drop_last());
    if last == a {
        assert(c.take(j - 1).contains(b)) by {
            let w = choose|w: int| 0 <= w < j && c.take(j)[w] == b;
            assert(w < j - 1);
            assert(c.take(j - 1)[w] == b);
        }
        lemma_one_answer(graph, c, kv, b, j - 1);
    } else if last == b {
        assert(c.take(j - 1).contains(a)) by {
            let w = choose|w: int| 0 <= w < j && c.take(j)[w] == a;
            assert(w < j - 1);
            assert(c.take(j - 1)[w] == a);
        }
        lemma_one_answer(graph, c, kv, a, j - 1);
    } else {
        assert(c.take(j - 1).contains(a)) by {
            let w = choose|w: int| 0 <= w < j && c.take(j)[w] == a;
            assert(c.take(j - 1)[w] == a);
        }
        assert(c.take(j - 1).contains(b)) by {
            let w = choose|w: int| 0 <= w < j && c.take(j)[w] == b;
            assert(c.take(j - 1)[w] == b);
        }
        lemma_two_answers(graph, c, kv, a, b, j - 1);
    }
}

/// A node of `c` that answers to `kv` makes its count at least one.
proof fn lemma_one_answer(graph: DirGraph, c: Seq<u32>, kv: (u8, int, Seq<char>), a: u32, j: int)
    requires
        0 <= j <= c.len(),
        c.take(j).contains(a),
        node_key(graph, a) == Some(kv),
    ensures
        key_count(graph, c, kv, j) >= 1,
    decreases j,
{
    assert(c.take(j - 1) =~= c.take(j).drop_last());
    if c[j - 1] != a {
        assert(c.take(j - 1).contains(a)) by {
            let w = choose|w: int| 0 <= w < j && c.take(j)[w] == a;
            assert(c.take(j - 1)[w] == a);
        }
        lemma_one_answer(graph, c, kv, a, j - 1);
    }
}

/// A member names at most one node.
proof fn lemma_resolves_once(graph: DirGraph, members: Seq<BookmarkMember>, p: int, a: u32, b: u32)
    requires
        resolves(graph, members, p, a),
        resolves(graph, members, p, b),
    ensures
        a == b,
{
    if let BookmarkMember::Key { node_type, key } = members[p] {
        let c = typed_nodes_held(graph, node_type@)->0;
        if a != b {
            assert(c.take(c.len() as int) =~= c);
            lemma_two_answers(graph, c, key_view(key), a, b, c.len() as int);
        }
    }
}

/// A slot settled over every type holds what its member names, and holds
/// it wherever the member names a node.
proof fn lemma_settled_slot(graph: DirGraph, members: Seq<BookmarkMember>, done: Seq<Seq<char>>, q: int, slot: Option<u32>, y: u32)
    requires
        settled(graph, members, done, q, slot),
        member_type(members, q) matches Some(t) ==> done.contains(t),
        resolves(graph, members, q, y),
    ensures
        slot == Some(y),
{
    match member_type(members, q) {
        None => {
            lemma_resolves_once(graph, members, q, slot->0, y);
        },
        Some(t) => {
            if slot is Some {
                lemma_resolves_once(graph, members, q, slot->0, y);
            }
        },
    }
}

/// The first member position not yet visited: the `i`th key position, or
/// past the end.
pub open spec fn cut(keyed: Seq<usize>, i: int, n: int) -> int {
    if i < keyed.len() {
        keyed[i] as int
    } else {
        n
    }
}

/// Reading one more node changes a count only where the node answers to
/// the key.
proof fn lemma_count_step(graph: DirGraph, c: Seq<u32>, kv: (u8, int, Seq<char>), j: int)
    requires
        0 <= j < c.len(),
    ensures
        key_count(graph, c, kv, j + 1) == key_count(graph, c, kv, j) + if node_key(graph, c[j]) == Some(kv) {
            1nat
        } else {
            0nat
        },
{
}

/// Some member is a key member of type `t`.
pub open spec fn type_named(members: Seq<BookmarkMember>, t: Seq<char>) -> bool {
    exists|q: int| 0 <= q < members.len() && member_type(members, q) == Some(t)
}

/// Texts as plain values.
pub open spec fn names_view(v: Seq<String>) -> Seq<Seq<char>> {
    v.map_values(|s: String| s@)
}

/// Whether member `q` is a key member whose type is `t`.
fn is_key_of_type(members: &Vec<BookmarkMember>, q: usize, t: &str) -> (r: bool)
    requires
        q < members@.len(),
    ensures
        r == (member_type(members@, q as int) == Some(t@)),
{
    match &members[q] {
        BookmarkMember::Key { node_type, .. } => str_eq(node_type.as_str(), t),
        BookmarkMember::Handle { .. } => false,
    }
}

/// Resolves each member to the source node it names, in order. More than
/// 5000 members are refused. Each member is first checked on its own and
/// against those before it: a handle must belong to `generation` and name
/// a node the graph holds; a key must be a scalar, its type name at most
/// 256 bytes, and no earlier member may hold the same type and key. Then
/// each key resolves through its type's index entry (refused where the
/// graph indexes no such type) to the node whose `id` cell holds it:
/// refused where two nodes hold it or none does. Two members naming one
/// node are refused. The deadline, if any, may refuse at any member or
/// node read.
pub fn resolve_members(
    graph: &DirGraph,
    members: &Vec<BookmarkMember>,
    generation: &str,
    deadline: Option<Instant>,
) -> (r: Result<Vec<u32>, CoreError>)
    ensures
        members@.len() > MAX_LOADED_NODES ==> (r matches Err(e) && is_refusal(e, too_many_members_message())),
        members@.len() <= MAX_LOADED_NODES ==> (first_problem(
            *graph,
            generation@,
            members@,
            members@.len() as int,
        ) matches Some(m) ==> (r matches Err(e) && (is_refusal(e, m) || (deadline is Some && is_refusal(
            e,
            members_deadline_message(),
        ))))),
        resolvable(*graph, generation@, members@) ==> (r is Ok || (deadline is Some && (r matches Err(e)
            && is_refusal(e, members_deadline_message())))),
        r matches Ok(ids) ==> {
            &&& members@.len() <= MAX_LOADED_NODES
            &&& first_problem(*graph, generation@, members@, members@.len() as int) is None
            &&& ids@.len() == members@.len()
            &&& forall|p: int| 0 <= p < ids@.len() ==> resolves(*graph, members@, p, #[trigger] ids@[p])
            &&& forall|p: int, q: int| 0 <= p < q < ids@.len() ==> ids@[p] != ids@[q]
        },
        r matches Err(e) ==> {
            ||| is_refusal(e, too_many_members_message())
            ||| is_refusal(e, foreign_handle_message())
            ||| is_refusal(e, scalar_key_message())
            ||| is_refusal(e, duplicate_key_message())
            ||| is_refusal(e, absent_type_message())
            ||| is_refusal(e, ambiguous_key_message())
            ||| is_refusal(e, absent_member_message())
            ||| is_refusal(e, repeated_member_message())
            ||| (deadline is Some && is_refusal(e, members_deadline_message()))
        },
{
    if members.len() > MAX_LOADED_NODES {
        return Err(refusal("bookmark exceeds 5000 members"));
    }
    let n = members.len();
    // Each member on its own, and against the keys before it.
    let mut resolved: Vec<Option<u32>> = Vec::new();
    let mut keyed: Vec<usize> = Vec::new();
    let mut p: usize = 0;
    while p < n
        invariant
            n == members@.len(),
            n <= MAX_LOADED_NODES,
            p <= n,
            resolved@.len() == p,
            first_problem(*graph, generation@, members@, p as int) is None,
            forall|q: int| 0 <= q < p ==> slot_sound(*graph, members@, q, #[trigger] resolved@[q]),
            forall|q: int| 0 <= q < p && member_type(members@, q) is Some ==> #[trigger] resolved@[q] is None,
            forall|q: int| 0 <= q < p && member_type(members@, q) is None ==> #[trigger] resolved@[q] is Some,
            forall|i: int| 0 <= i < keyed@.len() ==> #[trigger] keyed@[i] < p && member_type(members@, keyed@[i] as int) is Some,
            forall|a: int, b: int| 0 <= a < b < keyed@.len() ==> keyed@[a] < keyed@[b],
            forall|q: int| 0 <= q < p && #[trigger] member_type(members@, q) is Some ==> exists|i: int| 0 <= i < keyed@.len() && keyed@[i] == q,
        decreases n - p,
    {
        match check_members_deadline(deadline) {
            Ok(()) => {},
            Err(e) => {
                return Err(e);
            },
        }
        match &members[p] {
            BookmarkMember::Handle { handle } => {
                if !str_eq(handle.generation.as_str(), generation) || !node_present(graph, handle.node_id) {
                    assert(first_problem(*graph, generation@, members@, p + 1) == Some(foreign_handle_message()));
                    proof { lemma_first_problem_stays(*graph, generation@, members@, p + 1, members@.len() as int); }
                    return Err(refusal("session-only bookmark belongs to another source session"));
                }
                resolved.push(Some(handle.node_id));
            },
            BookmarkMember::Key { node_type, key } => {
                if !is_scalar(key) {
                    assert(first_problem(*graph, generation@, members@, p + 1) == Some(scalar_key_message()));
                    proof { lemma_first_problem_stays(*graph, generation@, members@, p + 1, members@.len() as int); }
                    return Err(refusal("durable member keys must be non-null scalar values"));
                }
                let bytes = node_type.as_str().as_bytes().len();
                assert(bytes == encode_utf8(node_type@).len());
                if bytes > 256 {
                    assert(first_problem(*graph, generation@, members@, p + 1) == Some(duplicate_key_message()));
                    proof { lemma_first_problem_stays(*graph, generation@, members@, p + 1, members@.len() as int); }
                    return Err(refusal("bookmark has duplicate or invalid member keys"));
                }
                let mut i: usize = 0;
                while i < keyed.len()
                    invariant
                        i <= keyed@.len(),
                        p < members@.len(),
                        members@.len() <= MAX_LOADED_NODES,
                        members@[p as int] == (BookmarkMember::Key { node_type: *node_type, key: *key }),
                        first_problem(*graph, generation@, members@, p as int) is None,
                        scalar_view(key_view(*key)),
                        encode_utf8(node_type@).len() <= 256,
                        forall|l: int| 0 <= l < keyed@.len() ==> #[trigger] keyed@[l] < p,
                        forall|l: int| 0 <= l < i ==> !keyed_as(members@, #[trigger] keyed@[l] as int, node_type@, key_view(*key)),
                    decreases keyed@.len() - i,
                {
                    let q = keyed[i];
                    match &members[q] {
                        BookmarkMember::Key { node_type: t2, key: k2 } => {
                            if str_eq(t2.as_str(), node_type.as_str()) && same_key(k2, key) {
                                assert(keyed_as(members@, q as int, node_type@, key_view(*key)));
                                assert(first_problem(*graph, generation@, members@, p + 1) == Some(duplicate_key_message()));
                    proof { lemma_first_problem_stays(*graph, generation@, members@, p + 1, members@.len() as int); }
                                return Err(refusal("bookmark has duplicate or invalid member keys"));
                            }
                        },
                        BookmarkMember::Handle { .. } => {},
                    }
                    i = i + 1;
                }
                assert forall|q: int| 0 <= q < p implies !#[trigger] keyed_as(members@, q, node_type@, key_view(*key)) by {
                    if keyed_as(members@, q, node_type@, key_view(*key)) {
                        assert(member_type(members@, q) is Some);
                        let l = choose|l: int| 0 <= l < keyed@.len() && keyed@[l] == q;
                        assert(!keyed_as(members@, keyed@[l] as int, node_type@, key_view(*key)));
                    }
                }
                assert(member_problem(*graph, generation@, members@, p as int) is None);
                let ghost keyed0 = keyed@;
                keyed.push(p);
                resolved.push(None);
                proof {
                    assert forall|q: int| 0 <= q < p + 1 && #[trigger] member_type(members@, q) is Some implies exists|i: int|
                        0 <= i < keyed@.len() && keyed@[i] == q by {
                        if q == p {
                            assert(keyed@[keyed0.len() as int] == q);
                        } else {
                            let i = choose|i: int| 0 <= i < keyed0.len() && keyed0[i] == q;
                            assert(keyed@[i] == q);
                        }
                    }
                }
            },
        }
        p = p + 1;
    }
    // The distinct type names the keys ask for, ascending.
    let mut types: Vec<String> = Vec::new();
    let mut i: usize = 0;
    while i < keyed.len()
        invariant
            i <= keyed@.len(),
            forall|l: int| 0 <= l < keyed@.len() ==> #[trigger] keyed@[l] < n && member_type(members@, keyed@[l] as int) is Some,
            n == members@.len(),
            forall|a: int, b: int| 0 <= a < b < types@.len() ==> types@[a]@ != types@[b]@,
            forall|l: int| 0 <= l < i ==> names_view(types@).contains(#[trigger] member_type(members@, keyed@[l] as int)->0),
            forall|w: int| 0 <= w < types@.len() ==> type_named(members@, #[trigger] types@[w]@),
        decreases keyed@.len() - i,
    {
        let q = keyed[i];
        match &members[q] {
            BookmarkMember::Key { node_type, .. } => {
                let mut found = false;
                let mut pos: usize = types.len();
                let mut l: usize = 0;
                while l < types.len()
                    invariant
                        l <= types@.len(),
                        pos <= types@.len(),
                        found ==> names_view(types@).contains(node_type@),
                        !found ==> forall|m: int| 0 <= m < l ==> types@[m]@ != node_type@,
                    decreases types@.len() - l,
                {
                    let order = text_order(types[l].as_str(), node_type.as_str());
                    if order == 0 {
                        assert(names_view(types@)[l as int] == node_type@);
                        found = true;
                    } else if order > 0 && pos == types.len() {
                        pos = l;
                    }
                    l = l + 1;
                }
                if !found {
                    let ghost before = types@;
                    types.insert(pos, node_type.clone());
                    proof {
                        assert(types@ == before.insert(pos as int, types@[pos as int]));
                        assert(types@[pos as int]@ == node_type@);
                        assert forall|a: int, b: int| 0 <= a < b < types@.len() implies types@[a]@ != types@[b]@ by {
                            if a < pos && b == pos {
                                assert(before[a]@ != node_type@);
                            } else if a < pos && b > pos {
                                assert(types@[b] == before[b - 1]);
                            } else if a == pos && b > pos {
                                assert(types@[b] == before[b - 1]);
                                assert(before[b - 1]@ != node_type@);
                            } else if a > pos {
                                assert(types@[a] == before[a - 1] && types@[b] == before[b - 1]);
                            }
                        }
                        assert(names_view(types@)[pos as int] == node_type@);
                        assert forall|w: int| 0 <= w < types@.len() implies type_named(members@, #[trigger] types@[w]@) by {
                            if w == pos {
                                assert(member_type(members@, q as int) == Some(types@[w]@));
                            } else if w < pos {
                                assert(types@[w] == before[w]);
                                assert(type_named(members@, before[w]@));
                            } else {
                                assert(types@[w] == before[w - 1]);
                                assert(type_named(members@, before[w - 1]@));
                            }
                        }
                        assert forall|m: int| 0 <= m < i implies names_view(types@).contains(
                            #[trigger] member_type(members@, keyed@[m] as int)->0,
                        ) by {
                            let t = member_type(members@, keyed@[m] as int)->0;
                            let w = choose|w: int| 0 <= w < names_view(before).len() && names_view(before)[w] == t;
                            if w < pos {
                                assert(names_view(types@)[w] == t);
                            } else {
                                assert(names_view(types@)[w + 1] == t);
                            }
                        }
                    }
                }
                assert(member_type(members@, keyed@[i as int] as int)->0 == node_type@);
            },
            BookmarkMember::Handle { .. } => {},
        }
        i = i + 1;
    }
    // Each type's nodes, read once: each key member takes the node that
    // answers to its key, and a second such node is an ambiguity.
    proof {
        assert(names_view(types@).take(0) =~= Seq::<Seq<char>>::empty());
    }
    let mut ti: usize = 0;
    while ti < types.len()
        invariant
            ti <= types@.len(),
            n == members@.len(),
            resolved@.len() == n,
            members@.len() <= MAX_LOADED_NODES,
            first_problem(*graph, generation@, members@, members@.len() as int) is None,
            forall|a: int, b: int| 0 <= a < b < types@.len() ==> types@[a]@ != types@[b]@,
            forall|l: int| 0 <= l < keyed@.len() ==> #[trigger] keyed@[l] < n && member_type(members@, keyed@[l] as int) is Some,
            forall|a: int, b: int| 0 <= a < b < keyed@.len() ==> keyed@[a] < keyed@[b],
            forall|q: int| 0 <= q < n && #[trigger] member_type(members@, q) is Some ==> exists|l: int| 0 <= l < keyed@.len() && keyed@[l] == q,
            forall|q: int| 0 <= q < n ==> #[trigger] settled(*graph, members@, names_view(types@).take(ti as int), q, resolved@[q]),
            forall|w: int| 0 <= w < types@.len() ==> type_named(members@, #[trigger] types@[w]@),
        decreases types@.len() - ti,
    {
        let ghost done = names_view(types@).take(ti as int);
        let ghost t = types@[ti as int]@;
        assert(!done.contains(t)) by {
            if done.contains(t) {
                let w = choose|w: int| 0 <= w < done.len() && done[w] == t;
                assert(types@[w]@ == t);
            }
        }
        let c = match typed_nodes(graph, types[ti].as_str()) {
            None => {
                proof {
                    if resolvable(*graph, generation@, members@) {
                        assert(type_named(members@, types@[ti as int]@));
                        let q = choose|q: int| 0 <= q < members@.len() && member_type(members@, q) == Some(types@[ti as int]@);
                        let w = choose|ids: Seq<u32>| names_all(*graph, members@, ids);
                        assert(resolves(*graph, members@, q, w[q]));
                    }
                }
                return Err(refusal("bookmark node type is absent"));
            },
            Some(c) => c,
        };
        proof {
            assert forall|q: int| 0 <= q < n && member_type(members@, q) == Some(t) implies scanned(*graph, c@, key_view(member_key(members@, q)), 0, #[trigger] resolved@[q]) by {
                assert(settled(*graph, members@, names_view(types@).take(ti as int), q, resolved@[q]));
            }
        }
        let mut j: usize = 0;
        while j < c.len()
            invariant
                ti < types@.len(),
                t == types@[ti as int]@,
                done == names_view(types@).take(ti as int),
                !done.contains(t),
                typed_nodes_held(*graph, t) == Some(c@),
                j <= c@.len(),
                n == members@.len(),
                resolved@.len() == n,
                members@.len() <= MAX_LOADED_NODES,
                first_problem(*graph, generation@, members@, members@.len() as int) is None,
                forall|l: int| 0 <= l < keyed@.len() ==> #[trigger] keyed@[l] < n && member_type(members@, keyed@[l] as int) is Some,
                forall|a: int, b: int| 0 <= a < b < keyed@.len() ==> keyed@[a] < keyed@[b],
                forall|q: int| 0 <= q < n && #[trigger] member_type(members@, q) is Some ==> exists|l: int| 0 <= l < keyed@.len() && keyed@[l] == q,
                forall|q: int| 0 <= q < n && member_type(members@, q) != Some(t) ==> #[trigger] settled(*graph, members@, done, q, resolved@[q]),
                forall|q: int| 0 <= q < n && member_type(members@, q) == Some(t) ==> scanned(*graph, c@, key_view(member_key(members@, q)), j as int, #[trigger] resolved@[q]),
            decreases c@.len() - j,
        {
            match check_members_deadline(deadline) {
                Ok(()) => {},
                Err(e) => {
                    return Err(e);
                },
            }
            let x = c[j];
            proof {
                assert forall|kv: (u8, int, Seq<char>)| #[trigger] key_count(*graph, c@, kv, j + 1) == key_count(*graph, c@, kv, j as int) + if node_key(*graph, x) == Some(kv) { 1nat } else { 0nat } by {
                    lemma_count_step(*graph, c@, kv, j as int);
                }
            }
            let cell = id_cell(graph, x);
            let scalar = match &cell {
                Some(k) => is_scalar(k),
                None => false,
            };
            if scalar {
                let k = match cell {
                    Some(k) => k,
                    None => MemberKey::Null,
                };
                assert(node_key(*graph, x) == Some(key_view(k)));
                let mut i: usize = 0;
                while i < keyed.len()
                    invariant
                        i <= keyed@.len(),
                        t == types@[ti as int]@,
                        ti < types@.len(),
                        j < c@.len(),
                        x == c@[j as int],
                        node_key(*graph, x) == Some(key_view(k)),
                        forall|kv: (u8, int, Seq<char>)| #[trigger] key_count(*graph, c@, kv, j + 1) == key_count(*graph, c@, kv, j as int) + if node_key(*graph, x) == Some(kv) { 1nat } else { 0nat },
                        done == names_view(types@).take(ti as int),
                        typed_nodes_held(*graph, t) == Some(c@),
                        n == members@.len(),
                        resolved@.len() == n,
                        members@.len() <= MAX_LOADED_NODES,
                        first_problem(*graph, generation@, members@, members@.len() as int) is None,
                        forall|l: int| 0 <= l < keyed@.len() ==> #[trigger] keyed@[l] < n && member_type(members@, keyed@[l] as int) is Some,
                        forall|a: int, b: int| 0 <= a < b < keyed@.len() ==> keyed@[a] < keyed@[b],
                        forall|q: int| 0 <= q < n && #[trigger] member_type(members@, q) is Some ==> exists|l: int| 0 <= l < keyed@.len() && keyed@[l] == q,
                        forall|q: int| 0 <= q < n && member_type(members@, q) != Some(t) ==> #[trigger] settled(*graph, members@, done, q, resolved@[q]),
                        forall|q: int| 0 <= q < n && member_type(members@, q) == Some(t) && q < cut(keyed@, i as int, n as int) ==> scanned(*graph, c@, key_view(member_key(members@, q)), j + 1, #[trigger] resolved@[q]),
                        forall|q: int| 0 <= q < n && member_type(members@, q) == Some(t) && q >= cut(keyed@, i as int, n as int) ==> scanned(*graph, c@, key_view(member_key(members@, q)), j as int, #[trigger] resolved@[q]),
                    decreases keyed@.len() - i,
                {
                    let q = keyed[i];
                    let ghost before = resolved@;
                    let hit = is_key_of_type(members, q, types[ti].as_str()) && match &members[q] {
                        BookmarkMember::Key { key, .. } => same_key(key, &k),
                        BookmarkMember::Handle { .. } => false,
                    };
                    if hit {
                        assert(key_view(member_key(members@, q as int)) == key_view(k));
                        match resolved[q] {
                            Some(_) => {
                                proof {
                                    if resolvable(*graph, generation@, members@) {
                                        let kv = key_view(member_key(members@, q as int));
                                        assert(q as int == cut(keyed@, i as int, n as int));
                                        assert(scanned(*graph, c@, kv, j as int, resolved@[q as int]));
                                        assert(key_count(*graph, c@, kv, j + 1) == 2);
                                        lemma_count_grows(*graph, c@, kv, j + 1, c@.len() as int);
                                        let w = choose|ids: Seq<u32>| names_all(*graph, members@, ids);
                                        assert(resolves(*graph, members@, q as int, w[q as int]));
                                    }
                                }
                                return Err(refusal("source keys are ambiguous; exact durable restoration is unavailable"));
                            },
                            None => {},
                        }
                        resolved.set(q, Some(x));
                        proof {
                            assert(c@[j as int] == x);
                            assert(c@.contains(x));
                        }
                    }
                    proof {
                        assert forall|q2: int| 0 <= q2 < n && member_type(members@, q2) == Some(t) && keyed@[i as int] < q2 && q2 < cut(keyed@, i + 1, n as int) implies false by {
                            let l = choose|l: int| 0 <= l < keyed@.len() && keyed@[l] == q2;
                            if l <= i {
                                if l < i {
                                    assert(keyed@[l] < keyed@[i as int]);
                                }
                            } else if l > i + 1 {
                                assert(keyed@[i + 1] < keyed@[l]);
                            }
                        }
                        assert forall|q2: int| 0 <= q2 < n && member_type(members@, q2) == Some(t) && q2 < cut(keyed@, i + 1, n as int) implies scanned(*graph, c@, key_view(member_key(members@, q2)), j + 1, #[trigger] resolved@[q2]) by {
                            if q2 < q {
                                assert(resolved@[q2] == before[q2]);
                            } else if q2 == q {
                                assert(before[q2] matches None ==> key_count(*graph, c@, key_view(member_key(members@, q2)), j as int) == 0);
                            }
                        }
                        assert forall|q2: int| 0 <= q2 < n && member_type(members@, q2) == Some(t) && q2 >= cut(keyed@, i + 1, n as int) implies scanned(*graph, c@, key_view(member_key(members@, q2)), j as int, #[trigger] resolved@[q2]) by {
                            if i + 1 < keyed@.len() {
                                assert(keyed@[i as int] < keyed@[i + 1]);
                            }
                            assert(resolved@[q2] == before[q2]);
                        }
                        assert forall|q2: int| 0 <= q2 < n && member_type(members@, q2) != Some(t) implies #[trigger] settled(*graph, members@, done, q2, resolved@[q2]) by {
                            assert(resolved@[q2] == before[q2]);
                        }
                    }
                    i = i + 1;
                }
            } else {
                assert(node_key(*graph, x) is None);
            }
            j = j + 1;
        }
        proof {
            assert(c@.take(c@.len() as int) =~= c@);
            let done2 = names_view(types@).take(ti + 1);
            assert(done2 =~= done.push(t));
            assert forall|q: int| 0 <= q < n implies #[trigger] settled(*graph, members@, done2, q, resolved@[q]) by {
                if member_type(members@, q) == Some(t) {
                    assert(done2[done.len() as int] == t);
                } else {
                    assert(settled(*graph, members@, done, q, resolved@[q]));
                    if member_type(members@, q) is Some {
                        let u = member_type(members@, q)->0;
                        if done.contains(u) {
                            let w = choose|w: int| 0 <= w < done.len() && done[w] == u;
                            assert(done2[w] == u);
                        } else {
                            assert(!done2.contains(u)) by {
                                if done2.contains(u) {
                                    let w = choose|w: int| 0 <= w < done2.len() && done2[w] == u;
                                    if w < done.len() {
                                        assert(done[w] == u);
                                    }
                                }
                            }
                        }
                    }
                }
            }
        }
        ti = ti + 1;
    }
    proof {
        assert forall|q: int| 0 <= q < n implies slot_sound(*graph, members@, q, #[trigger] resolved@[q]) by {
            assert(settled(*graph, members@, names_view(types@).take(ti as int), q, resolved@[q]));
        }
    }
    // Every member named, and no node twice.
    let ghost w = choose|ids: Seq<u32>| names_all(*graph, members@, ids);
    proof {
        if resolvable(*graph, generation@, members@) {
            let all = names_view(types@).take(ti as int);
            assert(all =~= names_view(types@));
            assert forall|q: int| 0 <= q < n implies #[trigger] resolved@[q] == Some(w[q]) by {
                if member_type(members@, q) is Some {
                    let l = choose|l: int| 0 <= l < keyed@.len() && keyed@[l] == q;
                    assert(names_view(types@).contains(member_type(members@, keyed@[l] as int)->0));
                }
                assert(settled(*graph, members@, all, q, resolved@[q]));
                assert(resolves(*graph, members@, q, w[q]));
                lemma_settled_slot(*graph, members@, all, q, resolved@[q], w[q]);
            }
        }
    }
    let mut seen: HashSet<u32> = HashSet::new();
    let mut ids: Vec<u32> = Vec::new();
    let mut k: usize = 0;
    while k < n
        invariant
            k <= n,
            n == members@.len(),
            members@.len() <= MAX_LOADED_NODES,
            first_problem(*graph, generation@, members@, members@.len() as int) is None,
            resolved@.len() == n,
            ids@.len() == k,
            forall|q: int| 0 <= q < n ==> slot_sound(*graph, members@, q, #[trigger] resolved@[q]),
            forall|q: int| 0 <= q < k ==> resolved@[q] == Some(#[trigger] ids@[q]),
            forall|a: int, b: int| 0 <= a < b < k ==> ids@[a] != ids@[b],
            forall|x: u32| seen@.contains(x) <==> ids@.contains(x),
            resolvable(*graph, generation@, members@) ==> forall|q: int| 0 <= q < n ==> #[trigger] resolved@[q] == Some(w[q]),
            resolvable(*graph, generation@, members@) ==> forall|a: int, b: int| 0 <= a < b < n ==> w[a] != w[b],
        decreases n - k,
    {
        let x = match resolved[k] {
            None => {
                return Err(refusal("bookmark source member is absent"));
            },
            Some(x) => x,
        };
        if seen.contains(&x) {
            proof {
                if resolvable(*graph, generation@, members@) {
                    let a = choose|a: int| 0 <= a < ids@.len() && ids@[a] == x;
                    assert(resolved@[a] == Some(ids@[a]));
                    assert(resolved@[k as int] == Some(w[k as int]));
                    assert(resolved@[a] == Some(w[a]));
                }
            }
            return Err(refusal("bookmark repeats a source member"));
        }
        let ghost ids0 = ids@;
        seen.insert(x);
        ids.push(x);
        proof {
            assert forall|a: int, b: int| 0 <= a < b < k + 1 implies ids@[a] != ids@[b] by {
                if b == k {
                    assert(ids0[a] == ids@[a]);
                    if ids@[a] == x {
                        assert(ids0.contains(x));
                    }
                }
            }
            assert forall|y: u32| seen@.contains(y) <==> ids@.contains(y) by {
                if ids@.contains(y) {
                    let w = choose|w: int| 0 <= w < ids@.len() && ids@[w] == y;
                    if w < k {
                        assert(ids0[w] == y);
                    }
                }
                if seen@.contains(y) && y != x {
                    let w = choose|w: int| 0 <= w < ids0.len() && ids0[w] == y;
                    assert(ids@[w] == y);
                }
                if y == x {
                    assert(ids@[k as int] == x);
                }
            }
        }
        k = k + 1;
    }
    proof {
        assert forall|q: int| 0 <= q < n implies resolves(*graph, members@, q, #[trigger] ids@[q]) by {
            assert(resolved@[q] == Some(ids@[q]));
            assert(slot_sound(*graph, members@, q, resolved@[q]));
        }
    }
    Ok(ids)
}

} // verus!
