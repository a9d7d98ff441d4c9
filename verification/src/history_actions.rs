//! What the change history records of each request.
use vstd::prelude::*;
use vstd::string::StringSliceAdditionalSpecFns;
use vstd::utf8::encode_utf8;

use crate::bound::BoundInfo;
use crate::calculations::CalculationKind;
use crate::field_detail::boundary_at_or_below;
use crate::history::HistoryAction;
use crate::request::{kernel_name, EdgeDirection, Request};
use crate::shared::{NodeHandle, ViewReference};

verus! {

/// Bytes of a query's text the history keeps.
pub const MAX_RECORDED_QUERY_BYTES: usize = 4096;

/// What a slot of the view holds.
#[derive(Debug, Clone)]
pub enum SlotEntry {
    Type { name: String },
    Node { node_id: u32 },
    Tombstone,
}

/// `r` names what slot `slot` of `entries` holds: a type by name, a node
/// by this generation's handle, nothing for a tombstone or a slot past the
/// end.
pub open spec fn names_slot(
    r: Option<ViewReference>,
    entries: Seq<SlotEntry>,
    slot: u32,
    generation: Seq<char>,
) -> bool {
    if slot >= entries.len() {
        r is None
    } else {
        match entries[slot as int] {
            SlotEntry::Type { name } => r matches Some(ViewReference::Type { name: n }) && n@
                == name@,
            SlotEntry::Node { node_id } => r matches Some(ViewReference::Node { handle })
                && handle.generation@ == generation && handle.node_id == node_id,
            SlotEntry::Tombstone => r is None,
        }
    }
}

/// The reference a slot stands for, by what it is rather than where it is.
pub fn reference(entries: &Vec<SlotEntry>, slot: u32, generation: &str) -> (r: Option<
    ViewReference,
>)
    ensures
        names_slot(r, entries@, slot, generation@),
{
    if slot as usize >= entries.len() {
        return None;
    }
    match &entries[slot as usize] {
        SlotEntry::Type { name } => Some(ViewReference::Type { name: name.clone() }),
        SlotEntry::Node { node_id } => Some(
            ViewReference::Node {
                handle: NodeHandle { generation: generation.to_owned(), node_id: *node_id },
            },
        ),
        SlotEntry::Tombstone => None,
    }
}

/// The view of an optional text.
pub open spec fn text_view(s: Option<String>) -> Option<Seq<char>> {
    match s {
        Some(t) => Some(t@),
        None => None,
    }
}

/// `a` records exactly these fields, and the node and relation bounds of
/// the slice the request answered with, if it answered with one.
pub open spec fn action_is(
    a: HistoryAction,
    kind: Seq<char>,
    label: Option<Seq<char>>,
    node_type: Option<Seq<char>>,
    relationship: Option<Seq<char>>,
    direction: Option<Seq<char>>,
    slice: Option<(BoundInfo, BoundInfo)>,
) -> bool {
    &&& a.kind@ == kind
    &&& text_view(a.label) == label
    &&& text_view(a.node_type) == node_type
    &&& text_view(a.relationship) == relationship
    &&& text_view(a.direction) == direction
    &&& match slice {
        Some((nodes, relations)) => a.nodes == Some(nodes) && a.relations == Some(relations),
        None => a.nodes is None && a.relations is None,
    }
}

/// Where a recorded query is cut: at most the recorded ceiling of bytes,
/// never inside a character.
pub open spec fn query_cut(b: Seq<u8>) -> int {
    let top = if b.len() < MAX_RECORDED_QUERY_BYTES {
        b.len() as int
    } else {
        MAX_RECORDED_QUERY_BYTES as int
    };
    boundary_at_or_below(b, top, 0)
}

/// The wire name of a direction.
pub open spec fn direction_name(d: EdgeDirection) -> Seq<char> {
    match d {
        EdgeDirection::Out => "out"@,
        EdgeDirection::In => "in"@,
        EdgeDirection::Both => "both"@,
    }
}

/// The wire name of a calculation kind.
pub open spec fn calculation_name(k: CalculationKind) -> Seq<char> {
    match k {
        CalculationKind::Degree => "degree"@,
        CalculationKind::WeakComponents => "weak-components"@,
    }
}

fn prefix_within(query: &str) -> (r: (String, bool))
    ensures
        encode_utf8(r.0@) == query.spec_bytes().subrange(0, query_cut(query.spec_bytes())),
        r.1 == (query_cut(query.spec_bytes()) < query.spec_bytes().len()),
{
    proof {
        vstd::utf8::encode_utf8_valid_utf8(query@);
    }
    let len = query.as_bytes().len();
    let ghost b = query.spec_bytes();
    let top = if len < MAX_RECORDED_QUERY_BYTES {
        len
    } else {
        MAX_RECORDED_QUERY_BYTES
    };
    let mut end = top;
    while !query.is_char_boundary(end)
        invariant
            end <= top <= len,
            len == b.len(),
            b == query.spec_bytes(),
            vstd::utf8::valid_utf8(b),
            boundary_at_or_below(b, top as int, 0) == boundary_at_or_below(b, end as int, 0),
        decreases end,
    {
        end = end - 1;
    }
    assert(boundary_at_or_below(b, end as int, 0) == end);
    let (head, _) = query.split_at(end);
    (head.to_owned(), end < len)
}

impl HistoryAction {
    /// What the history records of `request`, answered by a slice with
    /// `slice` bounds if it was one: nothing for transient steering (focus,
    /// highlight, fit) and reads; else the action's kind, its label, and
    /// the fields that say what it acted on. A query is kept up to the
    /// recorded ceiling of bytes, cut at a character boundary.
    pub fn for_request(
        request: &Request,
        entries: &Vec<SlotEntry>,
        generation: &str,
        slice: Option<(BoundInfo, BoundInfo)>,
    ) -> (r: Option<Self>)
        ensures
            match request {
                Request::Focus | Request::Highlight | Request::Fit | Request::References => r is None,
                Request::BrowseType { node_type } => r matches Some(a) && action_is(
                    a,
                    "browse-type"@,
                    None,
                    Some(node_type@),
                    None,
                    None,
                    slice,
                ) && a.target is None && a.query is None && !a.query_truncated,
                Request::Expand { slot, relationship, direction } => r matches Some(a) && action_is(
                    a,
                    "expand"@,
                    None,
                    None,
                    text_view(*relationship),
                    Some(direction_name(*direction)),
                    slice,
                ) && names_slot(a.target, entries@, *slot, generation@) && a.query is None
                    && !a.query_truncated,
                Request::Collapse { slot } => r matches Some(a) && action_is(
                    a,
                    "collapse"@,
                    None,
                    None,
                    None,
                    None,
                    slice,
                ) && names_slot(a.target, entries@, *slot, generation@) && a.query is None
                    && !a.query_truncated,
                Request::Cypher { query } => r matches Some(a) && action_is(
                    a,
                    "cypher"@,
                    None,
                    None,
                    None,
                    None,
                    slice,
                ) && a.target is None && a.query_truncated == (query_cut(encode_utf8(query@))
                    < encode_utf8(query@).len()) && (a.query matches Some(q) && encode_utf8(q@)
                    == encode_utf8(query@).subrange(0, query_cut(encode_utf8(query@)))),
                Request::Layout { kernel, seed_slot } => r matches Some(a) && action_is(
                    a,
                    "layout"@,
                    Some(kernel_name(*kernel)),
                    None,
                    None,
                    None,
                    slice,
                ) && match seed_slot {
                    Some(s) => names_slot(a.target, entries@, *s, generation@),
                    None => a.target is None,
                } && a.query is None && !a.query_truncated,
                Request::Calculate(c) => r matches Some(a) && action_is(
                    a,
                    if c.calculation_id is Some {
                        "recompute"@
                    } else {
                        "calculate"@
                    },
                    Some(calculation_name(c.kind)),
                    None,
                    None,
                    None,
                    slice,
                ) && a.target is None && a.query is None && !a.query_truncated,
                _ => r matches Some(a) && action_is(
                    a,
                    match request {
                        Request::LoadNodes => "load-nodes"@,
                        Request::LoadEntities => "load-entities"@,
                        Request::Reset => "reset"@,
                        Request::Subset => "subset"@,
                        Request::Appearance => "appearance"@,
                        Request::Presentation => "presentation"@,
                        Request::Style => "style"@,
                        _ => "caption"@,
                    },
                    None,
                    None,
                    None,
                    None,
                    slice,
                ) && a.target is None && a.query is None && !a.query_truncated,
            },
    {
        let mut action = match request {
            Request::Focus | Request::Highlight | Request::Fit | Request::References => {
                return None;
            },
            Request::BrowseType { node_type } => {
                let mut action = Self::named("browse-type", None);
                action.node_type = Some(node_type.clone());
                action
            },
            Request::LoadNodes => Self::named("load-nodes", None),
            Request::LoadEntities => Self::named("load-entities", None),
            Request::Reset => Self::named("reset", None),
            Request::Expand { slot, relationship, direction } => {
                let mut action = Self::named("expand", None);
                action.target = reference(entries, *slot, generation);
                action.relationship = match relationship {
                    Some(r) => Some(r.clone()),
                    None => None,
                };
                action.direction = Some(direction.as_str().to_owned());
                action
            },
            Request::Collapse { slot } => {
                let mut action = Self::named("collapse", None);
                action.target = reference(entries, *slot, generation);
                action
            },
            Request::Cypher { query } => {
                let mut action = Self::named("cypher", None);
                let (head, cut) = prefix_within(query.as_str());
                action.query = Some(head);
                action.query_truncated = cut;
                action
            },
            Request::Layout { kernel, seed_slot } => {
                let mut action = Self::named("layout", Some(kernel.as_str()));
                action.target = match seed_slot {
                    Some(s) => reference(entries, *s, generation),
                    None => None,
                };
                action
            },
            Request::Calculate(c) => {
                let kind = if c.calculation_id.is_some() {
                    "recompute"
                } else {
                    "calculate"
                };
                let label = match c.kind {
                    CalculationKind::Degree => "degree",
                    CalculationKind::WeakComponents => "weak-components",
                };
                Self::named(kind, Some(label))
            },
            Request::Subset => Self::named("subset", None),
            Request::Appearance => Self::named("appearance", None),
            Request::Presentation => Self::named("presentation", None),
            Request::Style => Self::named("style", None),
            Request::Caption => Self::named("caption", None),
        };
        match slice {
            Some((nodes, relations)) => {
                action.nodes = Some(nodes);
                action.relations = Some(relations);
            },
            None => {},
        }
        Some(action)
    }
}

} // verus!
