//! Messages that steer a view without changing what is in it.
//!
//! Focus is an ordered event; a highlight replaces its concept's set; an
//! appearance names the fields colour and size are mapped from.
use vstd::prelude::*;

use crate::protocol::PROTOCOL_VERSION;
use crate::subset::FieldRef;

verus! {

/// Zoom the camera to frame these slots. An empty list frames the whole
/// view.
#[derive(Debug, Clone)]
pub struct Focus {
    pub protocol_version: u32,
    pub slots: Vec<u32>,
}

/// Which interaction concept a highlight drives.
#[derive(Debug, Clone, Copy, PartialEq, Eq, Structural)]
pub enum HighlightConcept {
    /// Search and query hits.
    Highlighted,
    /// What the selection panel is describing.
    Selected,
}

impl Default for HighlightConcept {
    /// A caller who did not say means "here is what I found".
    fn default() -> (c: Self)
        ensures
            c == HighlightConcept::Highlighted,
    {
        HighlightConcept::Highlighted
    }
}

/// Mark these slots under one concept, replacing that concept's set. An
/// empty list clears.
#[derive(Debug, Clone)]
pub struct Highlight {
    pub protocol_version: u32,
    pub slots: Vec<u32>,
    pub concept: HighlightConcept,
}

/// The fields colour and size are mapped from. The legacy names mirror
/// source-property channels; none restores the structural encoding.
#[derive(Debug, Clone)]
pub struct Appearance {
    pub protocol_version: u32,
    pub color_by: Option<String>,
    pub size_by: Option<String>,
    pub color_field: Option<FieldRef>,
    pub size_field: Option<FieldRef>,
}

/// `field` is the source property named `name`.
pub open spec fn is_property(field: Option<FieldRef>, name: Option<String>) -> bool {
    match (field, name) {
        (None, None) => true,
        (Some(FieldRef::Property { name: p }), Some(n)) => p@ == n@,
        _ => false,
    }
}

/// The legacy name a field has: its property name, or none for a derived
/// field or no field.
pub open spec fn legacy_name(field: Option<FieldRef>) -> Option<Seq<char>> {
    match field {
        Some(FieldRef::Property { name }) => Some(name@),
        _ => None,
    }
}

/// The view of an optional text.
pub open spec fn opt_view(s: Option<String>) -> Option<Seq<char>> {
    match s {
        Some(t) => Some(t@),
        None => None,
    }
}

fn property_of(name: &Option<String>) -> (f: Option<FieldRef>)
    ensures
        is_property(f, *name),
{
    match name {
        Some(n) => Some(FieldRef::Property { name: n.clone() }),
        None => None,
    }
}

fn name_of(field: &Option<FieldRef>) -> (n: Option<String>)
    ensures
        opt_view(n) == legacy_name(*field),
{
    match field {
        Some(FieldRef::Property { name }) => Some(name.clone()),
        _ => None,
    }
}

impl Focus {
    pub fn new(slots: Vec<u32>) -> (f: Self)
        ensures
            f.protocol_version == PROTOCOL_VERSION,
            f.slots == slots,
    {
        Focus { protocol_version: PROTOCOL_VERSION, slots }
    }
}

impl Highlight {
    pub fn new(slots: Vec<u32>, concept: HighlightConcept) -> (h: Self)
        ensures
            h.protocol_version == PROTOCOL_VERSION,
            h.slots == slots,
            h.concept == concept,
    {
        Highlight { protocol_version: PROTOCOL_VERSION, slots, concept }
    }
}

impl Appearance {
    /// An appearance by source-property names: each name becomes the
    /// property field of the same channel.
    pub fn new(color_by: Option<String>, size_by: Option<String>) -> (a: Self)
        ensures
            a.protocol_version == PROTOCOL_VERSION,
            a.color_by == color_by,
            a.size_by == size_by,
            is_property(a.color_field, color_by),
            is_property(a.size_field, size_by),
    {
        let color_field = property_of(&color_by);
        let size_field = property_of(&size_by);
        Appearance { protocol_version: PROTOCOL_VERSION, color_by, size_by, color_field, size_field }
    }

    /// An appearance by fields: the legacy names are the property names of
    /// property fields, and none for derived ones.
    pub fn from_fields(color_field: Option<FieldRef>, size_field: Option<FieldRef>) -> (a: Self)
        ensures
            a.protocol_version == PROTOCOL_VERSION,
            a.color_field == color_field,
            a.size_field == size_field,
            opt_view(a.color_by) == legacy_name(color_field),
            opt_view(a.size_by) == legacy_name(size_field),
    {
        let color_by = name_of(&color_field);
        let size_by = name_of(&size_field);
        Appearance { protocol_version: PROTOCOL_VERSION, color_by, size_by, color_field, size_field }
    }
}

/// What a caller asks to frame. Empty frames the whole view.
#[derive(Debug, Clone)]
pub struct FocusRequest {
    pub slots: Vec<u32>,
}

/// What a caller asks to mark. Empty clears the concept.
#[derive(Debug, Clone)]
pub struct HighlightRequest {
    pub slots: Vec<u32>,
    pub concept: HighlightConcept,
}

/// What a caller asks the appearance to be. A field that is present but
/// null is `Some(None)`.
#[derive(Debug, Clone)]
pub struct AppearanceRequest {
    pub color_by: Option<String>,
    pub size_by: Option<String>,
    pub color_field: Option<Option<FieldRef>>,
    pub size_field: Option<Option<FieldRef>>,
}

/// A legacy name and a canonical field both present, and not naming the
/// same source property.
pub open spec fn contradicts(legacy: Option<Option<String>>, canonical: Option<Option<FieldRef>>) -> bool {
    match (legacy, canonical) {
        (Some(l), Some(c)) => !is_property(c, l),
        _ => false,
    }
}

/// The message a contradicting request is refused with.
pub open spec fn contradiction_message() -> Seq<char> {
    "legacy and canonical appearance fields contradict each other"@
}

fn names_property(field: &Option<FieldRef>, name: &Option<String>) -> (r: bool)
    ensures
        r == is_property(*field, *name),
{
    match (field, name) {
        (None, None) => true,
        (Some(FieldRef::Property { name: p }), Some(n)) => *p == *n,
        _ => false,
    }
}

fn channel_contradicts(legacy: &Option<Option<String>>, canonical: &Option<Option<FieldRef>>) -> (r:
    bool)
    ensures
        r == contradicts(*legacy, *canonical),
{
    match (legacy, canonical) {
        (Some(l), Some(c)) => !names_property(c, l),
        _ => false,
    }
}

fn flatten_name(legacy: Option<Option<String>>) -> (r: Option<String>)
    ensures
        r == match legacy {
            Some(Some(n)) => Some(n),
            _ => None,
        },
{
    match legacy {
        Some(Some(n)) => Some(n),
        _ => None,
    }
}

impl AppearanceRequest {
    /// A request from its fields as they arrived, where a present null is
    /// `Some(None)`: refused where a channel's legacy name and canonical
    /// field are both present and disagree.
    pub fn from_parts(
        color_by: Option<Option<String>>,
        size_by: Option<Option<String>>,
        color_field: Option<Option<FieldRef>>,
        size_field: Option<Option<FieldRef>>,
    ) -> (r: Result<Self, String>)
        ensures
            contradicts(color_by, color_field) || contradicts(size_by, size_field) ==> (r matches Err(
                m,
            ) && m@ == contradiction_message()),
            !contradicts(color_by, color_field) && !contradicts(size_by, size_field) ==> (r matches Ok(
                q,
            ) && q.color_by == (match color_by {
                Some(Some(n)) => Some(n),
                _ => None,
            }) && q.size_by == (match size_by {
                Some(Some(n)) => Some(n),
                _ => None,
            }) && q.color_field == color_field && q.size_field == size_field),
    {
        if channel_contradicts(&color_by, &color_field) || channel_contradicts(&size_by, &size_field) {
            return Err("legacy and canonical appearance fields contradict each other".to_owned());
        }
        Ok(
            AppearanceRequest {
                color_by: flatten_name(color_by),
                size_by: flatten_name(size_by),
                color_field,
                size_field,
            },
        )
    }
}

/// One steering command, whichever it is.
#[derive(Debug, Clone)]
pub enum Command {
    Focus(Focus),
    Highlight(Highlight),
    Appearance(Appearance),
}

} // verus!
