//! Bounded source-field pages for expanded values.
use vstd::prelude::*;
use vstd::string::StringSliceAdditionalSpecFns;
use vstd::utf8::{encode_utf8, is_char_boundary};

use crate::error::{is_refusal, refusal, CoreError};
use crate::shared::NodeHandle;
use crate::text::{decimal_string, spec_decimal};

verus! {

/// Serialized bytes one field-detail answer may reach.
pub const MAX_FIELD_DETAIL_BYTES: usize = 262144;

/// Bytes of text one page carries.
pub const MAX_TEXT_PAGE_BYTES: usize = 32768;

/// Items one list or map page carries.
pub const MAX_FIELD_PAGE_ITEMS: usize = 128;

/// Container depth a field path may descend.
pub const MAX_VALUE_DEPTH: usize = 8;

/// One step into a nested value.
#[derive(Debug, Clone, PartialEq, Eq)]
pub enum FieldPathSegment {
    Index { index: u32 },
    Key { key: String },
}

/// A page of one source property of one node.
#[derive(Debug, Clone)]
pub struct FieldDetailRequest {
    pub handle: NodeHandle,
    /// A source property. Derived fields never reinterpret this name.
    pub field: String,
    pub path: Vec<FieldPathSegment>,
    pub offset: u32,
    pub limit: Option<u32>,
}

/// A page of a text value.
#[derive(Debug, Clone, PartialEq, Eq)]
pub enum FieldPage {
    Text { offset: u32, total_bytes: String, text: String, next_offset: Option<u32> },
}

/// Why a field-detail request is refused, if it is.
pub open spec fn request_problem(r: FieldDetailRequest) -> Option<Seq<char>> {
    if encode_utf8(r.field@).len() == 0 || encode_utf8(r.field@).len() > 256 {
        Some("field name must contain 1\u{2013}256 bytes"@)
    } else if r.path@.len() > MAX_VALUE_DEPTH {
        Some("field path exceeds depth 8"@)
    } else if exists|i: int| 0 <= i < r.path@.len() && key_too_long(#[trigger] r.path@[i]) {
        Some("field path key exceeds 4096 bytes"@)
    } else if r.limit == Some(0u32) {
        Some("field page limit must be positive"@)
    } else {
        None
    }
}

/// A key segment longer than a map key can be addressed by.
pub open spec fn key_too_long(seg: FieldPathSegment) -> bool {
    match seg {
        FieldPathSegment::Key { key } => encode_utf8(key@).len() > 4096,
        FieldPathSegment::Index { .. } => false,
    }
}

impl FieldDetailRequest {
    pub fn validate(&self) -> (r: Result<(), CoreError>)
        ensures
            r is Ok <==> request_problem(*self) is None,
            r matches Err(e) ==> is_refusal(e, request_problem(*self)->0),
    {
        let len = self.field.as_str().as_bytes().len();
        if len == 0 || len > 256 {
            return Err(refusal("field name must contain 1\u{2013}256 bytes"));
        }
        if self.path.len() > MAX_VALUE_DEPTH {
            return Err(refusal("field path exceeds depth 8"));
        }
        let mut i: usize = 0;
        while i < self.path.len()
            invariant
                i <= self.path@.len(),
                forall|j: int| 0 <= j < i ==> !key_too_long(#[trigger] self.path@[j]),
                encode_utf8(self.field@).len() > 0,
                encode_utf8(self.field@).len() <= 256,
                self.path@.len() <= MAX_VALUE_DEPTH,
            decreases self.path@.len() - i,
        {
            match &self.path[i] {
                FieldPathSegment::Key { key } => {
                    if key.as_str().as_bytes().len() > 4096 {
                        return Err(refusal("field path key exceeds 4096 bytes"));
                    }
                },
                FieldPathSegment::Index { .. } => {},
            }
            i = i + 1;
        }
        if self.limit == Some(0u32) {
            return Err(refusal("field page limit must be positive"));
        }
        Ok(())
    }
}

/// A count as a page's `u32`, refused beyond the addressable range.
pub fn item_count(count: usize) -> (r: Result<u32, CoreError>)
    ensures
        count <= u32::MAX ==> r == Ok::<u32, CoreError>(count as u32),
        count > u32::MAX ==> (r matches Err(e) && is_refusal(
            e,
            "value exceeds the addressable field page range"@,
        )),
{
    if count > 4294967295 {
        Err(refusal("value exceeds the addressable field page range"))
    } else {
        Ok(count as u32)
    }
}

/// The end of a text page that starts at `start`: the last character
/// boundary no further than the page size.
pub open spec fn page_end_ok(b: Seq<u8>, start: int, end: int) -> bool {
    let top = if start + MAX_TEXT_PAGE_BYTES < b.len() {
        start + MAX_TEXT_PAGE_BYTES
    } else {
        b.len() as int
    };
    &&& start <= end <= top
    &&& is_char_boundary(b, end)
    &&& forall|j: int| end < j <= top ==> !is_char_boundary(b, j)
}

proof fn lemma_boundary_in_suffix(chars: Seq<char>, start: int, end: int)
    requires
        is_char_boundary(encode_utf8(chars), start),
        is_char_boundary(encode_utf8(chars), end),
        0 <= start <= end <= encode_utf8(chars).len(),
    ensures
        ({
            let b = encode_utf8(chars);
            let rest = b.subrange(start, b.len() as int);
            &&& is_char_boundary(rest, end - start)
            &&& rest.subrange(0, end - start) == b.subrange(start, end)
        }),
{
    let b = encode_utf8(chars);
    vstd::utf8::encode_utf8_valid_utf8(chars);
    vstd::utf8::valid_utf8_split(b, start);
    let rest = b.subrange(start, b.len() as int);
    if end == b.len() {
        vstd::utf8::is_char_boundary_start_end_of_seq(rest);
        assert(rest.len() == end - start);
    } else {
        vstd::utf8::is_char_boundary_iff_not_is_continuation_byte(b, end);
        vstd::utf8::is_char_boundary_iff_not_is_continuation_byte(rest, end - start);
        assert(rest[end - start] == b[end]);
    }
    assert(rest.subrange(0, end - start) =~= b.subrange(start, end));
}

/// The last character boundary at or below `j`, searching no lower than
/// `start`.
pub open spec fn boundary_at_or_below(b: Seq<u8>, j: int, start: int) -> int
    decreases j - start,
{
    if j <= start || is_char_boundary(b, j) {
        j
    } else {
        boundary_at_or_below(b, j - 1, start)
    }
}

/// Where a text page that starts at `start` ends.
pub open spec fn page_end(b: Seq<u8>, start: int) -> int {
    let top = if start + MAX_TEXT_PAGE_BYTES < b.len() {
        start + MAX_TEXT_PAGE_BYTES
    } else {
        b.len() as int
    };
    boundary_at_or_below(b, top, start)
}

/// One page of a text value: at most `MAX_TEXT_PAGE_BYTES` bytes starting at
/// byte `offset`, never splitting a character.
pub fn text_page(text: &str, offset: u32) -> (r: Result<FieldPage, CoreError>)
    ensures
        vstd::utf8::valid_utf8(text.spec_bytes()),
        ({
            let b = text.spec_bytes();
            &&& b.len() > u32::MAX ==> (r matches Err(e) && is_refusal(
                e,
                "value exceeds the addressable field page range"@,
            ))
            &&& b.len() <= u32::MAX && (offset > b.len() || !is_char_boundary(b, offset as int))
                ==> (r matches Err(e) && is_refusal(
                e,
                "text page offset must be a UTF-8 byte boundary within the value"@,
            ))
            &&& (b.len() <= u32::MAX && offset <= b.len() && is_char_boundary(b, offset as int))
                ==> r is Ok
            &&& r matches Ok(FieldPage::Text { offset: o, total_bytes, text: t, next_offset }) ==> {
                let end = page_end(b, offset as int);
                &&& page_end_ok(b, offset as int, end)
                &&& encode_utf8(t@) == b.subrange(offset as int, end)
                &&& o == offset
                &&& total_bytes@ == spec_decimal(b.len())
                &&& next_offset == if end < b.len() {
                    Some(end as u32)
                } else {
                    None
                }
            }
        }),
{
    proof {
        vstd::utf8::encode_utf8_valid_utf8(text@);
    }
    let len = text.as_bytes().len();
    item_count(len)?;
    let start = offset as usize;
    if start > len || !text.is_char_boundary(start) {
        return Err(refusal("text page offset must be a UTF-8 byte boundary within the value"));
    }
    let ghost b = text.spec_bytes();
    let top = if len - start > MAX_TEXT_PAGE_BYTES {
        start + MAX_TEXT_PAGE_BYTES
    } else {
        len
    };
    let mut end = top;
    while !text.is_char_boundary(end)
        invariant
            start <= end <= top <= len,
            len == b.len(),
            b == text.spec_bytes(),
            is_char_boundary(b, start as int),
            top == if start + MAX_TEXT_PAGE_BYTES < b.len() {
                start + MAX_TEXT_PAGE_BYTES
            } else {
                b.len() as int
            },
            forall|j: int| end < j <= top ==> !is_char_boundary(b, j),
            boundary_at_or_below(b, top as int, start as int) == boundary_at_or_below(
                b,
                end as int,
                start as int,
            ),
        decreases end,
    {
        end = end - 1;
    }
    let (_, rest) = text.split_at(start);
    proof {
        lemma_boundary_in_suffix(text@, start as int, end as int);
    }
    let (page, _) = rest.split_at(end - start);
    let page_text = page.to_owned();
    assert(encode_utf8(page_text@) == b.subrange(start as int, end as int));
    assert(page_end_ok(b, offset as int, end as int));
    let ghost ghost_end = end as int;
    assert(ghost_end == page_end(b, offset as int));
    let total_bytes = decimal_string(len as u64);
    assert(total_bytes@ == spec_decimal(b.len()));
    let next_offset = if end < len {
        Some(end as u32)
    } else {
        None
    };
    assert(page_end_ok(b, offset as int, ghost_end) && encode_utf8(page_text@) == b.subrange(
        offset as int,
        ghost_end,
    ) && total_bytes@ == spec_decimal(b.len()) && next_offset == (if ghost_end < b.len() {
        Some(ghost_end as u32)
    } else {
        None
    }));
    Ok(
        FieldPage::Text {
            offset,
            total_bytes,
            text: page_text,
            next_offset,
        },
    )
}

} // verus!
