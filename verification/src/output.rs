//! Immutable, explicitly scoped output captures and preview identity.
use vstd::prelude::*;

use crate::error::{is_refusal, CoreError};
use crate::export::ExportFormat;
use crate::render::{RenderFormat, Theme};
use crate::request::LayoutKernel;
use crate::shared::{NodeHandle, RevisionStamp};

verus! {

/// Source property bytes one output may copy.
pub const MAX_OUTPUT_PROPERTY_BYTES: usize = 8388608;

/// Encoded bytes one output may reach.
pub const MAX_OUTPUT_BYTES: usize = 16777216;

/// Which instance nodes an output captures.
#[derive(Debug, Clone, Copy, PartialEq, Eq, Structural)]
pub enum OutputScope {
    /// The visible subset and exactly its visible retained relation records.
    Visible,
    /// Every loaded instance node and every source relation between them.
    LoadedInduced,
}

/// A capture pinned to the revision and subset a caller read.
#[derive(Debug, Clone)]
pub struct CaptureOutputRequest {
    pub scope: OutputScope,
    pub expected: RevisionStamp,
    pub subset_revision: String,
}

/// Settings of a server image.
#[derive(Debug, Clone, Copy, PartialEq, Eq, Structural)]
pub struct RenderOutputSettings {
    pub format: RenderFormat,
    pub width: u32,
    pub height: u32,
    pub seed: u32,
    pub theme: Theme,
    pub kernel: LayoutKernel,
}

/// Why a render setting is refused, if it is.
pub open spec fn render_settings_problem(s: RenderOutputSettings) -> Option<Seq<char>> {
    if !(200 <= s.width <= 8000) || !(200 <= s.height <= 8000) {
        Some("render width and height must be between 200 and 8000"@)
    } else if s.kernel == LayoutKernel::Simulation {
        Some("a server image requires a static layout kernel"@)
    } else {
        None
    }
}

impl RenderOutputSettings {
    pub fn validate(&self) -> (r: Result<(), CoreError>)
        ensures
            r is Ok <==> render_settings_problem(*self) is None,
            r matches Err(e) ==> is_refusal(e, render_settings_problem(*self)->0),
    {
        if !(200 <= self.width && self.width <= 8000) || !(200 <= self.height && self.height
            <= 8000) {
            return Err(crate::error::refusal("render width and height must be between 200 and 8000"));
        }
        if self.kernel == LayoutKernel::Simulation {
            return Err(crate::error::refusal("a server image requires a static layout kernel"));
        }
        Ok(())
    }
}

/// What a capture will produce, and the digest a download must echo.
#[derive(Debug, Clone)]
pub struct OutputPreview {
    pub stamp: RevisionStamp,
    pub subset_revision: String,
    pub scope: OutputScope,
    pub nodes: u32,
    pub edges: u32,
    pub format: String,
    pub preview_digest: String,
    pub notes: Vec<String>,
}

/// Array positions are export-local identities, not durable source keys.
#[derive(Debug, Clone)]
pub struct OutputIdentity {
    pub nodes: Vec<NodeHandle>,
    pub edge_ids: Vec<u32>,
    pub semantics: String,
}

/// An ASCII hexadecimal digit.
pub open spec fn is_hex_digit(c: char) -> bool {
    ('0' <= c <= '9') || ('a' <= c <= 'f') || ('A' <= c <= 'F')
}

/// Why a digest a caller echoed is refused, if it is.
pub open spec fn digest_problem(preview_digest: Seq<char>, expected: Seq<char>) -> Option<
    Seq<char>,
> {
    if expected.len() != 64 || exists|i: int| 0 <= i < 64 && !is_hex_digit(#[trigger] expected[i]) {
        Some("preview_digest must contain 64 hexadecimal characters"@)
    } else if preview_digest != expected {
        Some("preview settings or captured state changed; refresh the preview before downloading"@)
    } else {
        None
    }
}

/// A download must name exactly the digest its preview showed.
pub fn check_preview_digest(preview: &OutputPreview, expected: &str) -> (r: Result<(), CoreError>)
    ensures
        r is Ok <==> digest_problem(preview.preview_digest@, expected@) is None,
        r matches Err(e) ==> is_refusal(e, digest_problem(preview.preview_digest@, expected@)->0),
{
    let chars = crate::text::chars_of(expected);
    if chars.len() != 64 {
        return Err(crate::error::refusal("preview_digest must contain 64 hexadecimal characters"));
    }
    let mut i: usize = 0;
    while i < 64
        invariant
            chars@ == expected@,
            chars@.len() == 64,
            i <= 64,
            forall|j: int| 0 <= j < i ==> is_hex_digit(#[trigger] chars@[j]),
        decreases 64 - i,
    {
        let c = chars[i];
        if !(('0' <= c && c <= '9') || ('a' <= c && c <= 'f') || ('A' <= c && c <= 'F')) {
            return Err(
                crate::error::refusal("preview_digest must contain 64 hexadecimal characters"),
            );
        }
        i = i + 1;
    }
    if !crate::export::str_eq(preview.preview_digest.as_str(), expected) {
        return Err(
            crate::error::refusal(
                "preview settings or captured state changed; refresh the preview before downloading",
            ),
        );
    }
    Ok(())
}

/// The refusals and notes an export preview of `format` carries beyond the
/// scope note: D3 JSON cannot carry a relation property named like a
/// structural key, and no format may exceed the encoded ceiling.
pub fn export_preview_notes(format: ExportFormat, json_collision: bool, encoded_bound: usize) -> (r:
    Result<Vec<&'static str>, CoreError>)
    ensures
        format == ExportFormat::Json && json_collision ==> r is Err,
        !(format == ExportFormat::Json && json_collision) && encoded_bound > MAX_OUTPUT_BYTES
            ==> r is Err,
        r is Ok <==> !(format == ExportFormat::Json && json_collision) && encoded_bound
            <= MAX_OUTPUT_BYTES,
        r matches Ok(notes) ==> (format == ExportFormat::Gexf || format == ExportFormat::Csv
            || format == ExportFormat::CsvEdges) ==> notes@.len() == 1 && notes@[0]@
            == "this format carries structural columns and labels but omits arbitrary source properties"@,
        r matches Ok(notes) ==> format == ExportFormat::Json ==> notes@.len() == 2 && notes@[0]@
            == "D3 JSON writes source integers as JSON numbers; use a lossless integer parser for values beyond JavaScript's safe range"@
            && notes@[1]@
            == "D3 JSON omits a genuine node property named type because that name is reserved for the structural node type"@,
        r matches Ok(notes) ==> format == ExportFormat::Graphml ==> notes@.len() == 0,
{
    if format == ExportFormat::Json && json_collision {
        return Err(
            crate::error::refusal(
                "D3 JSON cannot preserve a relation property named source, target, or type; choose GraphML to retain those properties",
            ),
        );
    }
    if encoded_bound > MAX_OUTPUT_BYTES {
        return Err(crate::error::refusal("export's conservative encoded size exceeds 16 MiB"));
    }
    let mut notes: Vec<&'static str> = Vec::new();
    if format == ExportFormat::Gexf || format == ExportFormat::Csv || format
        == ExportFormat::CsvEdges {
        notes.push(
            "this format carries structural columns and labels but omits arbitrary source properties",
        );
    }
    if format == ExportFormat::Json {
        notes.push(
            "D3 JSON writes source integers as JSON numbers; use a lossless integer parser for values beyond JavaScript's safe range",
        );
        notes.push(
            "D3 JSON omits a genuine node property named type because that name is reserved for the structural node type",
        );
    }
    Ok(notes)
}

/// The scope note every preview starts with.
pub fn scope_note(scope: OutputScope) -> (s: &'static str)
    ensures
        scope == OutputScope::Visible ==> s@
            == "visible instance nodes and exactly their visible retained relation records"@,
        scope == OutputScope::LoadedInduced ==> s@
            == "loaded instance nodes and every source relation between them, including hidden or previously unretained relations"@,
{
    match scope {
        OutputScope::Visible => "visible instance nodes and exactly their visible retained relation records",
        OutputScope::LoadedInduced => "loaded instance nodes and every source relation between them, including hidden or previously unretained relations",
    }
}

/// `<scope>-r<revision>.<extension>`.
pub fn output_filename(scope: OutputScope, revision: &str, extension: &str) -> (name: String)
    ensures
        name@ == (if scope == OutputScope::Visible {
            "visible"@
        } else {
            "loaded-induced"@
        }) + "-r"@ + revision@ + "."@ + extension@,
{
    let mut name = String::new();
    match scope {
        OutputScope::Visible => name.append("visible"),
        OutputScope::LoadedInduced => name.append("loaded-induced"),
    }
    name.append("-r");
    name.append(revision);
    name.append(".");
    name.append(extension);
    name
}

} // verus!
