//! What an agent attached over MCP is told, and the arguments its output
//! tools take.
use vstd::prelude::*;

use crate::error::{is_refusal, refusal, CoreError};
use crate::output::{CaptureOutputRequest, OutputScope};
use crate::request::Request;
use crate::shared::RevisionStamp;

verus! {

/// What an agent is told it has connected to: a shared view a human is
/// watching, how revisions are guarded, what it can know of geometry, and
/// where querying belongs instead.
pub const INSTRUCTIONS: &'static str = "You are attached to a RUNNING kglite-visual window: an interactive graph view that a human being is looking at right now, in their browser. These tools move that view and inspect its records. Shared view changes are immediately visible to them.\n\nTreat it as a shared workspace, not a scratchpad:\n- Narrate what you are doing before you do it, so the change on screen is expected rather than startling.\n- Prefer small, reversible steps. `expand` then `collapse` beats `reset_view`, which discards whatever the human had drilled into.\n- Shared changes are ordered and acknowledged. Pass `expected` from `view_state` to refuse overwriting a newer revision. A revision conflict changes nothing; re-read the view before deciding what to do next. Legacy calls without an expected stamp remain supported; stale prepared work always refuses.\n\nWhat you can and cannot know:\n- `view_state` is exact about CONTENT — slots, types, counts, tombstones, and what the response bound last truncated. It is the same truth the page's own debug hook reports.\n- GEOMETRY depends on `view_state.layout_kernel`, and you can change which answer applies. While it says `simulation` — the default — the layout runs on the viewer's GPU and the server never receives the final positions: never tell the user where something is on their screen, and use `focus` and `highlight` to point at things instead, because those move THEIR view. Call `set_layout` with a static kernel and the arrangement becomes this server's own: their simulation stops, dragging is disabled, and relative position is then safe to describe. Read the `geometry_caveat` that comes back rather than remembering which mode you are in.\n- `render` is a separate deterministic server pass. Its legacy live-view target includes loaded content and schema context, including hidden nodes. Explicit `scope: visible` captures the visible retained instance subset. Both recompute geometry with their own folding and labels; neither is a browser screenshot.\n\nScope: this server steers a picture. It is not the place to mine the graph. Bulk querying, schema exploration and result tables belong to the graph's own MCP server (kglite-mcp-server); `show_cypher` here exists to put a result ON SCREEN, not to read it back. `records` inspects bounded fields for exact source handles returned by `browse_type`, `load_nodes`, or `show_cypher`. These handles expire with the session generation; they are not source id-field values.\n\nThe one thing here that is not about the screen: `list_saved_queries` and `run_saved_query` read the queries THIS USER saved for THIS graph. Start there before writing Cypher of your own — a saved query is what the person you are working with already decided was worth keeping, and running one shows them a result they will recognise.\n\n`export_view` defaults to loaded instance nodes and all source relations between them, including content hidden by filters. Explicit `scope: visible` previews and exports exactly the visible retained instance subset. It refuses empty instance scope, so load what you want first. Read the `notes` it returns before telling the user what they have — the notes describe format fidelity limits.\n\nEvery response is bounded in core and says so. A truncated answer is reported as truncated in `view_state.last_slice` and drawn into the banner of any render; if you see one, the honest report is the bound, not the subset.";

/// The revision a caller read from `view_state`.
#[derive(Debug, Clone)]
pub struct ExpectedArg {
    pub generation: String,
    pub revision: String,
}

/// Options every shared action takes.
#[derive(Debug, Clone)]
pub struct SharedOptions {
    pub expected: Option<ExpectedArg>,
    pub request_id: Option<String>,
}

/// A request with the revision it must not overwrite and the caller's
/// correlation.
#[derive(Debug, Clone)]
pub struct SharedRequest {
    pub request: Request,
    pub expected: Option<RevisionStamp>,
    pub request_id: Option<String>,
}

impl SharedOptions {
    /// `request`, guarded by these options.
    pub fn request(self, request: Request) -> (r: SharedRequest)
        ensures
            r.request == request,
            r.request_id == self.request_id,
            match self.expected {
                Some(e) => r.expected matches Some(s) && s.generation == e.generation
                    && s.revision == e.revision,
                None => r.expected is None,
            },
    {
        SharedRequest {
            request,
            expected: match self.expected {
                Some(stamp) => Some(
                    RevisionStamp { generation: stamp.generation, revision: stamp.revision },
                ),
                None => None,
            },
            request_id: self.request_id,
        }
    }
}

/// Which output scope a tool call names.
#[derive(Debug, Clone, Copy, PartialEq, Eq, Structural)]
pub enum OutputScopeArg {
    Visible,
    LoadedInduced,
}

/// The capture fields of an output tool call.
#[derive(Debug, Clone)]
pub struct CapturedArgs {
    pub scope: Option<OutputScopeArg>,
    pub expected: Option<ExpectedArg>,
    pub subset_revision: Option<String>,
    pub preview_digest: Option<String>,
    pub include_identity: bool,
}

/// Why a captured output request is refused, if it is.
pub open spec fn capture_problem(a: CapturedArgs) -> Option<Seq<char>> {
    if a.scope is None {
        Some("captured output requires an explicit scope"@)
    } else if a.expected is None {
        Some("explicit output scope requires expected from view_state"@)
    } else if a.subset_revision is None {
        Some("explicit output scope requires subset_revision from view_state"@)
    } else if a.expected->0.generation@.len() == 0 || a.expected->0.revision@.len() == 0
        || a.subset_revision->0@.len() == 0 {
        Some("captured output stamps must not be empty"@)
    } else {
        None
    }
}

impl CapturedArgs {
    /// Any field that only a captured output reads was given.
    pub fn has_capture_fields(&self) -> (r: bool)
        ensures
            r == (self.expected is Some || self.subset_revision is Some
                || self.preview_digest is Some || self.include_identity),
    {
        self.expected.is_some() || self.subset_revision.is_some() || self.preview_digest.is_some()
            || self.include_identity
    }

    /// The capture these arguments pin: an explicit scope, the revision and
    /// subset read, none of them empty.
    pub fn request(&self) -> (r: Result<CaptureOutputRequest, CoreError>)
        ensures
            capture_problem(*self) matches Some(m) ==> (r matches Err(e) && is_refusal(e, m)),
            capture_problem(*self) is None ==> (r matches Ok(q) && (q.scope == OutputScope::Visible
                <==> self.scope == Some(OutputScopeArg::Visible)) && q.expected.generation@
                == self.expected->0.generation@ && q.expected.revision@
                == self.expected->0.revision@ && q.subset_revision@ == self.subset_revision->0@),
    {
        let scope = match self.scope {
            Some(s) => s,
            None => {
                return Err(refusal("captured output requires an explicit scope"));
            },
        };
        let stamp = match &self.expected {
            Some(s) => s,
            None => {
                return Err(refusal("explicit output scope requires expected from view_state"));
            },
        };
        let subset_revision = match &self.subset_revision {
            Some(s) => s,
            None => {
                return Err(refusal("explicit output scope requires subset_revision from view_state"));
            },
        };
        if stamp.generation.as_str().is_empty() || stamp.revision.as_str().is_empty()
            || subset_revision.as_str().is_empty() {
            return Err(refusal("captured output stamps must not be empty"));
        }
        Ok(
            CaptureOutputRequest {
                scope: match scope {
                    OutputScopeArg::Visible => OutputScope::Visible,
                    OutputScopeArg::LoadedInduced => OutputScope::LoadedInduced,
                },
                expected: RevisionStamp {
                    generation: stamp.generation.clone(),
                    revision: stamp.revision.clone(),
                },
                subset_revision: subset_revision.clone(),
            },
        )
    }
}

/// The loaded slots among some search hits (each hit's slot, `None` for a
/// hit not loaded), in hit order.
pub open spec fn loaded_slots(hits: Seq<Option<u32>>) -> Seq<u32>
    decreases hits.len(),
{
    if hits.len() == 0 {
        Seq::empty()
    } else {
        let rest = loaded_slots(hits.drop_last());
        match hits.last() {
            Some(s) => rest.push(s),
            None => rest,
        }
    }
}

/// What a highlight by search marks: the slots of the hits already on
/// screen, in hit order, and how many hits are not loaded.
pub fn on_screen_hits(hits: &Vec<Option<u32>>) -> (r: (Vec<u32>, usize))
    ensures
        r.0@ == loaded_slots(hits@),
        r.1 == hits@.len() - loaded_slots(hits@).len(),
{
    let mut slots: Vec<u32> = Vec::new();
    let mut i: usize = 0;
    while i < hits.len()
        invariant
            i <= hits@.len(),
            slots@ == loaded_slots(hits@.take(i as int)),
            slots@.len() <= i,
        decreases hits@.len() - i,
    {
        assert(hits@.take(i + 1).drop_last() =~= hits@.take(i as int));
        if let Some(s) = hits[i] {
            slots.push(s);
        }
        i = i + 1;
    }
    assert(hits@.take(hits@.len() as int) =~= hits@);
    let cold = hits.len() - slots.len();
    (slots, cold)
}

} // verus!
