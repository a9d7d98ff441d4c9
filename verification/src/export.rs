//! Getting the graph out of the viewer and into somebody else's tool.
//!
//! The scope is the point: an export names its nodes, and the edges are every
//! edge the graph holds between them.
use kglite::api::io::{to_csv, to_d3_json, to_gexf, to_graphml};
use kglite::api::{CurrentSelection, DirGraph, NodeIndex};

use vstd::prelude::*;
use vstd::string::{StrSliceExecFns, StringSliceAdditionalSpecFns};
use vstd::utf8::encode_utf8;

use crate::error::{is_refusal, refusal, CoreError};
use crate::graph_reads::{indexed_nodes, type_index_nodes};
use crate::paths::{file_stem, path_stem};
use crate::text::{chars_of, string_from_chars};

verus! {

/// What an export can be written as.
#[derive(Debug, Clone, Copy, PartialEq, Eq, Structural)]
pub enum ExportFormat {
    /// XML. Gephi, yEd, Cytoscape.
    Graphml,
    /// Gephi's own XML.
    Gexf,
    /// `id,type,title`, one row per node.
    Csv,
    /// `source,target,type`, one row per edge.
    CsvEdges,
    /// D3's `{"nodes": [...], "links": [...]}`.
    Json,
}

/// The token a format is named by.
pub open spec fn format_token(f: ExportFormat) -> Seq<char> {
    match f {
        ExportFormat::Graphml => "graphml"@,
        ExportFormat::Gexf => "gexf"@,
        ExportFormat::Csv => "csv"@,
        ExportFormat::CsvEdges => "csv-edges"@,
        ExportFormat::Json => "json"@,
    }
}

/// The file extension a format is written with.
pub open spec fn format_extension(f: ExportFormat) -> Seq<char> {
    match f {
        ExportFormat::Graphml => "graphml"@,
        ExportFormat::Gexf => "gexf"@,
        ExportFormat::Csv | ExportFormat::CsvEdges => "csv"@,
        ExportFormat::Json => "json"@,
    }
}

/// The refusal for a token that names no format.
pub open spec fn unknown_format_message(token: Seq<char>) -> Seq<char> {
    "'"@ + token + "' is not an export format. Try one of: graphml, gexf, csv, csv-edges, json"@
}

impl ExportFormat {
    pub const ALL: [ExportFormat; 5] = [
        ExportFormat::Graphml,
        ExportFormat::Gexf,
        ExportFormat::Csv,
        ExportFormat::CsvEdges,
        ExportFormat::Json,
    ];

    /// The token a caller names it by, on the query string and at the CLI.
    pub fn as_str(self) -> (s: &'static str)
        ensures
            s@ == format_token(self),
    {
        match self {
            ExportFormat::Graphml => "graphml",
            ExportFormat::Gexf => "gexf",
            ExportFormat::Csv => "csv",
            ExportFormat::CsvEdges => "csv-edges",
            ExportFormat::Json => "json",
        }
    }

    pub fn extension(self) -> (s: &'static str)
        ensures
            s@ == format_extension(self),
    {
        match self {
            ExportFormat::Graphml => "graphml",
            ExportFormat::Gexf => "gexf",
            ExportFormat::Csv | ExportFormat::CsvEdges => "csv",
            ExportFormat::Json => "json",
        }
    }

    /// What a browser should be told it is receiving; UTF-8 in every case.
    pub fn content_type(self) -> (s: &'static str)
        ensures
            (self == ExportFormat::Graphml || self == ExportFormat::Gexf) ==> s@
                == "application/xml; charset=utf-8"@,
            (self == ExportFormat::Csv || self == ExportFormat::CsvEdges) ==> s@
                == "text/csv; charset=utf-8"@,
            self == ExportFormat::Json ==> s@ == "application/json; charset=utf-8"@,
    {
        match self {
            ExportFormat::Graphml | ExportFormat::Gexf => "application/xml; charset=utf-8",
            ExportFormat::Csv | ExportFormat::CsvEdges => "text/csv; charset=utf-8",
            ExportFormat::Json => "application/json; charset=utf-8",
        }
    }

    /// The format a token names, or a refusal that lists every token.
    pub fn parse(token: &str) -> (r: Result<Self, CoreError>)
        ensures
            r matches Ok(f) ==> format_token(f) == token@,
            r is Err <==> (forall|f: ExportFormat| format_token(f) != token@),
            r matches Err(e) ==> is_refusal(e, unknown_format_message(token@)),
    {
        let formats = [
            ExportFormat::Graphml,
            ExportFormat::Gexf,
            ExportFormat::Csv,
            ExportFormat::CsvEdges,
            ExportFormat::Json,
        ];
        let mut i: usize = 0;
        while i < 5
            invariant
                i <= 5,
                formats@ == seq![
                    ExportFormat::Graphml,
                    ExportFormat::Gexf,
                    ExportFormat::Csv,
                    ExportFormat::CsvEdges,
                    ExportFormat::Json,
                ],
                forall|j: int| 0 <= j < i ==> format_token(#[trigger] formats@[j]) != token@,
            decreases 5 - i,
        {
            let f = formats[i];
            if str_eq(f.as_str(), token) {
                return Ok(f);
            }
            i = i + 1;
        }
        proof {
            assert forall|f: ExportFormat| format_token(f) != token@ by {
                match f {
                    ExportFormat::Graphml => assert(format_token(formats@[0]) != token@),
                    ExportFormat::Gexf => assert(format_token(formats@[1]) != token@),
                    ExportFormat::Csv => assert(format_token(formats@[2]) != token@),
                    ExportFormat::CsvEdges => assert(format_token(formats@[3]) != token@),
                    ExportFormat::Json => assert(format_token(formats@[4]) != token@),
                }
            }
        }
        let mut message = String::new();
        message.append("'");
        message.append(token);
        message.append(
            "' is not an export format. Try one of: graphml, gexf, csv, csv-edges, json",
        );
        Err(CoreError::Request(message))
    }
}

/// Every format has its own token: the token a format is written as names
/// that format and no other, so parsing it gives the format back.
pub proof fn lemma_format_tokens_distinct(f: ExportFormat, g: ExportFormat)
    ensures
        format_token(f) == format_token(g) ==> f == g,
{
    reveal_strlit("graphml");
    reveal_strlit("gexf");
    reveal_strlit("csv");
    reveal_strlit("csv-edges");
    reveal_strlit("json");
    if format_token(f) == format_token(g) && f != g {
        let a = format_token(f);
        let b = format_token(g);
        assert(a.len() == b.len());
        assert(a[0] == b[0]);
        assert(a[1] == b[1]);
    }
}

/// Character-by-character string equality.
pub fn str_eq(a: &str, b: &str) -> (r: bool)
    ensures
        r == (a@ == b@),
{
    let x = chars_of(a);
    let y = chars_of(b);
    if x.len() != y.len() {
        return false;
    }
    let mut i: usize = 0;
    while i < x.len()
        invariant
            x@ == a@,
            y@ == b@,
            x@.len() == y@.len(),
            i <= x@.len(),
            forall|j: int| 0 <= j < i ==> x@[j] == y@[j],
        decreases x@.len() - i,
    {
        if x[i] != y[i] {
            return false;
        }
        i = i + 1;
    }
    assert(x@ =~= y@);
    true
}

/// The caveat every export answer repeats.
pub const EDGE_SUPERSET_NOTE: &'static str = "the nodes are exactly the ones selected; the edges are every edge this graph holds between them, which can be MORE than you saw \u{2014} a link the view's byte budget refused, or one a query's rows never mentioned, is still an edge in this file";

/// One export, ready to write or to send.
#[derive(Debug, Clone)]
pub struct ExportedView {
    pub format: ExportFormat,
    pub bytes: Vec<u8>,
    /// Nodes the selection named.
    pub nodes: u32,
    /// A filename with no directory part, built from the graph's own name.
    pub filename: String,
}

impl ExportedView {
    /// The caveats that apply to this export: the edge-superset note, for
    /// every format.
    pub fn notes(&self) -> (notes: Vec<&'static str>)
        ensures
            notes@.len() == 1,
            notes@[0]@ == EDGE_SUPERSET_NOTE@,
    {
        let mut notes: Vec<&'static str> = Vec::new();
        notes.push(EDGE_SUPERSET_NOTE);
        notes
    }
}

/// Characters that would let a name decide where a download lands: path
/// separators, quotes, shell metacharacters and control characters.
pub open spec fn unsafe_name_char(c: char) -> bool {
    c == '/' || c == '\\' || c == ':' || c == '"' || c == '\'' || c == ';' || c == '*' || c
        == '?' || c == '<' || c == '>' || c == '|' || is_control(c)
}

/// Unicode general category Cc.
pub open spec fn is_control(c: char) -> bool {
    (c as u32) <= 0x1f || (0x7f <= (c as u32) && (c as u32) <= 0x9f)
}

/// Characters a filename stem is trimmed of at either end.
pub open spec fn trimmed_char(c: char) -> bool {
    c == '.' || c == '-' || c == ' '
}

/// Index of the first character at or after `i` that is not trimmed.
pub open spec fn first_kept(s: Seq<char>, i: int) -> int
    decreases s.len() - i,
{
    if i >= s.len() || !trimmed_char(s[i]) {
        i
    } else {
        first_kept(s, i + 1)
    }
}

/// End of the kept run that ends at or before `j`, no lower than `lo`.
pub open spec fn last_kept_end(s: Seq<char>, j: int, lo: int) -> int
    decreases j - lo,
{
    if j <= lo || !trimmed_char(s[j - 1]) {
        j
    } else {
        last_kept_end(s, j - 1, lo)
    }
}

/// `s` with every leading and trailing trimmed character removed.
pub open spec fn trim_name(s: Seq<char>) -> Seq<char> {
    let a = first_kept(s, 0);
    s.subrange(a, last_kept_end(s, s.len() as int, a))
}

/// The stem with unsafe characters replaced by `-`, trimmed, and `graph`
/// when nothing is left.
pub open spec fn safe_stem(stem: Option<Seq<char>>) -> Seq<char> {
    let raw = match stem {
        Some(s) => s,
        None => Seq::empty(),
    };
    let mapped = raw.map_values(|c: char| if unsafe_name_char(c) { '-' } else { c });
    let t = trim_name(mapped);
    if t.len() == 0 {
        "graph"@
    } else {
        t
    }
}

/// `<graph stem>-view.<ext>`, built from the file stem a caller's label has.
pub open spec fn spec_filename(stem: Option<Seq<char>>, format: ExportFormat) -> Seq<char> {
    safe_stem(stem) + "-view."@ + format_extension(format)
}

fn is_unsafe_name_char(c: char) -> (r: bool)
    ensures
        r == unsafe_name_char(c),
{
    let u = c as u32;
    c == '/' || c == '\\' || c == ':' || c == '"' || c == '\'' || c == ';' || c == '*' || c
        == '?' || c == '<' || c == '>' || c == '|' || u <= 0x1f || (0x7f <= u && u <= 0x9f)
}

fn is_trimmed_char(c: char) -> (r: bool)
    ensures
        r == trimmed_char(c),
{
    c == '.' || c == '-' || c == ' '
}

/// The download name for an already-read file stem.
pub fn filename_from_stem(stem: Option<String>, format: ExportFormat) -> (name: String)
    ensures
        name@ == spec_filename(
            match stem {
                Some(s) => Some(s@),
                None => None,
            },
            format,
        ),
{
    let ghost spec_stem = match &stem {
        Some(s) => Some(s@),
        None => None::<Seq<char>>,
    };
    let raw: Vec<char> = match &stem {
        Some(s) => chars_of(s.as_str()),
        None => Vec::new(),
    };
    let ghost raw_view: Seq<char> = match spec_stem {
        Some(s) => s,
        None => Seq::empty(),
    };
    assert(raw@ == raw_view);
    let mut mapped: Vec<char> = Vec::new();
    let mut i: usize = 0;
    while i < raw.len()
        invariant
            i <= raw@.len(),
            mapped@ == raw@.subrange(0, i as int).map_values(
                |c: char|
                    if unsafe_name_char(c) {
                        '-'
                    } else {
                        c
                    },
            ),
        decreases raw@.len() - i,
    {
        let c = raw[i];
        if is_unsafe_name_char(c) {
            mapped.push('-');
        } else {
            mapped.push(c);
        }
        assert(raw@.subrange(0, i + 1) =~= raw@.subrange(0, i as int).push(c));
        assert(mapped@ =~= raw@.subrange(0, i + 1).map_values(
            |c: char|
                if unsafe_name_char(c) {
                    '-'
                } else {
                    c
                },
        ));
        i = i + 1;
    }
    assert(raw@.subrange(0, raw@.len() as int) =~= raw@);
    let ghost m = mapped@;
    let n = mapped.len();
    let mut a: usize = 0;
    while a < n && is_trimmed_char(mapped[a])
        invariant
            a <= n,
            n == m.len(),
            mapped@ == m,
            first_kept(m, 0) == first_kept(m, a as int),
        decreases n - a,
    {
        a = a + 1;
    }
    let mut b: usize = n;
    while b > a && is_trimmed_char(mapped[b - 1])
        invariant
            a <= b <= n,
            n == m.len(),
            mapped@ == m,
            last_kept_end(m, n as int, a as int) == last_kept_end(m, b as int, a as int),
        decreases b,
    {
        b = b - 1;
    }
    let mut kept: Vec<char> = Vec::new();
    let mut p = a;
    while p < b
        invariant
            a <= p <= b <= n,
            n == m.len(),
            mapped@ == m,
            kept@ == m.subrange(a as int, p as int),
        decreases b - p,
    {
        kept.push(mapped[p]);
        assert(m.subrange(a as int, p + 1) =~= m.subrange(a as int, p as int).push(m[p as int]));
        p = p + 1;
    }
    assert(kept@ == trim_name(m));
    let mut name = if kept.len() == 0 {
        "graph".to_owned()
    } else {
        string_from_chars(kept)
    };
    name.append("-view.");
    name.append(format.extension());
    name
}

/// `<graph stem>-view.<ext>`, with the stem reduced to something a filesystem
/// and a header can both carry: non-ASCII letters stay, separators, quotes
/// and control characters do not.
pub fn filename_for(label: &str, format: ExportFormat) -> (name: String)
    ensures
        name@ == spec_filename(path_stem(label@), format),
{
    filename_from_stem(file_stem(label), format)
}

/// kglite's node selection, the scope every exporter takes.
#[verifier::external_type_specification]
#[verifier::external_body]
pub struct ExCurrentSelection(CurrentSelection);

/// The nodes a selection's current level holds, in the order its groups
/// list them.
pub uninterp spec fn selection_nodes(selection: CurrentSelection) -> Seq<u32>;

/// What `to_gexf` writes of `graph` restricted to `nodes`, or its error
/// message.
pub uninterp spec fn gexf_of(graph: DirGraph, nodes: Seq<u32>) -> Result<Seq<char>, Seq<char>>;

/// The nodes file and the edges file `to_csv` writes of `graph` restricted
/// to `nodes`, or its error message.
pub uninterp spec fn csv_of(graph: DirGraph, nodes: Seq<u32>) -> Result<
    (Seq<char>, Seq<char>),
    Seq<char>,
>;

/// A text result as plain values.
pub open spec fn text_result(r: Result<String, String>) -> Result<Seq<char>, Seq<char>> {
    match r {
        Ok(t) => Ok(t@),
        Err(e) => Err(e@),
    }
}

/// A two-file result as plain values.
pub open spec fn files_result(r: Result<(String, String), String>) -> Result<
    (Seq<char>, Seq<char>),
    Seq<char>,
> {
    match r {
        Ok(f) => Ok((f.0@, f.1@)),
        Err(e) => Err(e@),
    }
}

/// The text an export of `nodes` in `format` writes, where the exporter
/// writes the same text on every run: GEXF over exactly those nodes; for
/// CSV the nodes file, for CSV edges the edges file. GraphML and D3 JSON
/// write each node's properties in the order its property storage walks
/// them, which a hashed store does not fix, so they have no entry here.
pub open spec fn export_text(graph: DirGraph, nodes: Seq<u32>, format: ExportFormat) -> Option<
    Result<Seq<char>, Seq<char>>,
> {
    match format {
        ExportFormat::Graphml => None,
        ExportFormat::Json => None,
        ExportFormat::Gexf => Some(gexf_of(graph, nodes)),
        ExportFormat::Csv => Some(
            match csv_of(graph, nodes) {
                Ok(f) => Ok(f.0),
                Err(e) => Err(e),
            },
        ),
        ExportFormat::CsvEdges => Some(
            match csv_of(graph, nodes) {
                Ok(f) => Ok(f.1),
                Err(e) => Err(e),
            },
        ),
    }
}

/// `CurrentSelection::new`, which always opens one level, with `nodes`
/// added to that level as one unparented group: that level then holds
/// exactly `nodes`, in order.
#[verifier::external_body]
fn selection_of(nodes: &Vec<u32>) -> (r: CurrentSelection)
    ensures
        selection_nodes(r) == nodes@,
{
    let mut selection = CurrentSelection::new();
    let members: Vec<NodeIndex> = nodes.iter().map(|&n| NodeIndex::new(n as usize)).collect();
    selection.get_level_mut(0).expect("a new selection has one level").add_selection(None, members);
    selection
}

/// `to_graphml` over the selection, never the whole graph; an error is the
/// engine's own message. Nothing is stated of the text: node properties
/// are written in the order their storage walks them, and a hashed store
/// may walk them in another order in another process.
#[verifier::external_body]
fn graphml_text(graph: &DirGraph, selection: &CurrentSelection) -> Result<String, String> {
    to_graphml(graph, Some(selection))
}

/// `to_gexf` over the selection, never the whole graph; an error is the
/// engine's own message.
#[verifier::external_body]
fn gexf_text(graph: &DirGraph, selection: &CurrentSelection) -> (r: Result<String, String>)
    ensures
        text_result(r) == gexf_of(*graph, selection_nodes(*selection)),
{
    to_gexf(graph, Some(selection))
}

/// `to_d3_json` over the selection, never the whole graph; an error is the
/// engine's own message. Nothing is stated of the text, for the reason
/// given at `graphml_text`.
#[verifier::external_body]
fn d3_json_text(graph: &DirGraph, selection: &CurrentSelection) -> Result<String, String> {
    to_d3_json(graph, Some(selection))
}

/// `to_csv` over the selection, never the whole graph: the nodes file and
/// the edges file; an error is the engine's own message.
#[verifier::external_body]
fn csv_texts(graph: &DirGraph, selection: &CurrentSelection) -> (r: Result<(String, String), String>)
    ensures
        files_result(r) == csv_of(*graph, selection_nodes(*selection)),
{
    to_csv(graph, Some(selection))
}

/// The refusal an export of no nodes gets.
pub const NOTHING_TO_EXPORT: &'static str = "there is nothing to export: no instance nodes are loaded. Expand a type or run a query with 'show in graph' first.";

/// Writes exactly these nodes, and whatever edges the graph holds between
/// them. There is no whole-graph mode: the node list is the scope, and an
/// empty one is refused rather than answered with an empty file. An
/// exporter's failure is passed on with the engine's own message.
pub fn export_nodes(graph: &DirGraph, nodes: &Vec<u32>, format: ExportFormat, label: &str) -> (r:
    Result<ExportedView, CoreError>)
    ensures
        nodes@.len() == 0 <==> (r matches Err(e) && is_refusal(e, NOTHING_TO_EXPORT@) && nodes@.len() == 0),
        nodes@.len() > 0 ==> match export_text(*graph, nodes@, format) {
            Some(Ok(text)) => r matches Ok(v) && v.bytes@ == encode_utf8(text),
            Some(Err(m)) => r matches Err(e) && is_refusal(e, m),
            None => true,
        },
        r matches Ok(v) ==> nodes@.len() > 0 && v.format == format && v.nodes == nodes@.len() as u32
            && v.filename@ == spec_filename(path_stem(label@), format) && exists|text: Seq<char>|
            v.bytes@ == encode_utf8(text),
        r matches Err(e) ==> e is Request,
{
    if nodes.len() == 0 {
        return Err(refusal(NOTHING_TO_EXPORT));
    }
    let selection = selection_of(nodes);
    let written = match format {
        ExportFormat::Graphml => graphml_text(graph, &selection),
        ExportFormat::Gexf => gexf_text(graph, &selection),
        ExportFormat::Json => d3_json_text(graph, &selection),
        ExportFormat::Csv => match csv_texts(graph, &selection) {
            Ok(files) => Ok(files.0),
            Err(e) => Err(e),
        },
        ExportFormat::CsvEdges => match csv_texts(graph, &selection) {
            Ok(files) => Ok(files.1),
            Err(e) => Err(e),
        },
    };
    match written {
        Ok(text) => Ok(
            ExportedView {
                format,
                bytes: text.as_str().as_bytes_vec(),
                nodes: nodes.len() as u32,
                filename: filename_for(label, format),
            },
        ),
        Err(message) => Err(CoreError::Request(message)),
    }
}

/// Every node in the graph, by index, ascending: the whole-graph dump
/// spelled out as a node list, for the caller that asked for a whole graph
/// out loud. Two dumps of one graph list the same nodes in the same order
/// whatever order the type index is walked in.
pub fn all_nodes(graph: &DirGraph) -> (r: Vec<u32>)
    ensures
        r@.to_multiset() == indexed_nodes(*graph),
        forall|i: int, j: int| 0 <= i < j < r@.len() ==> r@[i] <= r@[j],
{
    let found = type_index_nodes(graph);
    sort_ascending(found)
}

/// The same numbers, ascending.
pub fn sort_ascending(v: Vec<u32>) -> (r: Vec<u32>)
    ensures
        r@.to_multiset() == v@.to_multiset(),
        forall|i: int, j: int| 0 <= i < j < r@.len() ==> r@[i] <= r@[j],
{
    let mut out: Vec<u32> = Vec::new();
    let mut i: usize = 0;
    assert(out@ =~= v@.take(0));
    while i < v.len()
        invariant
            i <= v@.len(),
            out@.to_multiset() == v@.take(i as int).to_multiset(),
            forall|a: int, b: int| 0 <= a < b < out@.len() ==> out@[a] <= out@[b],
        decreases v@.len() - i,
    {
        let x = v[i];
        let mut pos: usize = out.len();
        while pos > 0 && out[pos - 1] > x
            invariant
                pos <= out@.len(),
                forall|l: int| pos <= l < out@.len() ==> x < #[trigger] out@[l],
            decreases pos,
        {
            pos = pos - 1;
        }
        let ghost before = out@;
        out.insert(pos, x);
        proof {
            assert(out@ =~= before.insert(pos as int, x));
            vstd::seq_lib::to_multiset_insert(before, pos as int, x);
            vstd::seq_lib::to_multiset_build(v@.take(i as int), x);
            assert(v@.take(i + 1) =~= v@.take(i as int).push(x));
            assert forall|a: int, b: int| 0 <= a < b < out@.len() implies out@[a] <= out@[b] by {
                if a < pos && b == pos {
                    if pos > 0 {
                        assert(before[pos - 1] <= x);
                        assert(before[a] <= before[pos - 1]);
                    }
                } else if a < pos && b > pos {
                    assert(out@[b] == before[b - 1]);
                } else if a == pos && b > pos {
                    assert(out@[b] == before[b - 1]);
                } else if a > pos {
                    assert(out@[a] == before[a - 1] && out@[b] == before[b - 1]);
                }
            }
        }
        i = i + 1;
    }
    assert(v@.take(v@.len() as int) =~= v@);
    out
}

} // verus!
