//! `export`: a graph, or the nodes a query returns, written as a file.
//! This module turns the command's flags into the format asked for and
//! names the file it is written to.
use vstd::prelude::*;

use crate::export::{format_extension, ExportFormat};
use crate::paths::file_stem;
use crate::render_cmd::stem_or_graph;
use crate::text::concat;

verus! {

/// `--format`.
#[derive(Debug, Clone, Copy, PartialEq, Eq, Structural)]
pub enum FormatArg {
    Graphml,
    Gexf,
    Csv,
    CsvEdges,
    Json,
}

impl From<FormatArg> for ExportFormat {
    fn from(arg: FormatArg) -> (r: ExportFormat) {
        match arg {
            FormatArg::Graphml => ExportFormat::Graphml,
            FormatArg::Gexf => ExportFormat::Gexf,
            FormatArg::Csv => ExportFormat::Csv,
            FormatArg::CsvEdges => ExportFormat::CsvEdges,
            FormatArg::Json => ExportFormat::Json,
        }
    }
}

impl vstd::std_specs::convert::FromSpecImpl<FormatArg> for ExportFormat {
    open spec fn obeys_from_spec() -> bool {
        true
    }

    open spec fn from_spec(arg: FormatArg) -> ExportFormat {
        match arg {
            FormatArg::Graphml => ExportFormat::Graphml,
            FormatArg::Gexf => ExportFormat::Gexf,
            FormatArg::Csv => ExportFormat::Csv,
            FormatArg::CsvEdges => ExportFormat::CsvEdges,
            FormatArg::Json => ExportFormat::Json,
        }
    }
}

/// The flags of `export`, as parsed.
#[derive(Debug, Clone)]
pub struct ExportArgs {
    pub file: String,
    pub format: FormatArg,
    pub cypher: Option<String>,
    pub out: Option<String>,
    pub query_timeout_secs: u64,
    pub max_load_mb: Option<u64>,
}

/// `graph.kgl` into `graph.<ext>`; `graph-edges.csv` for the edge list, so
/// the two CSVs never collide; `graph-query.<ext>` for a query's nodes.
pub open spec fn spec_export_out(args: ExportArgs, format: ExportFormat) -> Seq<char> {
    let suffix = if format == ExportFormat::CsvEdges {
        "-edges"@
    } else if args.cypher is Some {
        "-query"@
    } else {
        ""@
    };
    stem_or_graph(args.file@) + suffix + "."@ + format_extension(format)
}

/// Where an export is written when `--out` is not given.
pub fn default_out_path(args: &ExportArgs, format: ExportFormat) -> (r: String)
    ensures
        r@ == spec_export_out(*args, format),
{
    let stem = match file_stem(args.file.as_str()) {
        Some(s) => s,
        None => "graph".to_owned(),
    };
    let suffix = match format {
        ExportFormat::CsvEdges => "-edges",
        _ => if args.cypher.is_some() {
            "-query"
        } else {
            ""
        },
    };
    let a = concat(stem.as_str(), suffix);
    let b = concat(a.as_str(), ".");
    concat(b.as_str(), format.extension())
}

/// The edge list of an export always goes to `<stem>-edges.csv`, whether
/// or not a query chose the nodes, so it never lands on the path the nodes
/// CSV of the same arguments gets.
pub proof fn lemma_edges_csv_never_collides(args: ExportArgs)
    ensures
        spec_export_out(args, ExportFormat::CsvEdges) == stem_or_graph(args.file@) + "-edges.csv"@,
        spec_export_out(args, ExportFormat::CsvEdges) != spec_export_out(args, ExportFormat::Csv),
{
    reveal_strlit("-edges");
    reveal_strlit("-query");
    reveal_strlit("");
    reveal_strlit(".");
    reveal_strlit("csv");
    reveal_strlit("-edges.csv");
    let stem = stem_or_graph(args.file@);
    let edges = spec_export_out(args, ExportFormat::CsvEdges);
    let nodes = spec_export_out(args, ExportFormat::Csv);
    assert(edges =~= stem + "-edges.csv"@);
    if args.cypher is Some {
        assert(nodes =~= stem + "-query"@ + "."@ + "csv"@);
        assert(edges[stem.len() as int + 1] == 'e');
        assert(nodes[stem.len() as int + 1] == 'q');
    } else {
        assert(nodes =~= stem + ""@ + "."@ + "csv"@);
        assert(edges.len() != nodes.len());
    }
}

/// What the default path adds after the graph's stem.
pub open spec fn out_tail(args: ExportArgs, format: ExportFormat) -> Seq<char> {
    match format {
        ExportFormat::CsvEdges => "-edges.csv"@,
        ExportFormat::Csv => if args.cypher is Some { "-query.csv"@ } else { ".csv"@ },
        ExportFormat::Graphml => if args.cypher is Some { "-query.graphml"@ } else { ".graphml"@ },
        ExportFormat::Gexf => if args.cypher is Some { "-query.gexf"@ } else { ".gexf"@ },
        ExportFormat::Json => if args.cypher is Some { "-query.json"@ } else { ".json"@ },
    }
}

/// The default path is the graph's stem, `-query` where a query chose the
/// nodes (`-edges` for the edge list, query or not), and the format's own
/// extension; so two formats never share a default path.
pub proof fn lemma_default_paths_distinct(args: ExportArgs, f1: ExportFormat, f2: ExportFormat)
    ensures
        spec_export_out(args, f1) == stem_or_graph(args.file@) + out_tail(args, f1),
        f1 != f2 ==> spec_export_out(args, f1) != spec_export_out(args, f2),
{
    reveal_strlit("-edges");
    reveal_strlit("-query");
    reveal_strlit("");
    reveal_strlit(".");
    reveal_strlit("csv");
    reveal_strlit("graphml");
    reveal_strlit("gexf");
    reveal_strlit("json");
    reveal_strlit("-edges.csv");
    reveal_strlit("-query.csv");
    reveal_strlit(".csv");
    reveal_strlit("-query.graphml");
    reveal_strlit(".graphml");
    reveal_strlit("-query.gexf");
    reveal_strlit(".gexf");
    reveal_strlit("-query.json");
    reveal_strlit(".json");
    let stem = stem_or_graph(args.file@);
    let t1 = out_tail(args, f1);
    let t2 = out_tail(args, f2);
    assert(spec_export_out(args, f1) =~= stem + t1);
    assert(spec_export_out(args, f2) =~= stem + t2);
    if f1 != f2 && spec_export_out(args, f1) == spec_export_out(args, f2) {
        assert((stem + t1).subrange(stem.len() as int, (stem + t1).len() as int) =~= t1);
        assert((stem + t2).subrange(stem.len() as int, (stem + t2).len() as int) =~= t2);
        assert(t1 == t2);
        assert(t1.len() == t2.len() && t1[t1.len() - 1] == t2[t2.len() - 1] && t1[1] == t2[1]);
    }
}

} // verus!
