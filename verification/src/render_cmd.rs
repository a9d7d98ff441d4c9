//! `render`: Cypher in, image out. This module turns the command's flags
//! into what core is asked to draw and names the file it is written to.
use vstd::prelude::*;

use crate::paths::{file_stem, path_stem};
use crate::render::{RenderFormat, Theme};
use crate::request::{CypherRequest, EdgeDirection};
use crate::text::{concat, debug_quote, debug_text};

verus! {

/// `--format`.
#[derive(Debug, Clone, Copy, PartialEq, Eq, Structural)]
pub enum FormatArg {
    Svg,
    Png,
}

impl From<FormatArg> for RenderFormat {
    fn from(arg: FormatArg) -> (r: RenderFormat) {
        match arg {
            FormatArg::Svg => RenderFormat::Svg,
            FormatArg::Png => RenderFormat::Png,
        }
    }
}

impl vstd::std_specs::convert::FromSpecImpl<FormatArg> for RenderFormat {
    open spec fn obeys_from_spec() -> bool {
        true
    }

    open spec fn from_spec(arg: FormatArg) -> RenderFormat {
        match arg {
            FormatArg::Svg => RenderFormat::Svg,
            FormatArg::Png => RenderFormat::Png,
        }
    }
}

/// `--theme`.
#[derive(Debug, Clone, Copy, PartialEq, Eq, Structural)]
pub enum ThemeArg {
    Dark,
    Light,
}

impl From<ThemeArg> for Theme {
    fn from(arg: ThemeArg) -> (r: Theme) {
        match arg {
            ThemeArg::Dark => Theme::Dark,
            ThemeArg::Light => Theme::Light,
        }
    }
}

impl vstd::std_specs::convert::FromSpecImpl<ThemeArg> for Theme {
    open spec fn obeys_from_spec() -> bool {
        true
    }

    open spec fn from_spec(arg: ThemeArg) -> Theme {
        match arg {
            ThemeArg::Dark => Theme::Dark,
            ThemeArg::Light => Theme::Light,
        }
    }
}

/// The flags of `render`, as parsed.
#[derive(Debug, Clone)]
pub struct RenderArgs {
    pub file: String,
    pub meta: bool,
    pub cypher: Option<String>,
    pub expand: Option<Vec<String>>,
    pub format: FormatArg,
    pub out: Option<String>,
    pub seed: u64,
    pub width: u32,
    pub height: u32,
    pub theme: ThemeArg,
    pub limit: Option<u32>,
    pub query_timeout_secs: u64,
}

/// A bounded neighbourhood expansion to draw.
#[derive(Debug, Clone)]
pub struct ExpandSource {
    pub node_type: String,
    pub relationship: Option<String>,
    pub direction: EdgeDirection,
    pub limit: Option<u32>,
}

/// What a render draws.
#[derive(Debug, Clone)]
pub enum RenderSource {
    /// The result of a Cypher query, read as a graph.
    Cypher(CypherRequest),
    /// A bounded neighbourhood expansion.
    Expand(ExpandSource),
    /// The type-level meta-graph.
    Meta,
}

/// The first `=` in `s`, if there is one.
pub open spec fn first_eq(s: Seq<char>) -> Option<int> {
    if exists|i: int| 0 <= i < s.len() && s[i] == '=' {
        Some(choose|i: int| 0 <= i < s.len() && s[i] == '=' && forall|j: int| 0 <= j < i ==> s[j] != '=')
    } else {
        None
    }
}

/// The parse of the first `k` pairs: type, relationship and direction so
/// far, or the message of the first pair refused.
pub open spec fn parse_pairs(pairs: Seq<Seq<char>>, k: int) -> Result<
    (Option<Seq<char>>, Option<Seq<char>>, EdgeDirection),
    Seq<char>,
>
    decreases k,
{
    if k <= 0 {
        Ok((None, None, EdgeDirection::Both))
    } else {
        match parse_pairs(pairs, k - 1) {
            Err(m) => Err(m),
            Ok((t, r, d)) => {
                let pair = pairs[k - 1];
                match first_eq(pair) {
                    None => Err(
                        "--expand takes key=value pairs; "@ + debug_text(pair)
                            + " has no '='. Try: --expand type=Wellbore rel=HAS_CORE dir=out"@,
                    ),
                    Some(i) => {
                        let key = pair.subrange(0, i);
                        let value = pair.subrange(i + 1, pair.len() as int);
                        if key == "type"@ {
                            Ok((Some(value), r, d))
                        } else if key == "rel"@ {
                            Ok((t, Some(value), d))
                        } else if key == "dir"@ {
                            if value == "out"@ {
                                Ok((t, r, EdgeDirection::Out))
                            } else if value == "in"@ {
                                Ok((t, r, EdgeDirection::In))
                            } else if value == "both"@ {
                                Ok((t, r, EdgeDirection::Both))
                            } else {
                                Err("--expand dir must be out, in or both; got "@ + debug_text(value))
                            }
                        } else {
                            Err("--expand knows the keys type, rel and dir; got "@ + debug_text(key))
                        }
                    },
                }
            },
        }
    }
}

proof fn lemma_parse_refusal_stays(pairs: Seq<Seq<char>>, k: int, n: int)
    requires
        0 <= k <= n,
        parse_pairs(pairs, k) is Err,
    ensures
        parse_pairs(pairs, n) == parse_pairs(pairs, k),
    decreases n - k,
{
    if k < n {
        lemma_parse_refusal_stays(pairs, k, n - 1);
    }
}

fn split_at_eq(pair: &str) -> (r: Option<(String, String)>)
    ensures
        match first_eq(pair@) {
            None => r is None,
            Some(i) => r matches Some((k, v)) && k@ == pair@.subrange(0, i) && v@ == pair@.subrange(
                i + 1,
                pair@.len() as int,
            ),
        },
{
    let chars = crate::text::chars_of(pair);
    let mut i: usize = 0;
    while i < chars.len()
        invariant
            chars@ == pair@,
            i <= chars@.len(),
            forall|j: int| 0 <= j < i ==> chars@[j] != '=',
        decreases chars@.len() - i,
    {
        if chars[i] == '=' {
            proof {
                assert(0 <= i < pair@.len() && pair@[i as int] == '=' && forall|j: int|
                    0 <= j < i ==> pair@[j] != '=');
                let c = choose|x: int|
                    0 <= x < pair@.len() && pair@[x] == '=' && forall|j: int|
                        0 <= j < x ==> pair@[j] != '=';
                if c < i {
                    assert(pair@[c] != '=');
                } else if c > i {
                    assert(pair@[i as int] != '=');
                }
            }
            let mut key: Vec<char> = Vec::new();
            let mut value: Vec<char> = Vec::new();
            let mut j: usize = 0;
            while j < i
                invariant
                    chars@ == pair@,
                    i < chars@.len(),
                    j <= i,
                    key@ == pair@.subrange(0, j as int),
                decreases i - j,
            {
                key.push(chars[j]);
                j = j + 1;
                assert(key@ =~= pair@.subrange(0, j as int));
            }
            let mut j: usize = i + 1;
            while j < chars.len()
                invariant
                    chars@ == pair@,
                    i < j <= chars@.len(),
                    value@ == pair@.subrange(i + 1, j as int),
                decreases chars@.len() - j,
            {
                value.push(chars[j]);
                j = j + 1;
                assert(value@ =~= pair@.subrange(i + 1, j as int));
            }
            return Some(
                (crate::text::string_from_chars(key), crate::text::string_from_chars(value)),
            );
        }
        i = i + 1;
    }
    None
}

/// What `render` draws: a Cypher query when one is given (always read as a
/// graph, since a table has no picture), else an expansion when one is given,
/// else the meta-graph.
pub fn parse_source(args: &RenderArgs) -> (r: Result<RenderSource, String>)
    ensures
        match args.cypher {
            Some(q) => r matches Ok(RenderSource::Cypher(c)) && c.query@ == q@ && c.limit
                == args.limit && c.as_graph,
            None => match args.expand {
                Some(pairs) => match parse_expand_result(pairs) {
                    Err(m) => r matches Err(e) && e@ == m,
                    Ok((t, rel, d)) => r matches Ok(RenderSource::Expand(src)) && src.node_type@
                        == t && match src.relationship {
                        Some(x) => rel == Some(x@),
                        None => rel is None,
                    } && src.direction == d && src.limit == args.limit,
                },
                None => r matches Ok(RenderSource::Meta),
            },
        },
{
    if let Some(query) = &args.cypher {
        return Ok(
            RenderSource::Cypher(
                CypherRequest { query: query.clone(), limit: args.limit, as_graph: true },
            ),
        );
    }
    if let Some(pairs) = &args.expand {
        return match parse_expand(pairs, args.limit) {
            Ok(src) => Ok(RenderSource::Expand(src)),
            Err(e) => Err(e),
        };
    }
    Ok(RenderSource::Meta)
}

fn text_is(s: &String, lit: &str) -> (r: bool)
    ensures
        r == (s@ == lit@),
{
    crate::export::str_eq(s.as_str(), lit)
}

/// What `parse_expand` gives for `pairs`: the type, relationship and
/// direction of the expansion, or the message of its refusal.
pub open spec fn parse_expand_result(pairs: Vec<String>) -> Result<
    (Seq<char>, Option<Seq<char>>, EdgeDirection),
    Seq<char>,
> {
    let views = pairs@.map_values(|p: String| p@);
    match parse_pairs(views, views.len() as int) {
        Err(m) => Err(m),
        Ok((None, _, _)) => Err("--expand needs type=<NodeType>"@),
        Ok((Some(t), rel, d)) => Ok((t, rel, d)),
    }
}

/// `type=Wellbore rel=HAS_CORE dir=out` into an expansion to draw. Later
/// pairs win; `dir` defaults to both; `type` is required.
#[verifier::loop_isolation(false)]
pub fn parse_expand(pairs: &Vec<String>, limit: Option<u32>) -> (r: Result<ExpandSource, String>)
    ensures
        ({
            let views = pairs@.map_values(|p: String| p@);
            match parse_pairs(views, views.len() as int) {
                Err(m) => r matches Err(e) && e@ == m,
                Ok((None, _, _)) => r matches Err(e) && e@ == "--expand needs type=<NodeType>"@,
                Ok((Some(t), rel, d)) => r matches Ok(src) && src.node_type@ == t && match src.relationship {
                    Some(x) => rel == Some(x@),
                    None => rel is None,
                } && src.direction == d && src.limit == limit,
            }
        }),
{
    let ghost views = pairs@.map_values(|p: String| p@);
    let mut node_type: Option<String> = None;
    let mut relationship: Option<String> = None;
    let mut direction = EdgeDirection::Both;
    let mut k: usize = 0;
    while k < pairs.len()
        invariant
            k <= pairs@.len(),
            views == pairs@.map_values(|p: String| p@),
            parse_pairs(views, k as int) == Ok::<
                (Option<Seq<char>>, Option<Seq<char>>, EdgeDirection),
                Seq<char>,
            >(
                (
                    match node_type {
                        Some(x) => Some(x@),
                        None => None,
                    },
                    match relationship {
                        Some(x) => Some(x@),
                        None => None,
                    },
                    direction,
                ),
            ),
        decreases pairs@.len() - k,
    {
        let pair = &pairs[k];
        assert(views[k as int] == pair@);
        match split_at_eq(pair.as_str()) {
            None => {
                proof {
                    lemma_parse_refusal_stays(views, k + 1, views.len() as int);
                }
                let head = concat("--expand takes key=value pairs; ", debug_quote(pair.as_str()).as_str());
                return Err(
                    concat(
                        head.as_str(),
                        " has no '='. Try: --expand type=Wellbore rel=HAS_CORE dir=out",
                    ),
                );
            },
            Some((key, value)) => {
                if text_is(&key, "type") {
                    node_type = Some(value);
                } else if text_is(&key, "rel") {
                    relationship = Some(value);
                } else if text_is(&key, "dir") {
                    if text_is(&value, "out") {
                        direction = EdgeDirection::Out;
                    } else if text_is(&value, "in") {
                        direction = EdgeDirection::In;
                    } else if text_is(&value, "both") {
                        direction = EdgeDirection::Both;
                    } else {
                        proof {
                            lemma_parse_refusal_stays(views, k + 1, views.len() as int);
                        }
                        return Err(
                            concat(
                                "--expand dir must be out, in or both; got ",
                                debug_quote(value.as_str()).as_str(),
                            ),
                        );
                    }
                } else {
                    proof {
                        lemma_parse_refusal_stays(views, k + 1, views.len() as int);
                    }
                    return Err(
                        concat(
                            "--expand knows the keys type, rel and dir; got ",
                            debug_quote(key.as_str()).as_str(),
                        ),
                    );
                }
            },
        }
        k = k + 1;
    }
    match node_type {
        None => Err("--expand needs type=<NodeType>".to_owned()),
        Some(t) => Ok(ExpandSource { node_type: t, relationship, direction, limit }),
    }
}

/// Every character that is not an ASCII letter or digit becomes `_`.
pub open spec fn spec_sanitize(name: Seq<char>) -> Seq<char> {
    name.map_values(
        |c: char|
            if ('a' <= c <= 'z') || ('A' <= c <= 'Z') || ('0' <= c <= '9') {
                c
            } else {
                '_'
            },
    )
}

/// A type name on its way to a file name: anything that is not an ASCII
/// letter or digit becomes `_`, so a type cannot name the output path.
pub fn sanitize(name: &str) -> (r: String)
    ensures
        r@ == spec_sanitize(name@),
{
    let chars = crate::text::chars_of(name);
    let mut out: Vec<char> = Vec::new();
    let mut i: usize = 0;
    while i < chars.len()
        invariant
            chars@ == name@,
            i <= chars@.len(),
            out@ == spec_sanitize(name@.subrange(0, i as int)),
        decreases chars@.len() - i,
    {
        let c = chars[i];
        let keep = ('a' <= c && c <= 'z') || ('A' <= c && c <= 'Z') || ('0' <= c && c <= '9');
        out.push(if keep { c } else { '_' });
        i = i + 1;
        assert(out@ =~= spec_sanitize(name@.subrange(0, i as int)));
    }
    assert(name@.subrange(0, chars@.len() as int) =~= name@);
    crate::text::string_from_chars(out)
}

/// The value of the first pair that starts with `type=`.
pub open spec fn first_type_value(pairs: Seq<Seq<char>>) -> Option<Seq<char>> {
    if exists|i: int| 0 <= i < pairs.len() && pairs[i].len() >= 5 && pairs[i].subrange(0, 5) == "type="@ {
        let i = choose|i: int|
            0 <= i < pairs.len() && pairs[i].len() >= 5 && pairs[i].subrange(0, 5) == "type="@
                && forall|j: int|
                0 <= j < i ==> !(pairs[j].len() >= 5 && pairs[j].subrange(0, 5) == "type="@);
        Some(pairs[i].subrange(5, pairs[i].len() as int))
    } else {
        None
    }
}

/// The stem of a graph file, or `graph` where the path names none.
pub open spec fn stem_or_graph(file: Seq<char>) -> Seq<char> {
    match path_stem(file) {
        Some(s) => s,
        None => "graph"@,
    }
}

/// `graph.kgl` and the source drawn into `graph-<source>.<ext>`.
pub open spec fn spec_render_out(args: RenderArgs, format: RenderFormat) -> Seq<char> {
    let suffix = if args.cypher is Some {
        "cypher"@
    } else if args.expand is Some {
        let named = match first_type_value(args.expand->0@.map_values(|p: String| p@)) {
            Some(v) => v,
            None => "expand"@,
        };
        "expand-"@ + spec_sanitize(named)
    } else {
        "meta"@
    };
    stem_or_graph(args.file@) + "-"@ + suffix + "."@ + (if format == RenderFormat::Svg {
        "svg"@
    } else {
        "png"@
    })
}

fn type_value(pairs: &Vec<String>) -> (r: Option<String>)
    ensures
        match first_type_value(pairs@.map_values(|p: String| p@)) {
            Some(v) => r matches Some(s) && s@ == v,
            None => r is None,
        },
{
    let ghost views = pairs@.map_values(|p: String| p@);
    let mut i: usize = 0;
    while i < pairs.len()
        invariant
            i <= pairs@.len(),
            views == pairs@.map_values(|p: String| p@),
            forall|j: int|
                0 <= j < i ==> !(views[j].len() >= 5 && views[j].subrange(0, 5) == "type="@),
        decreases pairs@.len() - i,
    {
        let chars = crate::text::chars_of(pairs[i].as_str());
        assert(views[i as int] == chars@);
        let starts = chars.len() >= 5 && chars[0] == 't' && chars[1] == 'y' && chars[2] == 'p'
            && chars[3] == 'e' && chars[4] == '=';
        proof {
            reveal_strlit("type=");
            assert("type="@ =~= seq!['t', 'y', 'p', 'e', '=']);
            if chars@.len() >= 5 {
                let head = chars@.subrange(0, 5);
                if starts {
                    assert(head =~= "type="@);
                } else {
                    assert(head[0] != 't' || head[1] != 'y' || head[2] != 'p' || head[3] != 'e'
                        || head[4] != '=');
                    assert(head != "type="@);
                }
            }
        }
        if starts {
            let mut out: Vec<char> = Vec::new();
            let mut j: usize = 5;
            while j < chars.len()
                invariant
                    5 <= j <= chars@.len(),
                    out@ == chars@.subrange(5, j as int),
                decreases chars@.len() - j,
            {
                out.push(chars[j]);
                j = j + 1;
                assert(out@ =~= chars@.subrange(5, j as int));
            }
            proof {
                let c = choose|x: int|
                    0 <= x < views.len() && views[x].len() >= 5 && views[x].subrange(0, 5) == "type="@
                        && forall|y: int|
                        0 <= y < x ==> !(views[y].len() >= 5 && views[y].subrange(0, 5) == "type="@);
                assert(0 <= i < views.len() && views[i as int].len() >= 5 && views[i as int].subrange(0, 5) == "type="@
                    && forall|y: int|
                    0 <= y < i ==> !(views[y].len() >= 5 && views[y].subrange(0, 5) == "type="@));
                if c < i {
                } else if c > i {
                }
                assert(c == i);
            }
            return Some(crate::text::string_from_chars(out));
        }
        i = i + 1;
    }
    None
}

/// Where a render is written when `--out` is not given: the graph's stem,
/// the source, and the format's extension, in the current directory, so
/// three views of one graph do not overwrite each other.
pub fn default_out_path(args: &RenderArgs, format: RenderFormat) -> (r: String)
    ensures
        r@ == spec_render_out(*args, format),
{
    let stem = match file_stem(args.file.as_str()) {
        Some(s) => s,
        None => "graph".to_owned(),
    };
    let suffix = if args.cypher.is_some() {
        "cypher".to_owned()
    } else {
        match &args.expand {
            Some(pairs) => {
                let named = match type_value(pairs) {
                    Some(v) => v,
                    None => "expand".to_owned(),
                };
                concat("expand-", sanitize(named.as_str()).as_str())
            },
            None => "meta".to_owned(),
        }
    };
    let a = concat(stem.as_str(), "-");
    let b = concat(a.as_str(), suffix.as_str());
    let c = concat(b.as_str(), ".");
    concat(c.as_str(), format.extension())
}

} // verus!
