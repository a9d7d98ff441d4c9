//! Saved queries: a small, bounded, human-owned store of one file per
//! graph beside the config.
//!
//! The store keeps, per graph, the queries a person chose to keep and the
//! queries recently run. Every ceiling is enforced at write time and
//! reported as a refusal that names the number it hit; nothing is deleted
//! on the owner's behalf. This module decides what each operation does to a
//! graph's file; reading, encoding and replacing the file on disk is done by
//! the caller around it.
use sha2::Digest;
use vstd::prelude::*;
use vstd::utf8::encode_utf8;

use crate::text::{concat, decimal_string, spec_decimal, spec_trim, trim};

verus! {

/// Environment variable that overrides the store's root.
pub const CONFIG_DIR_ENV: &'static str = "KGLITE_VISUAL_CONFIG_DIR";

/// Saved queries one graph may hold.
pub const MAX_SAVED_PER_GRAPH: usize = 64;

/// Bytes one query's text may be.
pub const MAX_QUERY_BYTES: usize = 65536;

/// Bytes one graph's store file may be, serialized.
pub const MAX_STORE_FILE_BYTES: usize = 262144;

/// Store files the directory may hold: a bound on distinct graphs.
pub const MAX_STORE_FILES: usize = 512;

/// Recent queries kept per graph.
pub const MAX_HISTORY: usize = 20;

/// The file every session with no path on disk shares.
pub const UNBOUND_FILE: &'static str = "_unbound.json";

/// On-disk format version.
pub const FORMAT_VERSION: u32 = 1;

/// Why a store operation did not happen.
#[derive(Debug)]
pub enum StoreError {
    /// A bound fired, or the caller asked for something that is not there.
    /// The message names the ceiling.
    Refused(String),
    /// The file could not be read or written; the message is the system's.
    Io(String),
}

impl StoreError {
    /// The text a caller is shown.
    pub fn message(&self) -> (s: String)
        ensures
            match self {
                StoreError::Refused(m) => s@ == m@,
                StoreError::Io(m) => s@ == "the saved-query store could not be read: "@ + m@,
            },
    {
        match self {
            StoreError::Refused(m) => m.clone(),
            StoreError::Io(m) => concat("the saved-query store could not be read: ", m.as_str()),
        }
    }
}

/// `e` is the refusal whose message is `msg`.
pub open spec fn is_store_refusal(e: StoreError, msg: Seq<char>) -> bool {
    e matches StoreError::Refused(m) && m@ == msg
}

/// What reading a store file gave.
#[derive(Debug, Clone)]
pub enum StoreRead {
    /// There is no file yet.
    Absent,
    /// The file parsed as a store file.
    Parsed(StoreFile),
    /// The file is there but is not a store file this version can read;
    /// the parser's reason.
    Unparsable(String),
    /// Reading failed; the system's message.
    Failed(String),
}

/// One query a person chose to keep; `saved_at` is in Unix seconds.
#[derive(Debug, Clone)]
pub struct SavedQuery {
    pub name: String,
    pub query: String,
    pub saved_at: u64,
}

/// One query that was run from the panel or by an agent.
#[derive(Debug, Clone)]
pub struct HistoryEntry {
    pub query: String,
    pub ran_at: u64,
}

/// One graph's file, as it sits on disk.
#[derive(Debug, Clone)]
pub struct StoreFile {
    pub version: u32,
    /// The absolute path this file belongs to, or none for the unbound file.
    pub graph_path: Option<String>,
    /// What the session called the graph.
    pub graph_label: String,
    pub saved: Vec<SavedQuery>,
    pub history: Vec<HistoryEntry>,
}

/// One session's view of the store. `file` is none when no root could be
/// resolved, and every operation then refuses.
pub struct QueryStore {
    pub file: Option<String>,
    pub root: Option<String>,
    pub graph_path: Option<String>,
    pub graph_label: String,
}

/// The SHA-256 digest of some bytes.
pub uninterp spec fn sha256_of(bytes: Seq<u8>) -> Seq<u8>;

/// `Sha256::digest` of `bytes`, as a vector: the 32-byte SHA-256 digest.
#[verifier::external_body]
pub(crate) fn sha256(bytes: &[u8]) -> (r: Vec<u8>)
    ensures
        r@ == sha256_of(bytes@),
        r@.len() == 32,
{
    sha2::Sha256::digest(bytes).to_vec()
}

/// The text of `root` joined with the file name `name` by the platform's
/// path syntax (fixed when the program is compiled).
pub uninterp spec fn joined_path(root: Seq<char>, name: Seq<char>) -> Seq<char>;

/// `Path::join` of a directory and a file name, as text.
#[verifier::external_body]
fn join_path(root: &str, name: &str) -> (r: String)
    ensures
        r@ == joined_path(root@, name@),
{
    std::path::Path::new(root).join(name).to_string_lossy().into_owned()
}

/// The lowercase hex digit for `n`.
pub open spec fn hex_digit(n: int) -> char {
    if n < 10 {
        ((48 + n) as u8) as char
    } else {
        ((87 + n) as u8) as char
    }
}

/// Two lowercase hex digits per byte, most significant first.
pub open spec fn hex_of(bytes: Seq<u8>) -> Seq<char>
    decreases bytes.len(),
{
    if bytes.len() == 0 {
        Seq::empty()
    } else {
        let b = bytes.last();
        hex_of(bytes.drop_last()) + seq![hex_digit(b as int / 16), hex_digit(b as int % 16)]
    }
}

/// The file a graph's queries live in: the unbound file without a path,
/// else the first eight bytes of the SHA-256 of the path, in hex, then
/// `.json`.
pub open spec fn spec_file_name(graph_path: Option<Seq<char>>) -> Seq<char> {
    match graph_path {
        None => "_unbound.json"@,
        Some(p) => hex_of(sha256_of(encode_utf8(p)).subrange(0, 8)) + ".json"@,
    }
}

fn hex_char(n: u8) -> (c: char)
    requires
        n < 16,
    ensures
        c == hex_digit(n as int),
{
    if n < 10 {
        (48 + n) as char
    } else {
        (87 + n) as char
    }
}

/// The file name a graph's queries live in.
pub fn file_name_for(graph_path: Option<&str>) -> (r: String)
    ensures
        r@ == spec_file_name(
            match graph_path {
                Some(p) => Some(p@),
                None => None,
            },
        ),
{
    match graph_path {
        None => UNBOUND_FILE.to_owned(),
        Some(path) => {
            let digest = sha256(path.as_bytes());
            let ghost head = digest@.subrange(0, 8);
            let mut out: Vec<char> = Vec::new();
            let mut i: usize = 0;
            while i < 8
                invariant
                    digest@.len() == 32,
                    head == digest@.subrange(0, 8),
                    i <= 8,
                    out@ == hex_of(head.subrange(0, i as int)),
                decreases 8 - i,
            {
                let b = digest[i];
                out.push(hex_char(b / 16));
                out.push(hex_char(b % 16));
                i = i + 1;
                assert(head.subrange(0, i as int).drop_last() =~= head.subrange(0, i - 1));
            }
            assert(head.subrange(0, 8) =~= head);
            let hex = crate::text::string_from_chars(out);
            concat(hex.as_str(), ".json")
        },
    }
}

/// The refusal every operation gives when the machine offers no store.
pub open spec fn no_store_message() -> Seq<char> {
    "no saved-query store on this machine: no config directory could be resolved. Set KGLITE_VISUAL_CONFIG_DIR to a writable directory to enable it."@
}

/// The first saved query named `name`.
pub open spec fn first_named(saved: Seq<SavedQuery>, name: Seq<char>) -> Option<int> {
    if exists|k: int| 0 <= k < saved.len() && #[trigger] saved[k].name@ == name {
        Some(
            choose|k: int|
                0 <= k < saved.len() && #[trigger] saved[k].name@ == name && forall|l: int|
                    0 <= l < k ==> #[trigger] saved[l].name@ != name,
        )
    } else {
        None
    }
}

fn find_named(saved: &Vec<SavedQuery>, name: &str) -> (r: Option<usize>)
    ensures
        r is Some <==> first_named(saved@, name@) is Some,
        r matches Some(k) ==> k == first_named(saved@, name@)->0 && k < saved@.len(),
{
    let mut k: usize = 0;
    while k < saved.len()
        invariant
            k <= saved@.len(),
            forall|l: int| 0 <= l < k ==> #[trigger] saved@[l].name@ != name@,
        decreases saved@.len() - k,
    {
        if crate::export::str_eq(saved[k].name.as_str(), name) {
            proof {
                assert(0 <= k < saved@.len() && saved@[k as int].name@ == name@ && forall|l: int|
                    0 <= l < k ==> #[trigger] saved@[l].name@ != name@);
                let c = choose|x: int|
                    0 <= x < saved@.len() && #[trigger] saved@[x].name@ == name@ && forall|l: int|
                        0 <= l < x ==> #[trigger] saved@[l].name@ != name@;
                if c < k {
                    assert(saved@[c].name@ != name@);
                } else if c > k {
                    assert(saved@[k as int].name@ != name@);
                }
            }
            return Some(k);
        }
        k = k + 1;
    }
    None
}

/// Why a save of `query` under `name` is refused before the store is read.
pub open spec fn save_problem(name: Seq<char>, query: Seq<char>) -> Option<Seq<char>> {
    if spec_trim(name).len() == 0 {
        Some("a saved query needs a name"@)
    } else if spec_trim(query).len() == 0 {
        Some("a saved query needs a query"@)
    } else if encode_utf8(query).len() > MAX_QUERY_BYTES {
        Some(
            "that query is "@ + spec_decimal(encode_utf8(query).len()) + " bytes, past the 65536 byte ceiling for one saved query."@,
        )
    } else {
        None
    }
}

/// The saved list after saving `entry`: it replaces the first entry of the
/// same name, or is appended.
pub open spec fn saved_after(saved: Seq<SavedQuery>, entry: SavedQuery) -> Seq<SavedQuery> {
    match first_named(saved, entry.name@) {
        Some(k) => saved.update(k, entry),
        None => saved.push(entry),
    }
}

/// The saved list without any entry named `name`.
pub open spec fn without_name(saved: Seq<SavedQuery>, name: Seq<char>) -> Seq<SavedQuery>
    decreases saved.len(),
{
    if saved.len() == 0 {
        Seq::empty()
    } else {
        let rest = without_name(saved.drop_last(), name);
        if saved.last().name@ == name {
            rest
        } else {
            rest.push(saved.last())
        }
    }
}

/// The history without any entry for `query`.
pub open spec fn without_query(history: Seq<HistoryEntry>, query: Seq<char>) -> Seq<HistoryEntry>
    decreases history.len(),
{
    if history.len() == 0 {
        Seq::empty()
    } else {
        let rest = without_query(history.drop_last(), query);
        if history.last().query@ == query {
            rest
        } else {
            rest.push(history.last())
        }
    }
}

/// The history after `entry` ran: it goes first, any earlier run of the
/// same query is dropped, and only the most recent are kept.
pub open spec fn history_after(history: Seq<HistoryEntry>, entry: HistoryEntry) -> Seq<HistoryEntry> {
    let all = seq![entry] + without_query(history, entry.query@);
    if all.len() > MAX_HISTORY {
        all.subrange(0, MAX_HISTORY as int)
    } else {
        all
    }
}

fn clone_saved(q: &SavedQuery) -> (r: SavedQuery)
    ensures
        r == *q,
{
    SavedQuery { name: q.name.clone(), query: q.query.clone(), saved_at: q.saved_at }
}

proof fn lemma_first_named_is(saved: Seq<SavedQuery>, name: Seq<char>, k: int)
    requires
        0 <= k < saved.len(),
        saved[k].name@ == name,
        forall|l: int| 0 <= l < k ==> #[trigger] saved[l].name@ != name,
    ensures
        first_named(saved, name) == Some(k),
{
    let c = choose|x: int|
        0 <= x < saved.len() && #[trigger] saved[x].name@ == name && forall|l: int|
            0 <= l < x ==> #[trigger] saved[l].name@ != name;
    assert(0 <= k < saved.len() && saved[k].name@ == name && forall|l: int|
        0 <= l < k ==> #[trigger] saved[l].name@ != name);
    if c < k {
        assert(saved[c].name@ != name);
    } else if c > k {
        assert(saved[k].name@ != name);
    }
}

proof fn lemma_minimal_named(saved: Seq<SavedQuery>, name: Seq<char>, w: int)
    requires
        0 <= w < saved.len(),
        saved[w].name@ == name,
    ensures
        exists|k: int|
            0 <= k < saved.len() && #[trigger] saved[k].name@ == name && forall|l: int|
                0 <= l < k ==> #[trigger] saved[l].name@ != name,
    decreases w,
{
    if exists|l: int| 0 <= l < w && #[trigger] saved[l].name@ == name {
        let l = choose|l: int| 0 <= l < w && #[trigger] saved[l].name@ == name;
        lemma_minimal_named(saved, name, l);
    } else {
        assert(0 <= w < saved.len() && saved[w].name@ == name && forall|l: int|
            0 <= l < w ==> #[trigger] saved[l].name@ != name);
    }
}

/// The first query named `name`, where there is one, is in range, has
/// that name, and no earlier query has it.
pub proof fn lemma_first_named_valid(saved: Seq<SavedQuery>, name: Seq<char>)
    ensures
        first_named(saved, name) matches Some(k) ==> 0 <= k < saved.len() && saved[k].name@ == name
            && forall|l: int| 0 <= l < k ==> #[trigger] saved[l].name@ != name,
{
    if exists|k: int| 0 <= k < saved.len() && #[trigger] saved[k].name@ == name {
        let w = choose|k: int| 0 <= k < saved.len() && #[trigger] saved[k].name@ == name;
        lemma_minimal_named(saved, name, w);
    }
}

/// What is saved reads back: after saving `entry`, the first saved query of
/// its name is `entry`.
pub proof fn lemma_save_then_get(saved: Seq<SavedQuery>, entry: SavedQuery)
    ensures
        first_named(saved_after(saved, entry), entry.name@) matches Some(k) && saved_after(
            saved,
            entry,
        )[k] == entry,
{
    let after = saved_after(saved, entry);
    lemma_first_named_valid(saved, entry.name@);
    match first_named(saved, entry.name@) {
        Some(k) => {
            assert forall|l: int| 0 <= l < k implies #[trigger] after[l].name@ != entry.name@ by {
                assert(after[l] == saved[l]);
            }
            lemma_first_named_is(after, entry.name@, k);
        },
        None => {
            assert forall|l: int| 0 <= l < saved.len() implies #[trigger] after[l].name@
                != entry.name@ by {
                assert(after[l] == saved[l]);
            }
            lemma_first_named_is(after, entry.name@, saved.len() as int);
        },
    }
}

/// Saving under a name already kept replaces that entry; a new name adds
/// one.
pub proof fn lemma_save_replaces_by_name(saved: Seq<SavedQuery>, entry: SavedQuery)
    ensures
        saved_after(saved, entry).len() == saved.len() + if first_named(saved, entry.name@) is Some {
            0int
        } else {
            1int
        },
{
    lemma_first_named_valid(saved, entry.name@);
}

proof fn lemma_without_name_none(saved: Seq<SavedQuery>, name: Seq<char>)
    ensures
        forall|i: int| 0 <= i < without_name(saved, name).len() ==> #[trigger] without_name(saved, name)[i].name@ != name,
        without_name(saved, name).len() <= saved.len(),
    decreases saved.len(),
{
    if saved.len() > 0 {
        lemma_without_name_none(saved.drop_last(), name);
    }
}

/// After a delete, nothing of that name is left to read back, and nothing
/// was added.
pub proof fn lemma_delete_removes(saved: Seq<SavedQuery>, name: Seq<char>)
    ensures
        first_named(without_name(saved, name), name) is None,
        without_name(saved, name).len() <= saved.len(),
{
    lemma_without_name_none(saved, name);
}

/// No two history entries are runs of the same query.
pub open spec fn queries_distinct(history: Seq<HistoryEntry>) -> bool {
    forall|i: int, j: int|
        0 <= i < j < history.len() ==> #[trigger] history[i].query@ != #[trigger] history[j].query@
}

proof fn lemma_without_query(history: Seq<HistoryEntry>, query: Seq<char>)
    requires
        queries_distinct(history),
    ensures
        queries_distinct(without_query(history, query)),
        forall|i: int| 0 <= i < without_query(history, query).len() ==> (#[trigger] without_query(history, query)[i]).query@ != query,
        forall|i: int| 0 <= i < without_query(history, query).len() ==> history.contains(#[trigger] without_query(history, query)[i]),
    decreases history.len(),
{
    if history.len() > 0 {
        let rest = history.drop_last();
        assert(queries_distinct(rest)) by {
            assert forall|i: int, j: int| 0 <= i < j < rest.len() implies #[trigger] rest[i].query@ != #[trigger] rest[j].query@ by {
                assert(rest[i] == history[i] && rest[j] == history[j]);
            }
        }
        lemma_without_query(rest, query);
        let w = without_query(rest, query);
        assert forall|i: int| 0 <= i < w.len() implies history.contains(#[trigger] w[i]) by {
            assert(rest.contains(w[i]));
            let q = choose|q: int| 0 <= q < rest.len() && rest[q] == w[i];
            assert(history[q] == w[i]);
        }
        if history.last().query@ != query {
            let out = w.push(history.last());
            assert(history[history.len() - 1] == history.last());
            assert forall|i: int, j: int| 0 <= i < j < out.len() implies #[trigger] out[i].query@ != #[trigger] out[j].query@ by {
                if j == out.len() - 1 {
                    assert(history.contains(w[i]));
                    let q = choose|q: int| 0 <= q < history.len() && history[q] == w[i];
                    if q == history.len() - 1 {
                    } else {
                        assert(history[q].query@ != history[history.len() - 1].query@);
                    }
                } else {
                    assert(out[i] == w[i] && out[j] == w[j]);
                }
            }
            assert forall|i: int| 0 <= i < out.len() implies history.contains(#[trigger] out[i]) by {
                if i < w.len() {
                    assert(out[i] == w[i]);
                }
            }
        }
    }
}

/// A save reads back: in the file a save of `saved` writes (whose list and
/// get then read it, see `list` and `get`), the first query of its name is
/// `saved` itself; an existing save of that name is replaced in place and
/// otherwise `saved` is appended; the history is untouched.
pub proof fn lemma_store_reads_back_a_save(file: StoreFile, f: StoreFile, saved: SavedQuery)
    requires
        f.saved@ == saved_after(file.saved@, saved),
        f.history == file.history,
    ensures
        first_named(f.saved@, saved.name@) matches Some(k) && f.saved@[k] == saved,
        first_named(file.saved@, saved.name@) is Some ==> f.saved@.len() == file.saved@.len(),
        first_named(file.saved@, saved.name@) is None ==> f.saved@ == file.saved@.push(saved),
        f.history == file.history,
{
    lemma_save_then_get(file.saved@, saved);
    lemma_save_replaces_by_name(file.saved@, saved);
}

/// A delete reads back: in the file a delete of `name` writes, no query has
/// that name, and every query of another name is still there.
pub proof fn lemma_store_reads_back_a_delete(file: StoreFile, f: StoreFile, name: Seq<char>)
    requires
        f.saved@ == without_name(file.saved@, name),
    ensures
        first_named(f.saved@, name) is None,
        forall|i: int|
            0 <= i < file.saved@.len() && file.saved@[i].name@ != name ==> f.saved@.contains(
                #[trigger] file.saved@[i],
            ),
{
    lemma_delete_removes(file.saved@, name);
    lemma_without_name_keeps(file.saved@, name);
}

proof fn lemma_without_name_keeps(saved: Seq<SavedQuery>, name: Seq<char>)
    ensures
        forall|i: int|
            0 <= i < saved.len() && saved[i].name@ != name ==> without_name(saved, name).contains(
                #[trigger] saved[i],
            ),
    decreases saved.len(),
{
    if saved.len() > 0 {
        let d = saved.drop_last();
        lemma_without_name_keeps(d, name);
        let rest = without_name(d, name);
        assert forall|i: int|
            0 <= i < saved.len() && saved[i].name@ != name implies without_name(saved, name).contains(
                #[trigger] saved[i],
            ) by {
            if i < saved.len() - 1 {
                assert(saved[i] == d[i]);
                assert(rest.contains(d[i]));
                let k = choose|k: int| 0 <= k < rest.len() && rest[k] == d[i];
                if saved.last().name@ != name {
                    assert(without_name(saved, name)[k] == d[i]);
                }
            } else {
                assert(without_name(saved, name) == rest.push(saved.last()));
                assert(without_name(saved, name)[rest.len() as int] == saved[i]);
            }
        }
    }
}

/// The history after a run is capped, most recent first, and holds each
/// query once: the run is first, every other entry was already there, and
/// no query appears twice.
pub proof fn lemma_history_after(history: Seq<HistoryEntry>, entry: HistoryEntry)
    requires
        queries_distinct(history),
    ensures
        history_after(history, entry).len() <= MAX_HISTORY,
        history_after(history, entry)[0] == entry,
        queries_distinct(history_after(history, entry)),
        forall|i: int|
            1 <= i < history_after(history, entry).len() ==> history.contains(
                #[trigger] history_after(history, entry)[i],
            ),
{
    lemma_without_query(history, entry.query@);
    let w = without_query(history, entry.query@);
    let all = seq![entry] + w;
    assert forall|i: int, j: int| 0 <= i < j < all.len() implies #[trigger] all[i].query@ != #[trigger] all[j].query@ by {
        if i == 0 {
            assert(all[j] == w[j - 1]);
        } else {
            assert(all[i] == w[i - 1] && all[j] == w[j - 1]);
        }
    }
    assert forall|i: int| 1 <= i < all.len() implies history.contains(#[trigger] all[i]) by {
        assert(all[i] == w[i - 1]);
    }
    let h = history_after(history, entry);
    assert forall|i: int, j: int| 0 <= i < j < h.len() implies #[trigger] h[i].query@ != #[trigger] h[j].query@ by {
        assert(h[i] == all[i] && h[j] == all[j]);
    }
    assert forall|i: int| 1 <= i < h.len() implies history.contains(#[trigger] h[i]) by {
        assert(h[i] == all[i]);
    }
}

impl QueryStore {
    /// The store for a graph: `root` is the store's directory where the
    /// machine has one, `graph_path` the graph's absolute path where the
    /// launch string names a file on disk.
    pub fn open(root: Option<String>, graph_path: Option<String>, graph_label: &str) -> (s: Self)
        ensures
            s.root == root,
            s.graph_path == graph_path,
            s.graph_label@ == graph_label@,
            s.file is Some <==> root is Some,
            s.file matches Some(f) ==> f@ == joined_path(
                root->0@,
                spec_file_name(
                    match graph_path {
                        Some(p) => Some(p@),
                        None => None,
                    },
                ),
            ),
    {
        let file = match &root {
            Some(r) => {
                let name = match &graph_path {
                    Some(p) => file_name_for(Some(p.as_str())),
                    None => file_name_for(None),
                };
                Some(join_path(r.as_str(), name.as_str()))
            },
            None => None,
        };
        QueryStore { file, root, graph_path, graph_label: graph_label.to_owned() }
    }

    /// Where this session's queries are kept.
    pub fn path(&self) -> (r: Option<&String>)
        ensures
            r == match &self.file {
                Some(f) => Some(f),
                None => None,
            },
    {
        match &self.file {
            Some(f) => Some(f),
            None => None,
        }
    }

    /// The store's root, for reports.
    pub fn root(&self) -> (r: Option<&String>)
        ensures
            r == match &self.root {
                Some(f) => Some(f),
                None => None,
            },
    {
        match &self.root {
            Some(f) => Some(f),
            None => None,
        }
    }

    /// The file this session writes, or the refusal of a machine with none.
    pub fn file(&self) -> (r: Result<&String, StoreError>)
        ensures
            self.file is Some ==> (r matches Ok(f) && f == self.file->0),
            self.file is None ==> (r matches Err(e) && is_store_refusal(e, no_store_message())),
    {
        match &self.file {
            Some(f) => Ok(f),
            None => Err(
                StoreError::Refused(
                    "no saved-query store on this machine: no config directory could be resolved. Set KGLITE_VISUAL_CONFIG_DIR to a writable directory to enable it.".to_owned(),
                ),
            ),
        }
    }

    /// The file of a graph that has saved nothing yet.
    pub fn empty_file(&self) -> (f: StoreFile)
        ensures
            f.version == FORMAT_VERSION,
            f.graph_path == self.graph_path,
            f.graph_label@ == self.graph_label@,
            f.saved@.len() == 0,
            f.history@.len() == 0,
    {
        StoreFile {
            version: FORMAT_VERSION,
            graph_path: self.graph_path.clone(),
            graph_label: self.graph_label.clone(),
            saved: Vec::new(),
            history: Vec::new(),
        }
    }

    /// A file as it is written: this format's version, and this session's
    /// path and label.
    pub fn stamp(&self, file: StoreFile) -> (f: StoreFile)
        ensures
            f.version == FORMAT_VERSION,
            f.graph_path == self.graph_path,
            f.graph_label@ == self.graph_label@,
            f.saved == file.saved,
            f.history == file.history,
    {
        StoreFile {
            version: FORMAT_VERSION,
            graph_path: self.graph_path.clone(),
            graph_label: self.graph_label.clone(),
            saved: file.saved,
            history: file.history,
        }
    }

    /// Everything this graph has, from what reading its file gave: the empty
    /// file of this graph when there is none yet, the file itself when it
    /// parsed, and a refusal (never a fresh file over it) when it did not.
    pub fn list(&self, read: StoreRead) -> (r: Result<StoreFile, StoreError>)
        ensures
            self.file is None ==> (r matches Err(e) && is_store_refusal(e, no_store_message())),
            self.file matches Some(path) ==> match read {
                StoreRead::Absent => r matches Ok(f) && f.version == FORMAT_VERSION && f.graph_path
                    == self.graph_path && f.graph_label@ == self.graph_label@ && f.saved@.len() == 0
                    && f.history@.len() == 0,
                StoreRead::Parsed(file) => r == Ok::<StoreFile, StoreError>(file),
                StoreRead::Unparsable(reason) => r matches Err(e) && is_store_refusal(
                    e,
                    path@ + " is not a saved-query file this version can read ("@ + reason@
                        + "). It has been left alone; move it aside to start a new one."@,
                ),
                StoreRead::Failed(message) => r matches Err(StoreError::Io(m)) && m@ == message@,
            },
    {
        let path = match self.file() {
            Ok(p) => p,
            Err(e) => {
                return Err(e);
            },
        };
        match read {
            StoreRead::Absent => Ok(self.empty_file()),
            StoreRead::Parsed(file) => Ok(file),
            StoreRead::Unparsable(reason) => Err(unreadable_store(path.as_str(), reason.as_str())),
            StoreRead::Failed(message) => Err(StoreError::Io(message)),
        }
    }


    /// Saves `query` under `name` (trimmed) at `saved_at` into the file as
    /// read, overwriting a save of the same name. Returns the file to write
    /// and the entry saved.
    pub fn save(
        &self,
        name: &str,
        query: &str,
        current: Result<StoreFile, StoreError>,
        saved_at: u64,
    ) -> (r: Result<(StoreFile, SavedQuery), StoreError>)
        ensures
            save_problem(name@, query@) matches Some(m) ==> r matches Err(e) && is_store_refusal(
                e,
                m,
            ),
            save_problem(name@, query@) is None && current is Err ==> r is Err,
            save_problem(name@, query@) is None ==> (current matches Ok(file) ==> {
                if first_named(file.saved@, spec_trim(name@)) is None && file.saved@.len()
                    >= MAX_SAVED_PER_GRAPH {
                    r matches Err(e) && is_store_refusal(
                        e,
                        "this graph already has 64 saved queries, which is the ceiling. Delete one before saving another."@,
                    )
                } else {
                    r matches Ok((f, saved)) && saved.name@ == spec_trim(name@) && saved.query@
                        == query@ && saved.saved_at == saved_at && f.saved@ == saved_after(
                        file.saved@,
                        saved,
                    ) && f.history == file.history && f.version == file.version && f.graph_path
                        == file.graph_path && f.graph_label == file.graph_label
                }
            }),
    {
        let trimmed = trim(name);
        if trimmed.as_str().is_empty() {
            return Err(StoreError::Refused("a saved query needs a name".to_owned()));
        }
        let body = trim(query);
        if body.as_str().is_empty() {
            return Err(StoreError::Refused("a saved query needs a query".to_owned()));
        }
        let len = query.as_bytes().len();
        if len > MAX_QUERY_BYTES {
            let head = concat("that query is ", decimal_string(len as u64).as_str());
            return Err(
                StoreError::Refused(
                    concat(
                        head.as_str(),
                        " bytes, past the 65536 byte ceiling for one saved query.",
                    ),
                ),
            );
        }
        let mut file = current?;
        let entry = SavedQuery { name: trimmed, query: query.to_owned(), saved_at };
        match find_named(&file.saved, entry.name.as_str()) {
            Some(k) => {
                file.saved.set(k, clone_saved(&entry));
            },
            None => {
                if file.saved.len() >= MAX_SAVED_PER_GRAPH {
                    return Err(
                        StoreError::Refused(
                            "this graph already has 64 saved queries, which is the ceiling. Delete one before saving another.".to_owned(),
                        ),
                    );
                }
                file.saved.push(clone_saved(&entry));
            },
        }
        Ok((file, entry))
    }

    /// Removes every saved query named `name` from the file as read. `None`
    /// means there was nothing by that name and nothing to write.
    pub fn delete(&self, name: &str, current: Result<StoreFile, StoreError>) -> (r: Result<
        Option<StoreFile>,
        StoreError,
    >)
        ensures
            current is Err ==> r is Err,
            current matches Ok(file) ==> {
                let kept = without_name(file.saved@, name@);
                r matches Ok(out) && (kept.len() == file.saved@.len() ==> out is None) && (kept.len()
                    != file.saved@.len() ==> (out matches Some(f) && f.saved@ == kept
                    && f.history == file.history && f.version == file.version && f.graph_path
                    == file.graph_path && f.graph_label == file.graph_label))
            },
    {
        let file = current?;
        let before = file.saved.len();
        let mut kept: Vec<SavedQuery> = Vec::new();
        let mut i: usize = 0;
        while i < file.saved.len()
            invariant
                i <= file.saved@.len(),
                kept@ == without_name(file.saved@.subrange(0, i as int), name@),
            decreases file.saved@.len() - i,
        {
            let ghost pre = file.saved@.subrange(0, i + 1);
            assert(pre.drop_last() =~= file.saved@.subrange(0, i as int));
            if !crate::export::str_eq(file.saved[i].name.as_str(), name) {
                kept.push(clone_saved(&file.saved[i]));
            }
            i = i + 1;
        }
        assert(file.saved@.subrange(0, file.saved@.len() as int) =~= file.saved@);
        if kept.len() == before {
            return Ok(None);
        }
        Ok(
            Some(
                StoreFile {
                    version: file.version,
                    graph_path: file.graph_path,
                    graph_label: file.graph_label,
                    saved: kept,
                    history: file.history,
                },
            ),
        )
    }

    /// The text of the first saved query named `name`, from the file as
    /// read.
    pub fn get(&self, name: &str, current: Result<StoreFile, StoreError>) -> (r: Result<
        Option<String>,
        StoreError,
    >)
        ensures
            current is Err ==> r is Err,
            current matches Ok(file) ==> (r matches Ok(out) && match first_named(
                file.saved@,
                name@,
            ) {
                Some(k) => out matches Some(q) && q@ == file.saved@[k].query@,
                None => out is None,
            }),
    {
        let file = current?;
        match find_named(&file.saved, name) {
            Some(k) => Ok(Some(file.saved[k].query.clone())),
            None => Ok(None),
        }
    }

    /// Records a query somebody asked to run, at `ran_at`, into the file as
    /// read: most recent first, each query once, at most twenty. A query
    /// that is blank or over the query ceiling (trimmed) is dropped rather
    /// than refused, and nothing is written: `None`.
    pub fn record(&self, query: &str, current: Result<StoreFile, StoreError>, ran_at: u64) -> (r:
        Result<Option<StoreFile>, StoreError>)
        ensures
            ({
                let q = spec_trim(query@);
                if q.len() == 0 || encode_utf8(q).len() > MAX_QUERY_BYTES {
                    r matches Ok(out) && out is None
                } else {
                    &&& current is Err ==> r is Err
                    &&& current matches Ok(file) ==> (r matches Ok(out) && out matches Some(f)
                        && f.history@.len() == history_after(
                        file.history@,
                        HistoryEntry { query: f.history@[0].query, ran_at },
                    ).len() && f.history@ == history_after(file.history@, f.history@[0])
                        && f.history@[0].query@ == q && f.history@[0].ran_at == ran_at
                        && f.saved == file.saved && f.version == file.version && f.graph_path
                        == file.graph_path && f.graph_label == file.graph_label)
                }
            }),
    {
        let q = trim(query);
        if q.as_str().is_empty() || q.as_str().as_bytes().len() > MAX_QUERY_BYTES {
            return Ok(None);
        }
        let file = current?;
        let mut history: Vec<HistoryEntry> = Vec::new();
        history.push(HistoryEntry { query: q.clone(), ran_at });
        let ghost first = history@[0];
        let mut i: usize = 0;
        while i < file.history.len()
            invariant
                i <= file.history@.len(),
                first.query@ == q@,
                history@ == seq![first] + without_query(file.history@.subrange(0, i as int), q@),
            decreases file.history@.len() - i,
        {
            let ghost pre = file.history@.subrange(0, i + 1);
            assert(pre.drop_last() =~= file.history@.subrange(0, i as int));
            if !crate::export::str_eq(file.history[i].query.as_str(), q.as_str()) {
                history.push(
                    HistoryEntry {
                        query: file.history[i].query.clone(),
                        ran_at: file.history[i].ran_at,
                    },
                );
            }
            i = i + 1;
        }
        assert(file.history@.subrange(0, file.history@.len() as int) =~= file.history@);
        history.truncate(MAX_HISTORY);
        Ok(
            Some(
                StoreFile {
                    version: file.version,
                    graph_path: file.graph_path,
                    graph_label: file.graph_label,
                    saved: file.saved,
                    history,
                },
            ),
        )
    }

}


/// Before a graph's first file is created: the directory may already hold
/// `existing` store files, at most the ceiling's worth. Updating a file
/// that exists is never refused by this.
pub fn check_new_store(existing: usize) -> (r: Result<(), StoreError>)
    ensures
        existing < MAX_STORE_FILES ==> r is Ok,
        existing >= MAX_STORE_FILES ==> (r matches Err(e) && is_store_refusal(
            e,
            "the saved-query store already holds "@ + spec_decimal(existing as nat)
                + " graphs (ceiling 512) and this graph has none yet. Run `kglite-visual queries prune` to drop the ones whose graph is gone, or `kglite-visual queries rm <file>`."@,
        )),
{
    if existing >= MAX_STORE_FILES {
        let head = concat("the saved-query store already holds ", decimal_string(existing as u64).as_str());
        return Err(
            StoreError::Refused(
                concat(
                    head.as_str(),
                    " graphs (ceiling 512) and this graph has none yet. Run `kglite-visual queries prune` to drop the ones whose graph is gone, or `kglite-visual queries rm <file>`.",
                ),
            ),
        );
    }
    Ok(())
}

/// The encoded file may be at most the store-file ceiling.
pub fn check_file_bytes(len: usize) -> (r: Result<(), StoreError>)
    ensures
        len <= MAX_STORE_FILE_BYTES ==> r is Ok,
        len > MAX_STORE_FILE_BYTES ==> (r matches Err(e) && is_store_refusal(
            e,
            "this graph's saved queries would be "@ + spec_decimal(len as nat)
                + " bytes, past the 262144 byte ceiling for one store file. Delete some before saving more."@,
        )),
{
    if len > MAX_STORE_FILE_BYTES {
        let head = concat("this graph's saved queries would be ", decimal_string(len as u64).as_str());
        return Err(
            StoreError::Refused(
                concat(
                    head.as_str(),
                    " bytes, past the 262144 byte ceiling for one store file. Delete some before saving more.",
                ),
            ),
        );
    }
    Ok(())
}

/// The refusal for a file that cannot be parsed: it is left alone rather
/// than replaced, and the message says so.
pub fn unreadable_store(path: &str, reason: &str) -> (e: StoreError)
    ensures
        is_store_refusal(
            e,
            path@ + " is not a saved-query file this version can read ("@ + reason@
                + "). It has been left alone; move it aside to start a new one."@,
        ),
{
    let a = concat(path, " is not a saved-query file this version can read (");
    let b = concat(a.as_str(), reason);
    StoreError::Refused(
        concat(b.as_str(), "). It has been left alone; move it aside to start a new one."),
    )
}

/// The two ceilings a write meets, in order: a store file that does not
/// exist yet may not be created once the directory holds `MAX_STORE_FILES`
/// of them (an existing file is always updatable), and the encoded file may
/// not pass `MAX_STORE_FILE_BYTES`.
pub fn check_write(exists: bool, existing_files: usize, encoded_len: usize) -> (r: Result<(), StoreError>)
    ensures
        !exists && existing_files >= MAX_STORE_FILES ==> (r matches Err(e) && is_store_refusal(
            e,
            "the saved-query store already holds "@ + spec_decimal(existing_files as nat)
                + " graphs (ceiling 512) and this graph has none yet. Run `kglite-visual queries prune` to drop the ones whose graph is gone, or `kglite-visual queries rm <file>`."@,
        )),
        (exists || existing_files < MAX_STORE_FILES) && encoded_len > MAX_STORE_FILE_BYTES ==> (r matches Err(e)
            && is_store_refusal(
            e,
            "this graph's saved queries would be "@ + spec_decimal(encoded_len as nat)
                + " bytes, past the 262144 byte ceiling for one store file. Delete some before saving more."@,
        )),
        (exists || existing_files < MAX_STORE_FILES) && encoded_len <= MAX_STORE_FILE_BYTES ==> r is Ok,
{
    if !exists {
        check_new_store(existing_files)?;
    }
    check_file_bytes(encoded_len)
}

/// One row of the store listing.
#[derive(Debug, Clone)]
pub struct StoreFileReport {
    pub file: String,
    pub graph_path: Option<String>,
    pub graph_label: String,
    pub saved: usize,
    pub history: usize,
    pub bytes: u64,
    /// The file names a path and nothing is there any more.
    pub graph_missing: bool,
}

/// The listing row of one store file, described from its own contents:
/// `parsed` is none for a file that could not be read, which is reported
/// rather than skipped; `graph_exists` says whether the path the file names
/// is a file on disk.
pub fn report_for(file: String, parsed: Option<StoreFile>, bytes: u64, graph_exists: bool) -> (r:
    StoreFileReport)
    ensures
        r.file == file,
        r.bytes == bytes,
        match parsed {
            Some(f) => {
                &&& r.graph_path == f.graph_path
                &&& r.graph_label == f.graph_label
                &&& r.saved == f.saved@.len()
                &&& r.history == f.history@.len()
                &&& r.graph_missing == (f.graph_path is Some && !graph_exists)
            },
            None => {
                &&& r.graph_path is None
                &&& r.graph_label@ == "<unreadable>"@
                &&& r.saved == 0
                &&& r.history == 0
                &&& !r.graph_missing
            },
        },
{
    match parsed {
        Some(f) => {
            let missing = f.graph_path.is_some() && !graph_exists;
            StoreFileReport {
                file,
                graph_missing: missing,
                saved: f.saved.len(),
                history: f.history.len(),
                graph_path: f.graph_path,
                graph_label: f.graph_label,
                bytes,
            }
        },
        None => StoreFileReport {
            file,
            graph_path: None,
            graph_label: "<unreadable>".to_owned(),
            saved: 0,
            history: 0,
            bytes,
            graph_missing: false,
        },
    }
}

/// The names of the files whose graph is gone, in listing order.
pub open spec fn missing_files(reports: Seq<StoreFileReport>) -> Seq<Seq<char>>
    decreases reports.len(),
{
    if reports.len() == 0 {
        Seq::empty()
    } else {
        let rest = missing_files(reports.drop_last());
        if reports.last().graph_missing {
            rest.push(reports.last().file@)
        } else {
            rest
        }
    }
}

/// The files `prune` takes: those whose graph is gone from disk, in listing
/// order.
pub fn prune_candidates(reports: &Vec<StoreFileReport>) -> (r: Vec<String>)
    ensures
        r@.map_values(|f: String| f@) == missing_files(reports@),
{
    let mut out: Vec<String> = Vec::new();
    let mut i: usize = 0;
    while i < reports.len()
        invariant
            i <= reports@.len(),
            out@.map_values(|f: String| f@) == missing_files(reports@.subrange(0, i as int)),
        decreases reports@.len() - i,
    {
        let ghost pre = reports@.subrange(0, i + 1);
        assert(pre.drop_last() =~= reports@.subrange(0, i as int));
        let ghost before = out@;
        if reports[i].graph_missing {
            out.push(reports[i].file.clone());
            assert(out@.map_values(|f: String| f@) =~= before.map_values(|f: String| f@).push(
                reports@[i as int].file@,
            ));
        }
        i = i + 1;
    }
    assert(reports@.subrange(0, reports@.len() as int) =~= reports@);
    out
}

/// A name `rm` may delete: exactly the name of one of the store's files,
/// never a path that reaches outside it.
pub fn is_store_file_name(names: &Vec<String>, file: &str) -> (r: bool)
    ensures
        r == exists|k: int| 0 <= k < names@.len() && (#[trigger] names@[k])@ == file@,
{
    let mut i: usize = 0;
    while i < names.len()
        invariant
            i <= names@.len(),
            forall|k: int| 0 <= k < i ==> (#[trigger] names@[k])@ != file@,
        decreases names@.len() - i,
    {
        if crate::export::str_eq(names[i].as_str(), file) {
            return true;
        }
        i = i + 1;
    }
    false
}

} // verus!
