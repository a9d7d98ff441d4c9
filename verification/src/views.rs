//! The bounded saved-view catalog: names, quotas and what each change does
//! to the catalog. Payload semantics belong to the caller; holding the
//! lock, reading, encoding and replacing the catalog file is done around
//! these functions.
use vstd::prelude::*;
use vstd::utf8::encode_utf8;

use crate::export::is_control;
use crate::text::{
    concat, debug_quote, debug_text, decimal_string, lemma_lex_order, lex_lt, spec_decimal, spec_trim,
    text_order, trim,
};

verus! {

/// The catalog format this version reads and writes.
pub const FORMAT_VERSION: u32 = 1;

/// Saved views one catalog may hold.
pub const MAX_VIEWS: usize = 20;

/// Serialized bytes one saved view may take.
pub const MAX_VIEW_BYTES: usize = 4194304;

/// Serialized bytes the whole catalog may take.
pub const MAX_CATALOG_BYTES: usize = 41943040;

/// Bytes one view's name may take.
pub const MAX_NAME_BYTES: usize = 128;

/// Why a catalog operation did not happen.
#[derive(Debug)]
pub enum ViewStoreError {
    Refused(String),
    Io(String),
}

impl ViewStoreError {
    /// The text a caller is shown.
    pub fn message(&self) -> (s: &str)
        ensures
            match self {
                ViewStoreError::Refused(m) => s@ == m@,
                ViewStoreError::Io(m) => s@ == m@,
            },
    {
        match self {
            ViewStoreError::Refused(m) => m.as_str(),
            ViewStoreError::Io(m) => m.as_str(),
        }
    }
}

/// `e` is the refusal whose message is `msg`.
pub open spec fn is_view_refusal(e: ViewStoreError, msg: Seq<char>) -> bool {
    e matches ViewStoreError::Refused(m) && m@ == msg
}

fn refuse(message: &str) -> (e: ViewStoreError)
    ensures
        is_view_refusal(e, message@),
{
    ViewStoreError::Refused(message.to_owned())
}

/// The refusal of a catalog file past the ceiling.
pub open spec fn oversized_catalog_message() -> Seq<char> {
    "saved-view catalog exceeds 40 MiB; existing work was not overwritten"@
}

/// A catalog file of `len` bytes may be read only up to the catalog
/// ceiling; past it the file is refused and left as it is.
pub fn check_catalog_bytes(len: u64) -> (r: Result<(), ViewStoreError>)
    ensures
        len <= MAX_CATALOG_BYTES ==> r is Ok,
        len > MAX_CATALOG_BYTES ==> (r matches Err(e) && is_view_refusal(e, oversized_catalog_message())),
{
    if len > MAX_CATALOG_BYTES as u64 {
        return Err(refuse("saved-view catalog exceeds 40 MiB; existing work was not overwritten"));
    }
    Ok(())
}

/// One saved view: its name, when it was saved (Unix seconds), and its
/// bookmark as compact JSON text.
#[derive(Debug, Clone)]
pub struct SavedView {
    pub name: String,
    pub saved_at: u64,
    pub bookmark: String,
}

/// What a listing shows of a saved view.
#[derive(Debug, Clone)]
pub struct SavedViewSummary {
    pub name: String,
    pub saved_at: u64,
}

/// The catalog file's contents.
#[derive(Debug, Clone)]
pub struct Catalog {
    pub format_version: u32,
    pub views: Vec<SavedView>,
}

impl Default for Catalog {
    /// An empty catalog of the current format.
    fn default() -> (c: Self)
        ensures
            c.format_version == FORMAT_VERSION,
            c.views@.len() == 0,
    {
        Catalog { format_version: FORMAT_VERSION, views: Vec::new() }
    }
}

/// Where the catalog lives, or none when the machine offers no config
/// directory.
#[derive(Debug, Clone)]
pub struct ViewStore {
    pub root: Option<String>,
}

/// The message every invalid name is refused with.
pub open spec fn name_message() -> Seq<char> {
    "saved-view name must contain 1\u{2013}128 bytes and no control characters"@
}

/// A name is non-blank, at most 128 bytes, and free of control characters.
pub open spec fn name_ok(name: Seq<char>) -> bool {
    &&& spec_trim(name).len() > 0
    &&& encode_utf8(name).len() <= MAX_NAME_BYTES
    &&& forall|i: int| 0 <= i < name.len() ==> !is_control(#[trigger] name[i])
}

/// Refuses a name that is blank, over 128 bytes, or holds a control
/// character.
pub fn validate_name(name: &str) -> (r: Result<(), ViewStoreError>)
    ensures
        name_ok(name@) ==> r is Ok,
        !name_ok(name@) ==> (r matches Err(e) && is_view_refusal(e, name_message())),
{
    let trimmed = trim(name);
    if trimmed.as_str().is_empty() || name.as_bytes().len() > MAX_NAME_BYTES {
        return Err(refuse("saved-view name must contain 1\u{2013}128 bytes and no control characters"));
    }
    let chars = crate::text::chars_of(name);
    let mut i: usize = 0;
    while i < chars.len()
        invariant
            chars@ == name@,
            i <= chars@.len(),
            forall|k: int| 0 <= k < i ==> !is_control(#[trigger] name@[k]),
        decreases chars@.len() - i,
    {
        let u = chars[i] as u32;
        if u <= 0x1f || (0x7f <= u && u <= 0x9f) {
            assert(is_control(name@[i as int]));
            return Err(refuse("saved-view name must contain 1\u{2013}128 bytes and no control characters"));
        }
        i = i + 1;
    }
    Ok(())
}

/// How many characters of `s` JSON escapes with a backslash, control
/// characters aside: quotes and backslashes.
pub open spec fn escaped_count(s: Seq<char>) -> nat
    decreases s.len(),
{
    if s.len() == 0 {
        0
    } else {
        escaped_count(s.drop_last()) + if s.last() == '"' || s.last() == '\\' {
            1nat
        } else {
            0nat
        }
    }
}

/// Bytes of `s` as a JSON string, for text without control characters.
pub open spec fn json_text_len(s: Seq<char>) -> nat {
    encode_utf8(s).len() + escaped_count(s) + 2
}

/// Bytes of a saved view as compact JSON:
/// `{"name":…,"saved_at":…,"bookmark":…}`.
pub open spec fn view_json_len(v: SavedView) -> nat {
    view_len_of(v.name@, v.saved_at, v.bookmark@)
}

/// Bytes of a saved view with these fields, as compact JSON.
pub open spec fn view_len_of(name: Seq<char>, saved_at: u64, bookmark: Seq<char>) -> nat {
    8 + json_text_len(name) + 12 + spec_decimal(saved_at as nat).len() + 12 + encode_utf8(
        bookmark,
    ).len() + 1
}

/// The sum of the views' JSON sizes, with a comma between each two.
pub open spec fn views_json_len(views: Seq<SavedView>) -> nat
    decreases views.len(),
{
    if views.len() == 0 {
        0
    } else if views.len() == 1 {
        view_json_len(views[0])
    } else {
        views_json_len(views.drop_last()) + 1 + view_json_len(views.last())
    }
}

/// Bytes of a catalog as compact JSON:
/// `{"format_version":…,"views":[…]}`.
pub open spec fn catalog_json_len(c: Catalog) -> nat {
    json_len_of(c.format_version, c.views@)
}

/// Bytes of a catalog of this version and these views, as compact JSON.
pub open spec fn json_len_of(version: u32, views: Seq<SavedView>) -> nat {
    18 + spec_decimal(version as nat).len() + 10 + views_json_len(views) + 2
}

fn json_text_bytes(s: &str) -> (n: usize)
    requires
        encode_utf8(s@).len() <= MAX_NAME_BYTES,
    ensures
        n == json_text_len(s@),
        n <= 2 * MAX_NAME_BYTES + 2,
{
    proof {
        lemma_chars_within_bytes(s@);
    }
    let chars = crate::text::chars_of(s);
    let mut escapes: usize = 0;
    let mut i: usize = 0;
    while i < chars.len()
        invariant
            chars@ == s@,
            i <= chars@.len(),
            escapes == escaped_count(s@.subrange(0, i as int)),
            escapes <= i,
            chars@.len() <= encode_utf8(s@).len(),
        decreases chars@.len() - i,
    {
        let ghost pre = s@.subrange(0, i + 1);
        assert(pre.drop_last() =~= s@.subrange(0, i as int));
        if chars[i] == '"' || chars[i] == '\\' {
            escapes = escapes + 1;
        }
        i = i + 1;
    }
    assert(s@.subrange(0, chars@.len() as int) =~= s@);
    s.as_bytes().len() + escapes + 2
}

proof fn lemma_chars_within_bytes(s: Seq<char>)
    ensures
        s.len() <= encode_utf8(s).len(),
    decreases s.len(),
{
    if s.len() > 0 {
        lemma_chars_within_bytes(s.drop_first());
    }
}

fn view_bytes(v: &SavedView) -> (n: usize)
    requires
        encode_utf8(v.name@).len() <= MAX_NAME_BYTES,
        encode_utf8(v.bookmark@).len() <= usize::MAX - 1000,
    ensures
        n == view_json_len(*v),
        n <= encode_utf8(v.bookmark@).len() + 400,
{
    let name = json_text_bytes(v.name.as_str());
    let stamp = decimal_string(v.saved_at).as_str().as_bytes().len();
    proof {
        lemma_decimal_len(v.saved_at as nat);
    }
    8 + name + 12 + stamp + 12 + v.bookmark.as_str().as_bytes().len() + 1
}

proof fn lemma_decimal_len(n: nat)
    requires
        n <= u64::MAX,
    ensures
        encode_utf8(spec_decimal(n)).len() == spec_decimal(n).len(),
        spec_decimal(n).len() <= 20,
{
    crate::text::lemma_decimal_ascii(n);
}


/// Whether a view's JSON fits in one view's ceiling.
fn view_fits(v: &SavedView) -> (r: bool)
    requires
        encode_utf8(v.name@).len() <= MAX_NAME_BYTES,
    ensures
        r == (view_json_len(*v) <= MAX_VIEW_BYTES),
{
    if v.bookmark.as_str().as_bytes().len() > MAX_VIEW_BYTES {
        return false;
    }
    view_bytes(v) <= MAX_VIEW_BYTES
}

/// Why a catalog's views, from position `i` on, are refused, in the order
/// they are checked.
pub open spec fn views_problem(views: Seq<SavedView>, i: int) -> Option<Seq<char>>
    decreases views.len() - i,
{
    if i < 0 || i >= views.len() {
        None
    } else if !name_ok(views[i].name@) {
        Some(name_message())
    } else if exists|k: int| 0 <= k < i && #[trigger] views[k].name@ == views[i].name@ {
        Some("saved-view catalog has duplicate names"@)
    } else if view_json_len(views[i]) > MAX_VIEW_BYTES {
        Some("saved view exceeds 4 MiB"@)
    } else {
        views_problem(views, i + 1)
    }
}

/// Why a catalog is refused, if it is: another format version, more than
/// twenty views, or an invalid, repeated or oversized view.
pub open spec fn catalog_problem(c: Catalog) -> Option<Seq<char>> {
    problem_of(c.format_version, c.views@)
}

/// Why a catalog of this version and these views is refused, if it is.
pub open spec fn problem_of(version: u32, views: Seq<SavedView>) -> Option<Seq<char>> {
    if version != FORMAT_VERSION {
        Some(
            "unsupported saved-view catalog version "@ + spec_decimal(version as nat)
                + "; supported version is 1"@,
        )
    } else if views.len() > MAX_VIEWS {
        Some("saved-view catalog exceeds 20 views"@)
    } else {
        views_problem(views, 0)
    }
}

/// Checks a catalog as read or as about to be written.
#[verifier::loop_isolation(false)]
pub fn validate_catalog(catalog: &Catalog) -> (r: Result<(), ViewStoreError>)
    ensures
        r is Ok <==> catalog_problem(*catalog) is None,
        r matches Err(e) ==> is_view_refusal(e, catalog_problem(*catalog)->0),
{
    if catalog.format_version != FORMAT_VERSION {
        let head = concat(
            "unsupported saved-view catalog version ",
            decimal_string(catalog.format_version as u64).as_str(),
        );
        return Err(ViewStoreError::Refused(concat(head.as_str(), "; supported version is 1")));
    }
    if catalog.views.len() > MAX_VIEWS {
        return Err(refuse("saved-view catalog exceeds 20 views"));
    }
    let mut i: usize = 0;
    while i < catalog.views.len()
        invariant
            i <= catalog.views@.len(),
            catalog.format_version == FORMAT_VERSION,
            catalog.views@.len() <= MAX_VIEWS,
            views_problem(catalog.views@, 0) == views_problem(catalog.views@, i as int),
        decreases catalog.views@.len() - i,
    {
        let v = &catalog.views[i];
        validate_name(v.name.as_str())?;
        let mut k: usize = 0;
        while k < i
            invariant
                k <= i,
                i < catalog.views@.len(),
                *v == catalog.views@[i as int],
                forall|x: int| 0 <= x < k ==> #[trigger] catalog.views@[x].name@ != catalog.views@[i as int].name@,
            decreases i - k,
        {
            if catalog.views[k].name == v.name {
                assert(catalog.views@[k as int].name@ == catalog.views@[i as int].name@);
                return Err(refuse("saved-view catalog has duplicate names"));
            }
            k = k + 1;
        }
        if !view_fits(v) {
            return Err(refuse("saved view exceeds 4 MiB"));
        }
        i = i + 1;
    }
    Ok(())
}

/// Every view of `views` is named validly.
pub open spec fn names_valid(views: Seq<SavedView>) -> bool {
    forall|i: int| 0 <= i < views.len() ==> name_ok(#[trigger] views[i].name@)
}

/// Whether a catalog's JSON fits the catalog ceiling.
fn catalog_fits(catalog: &Catalog) -> (r: bool)
    requires
        names_valid(catalog.views@),
    ensures
        r == (catalog_json_len(*catalog) <= MAX_CATALOG_BYTES),
{
    proof {
        lemma_decimal_len(catalog.format_version as nat);
    }
    let head = 18 + decimal_string(catalog.format_version as u64).as_str().as_bytes().len() + 10 + 2;
    let mut total: usize = head;
    let mut i: usize = 0;
    while i < catalog.views.len()
        invariant
            names_valid(catalog.views@),
            i <= catalog.views@.len(),
            head == 18 + spec_decimal(catalog.format_version as nat).len() + 10 + 2,
            total == head + views_json_len(catalog.views@.subrange(0, i as int)),
            total <= MAX_CATALOG_BYTES,
        decreases catalog.views@.len() - i,
    {
        let v = &catalog.views[i];
        assert(name_ok(catalog.views@[i as int].name@));
        let ghost pre = catalog.views@.subrange(0, i + 1);
        assert(pre.drop_last() =~= catalog.views@.subrange(0, i as int));
        proof {
            if i == 0 {
                assert(pre =~= seq![catalog.views@[0]]);
            }
        }
        if v.bookmark.as_str().as_bytes().len() > MAX_CATALOG_BYTES {
            proof {
                assert(views_json_len(pre) >= view_json_len(catalog.views@[i as int]));
                lemma_views_len_grows(catalog.views@, i as int + 1, catalog.views@.len() as int);
                assert(catalog.views@.subrange(0, catalog.views@.len() as int) =~= catalog.views@);
            }
            return false;
        }
        let size = view_bytes(v);
        let comma: usize = if i == 0 { 0 } else { 1 };
        if size + comma > MAX_CATALOG_BYTES - total {
            proof {
                assert(views_json_len(pre) == views_json_len(catalog.views@.subrange(0, i as int)) + comma + size);
                lemma_views_len_grows(catalog.views@, i as int + 1, catalog.views@.len() as int);
                assert(catalog.views@.subrange(0, catalog.views@.len() as int) =~= catalog.views@);
            }
            return false;
        }
        total = total + comma + size;
        i = i + 1;
    }
    assert(catalog.views@.subrange(0, catalog.views@.len() as int) =~= catalog.views@);
    true
}

proof fn lemma_views_len_grows(views: Seq<SavedView>, j: int, k: int)
    requires
        0 <= j <= k <= views.len(),
    ensures
        views_json_len(views.subrange(0, j)) <= views_json_len(views.subrange(0, k)),
    decreases k - j,
{
    if j < k {
        lemma_views_len_grows(views, j, k - 1);
        let pre = views.subrange(0, k);
        assert(pre.drop_last() =~= views.subrange(0, k - 1));
    }
}

fn clone_view(v: &SavedView) -> (r: SavedView)
    ensures
        r == *v,
{
    SavedView { name: v.name.clone(), saved_at: v.saved_at, bookmark: v.bookmark.clone() }
}

/// `r` is `s` reordered through `p`, by name, ties kept in their order.
pub open spec fn sorted_by_name(s: Seq<SavedView>, r: Seq<SavedView>, p: Seq<int>) -> bool {
    &&& r.len() == s.len()
    &&& p.len() == s.len()
    &&& forall|k: int| 0 <= k < r.len() ==> 0 <= #[trigger] p[k] < s.len() && r[k] == s[p[k]]
    &&& forall|k: int, l: int| 0 <= k < l < r.len() ==> #[trigger] p[k] != #[trigger] p[l]
    &&& forall|k: int, l: int|
        0 <= k < l < r.len() ==> lex_lt(#[trigger] r[k].name@, #[trigger] r[l].name@) || (
        r[k].name@ == r[l].name@ && p[k] < p[l])
}

/// Sorts views by name, stably.
#[verifier::loop_isolation(false)]
fn sort_by_name(views: Vec<SavedView>) -> (r: Vec<SavedView>)
    ensures
        exists|p: Seq<int>| sorted_by_name(views@, r@, p),
{
    let ghost s = views@;
    let mut out: Vec<SavedView> = Vec::new();
    let ghost mut p: Seq<int> = Seq::empty();
    let mut i: usize = 0;
    while i < views.len()
        invariant
            views@ == s,
            i <= s.len(),
            sorted_by_name(s.subrange(0, i as int), out@, p),
        decreases s.len() - i,
    {
        let x = clone_view(&views[i]);
        let mut pos: usize = out.len();
        while pos > 0 && text_order(x.name.as_str(), out[pos - 1].name.as_str()) < 0
            invariant
                pos <= out@.len(),
                forall|l: int| pos <= l < out@.len() ==> lex_lt(x.name@, #[trigger] out@[l].name@),
            decreases pos,
        {
            pos = pos - 1;
        }
        let ghost old_out = out@;
        let ghost old_p = p;
        proof {
            if pos > 0 {
                assert(!lex_lt(x.name@, old_out[pos - 1].name@));
                assert forall|k: int| 0 <= k < pos implies !lex_lt(x.name@, #[trigger] old_out[k].name@) by {
                    if k < pos - 1 {
                        lemma_lex_order(x.name@, old_out[k].name@, old_out[pos - 1].name@);
                        lemma_lex_order(old_out[k].name@, old_out[pos - 1].name@, x.name@);
                    }
                }
            }
        }
        out.insert(pos, x);
        proof {
            p = old_p.insert(pos as int, i as int);
            let s2 = s.subrange(0, i + 1);
            assert(s2[i as int] == x);
            assert forall|k: int| 0 <= k < out@.len() implies 0 <= #[trigger] p[k] < s2.len()
                && out@[k] == s2[p[k]] by {
                if k < pos {
                    assert(out@[k] == old_out[k]);
                } else if k > pos {
                    assert(out@[k] == old_out[k - 1]);
                }
            }
            assert forall|k: int, l: int| 0 <= k < l < out@.len() implies #[trigger] p[k]
                != #[trigger] p[l] by {
                if k != pos && l != pos {
                    let k0 = if k < pos { k } else { k - 1 };
                    let l0 = if l < pos { l } else { l - 1 };
                    assert(old_p[k0] != old_p[l0]);
                }
            }
            assert forall|k: int, l: int| 0 <= k < l < out@.len() implies lex_lt(
                #[trigger] out@[k].name@,
                #[trigger] out@[l].name@,
            ) || (out@[k].name@ == out@[l].name@ && p[k] < p[l]) by {
                if k == pos {
                    assert(out@[l] == old_out[l - 1]);
                } else if l == pos {
                    assert(out@[k] == old_out[k]);
                    assert(!lex_lt(x.name@, old_out[k].name@));
                    lemma_lex_order(old_out[k].name@, x.name@, x.name@);
                } else {
                    let k0 = if k < pos { k } else { k - 1 };
                    let l0 = if l < pos { l } else { l - 1 };
                    assert(out@[k] == old_out[k0]);
                    assert(out@[l] == old_out[l0]);
                }
            }
            assert(sorted_by_name(s2, out@, p));
        }
        i = i + 1;
    }
    assert(s.subrange(0, s.len() as int) =~= s);
    out
}


/// The refusal every operation gives when the machine offers no config
/// directory.
pub open spec fn no_root_message() -> Seq<char> {
    "no config directory is available for saved views"@
}

/// The refusal for a name that is not in the catalog.
pub open spec fn missing_message(name: Seq<char>) -> Seq<char> {
    "saved view "@ + debug_text(name) + " does not exist"@
}

/// The first view named `name`.
pub open spec fn first_view(views: Seq<SavedView>, name: Seq<char>) -> Option<int> {
    if exists|k: int| 0 <= k < views.len() && #[trigger] views[k].name@ == name {
        Some(
            choose|k: int|
                0 <= k < views.len() && #[trigger] views[k].name@ == name && forall|l: int|
                    0 <= l < k ==> #[trigger] views[l].name@ != name,
        )
    } else {
        None
    }
}

fn find_view(views: &Vec<SavedView>, name: &str) -> (r: Option<usize>)
    ensures
        r is Some <==> first_view(views@, name@) is Some,
        r matches Some(k) ==> k == first_view(views@, name@)->0 && k < views@.len(),
{
    let mut k: usize = 0;
    while k < views.len()
        invariant
            k <= views@.len(),
            forall|l: int| 0 <= l < k ==> #[trigger] views@[l].name@ != name@,
        decreases views@.len() - k,
    {
        if crate::export::str_eq(views[k].name.as_str(), name) {
            proof {
                assert(0 <= k < views@.len() && views@[k as int].name@ == name@ && forall|l: int|
                    0 <= l < k ==> #[trigger] views@[l].name@ != name@);
                let c = choose|x: int|
                    0 <= x < views@.len() && #[trigger] views@[x].name@ == name@ && forall|l: int|
                        0 <= l < x ==> #[trigger] views@[l].name@ != name@;
                if c < k {
                    assert(views@[c].name@ != name@);
                } else if c > k {
                    assert(views@[k as int].name@ != name@);
                }
            }
            return Some(k);
        }
        k = k + 1;
    }
    None
}

/// The bookmark of the view a save would replace, for the caller to
/// validate before replacing it.
pub fn existing_bookmark<'a>(catalog: &'a Catalog, name: &str) -> (r: Option<&'a String>)
    ensures
        match first_view(catalog.views@, name@) {
            Some(k) => r matches Some(b) && *b == catalog.views@[k].bookmark,
            None => r is None,
        },
{
    match find_view(&catalog.views, name) {
        Some(k) => Some(&catalog.views[k].bookmark),
        None => None,
    }
}

/// The views after `saved` goes into `views`: it replaces the first view of
/// its name, or is appended.
pub open spec fn placed(views: Seq<SavedView>, saved: SavedView) -> Seq<SavedView> {
    match first_view(views, saved.name@) {
        Some(k) => views.update(k, saved),
        None => views.push(saved),
    }
}

/// What saving `saved` into catalog `c` gives, given the verdict on the
/// payload it would replace: refused without replacement asked for, or when
/// the verdict refuses, or when a new name would exceed the view quota;
/// otherwise the catalog sorted by name, checked and size-bounded.
pub open spec fn save_outcome(
    c: Catalog,
    saved: SavedView,
    replace: bool,
    verdict: Result<(), ViewStoreError>,
    r: Result<(Catalog, SavedViewSummary), ViewStoreError>,
) -> bool {
    let found = first_view(c.views@, saved.name@);
    if found is Some && !replace {
        r matches Err(e) && is_view_refusal(
            e,
            "saved view "@ + debug_text(saved.name@)
                + " already exists; explicit replacement is required"@,
        )
    } else if found is Some && verdict is Err {
        r matches Err(e) && verdict matches Err(v) && e == v
    } else if found is None && c.views@.len() >= MAX_VIEWS {
        r matches Err(e) && is_view_refusal(e, "saved-view catalog already holds 20 views"@)
    } else {
        exists|p: Seq<int>, views: Seq<SavedView>|
            #[trigger] sorted_by_name(placed(c.views@, saved), views, p) && if problem_of(
                c.format_version,
                views,
            ) is Some {
                r matches Err(e) && is_view_refusal(e, problem_of(c.format_version, views)->0)
            } else if json_len_of(c.format_version, views) > MAX_CATALOG_BYTES {
                r matches Err(e) && is_view_refusal(e, "saved-view catalog exceeds 40 MiB"@)
            } else {
                r matches Ok((o, summary)) && o.views@ == views && o.format_version
                    == c.format_version && summary.name@ == saved.name@ && summary.saved_at
                    == saved.saved_at
            }
    }
}

/// What deleting `name` from catalog `c` gives: refused when no view has the
/// name; otherwise the catalog without the first view of that name, checked
/// and size-bounded.
pub open spec fn delete_outcome(c: Catalog, name: Seq<char>, r: Result<Catalog, ViewStoreError>) -> bool {
    match first_view(c.views@, name) {
        None => r matches Err(e) && is_view_refusal(e, missing_message(name)),
        Some(k) => {
            let kept = c.views@.remove(k);
            if problem_of(c.format_version, kept) is Some {
                r matches Err(e) && is_view_refusal(e, problem_of(c.format_version, kept)->0)
            } else if json_len_of(c.format_version, kept) > MAX_CATALOG_BYTES {
                r matches Err(e) && is_view_refusal(e, "saved-view catalog exceeds 40 MiB"@)
            } else {
                r matches Ok(o) && o.views@ == kept && o.format_version == c.format_version
            }
        },
    }
}

/// A view to save: the name must be valid and the view within one view's
/// ceiling.
pub fn prepare_view(name: &str, bookmark: String, saved_at: u64) -> (r: Result<
    SavedView,
    ViewStoreError,
>)
    ensures
        !name_ok(name@) ==> (r matches Err(e) && is_view_refusal(e, name_message())),
        name_ok(name@) && view_len_of(name@, saved_at, bookmark@) <= MAX_VIEW_BYTES ==> (r matches Ok(
            v,
        ) && v.name@ == name@ && v.saved_at == saved_at && v.bookmark == bookmark),
        name_ok(name@) && view_len_of(name@, saved_at, bookmark@) > MAX_VIEW_BYTES ==> (r matches Err(
            e,
        ) && is_view_refusal(e, "saved view exceeds 4 MiB"@)),
{
    validate_name(name)?;
    let v = SavedView { name: name.to_owned(), saved_at, bookmark };
    if !view_fits(&v) {
        return Err(refuse("saved view exceeds 4 MiB"));
    }
    Ok(v)
}

impl ViewStore {
    /// A store rooted at `root`.
    pub fn at(root: String) -> (s: Self)
        ensures
            s.root == Some(root),
    {
        ViewStore { root: Some(root) }
    }

    /// Where the catalog lives.
    pub fn root(&self) -> (r: Option<&String>)
        ensures
            r == match &self.root {
                Some(f) => Some(f),
                None => None,
            },
    {
        match &self.root {
            Some(f) => Some(f),
            None => None,
        }
    }

    fn has_root(&self) -> (r: Result<(), ViewStoreError>)
        ensures
            self.root is Some ==> r is Ok,
            self.root is None ==> (r matches Err(e) && is_view_refusal(e, no_root_message())),
    {
        match &self.root {
            Some(_) => Ok(()),
            None => Err(refuse("no config directory is available for saved views")),
        }
    }

    /// Every saved view's name and time, in catalog order, from the catalog
    /// as read.
    pub fn list(&self, catalog: Result<Catalog, ViewStoreError>) -> (r: Result<
        Vec<SavedViewSummary>,
        ViewStoreError,
    >)
        ensures
            self.root is None ==> (r matches Err(e) && is_view_refusal(e, no_root_message())),
            self.root is Some && catalog is Err ==> r is Err,
            self.root is Some ==> (catalog matches Ok(c) ==> match catalog_problem(c) {
                Some(m) => r matches Err(e) && is_view_refusal(e, m),
                None => r matches Ok(list) && list@.len() == c.views@.len() && forall|i: int|
                    0 <= i < list@.len() ==> (#[trigger] list@[i]).name@ == c.views@[i].name@
                        && list@[i].saved_at == c.views@[i].saved_at,
            }),
    {
        self.has_root()?;
        let c = catalog?;
        validate_catalog(&c)?;
        let mut out: Vec<SavedViewSummary> = Vec::new();
        let mut i: usize = 0;
        while i < c.views.len()
            invariant
                i <= c.views@.len(),
                out@.len() == i,
                forall|k: int|
                    0 <= k < i ==> (#[trigger] out@[k]).name@ == c.views@[k].name@ && out@[k].saved_at
                        == c.views@[k].saved_at,
            decreases c.views@.len() - i,
        {
            out.push(SavedViewSummary { name: c.views[i].name.clone(), saved_at: c.views[i].saved_at });
            i = i + 1;
        }
        Ok(out)
    }

    /// The first saved view named `name`, from the catalog as read.
    pub fn get(&self, name: &str, catalog: Result<Catalog, ViewStoreError>) -> (r: Result<
        SavedView,
        ViewStoreError,
    >)
        ensures
            !name_ok(name@) ==> (r matches Err(e) && is_view_refusal(e, name_message())),
            name_ok(name@) && self.root is None ==> (r matches Err(e) && is_view_refusal(
                e,
                no_root_message(),
            )),
            name_ok(name@) && self.root is Some && catalog is Err ==> r is Err,
            name_ok(name@) && self.root is Some ==> (catalog matches Ok(c) ==> match first_view(
                c.views@,
                name@,
            ) {
                Some(k) => r matches Ok(v) && v == c.views@[k],
                None => r matches Err(e) && is_view_refusal(e, missing_message(name@)),
            }),
    {
        validate_name(name)?;
        self.has_root()?;
        let c = catalog?;
        match find_view(&c.views, name) {
            Some(k) => Ok(clone_view(&c.views[k])),
            None => {
                let head = concat("saved view ", debug_quote(name).as_str());
                Err(ViewStoreError::Refused(concat(head.as_str(), " does not exist")))
            },
        }
    }

    /// Saves a prepared view into the catalog as read, replacing a view of
    /// the same name only when `replace` is asked and `verdict` (the check
    /// of the payload it replaces) passes; never evicts another name.
    /// Returns the catalog to write, sorted by name.
    pub fn save_validated(
        &self,
        saved: SavedView,
        replace: bool,
        verdict: Result<(), ViewStoreError>,
        catalog: Result<Catalog, ViewStoreError>,
    ) -> (r: Result<(Catalog, SavedViewSummary), ViewStoreError>)
        ensures
            !name_ok(saved.name@) ==> (r matches Err(e) && is_view_refusal(e, name_message())),
            name_ok(saved.name@) && view_json_len(saved) > MAX_VIEW_BYTES ==> (r matches Err(e)
                && is_view_refusal(e, "saved view exceeds 4 MiB"@)),
            name_ok(saved.name@) && view_json_len(saved) <= MAX_VIEW_BYTES ==> {
                &&& self.root is None ==> (r matches Err(e) && is_view_refusal(e, no_root_message()))
                &&& self.root is Some && catalog is Err ==> r is Err
                &&& self.root is Some ==> (catalog matches Ok(c) ==> match catalog_problem(c) {
                    Some(m) => r matches Err(e) && is_view_refusal(e, m),
                    None => save_outcome(c, saved, replace, verdict, r),
                })
            },
    {
        validate_name(saved.name.as_str())?;
        if !view_fits(&saved) {
            return Err(refuse("saved view exceeds 4 MiB"));
        }
        self.has_root()?;
        let c = catalog?;
        validate_catalog(&c)?;
        let ghost c0 = c;
        let summary = SavedViewSummary { name: saved.name.clone(), saved_at: saved.saved_at };
        let mut views = c.views;
        match find_view(&views, saved.name.as_str()) {
            Some(k) => {
                if !replace {
                    let head = concat("saved view ", debug_quote(saved.name.as_str()).as_str());
                    return Err(
                        ViewStoreError::Refused(
                            concat(head.as_str(), " already exists; explicit replacement is required"),
                        ),
                    );
                }
                match verdict {
                    Err(e) => {
                        return Err(e);
                    },
                    Ok(()) => {},
                }
                views.set(k, saved);
            },
            None => {
                if views.len() >= MAX_VIEWS {
                    return Err(refuse("saved-view catalog already holds 20 views"));
                }
                views.push(saved);
            },
        }
        let ghost candidate = views@;
        assert(candidate == placed(c0.views@, saved));
        let sorted = sort_by_name(views);
        let out = Catalog { format_version: c.format_version, views: sorted };
        let ghost p = choose|p: Seq<int>| sorted_by_name(candidate, out.views@, p);
        assert(sorted_by_name(placed(c0.views@, saved), out.views@, p));
        validate_catalog(&out)?;
        proof {
            lemma_valid_names(out.views@, 0);
        }
        if !catalog_fits(&out) {
            return Err(refuse("saved-view catalog exceeds 40 MiB"));
        }
        Ok((out, summary))
    }

    /// Removes the first view named `name` from the catalog as read, and
    /// returns the catalog to write.
    pub fn delete(&self, name: &str, catalog: Result<Catalog, ViewStoreError>) -> (r: Result<
        Catalog,
        ViewStoreError,
    >)
        ensures
            !name_ok(name@) ==> (r matches Err(e) && is_view_refusal(e, name_message())),
            name_ok(name@) && self.root is None ==> (r matches Err(e) && is_view_refusal(
                e,
                no_root_message(),
            )),
            name_ok(name@) && self.root is Some && catalog is Err ==> r is Err,
            name_ok(name@) && self.root is Some ==> (catalog matches Ok(c) ==> delete_outcome(
                c,
                name@,
                r,
            )),
    {
        validate_name(name)?;
        self.has_root()?;
        let mut c = catalog?;
        match find_view(&c.views, name) {
            None => {
                let head = concat("saved view ", debug_quote(name).as_str());
                Err(ViewStoreError::Refused(concat(head.as_str(), " does not exist")))
            },
            Some(k) => {
                c.views.remove(k);
                validate_catalog(&c)?;
                proof {
                    assert(names_valid(c.views@)) by {
                        lemma_valid_names(c.views@, 0);
                    }
                }
                if !catalog_fits(&c) {
                    return Err(refuse("saved-view catalog exceeds 40 MiB"));
                }
                Ok(c)
            },
        }
    }
}

proof fn lemma_valid_names(views: Seq<SavedView>, i: int)
    requires
        0 <= i,
        views_problem(views, i) is None,
    ensures
        forall|k: int| i <= k < views.len() ==> name_ok(#[trigger] views[k].name@),
    decreases views.len() - i,
{
    if i < views.len() {
        lemma_valid_names(views, i + 1);
    }
}

proof fn lemma_first_view_names(views: Seq<SavedView>, name: Seq<char>)
    ensures
        first_view(views, name) matches Some(k) ==> 0 <= k < views.len() && views[k].name@ == name,
{
    if exists|k: int| 0 <= k < views.len() && #[trigger] views[k].name@ == name {
        let w = choose|k: int| 0 <= k < views.len() && #[trigger] views[k].name@ == name;
        lemma_earliest_name(views, name, w);
    }
}

proof fn lemma_earliest_name(views: Seq<SavedView>, name: Seq<char>, w: int)
    requires
        0 <= w < views.len(),
        views[w].name@ == name,
    ensures
        exists|k: int|
            0 <= k < views.len() && #[trigger] views[k].name@ == name && forall|l: int|
                0 <= l < k ==> #[trigger] views[l].name@ != name,
    decreases w,
{
    if exists|l: int| 0 <= l < w && #[trigger] views[l].name@ == name {
        let l = choose|l: int| 0 <= l < w && #[trigger] views[l].name@ == name;
        lemma_earliest_name(views, name, l);
    }
}

/// A reordering through `p` of `n` positions reaches every position.
proof fn lemma_reorder_onto(p: Seq<int>, n: int, i: int)
    requires
        p.len() == n,
        forall|k: int| 0 <= k < n ==> 0 <= #[trigger] p[k] < n,
        forall|k: int, l: int| 0 <= k < l < n ==> #[trigger] p[k] != #[trigger] p[l],
        0 <= i < n,
    ensures
        exists|k: int| 0 <= k < n && p[k] == i,
{
    assert(p.no_duplicates()) by {
        assert forall|k: int, l: int| 0 <= k < p.len() && 0 <= l < p.len() && k != l implies p[k] != p[l] by {
            if k < l {
                assert(p[k] != p[l]);
            } else {
                assert(p[l] != p[k]);
            }
        }
    }
    p.unique_seq_to_set();
    vstd::seq_lib::seq_to_set_is_finite(p);
    vstd::set_lib::lemma_int_range(0, n);
    let range = vstd::set_lib::set_int_range(0, n);
    assert(p.to_set().subset_of(range)) by {
        assert forall|x: int| p.to_set().contains(x) implies range.contains(x) by {
            let k = choose|k: int| 0 <= k < p.len() && p[k] == x;
        }
    }
    vstd::set_lib::lemma_subset_equality(p.to_set(), range);
    assert(range.contains(i));
    assert(p.to_set().contains(i));
}

/// A catalog that passes its checks from `i` on holds no name twice there.
proof fn lemma_unique_names(views: Seq<SavedView>, i: int)
    requires
        0 <= i,
        views_problem(views, i) is None,
    ensures
        forall|k: int, j: int| 0 <= k < j < views.len() && i <= j ==> #[trigger] views[k].name@ != #[trigger] views[j].name@,
    decreases views.len() - i,
{
    if i < views.len() {
        lemma_unique_names(views, i + 1);
        assert forall|k: int, j: int| 0 <= k < j < views.len() && i <= j implies #[trigger] views[k].name@ != #[trigger] views[j].name@ by {
            if j == i {
                assert(!(exists|m: int| 0 <= m < i && #[trigger] views[m].name@ == views[i].name@));
                assert(views[k].name@ != views[i].name@);
            }
        }
    }
}

proof fn lemma_first_view_found(views: Seq<SavedView>, name: Seq<char>, k: int)
    requires
        0 <= k < views.len(),
        views[k].name@ == name,
        forall|a: int, b: int| 0 <= a < b < views.len() ==> #[trigger] views[a].name@ != #[trigger] views[b].name@,
    ensures
        first_view(views, name) == Some(k),
{
    let f = first_view(views, name)->0;
    assert(first_view(views, name) is Some);
    if f < k {
        assert(views[f].name@ != views[k].name@);
    } else if f > k {
        assert(views[k].name@ != views[f].name@);
    }
}

/// A view that saves reads back as saved, and the catalog it is saved into
/// stays within its bounds: at most twenty views, each named once, within
/// 40 MiB.
pub proof fn lemma_saved_view_reads_back(
    c: Catalog,
    saved: SavedView,
    replace: bool,
    verdict: Result<(), ViewStoreError>,
    r: Result<(Catalog, SavedViewSummary), ViewStoreError>,
)
    requires
        save_outcome(c, saved, replace, verdict, r),
        r is Ok,
    ensures
        first_view(r->Ok_0.0.views@, saved.name@) matches Some(k) && r->Ok_0.0.views@[k] == saved,
        r->Ok_0.0.views@.len() <= MAX_VIEWS,
        json_len_of(r->Ok_0.0.format_version, r->Ok_0.0.views@) <= MAX_CATALOG_BYTES,
{
    let o = r->Ok_0.0;
    let placed_views = placed(c.views@, saved);
    let (p, views) = choose|p: Seq<int>, views: Seq<SavedView>|
        #[trigger] sorted_by_name(placed_views, views, p) && if problem_of(c.format_version, views) is Some {
            r matches Err(e) && is_view_refusal(e, problem_of(c.format_version, views)->0)
        } else if json_len_of(c.format_version, views) > MAX_CATALOG_BYTES {
            r matches Err(e) && is_view_refusal(e, "saved-view catalog exceeds 40 MiB"@)
        } else {
            r matches Ok((o, summary)) && o.views@ == views && o.format_version == c.format_version
                && summary.name@ == saved.name@ && summary.saved_at == saved.saved_at
        };
    assert(o.views@ == views);
    lemma_first_view_names(c.views@, saved.name@);
    let i0 = match first_view(c.views@, saved.name@) {
        Some(k) => k,
        None => c.views@.len() as int,
    };
    assert(placed_views[i0] == saved);
    lemma_reorder_onto(p, placed_views.len() as int, i0);
    let k = choose|k: int| 0 <= k < placed_views.len() && p[k] == i0;
    assert(views[k] == saved);
    lemma_unique_names(views, 0);
    lemma_first_view_found(views, saved.name@, k);
}

/// Saving a view never evicts another name: every view of another name the
/// catalog held is still in the catalog the save produces.
pub proof fn lemma_save_keeps_other_names(
    c: Catalog,
    saved: SavedView,
    replace: bool,
    verdict: Result<(), ViewStoreError>,
    r: Result<(Catalog, SavedViewSummary), ViewStoreError>,
    i: int,
)
    requires
        save_outcome(c, saved, replace, verdict, r),
        r is Ok,
        0 <= i < c.views@.len(),
        c.views@[i].name@ != saved.name@,
    ensures
        exists|k: int| 0 <= k < r->Ok_0.0.views@.len() && r->Ok_0.0.views@[k] == c.views@[i],
{
    let placed_views = placed(c.views@, saved);
    let (p, views) = choose|p: Seq<int>, views: Seq<SavedView>|
        #[trigger] sorted_by_name(placed_views, views, p) && if problem_of(c.format_version, views) is Some {
            r matches Err(e) && is_view_refusal(e, problem_of(c.format_version, views)->0)
        } else if json_len_of(c.format_version, views) > MAX_CATALOG_BYTES {
            r matches Err(e) && is_view_refusal(e, "saved-view catalog exceeds 40 MiB"@)
        } else {
            r matches Ok((o, summary)) && o.views@ == views && o.format_version == c.format_version
                && summary.name@ == saved.name@ && summary.saved_at == saved.saved_at
        };
    lemma_first_view_names(c.views@, saved.name@);
    match first_view(c.views@, saved.name@) {
        Some(f) => {
            assert(c.views@[f].name@ == saved.name@);
            assert(placed_views[i] == c.views@[i]);
        },
        None => {
            assert(placed_views[i] == c.views@[i]);
        },
    }
    lemma_reorder_onto(p, placed_views.len() as int, i);
    let k = choose|k: int| 0 <= k < placed_views.len() && p[k] == i;
    assert(views[k] == c.views@[i]);
}

/// Deleting a view from a catalog that passes its checks leaves no view of
/// that name and keeps every other view.
pub proof fn lemma_delete_removes_only_that_name(
    c: Catalog,
    name: Seq<char>,
    r: Result<Catalog, ViewStoreError>,
)
    requires
        catalog_problem(c) is None,
        delete_outcome(c, name, r),
        r is Ok,
    ensures
        first_view(r->Ok_0.views@, name) is None,
        forall|i: int|
            0 <= i < c.views@.len() && #[trigger] c.views@[i].name@ != name ==> r->Ok_0.views@.contains(
                c.views@[i],
            ),
{
    lemma_first_view_names(c.views@, name);
    let k = first_view(c.views@, name)->0;
    let kept = c.views@.remove(k);
    lemma_unique_names(c.views@, 0);
    assert(r->Ok_0.views@ == kept);
    assert forall|j: int| 0 <= j < kept.len() implies #[trigger] kept[j].name@ != name by {
        if j < k {
            assert(kept[j] == c.views@[j]);
            assert(c.views@[j].name@ != c.views@[k].name@);
        } else {
            assert(kept[j] == c.views@[j + 1]);
            assert(c.views@[k].name@ != c.views@[j + 1].name@);
        }
    }
    assert forall|i: int| 0 <= i < c.views@.len() && #[trigger] c.views@[i].name@ != name implies kept.contains(c.views@[i]) by {
        if i < k {
            assert(kept[i] == c.views@[i]);
        } else {
            assert(i != k);
            assert(kept[i - 1] == c.views@[i]);
        }
    }
}

/// One bounded catalog per server lifetime, held in memory: no file and no
/// source label key it.
#[derive(Debug)]
pub struct SessionViewStore {
    catalog: Catalog,
}

/// The views a session save must fit in the catalog ceiling: every view of
/// another name, then the new one.
pub open spec fn session_candidate(views: Seq<SavedView>, saved: SavedView) -> Seq<SavedView> {
    views.filter(|v: SavedView| v.name@ != saved.name@).push(saved)
}

/// What a session save of `saved` does to `views`, given the verdict on the
/// payload it would replace: refused without replacement asked for, when
/// the verdict refuses, when a new name would exceed the view quota, or when
/// the catalog would exceed its ceiling, each leaving the views as they
/// were; otherwise the views with `saved` placed, sorted by name.
pub open spec fn session_save_outcome(
    views: Seq<SavedView>,
    saved: SavedView,
    replace: bool,
    verdict: Result<(), ViewStoreError>,
    after: Seq<SavedView>,
    r: Result<SavedViewSummary, ViewStoreError>,
) -> bool {
    let found = first_view(views, saved.name@);
    if found is Some && !replace {
        after == views && (r matches Err(e) && is_view_refusal(
            e,
            "saved view already exists; explicit replacement is required"@,
        ))
    } else if found is Some && verdict is Err {
        after == views && (r matches Err(e) && verdict matches Err(v) && e == v)
    } else if found is None && views.len() >= MAX_VIEWS {
        after == views && (r matches Err(e) && is_view_refusal(e, "saved-view catalog already holds 20 views"@))
    } else if json_len_of(FORMAT_VERSION, session_candidate(views, saved)) > MAX_CATALOG_BYTES {
        after == views && (r matches Err(e) && is_view_refusal(e, "saved-view catalog exceeds 40 MiB"@))
    } else {
        &&& r matches Ok(summary) && summary.name@ == saved.name@ && summary.saved_at == saved.saved_at
        &&& exists|p: Seq<int>| #[trigger] sorted_by_name(placed(views, saved), after, p)
    }
}

/// No two views share a name.
pub open spec fn unique_names(views: Seq<SavedView>) -> bool {
    forall|a: int, b: int| 0 <= a < b < views.len() ==> #[trigger] views[a].name@ != #[trigger] views[b].name@
}

/// Copies of the views of another name than `saved`, then `saved`.
fn session_views(views: &Vec<SavedView>, saved: &SavedView) -> (r: Vec<SavedView>)
    requires
        names_valid(views@),
        name_ok(saved.name@),
    ensures
        r@ == session_candidate(views@, *saved),
        names_valid(r@),
{
    let mut others: Vec<SavedView> = Vec::new();
    let mut i: usize = 0;
    while i < views.len()
        invariant
            names_valid(views@),
            i <= views@.len(),
            others@ == views@.take(i as int).filter(|v: SavedView| v.name@ != saved.name@),
            names_valid(others@),
        decreases views@.len() - i,
    {
        let v = &views[i];
        proof {
            reveal(Seq::filter);
            assert(views@.take(i + 1).drop_last() =~= views@.take(i as int));
        }
        if !crate::export::str_eq(v.name.as_str(), saved.name.as_str()) {
            others.push(clone_view(v));
            proof {
                assert(name_ok(views@[i as int].name@));
            }
        }
        i = i + 1;
    }
    assert(views@.take(views@.len() as int) =~= views@);
    others.push(clone_view(saved));
    others
}

impl SessionViewStore {
    /// The store's views, in catalog order.
    pub closed spec fn views(&self) -> Seq<SavedView> {
        self.catalog.views@
    }

    /// Every kept view has a valid name, and no name is kept twice.
    pub closed spec fn wf(&self) -> bool {
        names_valid(self.catalog.views@) && unique_names(self.catalog.views@)
    }

    /// An empty session catalog.
    pub fn new() -> (s: Self)
        ensures
            s.wf(),
            s.views().len() == 0,
    {
        SessionViewStore { catalog: Catalog { format_version: FORMAT_VERSION, views: Vec::new() } }
    }

    /// Every saved view's name and time, in catalog order.
    pub fn list(&self) -> (r: Vec<SavedViewSummary>)
        ensures
            r@.len() == self.views().len(),
            forall|i: int|
                0 <= i < r@.len() ==> (#[trigger] r@[i]).name@ == self.views()[i].name@
                    && r@[i].saved_at == self.views()[i].saved_at,
    {
        let mut out: Vec<SavedViewSummary> = Vec::new();
        let mut i: usize = 0;
        while i < self.catalog.views.len()
            invariant
                i <= self.catalog.views@.len(),
                out@.len() == i,
                forall|k: int|
                    0 <= k < i ==> (#[trigger] out@[k]).name@ == self.catalog.views@[k].name@
                        && out@[k].saved_at == self.catalog.views@[k].saved_at,
            decreases self.catalog.views@.len() - i,
        {
            let v = &self.catalog.views[i];
            out.push(SavedViewSummary { name: v.name.clone(), saved_at: v.saved_at });
            i = i + 1;
        }
        out
    }

    /// The first saved view named `name`.
    pub fn get(&self, name: &str) -> (r: Result<SavedView, ViewStoreError>)
        ensures
            !name_ok(name@) ==> (r matches Err(e) && is_view_refusal(e, name_message())),
            name_ok(name@) ==> match first_view(self.views(), name@) {
                Some(k) => r matches Ok(v) && v == self.views()[k],
                None => r matches Err(e) && is_view_refusal(e, missing_message(name@)),
            },
    {
        validate_name(name)?;
        match find_view(&self.catalog.views, name) {
            Some(k) => Ok(clone_view(&self.catalog.views[k])),
            None => {
                let head = concat("saved view ", debug_quote(name).as_str());
                Err(ViewStoreError::Refused(concat(head.as_str(), " does not exist")))
            },
        }
    }

    /// The bookmark a save of `name` would replace, for the caller to check
    /// before replacing it.
    pub fn existing_bookmark(&self, name: &str) -> (r: Option<&String>)
        ensures
            match first_view(self.views(), name@) {
                Some(k) => r matches Some(b) && *b == self.views()[k].bookmark,
                None => r is None,
            },
    {
        existing_bookmark(&self.catalog, name)
    }

    /// Saves a view named `name`, taken at `saved_at`, replacing a view of
    /// that name only when `replace` is asked and `verdict` (the check of the
    /// payload it replaces) passes; never evicts another name. A refused
    /// save leaves the catalog as it was.
    pub fn save_validated(
        &mut self,
        name: &str,
        bookmark: String,
        saved_at: u64,
        replace: bool,
        verdict: Result<(), ViewStoreError>,
    ) -> (r: Result<SavedViewSummary, ViewStoreError>)
        requires
            old(self).wf(),
        ensures
            final(self).wf(),
            !name_ok(name@) ==> (r matches Err(e) && is_view_refusal(e, name_message())
                && final(self).views() == old(self).views()),
            name_ok(name@) && view_len_of(name@, saved_at, bookmark@) > MAX_VIEW_BYTES ==> (r matches Err(
                e,
            ) && is_view_refusal(e, "saved view exceeds 4 MiB"@) && final(self).views() == old(self).views()),
            name_ok(name@) && view_len_of(name@, saved_at, bookmark@) <= MAX_VIEW_BYTES ==> exists|
                saved: SavedView,
            |
                saved.name@ == name@ && saved.saved_at == saved_at && saved.bookmark == bookmark
                    && #[trigger] session_save_outcome(
                    old(self).views(),
                    saved,
                    replace,
                    verdict,
                    final(self).views(),
                    r,
                ),
    {
        let saved = prepare_view(name, bookmark, saved_at)?;
        let ghost kept = saved;
        let r = self.save_prepared(saved, replace, verdict);
        assert(kept.name@ == name@ && kept.saved_at == saved_at && kept.bookmark == bookmark);
        r
    }

    fn save_prepared(&mut self, saved: SavedView, replace: bool, verdict: Result<(), ViewStoreError>) -> (r:
        Result<SavedViewSummary, ViewStoreError>)
        requires
            old(self).wf(),
            name_ok(saved.name@),
            view_json_len(saved) <= MAX_VIEW_BYTES,
        ensures
            final(self).wf(),
            session_save_outcome(old(self).views(), saved, replace, verdict, final(self).views(), r),
    {
        let ghost before = self.catalog.views@;
        let found = find_view(&self.catalog.views, saved.name.as_str());
        match found {
            Some(_) => {
                if !replace {
                    return Err(refuse("saved view already exists; explicit replacement is required"));
                }
                match verdict {
                    Err(e) => {
                        return Err(e);
                    },
                    Ok(()) => {},
                }
            },
            None => {
                if self.catalog.views.len() >= MAX_VIEWS {
                    return Err(refuse("saved-view catalog already holds 20 views"));
                }
            },
        }
        let candidate = Catalog { format_version: FORMAT_VERSION, views: session_views(&self.catalog.views, &saved) };
        if !catalog_fits(&candidate) {
            return Err(refuse("saved-view catalog exceeds 40 MiB"));
        }
        let summary = SavedViewSummary { name: saved.name.clone(), saved_at: saved.saved_at };
        let mut views = Vec::new();
        std::mem::swap(&mut views, &mut self.catalog.views);
        match found {
            Some(k) => {
                views.set(k, saved);
            },
            None => {
                views.push(saved);
            },
        }
        let ghost placed_views = views@;
        assert(placed_views == placed(before, saved));
        assert(names_valid(placed_views)) by {
            assert forall|j: int| 0 <= j < placed_views.len() implies name_ok(#[trigger] placed_views[j].name@) by {
                if j < before.len() && placed_views[j] == before[j] {
                    assert(name_ok(before[j].name@));
                }
            }
        }
        proof {
            lemma_first_view_names(before, saved.name@);
            assert(unique_names(placed_views)) by {
                match first_view(before, saved.name@) {
                    Some(k) => {
                        assert forall|a: int, b: int| 0 <= a < b < placed_views.len() implies #[trigger] placed_views[a].name@
                            != #[trigger] placed_views[b].name@ by {
                            if a == k {
                                assert(before[b].name@ != before[k].name@);
                            } else if b == k {
                                assert(before[a].name@ != before[k].name@);
                            } else {
                                assert(before[a].name@ != before[b].name@);
                            }
                        }
                    },
                    None => {
                        assert(!(exists|x: int| 0 <= x < before.len() && #[trigger] before[x].name@ == saved.name@));
                        assert forall|a: int, b: int| 0 <= a < b < placed_views.len() implies #[trigger] placed_views[a].name@
                            != #[trigger] placed_views[b].name@ by {
                            if b == before.len() {
                                assert(placed_views[a] == before[a]);
                            } else {
                                assert(before[a].name@ != before[b].name@);
                            }
                        }
                    },
                }
            }
        }
        let sorted = sort_by_name(views);
        proof {
            let p = choose|p: Seq<int>| sorted_by_name(placed_views, sorted@, p);
            assert forall|j: int| 0 <= j < sorted@.len() implies name_ok(#[trigger] sorted@[j].name@) by {
                assert(sorted@[j] == placed_views[p[j]]);
            }
            assert forall|a: int, b: int| 0 <= a < b < sorted@.len() implies #[trigger] sorted@[a].name@
                != #[trigger] sorted@[b].name@ by {
                assert(sorted@[a] == placed_views[p[a]]);
                assert(sorted@[b] == placed_views[p[b]]);
                assert(p[a] != p[b]);
                if p[a] < p[b] {
                    assert(placed_views[p[a]].name@ != placed_views[p[b]].name@);
                } else {
                    assert(placed_views[p[b]].name@ != placed_views[p[a]].name@);
                }
            }
        }
        self.catalog.views = sorted;
        Ok(summary)
    }

    /// Removes the first view named `name`.
    pub fn delete(&mut self, name: &str) -> (r: Result<(), ViewStoreError>)
        requires
            old(self).wf(),
        ensures
            final(self).wf(),
            !name_ok(name@) ==> (r matches Err(e) && is_view_refusal(e, name_message())
                && final(self).views() == old(self).views()),
            name_ok(name@) ==> match first_view(old(self).views(), name@) {
                Some(k) => r is Ok && final(self).views() == old(self).views().remove(k),
                None => r matches Err(e) && is_view_refusal(e, missing_message(name@))
                    && final(self).views() == old(self).views(),
            },
    {
        validate_name(name)?;
        match find_view(&self.catalog.views, name) {
            Some(k) => {
                let ghost before = self.catalog.views@;
                self.catalog.views.remove(k);
                assert forall|j: int| 0 <= j < self.catalog.views@.len() implies name_ok(
                    #[trigger] self.catalog.views@[j].name@,
                ) by {
                    if j < k {
                        assert(self.catalog.views@[j] == before[j]);
                    } else {
                        assert(self.catalog.views@[j] == before[j + 1]);
                    }
                }
                assert forall|a: int, b: int| 0 <= a < b < self.catalog.views@.len() implies #[trigger] self.catalog.views@[a].name@
                    != #[trigger] self.catalog.views@[b].name@ by {
                    let a0 = if a < k { a } else { a + 1 };
                    let b0 = if b < k { b } else { b + 1 };
                    assert(self.catalog.views@[a] == before[a0]);
                    assert(self.catalog.views@[b] == before[b0]);
                    assert(before[a0].name@ != before[b0].name@);
                }
                Ok(())
            },
            None => {
                let head = concat("saved view ", debug_quote(name).as_str());
                Err(ViewStoreError::Refused(concat(head.as_str(), " does not exist")))
            },
        }
    }
}

impl Default for SessionViewStore {
    /// An empty session catalog.
    fn default() -> (s: Self)
        ensures
            s.wf(),
            s.views().len() == 0,
    {
        SessionViewStore::new()
    }
}

/// A view saved into the session catalog reads back as saved: after a
/// save that succeeds, the first view of its name is that view.
pub proof fn lemma_session_view_reads_back(
    before: Seq<SavedView>,
    saved: SavedView,
    replace: bool,
    verdict: Result<(), ViewStoreError>,
    after: Seq<SavedView>,
    r: Result<SavedViewSummary, ViewStoreError>,
)
    requires
        unique_names(before),
        session_save_outcome(before, saved, replace, verdict, after, r),
        r is Ok,
    ensures
        first_view(after, saved.name@) matches Some(k) && after[k] == saved,
{
    let placed_views = placed(before, saved);
    let p = choose|p: Seq<int>| #[trigger] sorted_by_name(placed_views, after, p);
    lemma_first_view_names(before, saved.name@);
    let i0 = match first_view(before, saved.name@) {
        Some(k) => k,
        None => before.len() as int,
    };
    assert(placed_views[i0] == saved);
    lemma_reorder_onto(p, placed_views.len() as int, i0);
    let k = choose|k: int| 0 <= k < placed_views.len() && p[k] == i0;
    assert(after[k] == saved);
    assert forall|a: int, b: int| 0 <= a < b < after.len() implies #[trigger] after[a].name@
        != #[trigger] after[b].name@ || after[a].name@ != saved.name@ by {
        if after[a].name@ == saved.name@ && after[b].name@ == saved.name@ {
            // Only the placed view carries the name, and it is placed once.
            assert(after[a] == placed_views[p[a]]);
            assert(after[b] == placed_views[p[b]]);
            lemma_only_placed_has_name(before, saved, p[a]);
            lemma_only_placed_has_name(before, saved, p[b]);
            assert(p[a] != p[b]);
        }
    }
    if let Some(f) = first_view(after, saved.name@) {
        lemma_first_view_names(after, saved.name@);
        if f != k {
            if f < k {
                assert(after[f].name@ == saved.name@);
            } else {
                assert(after[k].name@ == saved.name@);
            }
        }
    } else {
        lemma_first_view_names(after, saved.name@);
        assert(after[k].name@ == saved.name@);
        lemma_earliest_name(after, saved.name@, k);
    }
}

proof fn lemma_only_placed_has_name(before: Seq<SavedView>, saved: SavedView, i: int)
    requires
        unique_names(before),
        0 <= i < placed(before, saved).len(),
        placed(before, saved)[i].name@ == saved.name@,
    ensures
        i == match first_view(before, saved.name@) {
            Some(k) => k,
            None => before.len() as int,
        },
{
    lemma_first_view_names(before, saved.name@);
    match first_view(before, saved.name@) {
        Some(k) => {
            if i != k {
                assert(placed(before, saved)[i] == before[i]);
                if i < k {
                    assert(before[i].name@ != before[k].name@);
                } else {
                    assert(before[k].name@ != before[i].name@);
                }
            }
        },
        None => {
            if i < before.len() {
                assert(placed(before, saved)[i] == before[i]);
                assert(before[i].name@ == saved.name@);
            }
        },
    }
}

} // verus!
