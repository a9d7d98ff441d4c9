//! Preflight bounds on viewer-owned copies of source properties, and a
//! conservative estimate of their encoded expansion.
use std::time::Instant;

use vstd::prelude::*;
use vstd::string::StringSliceAdditionalSpecFns;
use vstd::utf8::encode_utf8;

use crate::clock::deadline_reached;
use crate::error::{is_refusal, refuse_when, refusal, CoreError};
use crate::output::MAX_OUTPUT_PROPERTY_BYTES;

verus! {

/// Container nesting a copied value may have.
pub const MAX_DEPTH: usize = 32;

/// Values one output may visit.
pub const MAX_VISITS: usize = 1000000;

/// Properties one node or relation may carry into an output.
pub const MAX_PROPERTIES_PER_ENTITY: usize = 4096;

/// Initial encoded allowance for an output's fixed scaffolding.
pub const BASE_ENCODED_BYTES: usize = 65536;

/// A source property value, as far as the budget reads it.
#[derive(Debug)]
pub enum PropertyValue {
    /// Text, charged by its length.
    Text(String),
    /// A list, charged item by item.
    List(Vec<PropertyValue>),
    /// A map, charged key and value by key and value.
    Entries(Vec<(String, PropertyValue)>),
    /// A float or a point with a non-finite component.
    NonFinite { coordinate: bool },
    /// A node, relationship, path or node reference.
    GraphValued,
    /// Any other scalar: null, boolean, integer, finite float, date.
    Scalar,
}

/// The counters a budget keeps.
pub struct PropertyBudget {
    pub owned: usize,
    pub visits: usize,
    pub encoded: usize,
    pub deadline: Instant,
}

/// `a + b`, capped at `usize::MAX`.
pub open spec fn sat(a: int, b: int) -> usize {
    if a + b > usize::MAX {
        usize::MAX
    } else {
        (a + b) as usize
    }
}

/// The refusal when the owned-bytes or visit ceiling is passed.
pub open spec fn over_budget_message() -> Seq<char> {
    "output properties exceed the 8 MiB or one-million-value capture limit"@
}

/// The refusal when the output work deadline passes.
pub open spec fn output_deadline_message() -> Seq<char> {
    "output capture exceeded its 10 second work deadline"@
}

/// The counters after charging one visit of `owned` owned bytes and
/// `encoded` encoded bytes to `c` (visits, owned, encoded); `None` when a
/// ceiling is passed.
pub open spec fn charge_counts(c: (usize, usize, usize), owned: int, encoded: int) -> Option<
    (usize, usize, usize),
> {
    let raw = raw_charge(c, owned, encoded);
    if within_ceilings(raw) {
        Some(raw)
    } else {
        None
    }
}

/// The counters after one visit of `owned` owned bytes and `encoded`
/// encoded bytes, whether or not a ceiling is passed (the byte counters
/// saturate).
pub open spec fn raw_charge(c: (usize, usize, usize), owned: int, encoded: int) -> (usize, usize, usize) {
    ((c.0 + 1) as usize, sat(c.1 as int, owned), sat(c.2 as int, encoded))
}

/// Neither the visit ceiling nor the owned-bytes ceiling is passed.
pub open spec fn within_ceilings(c: (usize, usize, usize)) -> bool {
    c.0 <= MAX_VISITS && c.1 <= MAX_OUTPUT_PROPERTY_BYTES
}

/// The outcome of one charge: a deadline refusal leaves the counters as
/// they were; otherwise the visit is counted and the bytes added, and the
/// charge succeeds exactly when no ceiling is passed, else is refused with
/// the over-budget message (the counters stay charged).
pub open spec fn charge_result(
    before: (usize, usize, usize),
    after: (usize, usize, usize),
    owned: int,
    encoded: int,
    r: Result<(), CoreError>,
) -> bool {
    if r is Err && is_refusal(r->Err_0, output_deadline_message()) {
        after == before
    } else {
        &&& after == raw_charge(before, owned, encoded)
        &&& (r is Ok <==> within_ceilings(after))
        &&& (r is Err ==> is_refusal(r->Err_0, over_budget_message()))
    }
}

/// The over-budget refusal and the deadline refusal are told apart.
proof fn lemma_budget_messages_differ()
    ensures
        over_budget_message() != output_deadline_message(),
{
    reveal_strlit("output properties exceed the 8 MiB or one-million-value capture limit");
    reveal_strlit("output capture exceeded its 10 second work deadline");
    assert(over_budget_message()[7] != output_deadline_message()[7]);
}

/// A result with its value dropped.
pub open spec fn unit_of<T>(r: Result<T, CoreError>) -> Result<(), CoreError> {
    match r {
        Ok(_) => Ok(()),
        Err(e) => Err(e),
    }
}

/// The charge of one text of `len` bytes: its bytes plus scaffolding owned,
/// 36 encoded bytes per source byte plus scaffolding encoded.
pub open spec fn text_charge(c: (usize, usize, usize), len: int) -> Option<(usize, usize, usize)> {
    charge_counts(c, text_owned(len), text_encoded(len))
}

/// Owned bytes charged for a text of `len` bytes.
pub open spec fn text_owned(len: int) -> int {
    sat(len, 64) as int
}

/// Encoded bytes charged for a text of `len` bytes.
pub open spec fn text_encoded(len: int) -> int {
    sat(text_encoded_factor(len) as int, 64) as int
}

/// The refusal when a list holds more items than visits remain.
pub open spec fn list_budget_message() -> Seq<char> {
    "output list exceeds remaining value budget"@
}

/// The refusal when a map holds more entries than visits remain.
pub open spec fn map_budget_message() -> Seq<char> {
    "output map exceeds remaining value budget"@
}

/// The refusal of a value nested deeper than `MAX_DEPTH`.
pub open spec fn nesting_message() -> Seq<char> {
    "output property nesting exceeds 32 levels"@
}

/// The refusal of a non-finite number or coordinate.
pub open spec fn non_finite_message(coordinate: bool) -> Seq<char> {
    if coordinate {
        "output contains a non-finite coordinate"@
    } else {
        "output contains a non-finite number"@
    }
}

/// The refusal of a node, relationship, path or node reference.
pub open spec fn graph_valued_message() -> Seq<char> {
    "graph-valued properties cannot be exported as source attributes"@
}

/// Charging `v` at nesting `depth` to the counters `c`, depth first: the
/// counters afterwards, or the refusal. (The work deadline is not part of
/// it: it may refuse at any charge.)
pub open spec fn value_walk(c: (usize, usize, usize), v: PropertyValue, depth: int) -> Result<
    (usize, usize, usize),
    Seq<char>,
>
    decreases v, 0int,
{
    if depth > MAX_DEPTH {
        Err(nesting_message())
    } else {
        match charge_counts(c, 64, 128) {
            None => Err(over_budget_message()),
            Some(c1) => match v {
                PropertyValue::Text(t) => match text_charge(c1, encode_utf8(t@).len() as int) {
                    None => Err(over_budget_message()),
                    Some(c2) => Ok(c2),
                },
                PropertyValue::List(items) => {
                    if items@.len() > MAX_VISITS - c1.0 {
                        Err(list_budget_message())
                    } else {
                        proof {
                            assert(decreases_to!(v => items));
                            assert(decreases_to!(items => items@));
                        }
                        items_walk(c1, items@, items@.len() as int, depth + 1)
                    }
                },
                PropertyValue::Entries(items) => {
                    if items@.len() > MAX_VISITS - c1.0 {
                        Err(map_budget_message())
                    } else {
                        proof {
                            assert(decreases_to!(v => items));
                            assert(decreases_to!(items => items@));
                        }
                        entries_walk(c1, items@, items@.len() as int, depth + 1)
                    }
                },
                PropertyValue::NonFinite { coordinate } => Err(non_finite_message(coordinate)),
                PropertyValue::GraphValued => Err(graph_valued_message()),
                PropertyValue::Scalar => Ok(c1),
            },
        }
    }
}

/// Charging the first `k` items of a list, in order.
pub open spec fn items_walk(c: (usize, usize, usize), items: Seq<PropertyValue>, k: int, depth: int) -> Result<
    (usize, usize, usize),
    Seq<char>,
>
    decreases items, k,
{
    if k <= 0 || k > items.len() {
        Ok(c)
    } else {
        match items_walk(c, items, k - 1, depth) {
            Err(m) => Err(m),
            Ok(c1) => value_walk(c1, items[k - 1], depth),
        }
    }
}

/// Charging the first `k` entries of a map, in order, each key before its
/// value.
pub open spec fn entries_walk(
    c: (usize, usize, usize),
    items: Seq<(String, PropertyValue)>,
    k: int,
    depth: int,
) -> Result<(usize, usize, usize), Seq<char>>
    decreases items, k,
{
    if k <= 0 || k > items.len() {
        Ok(c)
    } else {
        match entries_walk(c, items, k - 1, depth) {
            Err(m) => Err(m),
            Ok(c1) => match text_charge(c1, encode_utf8(items[k - 1].0@).len() as int) {
                None => Err(over_budget_message()),
                Some(c2) => {
                    proof {
                        assert(decreases_to!(items => items[k - 1]));
                        assert(decreases_to!(items[k - 1] => items[k - 1].1));
                    }
                    value_walk(c2, items[k - 1].1, depth)
                },
            },
        }
    }
}

impl PropertyBudget {
    pub fn new(deadline: Instant) -> (b: Self)
        ensures
            b.owned == 0,
            b.visits == 0,
            b.encoded == BASE_ENCODED_BYTES,
            b.deadline == deadline,
    {
        PropertyBudget { owned: 0, visits: 0, encoded: BASE_ENCODED_BYTES, deadline }
    }

    /// The counters a budget keeps: visits, owned bytes, encoded bytes.
    pub open spec fn counts(self) -> (usize, usize, usize) {
        (self.visits, self.owned, self.encoded)
    }

    /// The counters after charging one visit of `owned` owned bytes and
    /// `encoded` encoded bytes; `None` when a ceiling is passed.
    pub open spec fn charged(self, owned: int, encoded: int) -> Option<(usize, usize, usize)> {
        charge_counts(self.counts(), owned, encoded)
    }

    /// Charge one visit; refuse past the deadline or a ceiling.
    pub fn charge(&mut self, owned: usize, encoded: usize) -> (r: Result<(), CoreError>)
        requires
            old(self).visits < usize::MAX,
        ensures
            final(self).deadline == old(self).deadline,
            charge_result(old(self).counts(), final(self).counts(), owned as int, encoded as int, r),
    {
        check_deadline(self.deadline)?;
        self.visits = self.visits + 1;
        self.owned = self.owned.saturating_add(owned);
        self.encoded = self.encoded.saturating_add(encoded);
        if self.visits > MAX_VISITS || self.owned > MAX_OUTPUT_PROPERTY_BYTES {
            proof {
                lemma_budget_messages_differ();
            }
            return Err(
                refusal("output properties exceed the 8 MiB or one-million-value capture limit"),
            );
        }
        Ok(())
    }

    /// Charge one node (or relation) of an output.
    pub fn entity(&mut self, node: bool) -> (r: Result<(), CoreError>)
        requires
            old(self).visits < usize::MAX,
        ensures
            final(self).deadline == old(self).deadline,
            charge_result(
                old(self).counts(),
                final(self).counts(),
                128,
                if node {
                    512
                } else {
                    256
                },
                r,
            ),
    {
        self.charge(
            128,
            if node {
                512
            } else {
                256
            },
        )
    }

    /// Charge one text: its bytes plus scaffolding owned, and up to 36
    /// encoded bytes per source byte (JSON may write six bytes for one, and
    /// XML may escape each of those again).
    pub fn text(&mut self, text: &str) -> (r: Result<(), CoreError>)
        requires
            old(self).visits < usize::MAX,
        ensures
            final(self).deadline == old(self).deadline,
            charge_result(
                old(self).counts(),
                final(self).counts(),
                text_owned(text.spec_bytes().len() as int),
                text_encoded(text.spec_bytes().len() as int),
                r,
            ),
    {
        let len = text.as_bytes().len();
        let scaled = if len > usize::MAX / 36 {
            usize::MAX
        } else {
            len * 36
        };
        self.charge(len.saturating_add(64), scaled.saturating_add(64))
    }

    /// Copy a text after charging it.
    pub fn clone_text(&mut self, text: &str) -> (r: Result<String, CoreError>)
        requires
            old(self).visits < usize::MAX,
        ensures
            final(self).deadline == old(self).deadline,
            charge_result(
                old(self).counts(),
                final(self).counts(),
                text_owned(text.spec_bytes().len() as int),
                text_encoded(text.spec_bytes().len() as int),
                unit_of(r),
            ),
            r matches Ok(copy) ==> copy@ == text@,
    {
        self.text(text)?;
        Ok(text.to_owned())
    }

    /// Copy a value after charging it and everything inside it.
    pub fn clone_value(&mut self, value: &PropertyValue) -> (r: Result<PropertyValue, CoreError>)
        requires
            old(self).visits < usize::MAX,
        ensures
            final(self).deadline == old(self).deadline,
            match value_walk(old(self).counts(), *value, 0) {
                Ok(c) => (r matches Ok(copy) && same_value(*value, copy) && final(self).counts() == c)
                    || (r matches Err(e) && is_refusal(e, output_deadline_message())),
                Err(m) => r matches Err(e) && (is_refusal(e, m) || is_refusal(
                    e,
                    output_deadline_message(),
                )),
            },
    {
        self.value(value, 0)?;
        Ok(copy_value(value))
    }

    /// Charge a value and everything inside it, depth first.
    pub fn value(&mut self, value: &PropertyValue, depth: usize) -> (r: Result<(), CoreError>)
        requires
            old(self).visits < usize::MAX,
        ensures
            final(self).deadline == old(self).deadline,
            r is Ok ==> final(self).visits <= MAX_VISITS,
            depth > MAX_DEPTH ==> (r matches Err(e) && is_refusal(e, nesting_message())),
            match value_walk(old(self).counts(), *value, depth as int) {
                Ok(c) => (r is Ok && final(self).counts() == c) || (r matches Err(e) && is_refusal(
                    e,
                    output_deadline_message(),
                )),
                Err(m) => r matches Err(e) && (is_refusal(e, m) || is_refusal(
                    e,
                    output_deadline_message(),
                )),
            },
        decreases value,
    {
        if depth > MAX_DEPTH {
            return Err(refusal("output property nesting exceeds 32 levels"));
        }
        self.charge(64, 128)?;
        let ghost c1 = self.counts();
        match value {
            PropertyValue::Text(text) => self.text(text.as_str()),
            PropertyValue::List(items) => {
                proof {
                    assert(decreases_to!(*value => *items));
                }
                if items.len() > MAX_VISITS - self.visits {
                    return Err(refusal("output list exceeds remaining value budget"));
                }
                let mut i: usize = 0;
                while i < items.len()
                    invariant
                        self.visits <= MAX_VISITS,
                        self.deadline == old(self).deadline,
                        depth <= MAX_DEPTH,
                        i <= items@.len(),
                        decreases_to!(*value => *items),
                        items_walk(c1, items@, i as int, depth + 1) == Ok::<
                            (usize, usize, usize),
                            Seq<char>,
                        >(self.counts()),
                        value_walk(old(self).counts(), *value, depth as int) == items_walk(
                            c1,
                            items@,
                            items@.len() as int,
                            depth + 1,
                        ),
                    decreases items@.len() - i,
                {
                    proof {
                        assert(decreases_to!(*items => items@));
                        assert(decreases_to!(items@ => items@[i as int]));
                        assert(decreases_to!(*value => items@[i as int]));
                    }
                    let r = self.value(&items[i], depth + 1);
                    match r {
                        Ok(()) => {},
                        Err(e) => {
                            proof {
                                if !is_refusal(e, output_deadline_message()) {
                                    lemma_items_walk_stays_refused(
                                        c1,
                                        items@,
                                        i as int + 1,
                                        items@.len() as int,
                                        depth + 1,
                                    );
                                }
                            }
                            return Err(e);
                        },
                    }
                    i = i + 1;
                }
                Ok(())
            },
            PropertyValue::Entries(items) => {
                proof {
                    assert(decreases_to!(*value => *items));
                }
                if items.len() > MAX_VISITS - self.visits {
                    return Err(refusal("output map exceeds remaining value budget"));
                }
                let mut i: usize = 0;
                while i < items.len()
                    invariant
                        self.visits <= MAX_VISITS,
                        self.deadline == old(self).deadline,
                        depth <= MAX_DEPTH,
                        i <= items@.len(),
                        decreases_to!(*value => *items),
                        entries_walk(c1, items@, i as int, depth + 1) == Ok::<
                            (usize, usize, usize),
                            Seq<char>,
                        >(self.counts()),
                        value_walk(old(self).counts(), *value, depth as int) == entries_walk(
                            c1,
                            items@,
                            items@.len() as int,
                            depth + 1,
                        ),
                    decreases items@.len() - i,
                {
                    let rk = self.text(items[i].0.as_str());
                    match rk {
                        Ok(()) => {},
                        Err(e) => {
                            proof {
                                if !is_refusal(e, output_deadline_message()) {
                                    lemma_entries_walk_stays_refused(
                                        c1,
                                        items@,
                                        i as int + 1,
                                        items@.len() as int,
                                        depth + 1,
                                    );
                                }
                            }
                            return Err(e);
                        },
                    }
                    proof {
                        assert(decreases_to!(*items => items@));
                        assert(decreases_to!(items@ => items@[i as int]));
                        assert(decreases_to!(items@[i as int] => items@[i as int].1));
                        assert(decreases_to!(*value => items@[i as int].1));
                    }
                    let rv = self.value(&items[i].1, depth + 1);
                    match rv {
                        Ok(()) => {},
                        Err(e) => {
                            proof {
                                if !is_refusal(e, output_deadline_message()) {
                                    lemma_entries_walk_stays_refused(
                                        c1,
                                        items@,
                                        i as int + 1,
                                        items@.len() as int,
                                        depth + 1,
                                    );
                                }
                            }
                            return Err(e);
                        },
                    }
                    i = i + 1;
                }
                Ok(())
            },
            PropertyValue::NonFinite { coordinate } => {
                if *coordinate {
                    Err(refusal("output contains a non-finite coordinate"))
                } else {
                    Err(refusal("output contains a non-finite number"))
                }
            },
            PropertyValue::GraphValued => Err(
                refusal("graph-valued properties cannot be exported as source attributes"),
            ),
            PropertyValue::Scalar => Ok(()),
        }
    }
}

/// A list walk refused at `k` items stays refused, with the same message,
/// at every later count.
proof fn lemma_items_walk_stays_refused(
    c: (usize, usize, usize),
    items: Seq<PropertyValue>,
    k: int,
    n: int,
    depth: int,
)
    requires
        0 < k <= n <= items.len(),
        items_walk(c, items, k, depth) is Err,
    ensures
        items_walk(c, items, n, depth) == items_walk(c, items, k, depth),
    decreases n - k,
{
    if n > k {
        lemma_items_walk_stays_refused(c, items, k, n - 1, depth);
    }
}

/// A map walk refused at `k` entries stays refused, with the same message,
/// at every later count.
proof fn lemma_entries_walk_stays_refused(
    c: (usize, usize, usize),
    items: Seq<(String, PropertyValue)>,
    k: int,
    n: int,
    depth: int,
)
    requires
        0 < k <= n <= items.len(),
        entries_walk(c, items, k, depth) is Err,
    ensures
        entries_walk(c, items, n, depth) == entries_walk(c, items, k, depth),
    decreases n - k,
{
    if n > k {
        lemma_entries_walk_stays_refused(c, items, k, n - 1, depth);
    }
}

/// Two values hold the same content: equal texts, and lists or maps whose
/// items (and keys) agree position by position.
pub open spec fn same_value(a: PropertyValue, b: PropertyValue) -> bool
    decreases a,
{
    match a {
        PropertyValue::Text(x) => b matches PropertyValue::Text(y) && x@ == y@,
        PropertyValue::List(xs) => match b {
            PropertyValue::List(ys) => xs@.len() == ys@.len() && forall|i: int|
                0 <= i < xs@.len() ==> #[trigger] same_value(xs@[i], ys@[i]),
            _ => false,
        },
        PropertyValue::Entries(xs) => match b {
            PropertyValue::Entries(ys) => xs@.len() == ys@.len() && forall|i: int|
                0 <= i < xs@.len() ==> xs@[i].0@ == ys@[i].0@ && #[trigger] same_value(
                    xs@[i].1,
                    ys@[i].1,
                ),
            _ => false,
        },
        PropertyValue::NonFinite { coordinate } => b matches PropertyValue::NonFinite {
            coordinate: c,
        } && c == coordinate,
        PropertyValue::GraphValued => b is GraphValued,
        PropertyValue::Scalar => b is Scalar,
    }
}

/// Lists whose items agree position by position hold the same content.
proof fn lemma_same_list(xs: Vec<PropertyValue>, ys: Vec<PropertyValue>)
    requires
        xs@.len() == ys@.len(),
        forall|i: int| 0 <= i < xs@.len() ==> #[trigger] same_value(xs@[i], ys@[i]),
    ensures
        same_value(PropertyValue::List(xs), PropertyValue::List(ys)),
{
    assert forall|i: int| 0 <= i < xs@.len() implies same_value(xs@[i], ys@[i]) by {}
}

/// Maps whose keys and values agree position by position hold the same content.
proof fn lemma_same_entries(xs: Vec<(String, PropertyValue)>, ys: Vec<(String, PropertyValue)>)
    requires
        xs@.len() == ys@.len(),
        forall|i: int| 0 <= i < xs@.len() ==> #[trigger] ys@[i].0@ == xs@[i].0@,
        forall|i: int| 0 <= i < xs@.len() ==> #[trigger] same_value(xs@[i].1, ys@[i].1),
    ensures
        same_value(PropertyValue::Entries(xs), PropertyValue::Entries(ys)),
{
    assert forall|i: int| 0 <= i < xs@.len() implies xs@[i].0@ == ys@[i].0@ && same_value(
        xs@[i].1,
        ys@[i].1,
    ) by {}
}

/// A copy of `value` with the same content, item by item.
pub fn copy_value(value: &PropertyValue) -> (c: PropertyValue)
    ensures
        same_value(*value, c),
    decreases value,
{
    match value {
        PropertyValue::Text(text) => PropertyValue::Text(text.clone()),
        PropertyValue::List(items) => {
            let mut out: Vec<PropertyValue> = Vec::new();
            let mut i: usize = 0;
            while i < items.len()
                invariant
                    i <= items@.len(),
                    out@.len() == i,
                    forall|k: int| 0 <= k < i ==> #[trigger] same_value(items@[k], out@[k]),
                    decreases_to!(*value => *items),
                decreases items@.len() - i,
            {
                proof {
                    assert(decreases_to!(*items => items@));
                    assert(decreases_to!(items@ => items@[i as int]));
                }
                let item = copy_value(&items[i]);
                out.push(item);
                i = i + 1;
            }
            proof {
                lemma_same_list(*items, out);
            }
            PropertyValue::List(out)
        },
        PropertyValue::Entries(items) => {
            let mut out: Vec<(String, PropertyValue)> = Vec::new();
            let mut i: usize = 0;
            while i < items.len()
                invariant
                    i <= items@.len(),
                    out@.len() == i,
                    forall|k: int| 0 <= k < i ==> #[trigger] out@[k].0@ == items@[k].0@,
                    forall|k: int| 0 <= k < i ==> #[trigger] same_value(items@[k].1, out@[k].1),
                    decreases_to!(*value => *items),
                decreases items@.len() - i,
            {
                proof {
                    assert(decreases_to!(*items => items@));
                    assert(decreases_to!(items@ => items@[i as int]));
                    assert(decreases_to!(items@[i as int] => items@[i as int].1));
                }
                let key = items[i].0.clone();
                let item = copy_value(&items[i].1);
                out.push((key, item));
                i = i + 1;
            }
            proof {
                lemma_same_entries(*items, out);
            }
            PropertyValue::Entries(out)
        },
        PropertyValue::NonFinite { coordinate } => PropertyValue::NonFinite {
            coordinate: *coordinate,
        },
        PropertyValue::GraphValued => PropertyValue::GraphValued,
        PropertyValue::Scalar => PropertyValue::Scalar,
    }
}

/// Encoded bytes charged for `len` source bytes of text: 36 each, capped.
pub open spec fn text_encoded_factor(len: int) -> usize {
    if len * 36 > usize::MAX {
        usize::MAX
    } else {
        (len * 36) as usize
    }
}

/// Refuse once the output work deadline has been reached.
pub fn check_deadline(deadline: Instant) -> (r: Result<(), CoreError>)
    ensures
        r matches Err(e) ==> is_refusal(e, output_deadline_message()),
{
    refuse_when(deadline_reached(deadline), "output capture exceeded its 10 second work deadline")
}

} // verus!
