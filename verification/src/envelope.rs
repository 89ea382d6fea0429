//! Walking an OTLP envelope record by record.
//!
//! An envelope is an object with an array of resource entries, each with an array of scope
//! entries, each with an array of records. A walk hands out one record after the other, takes
//! the outcome of its evaluation, and puts together what is to be forwarded.

use crate::internal_events::{DropCounts, DropReason, EvalErrors};
use crate::otlp_adapter::OtlpLogAdapter as DottedLogAdapter;
use crate::otlp_common::{lift_child, reattach_child, RecordTree};
use crate::otlp_log_adapter::OtlpLogAdapter;
use crate::otlp_metric_adapter::MetricAdapter;
use crate::otlp_trace_adapter::TraceAdapter;
use crate::value::{Tree, Value};
use crate::verdict::{drop_reason, EvaluateResult, Signal};
use vstd::prelude::*;

verus! {

broadcast use crate::value::lemma_array_view;

/// The key of the resource entries.
pub open spec fn resources_key(signal: Signal) -> Seq<char> {
    match signal {
        Signal::Logs => "resourceLogs"@,
        Signal::Metrics => "resourceMetrics"@,
        Signal::Traces => "resourceSpans"@,
    }
}

/// The key of the scope entries in a resource entry.
pub open spec fn scopes_key(signal: Signal) -> Seq<char> {
    match signal {
        Signal::Logs => "scopeLogs"@,
        Signal::Metrics => "scopeMetrics"@,
        Signal::Traces => "scopeSpans"@,
    }
}

/// The key of the records in a scope entry.
pub open spec fn records_key(signal: Signal) -> Seq<char> {
    match signal {
        Signal::Logs => "logRecords"@,
        Signal::Metrics => "metrics"@,
        Signal::Traces => "spans"@,
    }
}

/// The items under `key` of an entry.
pub open spec fn listed(entry: Tree, key: Seq<char>) -> Option<Seq<Tree>> {
    crate::otlp_common::items_of(entry.field(key))
}

/// The records of a scope entry.
pub open spec fn records_of_scope(signal: Signal, entry: Tree) -> Seq<Tree> {
    match listed(entry, records_key(signal)) {
        Some(records) => records,
        None => Seq::empty(),
    }
}

/// The records of scope entries, in order.
pub open spec fn records_of_scopes(signal: Signal, scopes: Seq<Tree>) -> Seq<Tree>
    decreases scopes.len(),
{
    if scopes.len() == 0 {
        Seq::empty()
    } else {
        records_of_scope(signal, scopes[0]) + records_of_scopes(signal, scopes.drop_first())
    }
}

/// The records of a resource entry, in order.
pub open spec fn records_of_resource(signal: Signal, entry: Tree) -> Seq<Tree> {
    match listed(entry, scopes_key(signal)) {
        Some(scopes) => records_of_scopes(signal, scopes),
        None => Seq::empty(),
    }
}

/// The records of resource entries, in order.
pub open spec fn records_of_resources(signal: Signal, resources: Seq<Tree>) -> Seq<Tree>
    decreases resources.len(),
{
    if resources.len() == 0 {
        Seq::empty()
    } else {
        records_of_resource(signal, resources[0]) + records_of_resources(
            signal,
            resources.drop_first(),
        )
    }
}

/// The records of an envelope, in order.
pub open spec fn records_of_envelope(signal: Signal, event: Tree) -> Seq<Tree> {
    match listed(event, resources_key(signal)) {
        Some(resources) => records_of_resources(signal, resources),
        None => Seq::empty(),
    }
}

/// What came of evaluating one record: whether it is dropped, and the record, its resource and
/// its scope as they stand afterwards.
#[verifier::ext_equal]
pub struct Outcome {
    pub dropped: Option<DropReason>,
    pub record: Tree,
    pub resource: Option<Tree>,
    pub scope: Option<Tree>,
}

/// What became of the records of a scope: those that are left, their resource and scope, the
/// first record that had no outcome, and the outcomes that no record had.
#[verifier::ext_equal]
pub struct RecordsRun {
    pub kept: Seq<Tree>,
    pub resource: Option<Tree>,
    pub scope: Option<Tree>,
    pub next: Option<RecordTree>,
    pub rest: Seq<Outcome>,
}

/// What becomes of records under the outcomes of their evaluations, one after the other. A
/// record without an outcome stays as it is.
pub open spec fn run_records(
    records: Seq<Tree>,
    resource: Option<Tree>,
    scope: Option<Tree>,
    outcomes: Seq<Outcome>,
) -> RecordsRun
    decreases records.len(),
{
    if records.len() == 0 {
        RecordsRun { kept: records, resource, scope, next: None, rest: outcomes }
    } else if outcomes.len() == 0 {
        let next = RecordTree {
            record: records[0],
            resource,
            scope,
            resource_schema_url: None,
            scope_schema_url: None,
        };
        RecordsRun { kept: records, resource, scope, next: Some(next), rest: outcomes }
    } else {
        let first = outcomes[0];
        let run = run_records(
            records.drop_first(),
            first.resource,
            first.scope,
            outcomes.drop_first(),
        );
        RecordsRun {
            kept: if first.dropped is None {
                seq![first.record] + run.kept
            } else {
                run.kept
            },
            ..run
        }
    }
}

/// `entry` with `parent` under `parent_key` and `list` under `list_key`.
pub open spec fn rebuilt(
    entry: Tree,
    parent_key: Seq<char>,
    parent: Option<Tree>,
    list_key: Seq<char>,
    list: Seq<Tree>,
) -> Tree {
    let bare = entry.without_field(parent_key).with_field(list_key, Tree::Array(list));
    match parent {
        Some(parent) => bare.with_field(parent_key, parent),
        None => bare,
    }
}

/// `next` with the schema URL of its scope entry.
pub open spec fn in_scope(next: Option<RecordTree>, entry: Tree) -> Option<RecordTree> {
    match next {
        Some(next) => Some(RecordTree { scope_schema_url: entry.field("schemaUrl"@), ..next }),
        None => None,
    }
}

/// `next` with the schema URL of its resource entry.
pub open spec fn in_resource(next: Option<RecordTree>, entry: Tree) -> Option<RecordTree> {
    match next {
        Some(next) => Some(RecordTree { resource_schema_url: entry.field("schemaUrl"@), ..next }),
        None => None,
    }
}

/// The first of two records that there may be.
pub open spec fn first_of(a: Option<RecordTree>, b: Option<RecordTree>) -> Option<RecordTree> {
    match a {
        Some(_) => a,
        None => b,
    }
}

/// What became of entries: those that are left, their resource, the first record that had no
/// outcome, and the outcomes that no record had.
#[verifier::ext_equal]
pub struct EntriesRun {
    pub kept: Seq<Tree>,
    pub resource: Option<Tree>,
    pub next: Option<RecordTree>,
    pub rest: Seq<Outcome>,
}

/// What becomes of the scope entries of a resource. An entry whose records are all gone is
/// pruned. An entry without a list of records stays as it is.
pub open spec fn run_scopes(
    signal: Signal,
    scopes: Seq<Tree>,
    resource: Option<Tree>,
    outcomes: Seq<Outcome>,
) -> EntriesRun
    decreases scopes.len(),
{
    if scopes.len() == 0 {
        EntriesRun { kept: Seq::empty(), resource, next: None, rest: outcomes }
    } else {
        let entry = scopes[0];
        match listed(entry, records_key(signal)) {
            None => {
                let run = run_scopes(signal, scopes.drop_first(), resource, outcomes);
                EntriesRun { kept: seq![entry] + run.kept, ..run }
            },
            Some(records) => {
                let inner = run_records(records, resource, entry.field("scope"@), outcomes);
                let run = run_scopes(signal, scopes.drop_first(), inner.resource, inner.rest);
                EntriesRun {
                    kept: if inner.kept.len() == 0 {
                        run.kept
                    } else {
                        seq![
                            rebuilt(
                                entry,
                                "scope"@,
                                inner.scope,
                                records_key(signal),
                                inner.kept,
                            ),
                        ] + run.kept
                    },
                    next: first_of(in_scope(inner.next, entry), run.next),
                    ..run
                }
            },
        }
    }
}

/// What becomes of the resource entries of an envelope. An entry whose scopes are all gone is
/// pruned. An entry without a list of scopes stays as it is, except among metrics, where it is
/// pruned.
pub open spec fn run_resources(
    signal: Signal,
    resources: Seq<Tree>,
    outcomes: Seq<Outcome>,
) -> EntriesRun
    decreases resources.len(),
{
    if resources.len() == 0 {
        EntriesRun { kept: Seq::empty(), resource: None, next: None, rest: outcomes }
    } else {
        let entry = resources[0];
        match listed(entry, scopes_key(signal)) {
            None => {
                let run = run_resources(signal, resources.drop_first(), outcomes);
                EntriesRun {
                    kept: if signal == Signal::Metrics {
                        run.kept
                    } else {
                        seq![entry] + run.kept
                    },
                    ..run
                }
            },
            Some(scopes) => {
                let inner = run_scopes(signal, scopes, entry.field("resource"@), outcomes);
                let run = run_resources(signal, resources.drop_first(), inner.rest);
                EntriesRun {
                    kept: if inner.kept.len() == 0 {
                        run.kept
                    } else {
                        seq![
                            rebuilt(
                                entry,
                                "resource"@,
                                inner.resource,
                                scopes_key(signal),
                                inner.kept,
                            ),
                        ] + run.kept
                    },
                    next: first_of(in_resource(inner.next, entry), run.next),
                    ..run
                }
            },
        }
    }
}

/// What became of an envelope: what is forwarded, if anything, and the first record that had
/// no outcome.
#[verifier::ext_equal]
pub struct EnvelopeRun {
    pub forwarded: Option<Tree>,
    pub next: Option<RecordTree>,
}

/// The entries of a logs envelope had a record and have none any more.
pub open spec fn emptied(signal: Signal, before: Seq<Tree>, after: Seq<Tree>) -> bool {
    &&& signal == Signal::Logs
    &&& records_of_resources(signal, before).len() > 0
    &&& records_of_resources(signal, after).len() == 0
}

/// What becomes of an event under the outcomes of its records' evaluations. An envelope with
/// no resource entries left is dropped, and so is a logs envelope that loses all its records,
/// whatever entries without lists are left. An event that is no envelope is forwarded as it is.
pub open spec fn run_envelope(signal: Signal, event: Tree, outcomes: Seq<Outcome>) -> EnvelopeRun {
    match listed(event, resources_key(signal)) {
        None => EnvelopeRun { forwarded: Some(event), next: None },
        Some(resources) => {
            let run = run_resources(signal, resources, outcomes);
            EnvelopeRun {
                forwarded: if run.kept.len() == 0 || emptied(signal, resources, run.kept) {
                    None
                } else {
                    Some(event.with_field(resources_key(signal), Tree::Array(run.kept)))
                },
                next: run.next,
            }
        },
    }
}

/// Items of which the first ones have been handed out.
struct Pending {
    items: Vec<Value>,
    next: usize,
}

impl Pending {
    spec fn wf(self) -> bool {
        self.next <= self.items@.len()
    }

    /// The items still to come.
    spec fn view(self) -> Seq<Tree> {
        crate::value::trees(self.items@).skip(self.next as int)
    }

    fn new(items: Vec<Value>) -> (r: Pending)
        ensures
            r.wf(),
            r@ == crate::value::trees(items@),
    {
        let r = Pending { items, next: 0 };
        assert(r@ =~= crate::value::trees(items@));
        r
    }

    /// Hands out the next item.
    fn take_next(&mut self) -> (r: Option<Value>)
        requires
            old(self).wf(),
        ensures
            final(self).wf(),
            match r {
                Some(item) => old(self)@.len() > 0 && item@ == old(self)@[0] && final(self)@
                    == old(self)@.drop_first(),
                None => old(self)@.len() == 0 && *final(self) == *old(self),
            },
    {
        if self.next < self.items.len() {
            let mut item = Value::Null;
            let at = self.next;
            std::mem::swap(&mut item, &mut self.items[at]);
            self.next = at + 1;
            assert(self@ =~= old(self)@.drop_first());
            Some(item)
        } else {
            None
        }
    }
}

/// An entry that is being walked: what is left of it with its parent object and its list taken
/// out, the parent object, and the list's items that stay and that are still to come.
struct Level {
    entry: Value,
    parent: Option<Value>,
    kept: Vec<Value>,
    pending: Pending,
}

/// What a [`Level`] is.
#[verifier::ext_equal]
pub struct LevelTree {
    pub entry: Tree,
    pub parent: Option<Tree>,
    pub kept: Seq<Tree>,
    pub pending: Seq<Tree>,
}

impl LevelTree {
    /// An entry taken apart, nothing handed out yet.
    spec fn opened(entry: Tree, parent_key: Seq<char>, list_key: Seq<char>) -> LevelTree {
        LevelTree {
            entry: entry.without_field(parent_key).without_field(list_key),
            parent: entry.field(parent_key),
            kept: Seq::empty(),
            pending: listed(entry, list_key)->0,
        }
    }

    /// What the entry comes to with `kept` as its list; nothing where the list is empty.
    spec fn closed(
        self,
        parent_key: Seq<char>,
        list_key: Seq<char>,
        parent: Option<Tree>,
        kept: Seq<Tree>,
    ) -> Seq<Tree> {
        if kept.len() == 0 {
            Seq::empty()
        } else {
            let bare = self.entry.with_field(list_key, Tree::Array(kept));
            seq![
                match parent {
                    Some(parent) => bare.with_field(parent_key, parent),
                    None => bare,
                },
            ]
        }
    }
}

impl Level {
    spec fn wf(self) -> bool {
        self.pending.wf()
    }

    spec fn view(self) -> LevelTree {
        LevelTree {
            entry: self.entry@,
            parent: crate::value::tree_of(self.parent),
            kept: crate::value::trees(self.kept@),
            pending: self.pending@,
        }
    }

    /// Takes an entry apart; hands it back where it has no list.
    fn open(entry: Value, parent_key: &str, list_key: &str) -> (r: Result<Level, Value>)
        requires
            parent_key@ != list_key@,
        ensures
            match r {
                Ok(level) => level.wf() && listed(entry@, list_key@) is Some && level@
                    == LevelTree::opened(entry@, parent_key@, list_key@),
                Err(same) => listed(entry@, list_key@) is None && same@ == entry@,
            },
    {
        match entry.get(list_key) {
            Some(Value::Array(_)) => {},
            _ => {
                return Err(entry);
            },
        }
        let mut entry = entry;
        let parent = lift_child(&mut entry, parent_key);
        match entry.take_field(list_key) {
            Some(Value::Array(items)) => {
                let level = Level { entry, parent, kept: Vec::new(), pending: Pending::new(items) };
                assert(level@.kept =~= Seq::<Tree>::empty());
                Ok(level)
            },
            _ => Err(entry),
        }
    }

    /// Puts the entry together again; gives nothing where no item stays.
    fn close(self, parent_key: &str, list_key: &str) -> (r: Option<Value>)
        ensures
            self@.closed(parent_key@, list_key@, self@.parent, self@.kept) == match r {
                Some(entry) => seq![entry@],
                None => Seq::empty(),
            },
    {
        let Level { entry, parent, kept, pending } = self;
        if kept.len() == 0 {
            return None;
        }
        let mut entry = entry;
        entry.set_field(list_key, Value::Array(kept));
        match parent {
            Some(parent) => reattach_child(&mut entry, parent_key, parent),
            None => {},
        }
        Some(entry)
    }
}

/// A closed level is the entry rebuilt.
proof fn lemma_closed_is_rebuilt(
    entry: Tree,
    parent_key: Seq<char>,
    list_key: Seq<char>,
    parent: Option<Tree>,
    kept: Seq<Tree>,
)
    requires
        listed(entry, list_key) is Some,
        parent_key != list_key,
    ensures
        LevelTree::opened(entry, parent_key, list_key).closed(parent_key, list_key, parent, kept)
            == if kept.len() == 0 {
            Seq::<Tree>::empty()
        } else {
            seq![rebuilt(entry, parent_key, parent, list_key, kept)]
        },
{
    match entry {
        Tree::Object(fields) => {
            assert(fields.remove(parent_key).remove(list_key).insert(list_key, Tree::Array(kept))
                =~= fields.remove(parent_key).insert(list_key, Tree::Array(kept)));
        },
        _ => {},
    }
}

/// What a walk is.
#[verifier::ext_equal]
pub struct WalkTree {
    pub signal: Signal,
    pub listed: bool,
    pub needs_record: bool,
    pub root: Tree,
    pub kept: Seq<Tree>,
    pub pending: Seq<Tree>,
    pub resource: Option<LevelTree>,
    pub scope: Option<LevelTree>,
    pub record: Option<Tree>,
}

impl WalkTree {
    /// The record that is handed out, if any, as a sequence.
    spec fn current(self) -> Seq<Tree> {
        match self.record {
            Some(record) => seq![record],
            None => Seq::empty(),
        }
    }

    /// What the open scope entry comes to under the outcomes still to come.
    spec fn complete_scope(
        self,
        scope: LevelTree,
        resource: Option<Tree>,
        outcomes: Seq<Outcome>,
    ) -> EntriesRun {
        let run = run_records(self.current() + scope.pending, resource, scope.parent, outcomes);
        EntriesRun {
            kept: scope.closed(
                "scope"@,
                records_key(self.signal),
                run.scope,
                scope.kept + run.kept,
            ),
            resource: run.resource,
            next: in_scope(run.next, scope.entry),
            rest: run.rest,
        }
    }

    /// What the open resource entry comes to under the outcomes still to come.
    spec fn complete_resource(self, resource: LevelTree, outcomes: Seq<Outcome>) -> EntriesRun {
        let first = match self.scope {
            Some(scope) => self.complete_scope(scope, resource.parent, outcomes),
            None => EntriesRun {
                kept: Seq::empty(),
                resource: resource.parent,
                next: None,
                rest: outcomes,
            },
        };
        let run = run_scopes(self.signal, resource.pending, first.resource, first.rest);
        EntriesRun {
            kept: resource.closed(
                "resource"@,
                scopes_key(self.signal),
                run.resource,
                resource.kept + first.kept + run.kept,
            ),
            resource: None,
            next: in_resource(first_of(first.next, run.next), resource.entry),
            rest: run.rest,
        }
    }

    /// What the whole walk comes to under the outcomes still to come.
    spec fn complete(self, outcomes: Seq<Outcome>) -> EnvelopeRun {
        if !self.listed {
            EnvelopeRun { forwarded: Some(self.root), next: None }
        } else {
            let first = match self.resource {
                Some(resource) => self.complete_resource(resource, outcomes),
                None => EntriesRun { kept: Seq::empty(), resource: None, next: None, rest: outcomes },
            };
            let run = run_resources(self.signal, self.pending, first.rest);
            let all = self.kept + first.kept + run.kept;
            EnvelopeRun {
                forwarded: if all.len() == 0 || self.needs_record && records_of_resources(
                    self.signal,
                    all,
                ).len() == 0 {
                    None
                } else {
                    Some(self.root.with_field(resources_key(self.signal), Tree::Array(all)))
                },
                next: first_of(first.next, run.next),
            }
        }
    }
}

/// The keys of an entry are different from each other.
pub(crate) proof fn lemma_keys_differ(signal: Signal)
    ensures
        "scope"@ != records_key(signal),
        "resource"@ != scopes_key(signal),
        "schemaUrl"@ != "scope"@,
        "schemaUrl"@ != "resource"@,
        "schemaUrl"@ != records_key(signal),
        "schemaUrl"@ != scopes_key(signal),
{
    reveal_strlit("schemaUrl");
    assert("schemaUrl"@.len() == 9);
    assert("schemaUrl"@[1] == 'c');
    assert("schemaUrl"@[2] == 'h');
    assert("scopeLogs"@[2] == 'o') by {
        reveal_strlit("scopeLogs");
    }
    reveal_strlit("scope");
    reveal_strlit("logRecords");
    reveal_strlit("metrics");
    reveal_strlit("spans");
    reveal_strlit("resource");
    reveal_strlit("scopeLogs");
    reveal_strlit("scopeMetrics");
    reveal_strlit("scopeSpans");
    assert("scope"@[1] == 'c');
    assert("spans"@[1] == 'p');
    assert("scope"@.len() == 5);
    assert("resource"@.len() == 8);
}

/// Handing out the next record of the open scope changes nothing of the walk's result.
proof fn lemma_record_taken(before: WalkTree, after: WalkTree, outcomes: Seq<Outcome>)
    requires
        before.resource is Some,
        before.scope is Some,
        before.record is None,
        before.scope->0.pending.len() > 0,
        after == (WalkTree {
            record: Some(before.scope->0.pending[0]),
            scope: Some(
                LevelTree {
                    pending: before.scope->0.pending.drop_first(),
                    ..before.scope->0
                },
            ),
            ..before
        }),
    ensures
        after.complete(outcomes) == before.complete(outcomes),
{
    assert(after.current() + after.scope->0.pending =~= before.current()
        + before.scope->0.pending);
}

/// Closing a scope whose records have all been settled changes nothing of the walk's result.
proof fn lemma_scope_closed(before: WalkTree, after: WalkTree, outcomes: Seq<Outcome>)
    requires
        before.resource is Some,
        before.scope is Some,
        before.record is None,
        before.scope->0.pending.len() == 0,
        after == (WalkTree {
            scope: None,
            resource: Some(
                LevelTree {
                    kept: before.resource->0.kept + before.scope->0.closed(
                        "scope"@,
                        records_key(before.signal),
                        before.scope->0.parent,
                        before.scope->0.kept,
                    ),
                    ..before.resource->0
                },
            ),
            ..before
        }),
    ensures
        after.complete(outcomes) == before.complete(outcomes),
{
    let scope = before.scope->0;
    let resource = before.resource->0;
    assert(before.current() + scope.pending =~= Seq::<Tree>::empty());
    assert(scope.kept + Seq::<Tree>::empty() =~= scope.kept);
    let first = before.complete_scope(scope, resource.parent, outcomes);
    assert(first.kept == scope.closed(
        "scope"@,
        records_key(before.signal),
        scope.parent,
        scope.kept,
    ));
    assert((resource.kept + first.kept) + Seq::<Tree>::empty() =~= resource.kept + first.kept);
}

/// Opening the next scope entry of the open resource changes nothing of the walk's result.
proof fn lemma_scope_opened(before: WalkTree, after: WalkTree, outcomes: Seq<Outcome>)
    requires
        before.resource is Some,
        before.scope is None,
        before.record is None,
        before.resource->0.pending.len() > 0,
        listed(before.resource->0.pending[0], records_key(before.signal)) is Some,
        after == (WalkTree {
            scope: Some(
                LevelTree::opened(
                    before.resource->0.pending[0],
                    "scope"@,
                    records_key(before.signal),
                ),
            ),
            resource: Some(
                LevelTree {
                    pending: before.resource->0.pending.drop_first(),
                    ..before.resource->0
                },
            ),
            ..before
        }),
    ensures
        after.complete(outcomes) == before.complete(outcomes),
{
    let resource = before.resource->0;
    let entry = resource.pending[0];
    let records = listed(entry, records_key(before.signal))->0;
    let scope = after.scope->0;
    lemma_keys_differ(before.signal);
    assert(after.current() + scope.pending =~= records);
    let inner = run_records(records, resource.parent, entry.field("scope"@), outcomes);
    lemma_closed_is_rebuilt(
        entry,
        "scope"@,
        records_key(before.signal),
        inner.scope,
        inner.kept,
    );
    assert(scope.kept + inner.kept =~= inner.kept);
    let first = after.complete_scope(scope, resource.parent, outcomes);
    let run = run_scopes(
        before.signal,
        resource.pending.drop_first(),
        inner.resource,
        inner.rest,
    );
    let whole = run_scopes(before.signal, resource.pending, resource.parent, outcomes);
    assert(first.kept + run.kept =~= whole.kept);
    assert(resource.kept + first.kept + run.kept =~= resource.kept + Seq::<Tree>::empty()
        + whole.kept);
}

/// Passing over a scope entry without records changes nothing of the walk's result.
proof fn lemma_scope_passed(before: WalkTree, after: WalkTree, outcomes: Seq<Outcome>)
    requires
        before.resource is Some,
        before.scope is None,
        before.record is None,
        before.resource->0.pending.len() > 0,
        listed(before.resource->0.pending[0], records_key(before.signal)) is None,
        after == (WalkTree {
            resource: Some(
                LevelTree {
                    kept: before.resource->0.kept.push(before.resource->0.pending[0]),
                    pending: before.resource->0.pending.drop_first(),
                    ..before.resource->0
                },
            ),
            ..before
        }),
    ensures
        after.complete(outcomes) == before.complete(outcomes),
{
    let resource = before.resource->0;
    let entry = resource.pending[0];
    let run = run_scopes(
        before.signal,
        resource.pending.drop_first(),
        resource.parent,
        outcomes,
    );
    let whole = run_scopes(before.signal, resource.pending, resource.parent, outcomes);
    assert(resource.kept.push(entry) + Seq::<Tree>::empty() + run.kept =~= resource.kept + Seq::<
        Tree,
    >::empty() + whole.kept);
}

/// Closing a resource whose scopes have all been walked changes nothing of the walk's result.
proof fn lemma_resource_closed(before: WalkTree, after: WalkTree, outcomes: Seq<Outcome>)
    requires
        before.resource is Some,
        before.scope is None,
        before.record is None,
        before.resource->0.pending.len() == 0,
        after == (WalkTree {
            resource: None,
            kept: before.kept + before.resource->0.closed(
                "resource"@,
                scopes_key(before.signal),
                before.resource->0.parent,
                before.resource->0.kept,
            ),
            ..before
        }),
    ensures
        after.complete(outcomes) == before.complete(outcomes),
{
    let resource = before.resource->0;
    assert(resource.kept + Seq::<Tree>::empty() + Seq::<Tree>::empty() =~= resource.kept);
    let first = before.complete_resource(resource, outcomes);
    assert(first.kept == resource.closed(
        "resource"@,
        scopes_key(before.signal),
        resource.parent,
        resource.kept,
    ));
    assert((before.kept + first.kept) + Seq::<Tree>::empty() =~= before.kept + first.kept);
}

/// Opening the next resource entry changes nothing of the walk's result.
proof fn lemma_resource_opened(before: WalkTree, after: WalkTree, outcomes: Seq<Outcome>)
    requires
        before.resource is None,
        before.scope is None,
        before.record is None,
        before.pending.len() > 0,
        listed(before.pending[0], scopes_key(before.signal)) is Some,
        after == (WalkTree {
            resource: Some(
                LevelTree::opened(before.pending[0], "resource"@, scopes_key(before.signal)),
            ),
            pending: before.pending.drop_first(),
            ..before
        }),
    ensures
        after.complete(outcomes) == before.complete(outcomes),
{
    let entry = before.pending[0];
    let scopes = listed(entry, scopes_key(before.signal))->0;
    let resource = after.resource->0;
    lemma_keys_differ(before.signal);
    let inner = run_scopes(before.signal, scopes, entry.field("resource"@), outcomes);
    lemma_closed_is_rebuilt(
        entry,
        "resource"@,
        scopes_key(before.signal),
        inner.resource,
        inner.kept,
    );
    assert(resource.kept + Seq::<Tree>::empty() + inner.kept =~= inner.kept);
    let first = after.complete_resource(resource, outcomes);
    let run = run_resources(before.signal, before.pending.drop_first(), inner.rest);
    let whole = run_resources(before.signal, before.pending, outcomes);
    assert(first.kept + run.kept =~= whole.kept);
    assert(before.kept + first.kept + run.kept =~= before.kept + Seq::<Tree>::empty()
        + whole.kept);
}

/// Passing over a resource entry without scopes changes nothing of the walk's result.
proof fn lemma_resource_passed(before: WalkTree, after: WalkTree, outcomes: Seq<Outcome>)
    requires
        before.resource is None,
        before.scope is None,
        before.record is None,
        before.pending.len() > 0,
        listed(before.pending[0], scopes_key(before.signal)) is None,
        after == (WalkTree {
            kept: if before.signal == Signal::Metrics {
                before.kept
            } else {
                before.kept.push(before.pending[0])
            },
            pending: before.pending.drop_first(),
            ..before
        }),
    ensures
        after.complete(outcomes) == before.complete(outcomes),
{
    let run = run_resources(before.signal, before.pending.drop_first(), outcomes);
    let whole = run_resources(before.signal, before.pending, outcomes);
    assert(after.kept + Seq::<Tree>::empty() + run.kept =~= before.kept + Seq::<Tree>::empty()
        + whole.kept);
}

/// Settling the record that is handed out uses up the first of the outcomes to come.
proof fn lemma_record_settled(
    before: WalkTree,
    after: WalkTree,
    outcome: Outcome,
    outcomes: Seq<Outcome>,
)
    requires
        before.resource is Some,
        before.scope is Some,
        before.record is Some,
        outcomes.len() > 0,
        outcomes[0] == outcome,
        after == (WalkTree {
            record: None,
            scope: Some(
                LevelTree {
                    parent: outcome.scope,
                    kept: if outcome.dropped is None {
                        before.scope->0.kept.push(outcome.record)
                    } else {
                        before.scope->0.kept
                    },
                    ..before.scope->0
                },
            ),
            resource: Some(LevelTree { parent: outcome.resource, ..before.resource->0 }),
            ..before
        }),
    ensures
        after.complete(outcomes.drop_first()) == before.complete(outcomes),
{
    let scope = before.scope->0;
    let resource = before.resource->0;
    let records = before.current() + scope.pending;
    assert(records.drop_first() =~= scope.pending);
    assert(after.current() + scope.pending =~= scope.pending);
    let run = run_records(records, resource.parent, scope.parent, outcomes);
    let rest = run_records(
        scope.pending,
        outcome.resource,
        outcome.scope,
        outcomes.drop_first(),
    );
    assert(scope.kept + run.kept =~= after.scope->0.kept + rest.kept);
}

/// What is changed of the record that is handed out, and of its resource and scope, shows in
/// the outcome of its evaluation and nowhere else.
proof fn lemma_record_changed(before: WalkTree, after: WalkTree, outcomes: Seq<Outcome>)
    requires
        before.resource is Some,
        before.scope is Some,
        before.record is Some,
        outcomes.len() > 0,
        after == (WalkTree {
            record: Some(after.record->0),
            scope: Some(LevelTree { parent: after.scope->0.parent, ..before.scope->0 }),
            resource: Some(LevelTree { parent: after.resource->0.parent, ..before.resource->0 }),
            ..before
        }),
    ensures
        after.complete(outcomes) == before.complete(outcomes),
{
    let pending = before.scope->0.pending;
    assert((before.current() + pending).drop_first() =~= pending);
    assert((after.current() + pending).drop_first() =~= pending);
}

fn resources_name(signal: Signal) -> (r: &'static str)
    ensures
        r@ == resources_key(signal),
{
    match signal {
        Signal::Logs => "resourceLogs",
        Signal::Metrics => "resourceMetrics",
        Signal::Traces => "resourceSpans",
    }
}

fn scopes_name(signal: Signal) -> (r: &'static str)
    ensures
        r@ == scopes_key(signal),
{
    match signal {
        Signal::Logs => "scopeLogs",
        Signal::Metrics => "scopeMetrics",
        Signal::Traces => "scopeSpans",
    }
}

fn records_name(signal: Signal) -> (r: &'static str)
    ensures
        r@ == records_key(signal),
{
    match signal {
        Signal::Logs => "logRecords",
        Signal::Metrics => "metrics",
        Signal::Traces => "spans",
    }
}

/// Whether there is a record in scope entries.
fn scopes_hold_record(signal: Signal, scopes: &Vec<Value>) -> (r: bool)
    ensures
        r == (records_of_scopes(signal, crate::value::trees(scopes@)).len() > 0),
{
    let ghost all = crate::value::trees(scopes@);
    let mut i: usize = 0;
    assert(all.skip(0) =~= all);
    while i < scopes.len()
        invariant
            i <= scopes@.len(),
            all == crate::value::trees(scopes@),
            records_of_scopes(signal, all).len() == records_of_scopes(
                signal,
                all.skip(i as int),
            ).len(),
        decreases scopes@.len() - i,
    {
        broadcast use crate::value::lemma_array_view;

        assert(all.skip(i as int).drop_first() =~= all.skip(i + 1));
        match scopes[i].get(records_name(signal)) {
            Some(Value::Array(records)) => if records.len() > 0 {
                return true;
            },
            _ => {},
        }
        i = i + 1;
    }
    false
}

/// Whether there is a record in resource entries.
fn resources_hold_record(signal: Signal, resources: &Vec<Value>) -> (r: bool)
    ensures
        r == (records_of_resources(signal, crate::value::trees(resources@)).len() > 0),
{
    let ghost all = crate::value::trees(resources@);
    let mut i: usize = 0;
    assert(all.skip(0) =~= all);
    while i < resources.len()
        invariant
            i <= resources@.len(),
            all == crate::value::trees(resources@),
            records_of_resources(signal, all).len() == records_of_resources(
                signal,
                all.skip(i as int),
            ).len(),
        decreases resources@.len() - i,
    {
        broadcast use crate::value::lemma_array_view;

        assert(all.skip(i as int).drop_first() =~= all.skip(i + 1));
        match resources[i].get(scopes_name(signal)) {
            Some(Value::Array(scopes)) => if scopes_hold_record(signal, scopes) {
                return true;
            },
            _ => {},
        }
        i = i + 1;
    }
    false
}

/// How many outcomes drop a record for a reason.
pub open spec fn drops_for(outcomes: Seq<Outcome>, reason: DropReason) -> nat {
    outcomes.filter(|outcome: Outcome| outcome.dropped == Some(reason)).len()
}

proof fn lemma_drops_pushed(outcomes: Seq<Outcome>, outcome: Outcome, reason: DropReason)
    ensures
        drops_for(outcomes.push(outcome), reason) == drops_for(outcomes, reason) + if
            outcome.dropped == Some(reason) {
            1nat
        } else {
            0nat
        },
{
    reveal(Seq::filter);
    assert(outcomes.push(outcome).drop_last() =~= outcomes);
}

/// A walk through an envelope.
///
/// While a record is handed out it can be read and changed, with its resource and scope, and
/// is then settled by the outcome of its evaluation. Once none is left, the walk finishes with
/// the event to forward.
pub struct EnvelopeWalk {
    signal: Signal,
    listed: bool,
    /// This is a logs envelope with a record in it, so it is dropped once it has none.
    needs_record: bool,
    root: Value,
    kept: Vec<Value>,
    pending: Pending,
    resource: Option<Level>,
    scope: Option<Level>,
    record: Option<Value>,
    drops: DropCounts,
    errors: EvalErrors,
    event: Ghost<Tree>,
    history: Ghost<Seq<Outcome>>,
}

impl EnvelopeWalk {
    spec fn view(self) -> WalkTree {
        WalkTree {
            signal: self.signal,
            listed: self.listed,
            needs_record: self.needs_record,
            root: self.root@,
            kept: crate::value::trees(self.kept@),
            pending: self.pending@,
            resource: match self.resource {
                Some(level) => Some(level@),
                None => None,
            },
            scope: match self.scope {
                Some(level) => Some(level@),
                None => None,
            },
            record: crate::value::tree_of(self.record),
        }
    }

    /// The outcomes so far and those to come give what the walk comes to.
    spec fn on_course(self) -> bool {
        forall|rest: Seq<Outcome>|
            (self.record is Some ==> rest.len() > 0) ==> #[trigger] self@.complete(rest)
                == run_envelope(self.signal, self.event@, self.history@ + rest)
    }

    spec fn consistent(self) -> bool {
        &&& self.pending.wf()
        &&& self.resource is Some ==> self.resource->0.wf()
        &&& self.scope is Some ==> self.scope->0.wf()
        &&& self.scope is Some ==> self.resource is Some
        &&& self.record is Some ==> self.scope is Some
        &&& self.resource is Some || self.pending@.len() > 0 ==> self.listed
        &&& self.on_course()
        &&& forall|reason: DropReason| #[trigger]
            self.drops.of(reason) == drops_for(self.history@, reason)
    }

    /// The walk stands at a record or at its end.
    pub closed spec fn wf(self) -> bool {
        &&& self.consistent()
        &&& self.record is None ==> self.resource is None && self.pending@.len() == 0
    }

    /// What sort of telemetry the envelope carries.
    pub closed spec fn signal(self) -> Signal {
        self.signal
    }

    /// The event that is walked, as it was.
    pub closed spec fn event(self) -> Tree {
        self.event@
    }

    /// The outcomes of the records settled so far.
    pub closed spec fn history(self) -> Seq<Outcome> {
        self.history@
    }

    /// How many records were dropped for each reason.
    pub closed spec fn drop_counts(self) -> DropCounts {
        self.drops
    }

    /// The evaluation errors so far.
    pub closed spec fn eval_errors(self) -> EvalErrors {
        self.errors
    }

    /// The record that is handed out, with what stands around it.
    pub closed spec fn current(self) -> Option<RecordTree> {
        match self.record {
            Some(record) => Some(
                RecordTree {
                    record: record@,
                    resource: crate::value::tree_of(self.resource->0.parent),
                    scope: crate::value::tree_of(self.scope->0.parent),
                    resource_schema_url: self.resource->0.entry@.field("schemaUrl"@),
                    scope_schema_url: self.scope->0.entry@.field("schemaUrl"@),
                },
            ),
            None => None,
        }
    }

    spec fn resource_work(self) -> nat {
        match self.resource {
            Some(level) => 1 + level.pending@.len(),
            None => 0,
        }
    }

    spec fn scope_work(self) -> nat {
        match self.scope {
            Some(level) => 1 + level.pending@.len(),
            None => 0,
        }
    }

    /// Goes on to the next record, or to the end.
    fn advance(&mut self)
        requires
            old(self).consistent(),
            old(self).record is None,
        ensures
            final(self).wf(),
            final(self).signal == old(self).signal,
            final(self).event@ == old(self).event@,
            final(self).history@ == old(self).history@,
            final(self).drops == old(self).drops,
            final(self).errors == old(self).errors,
            final(self).current() == run_envelope(
                final(self).signal,
                final(self).event@,
                final(self).history@,
            ).next,
    {
        loop
            invariant
                self.consistent(),
                self.record is None,
                self.signal == old(self).signal,
                self.event@ == old(self).event@,
                self.history@ == old(self).history@,
                self.drops == old(self).drops,
                self.errors == old(self).errors,
            decreases self.pending@.len(), self.resource_work(), self.scope_work(),
        {
            let ghost before = self@;
            assert forall|rest: Seq<Outcome>| #[trigger] before.complete(rest) == run_envelope(
                self.signal,
                self.event@,
                self.history@ + rest,
            ) by {
                assert(self@.complete(rest) == before.complete(rest));
            }
            match self.scope.take() {
                Some(open) => {
                    let mut scope = open;
                    match scope.pending.take_next() {
                        Some(record) => {
                            self.record = Some(record);
                            self.scope = Some(scope);
                            assert forall|rest: Seq<Outcome>| #[trigger]
                                self@.complete(rest) == run_envelope(
                                self.signal,
                                self.event@,
                                self.history@ + rest,
                            ) by {
                                lemma_record_taken(before, self@, rest);
                            }
                            proof {
                                let none = Seq::<Outcome>::empty();
                                assert(self.history@ + none =~= self.history@);
                                assert(self@.complete(none) == run_envelope(
                                    self.signal,
                                    self.event@,
                                    self.history@,
                                ));
                            }
                            return;
                        },
                        None => {
                            let ghost closing = scope@;
                            match self.resource.take() {
                                Some(parent) => {
                                    let mut resource = parent;
                                    let ghost kept = crate::value::trees(resource.kept@);
                                    match scope.close("scope", records_name(self.signal)) {
                                        Some(entry) => {
                                            resource.kept.push(entry);
                                            assert(crate::value::trees(resource.kept@) =~= kept
                                                + seq![entry@]);
                                        },
                                        None => {
                                            assert(crate::value::trees(resource.kept@) =~= kept
                                                + Seq::<Tree>::empty());
                                        },
                                    }
                                    self.resource = Some(resource);
                                },
                                None => {},
                            }
                            assert forall|rest: Seq<Outcome>| #[trigger]
                                self@.complete(rest) == run_envelope(
                                self.signal,
                                self.event@,
                                self.history@ + rest,
                            ) by {
                                lemma_scope_closed(before, self@, rest);
                            }
                        },
                    }
                },
                None => match self.resource.take() {
                    Some(open) => {
                        let mut resource = open;
                        match resource.pending.take_next() {
                            Some(entry) => {
                                proof {
                                    lemma_keys_differ(self.signal);
                                }
                                match Level::open(entry, "scope", records_name(self.signal)) {
                                    Ok(level) => {
                                        self.scope = Some(level);
                                        self.resource = Some(resource);
                                        assert forall|rest: Seq<Outcome>| #[trigger]
                                            self@.complete(rest) == run_envelope(
                                            self.signal,
                                            self.event@,
                                            self.history@ + rest,
                                        ) by {
                                            lemma_scope_opened(before, self@, rest);
                                        }
                                    },
                                    Err(entry) => {
                                        let ghost kept = crate::value::trees(resource.kept@);
                                        resource.kept.push(entry);
                                        assert(crate::value::trees(resource.kept@) =~= kept.push(
                                            entry@,
                                        ));
                                        self.resource = Some(resource);
                                        assert forall|rest: Seq<Outcome>| #[trigger]
                                            self@.complete(rest) == run_envelope(
                                            self.signal,
                                            self.event@,
                                            self.history@ + rest,
                                        ) by {
                                            lemma_scope_passed(before, self@, rest);
                                        }
                                    },
                                }
                            },
                            None => {
                                let ghost kept = crate::value::trees(self.kept@);
                                match resource.close("resource", scopes_name(self.signal)) {
                                    Some(entry) => {
                                        self.kept.push(entry);
                                        assert(crate::value::trees(self.kept@) =~= kept
                                            + seq![entry@]);
                                    },
                                    None => {
                                        assert(crate::value::trees(self.kept@) =~= kept
                                            + Seq::<Tree>::empty());
                                    },
                                }
                                assert forall|rest: Seq<Outcome>| #[trigger]
                                    self@.complete(rest) == run_envelope(
                                    self.signal,
                                    self.event@,
                                    self.history@ + rest,
                                ) by {
                                    lemma_resource_closed(before, self@, rest);
                                }
                            },
                        }
                    },
                    None => match self.pending.take_next() {
                        Some(entry) => {
                            proof {
                                lemma_keys_differ(self.signal);
                            }
                            match Level::open(entry, "resource", scopes_name(self.signal)) {
                                Ok(level) => {
                                    self.resource = Some(level);
                                    assert forall|rest: Seq<Outcome>| #[trigger]
                                        self@.complete(rest) == run_envelope(
                                        self.signal,
                                        self.event@,
                                        self.history@ + rest,
                                    ) by {
                                        lemma_resource_opened(before, self@, rest);
                                    }
                                },
                                Err(entry) => {
                                    let ghost kept = crate::value::trees(self.kept@);
                                    match self.signal {
                                        Signal::Metrics => {},
                                        _ => {
                                            self.kept.push(entry);
                                            assert(crate::value::trees(self.kept@) =~= kept.push(
                                                entry@,
                                            ));
                                        },
                                    }
                                    assert forall|rest: Seq<Outcome>| #[trigger]
                                        self@.complete(rest) == run_envelope(
                                        self.signal,
                                        self.event@,
                                        self.history@ + rest,
                                    ) by {
                                        lemma_resource_passed(before, self@, rest);
                                    }
                                },
                            }
                        },
                        None => {
                            proof {
                                let none = Seq::<Outcome>::empty();
                                assert(self.history@ + none =~= self.history@);
                                assert(self@.complete(none) == run_envelope(
                                    self.signal,
                                    self.event@,
                                    self.history@,
                                ));
                            }
                            return;
                        },
                    },
                },
            }
        }
    }

    /// Begins a walk through an event.
    pub fn start(signal: Signal, event: Value) -> (r: EnvelopeWalk)
        ensures
            r.wf(),
            r.signal() == signal,
            r.event() == event@,
            r.history() == Seq::<Outcome>::empty(),
            r.current() == run_envelope(signal, event@, Seq::empty()).next,
            r.eval_errors().count == 0,
            r.eval_errors().first is None,
    {
        let ghost whole = event@;
        let mut root = event;
        let name = resources_name(signal);
        let mut listed = false;
        let mut items: Vec<Value> = Vec::new();
        match root.get(name) {
            Some(Value::Array(_)) => {
                listed = true;
            },
            _ => {},
        }
        if listed {
            match root.take_field(name) {
                Some(Value::Array(list)) => {
                    items = list;
                },
                _ => {},
            }
        }
        let needs_record = match signal {
            Signal::Logs => resources_hold_record(signal, &items),
            _ => false,
        };
        let mut walk = EnvelopeWalk {
            signal,
            listed,
            needs_record,
            root,
            kept: Vec::new(),
            pending: Pending::new(items),
            resource: None,
            scope: None,
            record: None,
            drops: DropCounts::default(),
            errors: EvalErrors::default(),
            event: Ghost(whole),
            history: Ghost(Seq::empty()),
        };
        assert forall|rest: Seq<Outcome>| #[trigger] walk@.complete(rest) == run_envelope(
            walk.signal,
            walk.event@,
            walk.history@ + rest,
        ) by {
            assert(walk.history@ + rest =~= rest);
            if listed {
                let resources = crate::envelope::listed(whole, resources_key(signal))->0;
                let run = run_resources(signal, resources, rest);
                assert(walk@.kept + Seq::<Tree>::empty() + run.kept =~= run.kept);
                match whole {
                    Tree::Object(fields) => {
                        assert(fields.remove(resources_key(signal)).insert(
                            resources_key(signal),
                            Tree::Array(run.kept),
                        ) =~= fields.insert(resources_key(signal), Tree::Array(run.kept)));
                    },
                    _ => {},
                }
            }
        }
        assert forall|reason: DropReason| #[trigger] walk.drops.of(reason) == drops_for(
            walk.history@,
            reason,
        ) by {
            reveal(Seq::filter);
        }
        walk.advance();
        walk
    }

    /// Whether a record is handed out.
    pub fn has_record(&self) -> (r: bool)
        ensures
            r == (self.current() is Some),
    {
        self.record.is_some()
    }

    /// Whether one more drop and one more error can be counted.
    pub fn has_room(&self) -> (r: bool)
        ensures
            r == (self.drop_counts().has_room() && self.eval_errors().count < u64::MAX),
    {
        let r = self.drops.policy_drop < u64::MAX && self.drops.sample_rejected < u64::MAX
            && self.drops.rate_limited < u64::MAX && self.errors.count < u64::MAX;
        proof {
            if self.drops.has_room() {
                assert(self.drops.of(DropReason::PolicyDrop) < u64::MAX);
                assert(self.drops.of(DropReason::SampleRejected) < u64::MAX);
                assert(self.drops.of(DropReason::RateLimited) < u64::MAX);
            }
        }
        r
    }

    /// Settles the record that is handed out by the outcome of its evaluation, and goes on to
    /// the next one. A failed evaluation lets the record stay; where failures are reported
    /// at all, which is not the case among metrics, it is counted.
    pub fn settle(&mut self, result: Result<EvaluateResult, String>)
        requires
            old(self).wf(),
            old(self).current() is Some,
            old(self).drop_counts().has_room(),
            old(self).eval_errors().count < u64::MAX,
        ensures
            final(self).wf(),
            final(self).signal() == old(self).signal(),
            final(self).event() == old(self).event(),
            final(self).history() == old(self).history().push(
                Outcome {
                    dropped: crate::verdict::outcome_drops(old(self).signal(), result),
                    record: old(self).current()->0.record,
                    resource: old(self).current()->0.resource,
                    scope: old(self).current()->0.scope,
                },
            ),
            final(self).current() == run_envelope(
                final(self).signal(),
                final(self).event(),
                final(self).history(),
            ).next,
            match result {
                Err(error) if old(self).signal() != Signal::Metrics => {
                    &&& final(self).eval_errors().count == old(self).eval_errors().count + 1
                    &&& crate::value::text_of(final(self).eval_errors().first) == match old(
                        self,
                    ).eval_errors().first {
                        Some(first) => Some(first@),
                        None => Some(error@),
                    }
                },
                _ => final(self).eval_errors() == old(self).eval_errors(),
            },
    {
        let ghost before = self@;
        let ghost past = self.history@;
        let ghost outcome = Outcome {
            dropped: crate::verdict::outcome_drops(self.signal, result),
            record: self.current()->0.record,
            resource: self.current()->0.resource,
            scope: self.current()->0.scope,
        };
        proof {
            assert forall|rest: Seq<Outcome>| rest.len() > 0 implies #[trigger] before.complete(
                rest,
            ) == run_envelope(self.signal, self.event@, past + rest) by {
                assert(self@.complete(rest) == before.complete(rest));
            }
            assert forall|reason: DropReason| #[trigger] drops_for(past.push(outcome), reason)
                == drops_for(past, reason) + if outcome.dropped == Some(reason) {
                1nat
            } else {
                0nat
            } by {
                lemma_drops_pushed(past, outcome, reason);
            }
        }
        let dropped = match result {
            Ok(result) => drop_reason(self.signal, result),
            Err(error) => {
                match self.signal {
                    Signal::Metrics => {},
                    _ => {
                        self.errors.record(error.as_str());
                    },
                }
                None
            },
        };
        let record = self.record.take();
        match dropped {
            Some(reason) => {
                self.drops.record(reason);
            },
            None => match (record, self.scope.take()) {
                (Some(record), Some(open)) => {
                    let mut scope = open;
                    let ghost kept = crate::value::trees(scope.kept@);
                    scope.kept.push(record);
                    assert(crate::value::trees(scope.kept@) =~= kept.push(record@));
                    self.scope = Some(scope);
                },
                _ => {},
            },
        }
        self.history = Ghost(past.push(outcome));
        assert forall|rest: Seq<Outcome>| #[trigger] self@.complete(rest) == run_envelope(
            self.signal,
            self.event@,
            self.history@ + rest,
        ) by {
            let outcomes = seq![outcome] + rest;
            assert(outcomes.drop_first() =~= rest);
            assert(past + outcomes =~= past.push(outcome) + rest);
            assert(before.complete(outcomes) == run_envelope(
                self.signal,
                self.event@,
                past + outcomes,
            ));
            lemma_record_settled(before, self@, outcome, outcomes);
        }
        self.advance();
    }

    /// Ends a walk that has no record left: the event to forward, or nothing where it is
    /// dropped.
    pub fn finish(self) -> (r: Option<Value>)
        requires
            self.wf(),
            self.current() is None,
        ensures
            crate::value::tree_of(r) == run_envelope(
                self.signal(),
                self.event(),
                self.history(),
            ).forwarded,
    {
        proof {
            let none = Seq::<Outcome>::empty();
            assert(self.history@ + none =~= self.history@);
            assert(self@.complete(none) == run_envelope(
                self.signal,
                self.event@,
                self.history@ + none,
            ));
        }
        if !self.listed {
            return Some(self.root);
        }
        if self.kept.len() == 0 || self.needs_record && !resources_hold_record(
            self.signal,
            &self.kept,
        ) {
            return None;
        }
        let mut root = self.root;
        root.set_field(resources_name(self.signal), Value::Array(self.kept));
        Some(root)
    }

    /// How many records were dropped so far, by reason.
    pub fn drops(&self) -> (r: &DropCounts)
        ensures
            *r == self.drop_counts(),
            self.wf() ==> forall|reason: DropReason| #[trigger]
                r.of(reason) == drops_for(self.history(), reason),
    {
        &self.drops
    }

    /// The evaluation errors so far.
    pub fn errors(&self) -> (r: &EvalErrors)
        ensures
            *r == self.eval_errors(),
    {
        &self.errors
    }
}

impl EnvelopeWalk {
    /// A walk stays on course whatever is changed of the record that is handed out, and of its
    /// resource and scope.
    proof fn lemma_stays_on_course(self, after: EnvelopeWalk)
        requires
            self.consistent(),
        ensures
            self.record is Some && after.record is Some && after.signal == self.signal
                && after.event@ == self.event@ && after.history@ == self.history@ && after@ == (
            WalkTree {
                record: Some(after@.record->0),
                scope: Some(LevelTree { parent: after@.scope->0.parent, ..self@.scope->0 }),
                resource: Some(
                    LevelTree { parent: after@.resource->0.parent, ..self@.resource->0 },
                ),
                ..self@
            }) ==> after.on_course(),
    {
        if self.record is Some && after.record is Some && after.signal == self.signal
            && after.event@ == self.event@ && after.history@ == self.history@ && after@ == (
        WalkTree {
            record: Some(after@.record->0),
            scope: Some(LevelTree { parent: after@.scope->0.parent, ..self@.scope->0 }),
            resource: Some(LevelTree { parent: after@.resource->0.parent, ..self@.resource->0 }),
            ..self@
        }) {
            assert forall|rest: Seq<Outcome>| rest.len() > 0 implies #[trigger]
                after@.complete(rest) == run_envelope(
                after.signal,
                after.event@,
                after.history@ + rest,
            ) by {
                lemma_record_changed(self@, after@, rest);
                assert(self@.complete(rest) == run_envelope(
                    self.signal,
                    self.event@,
                    self.history@ + rest,
                ));
            }
        }
    }

    /// The record that is handed out, with its resource and scope, for reading and changing as
    /// a log record.
    pub fn log_record(&mut self) -> (r: Option<OtlpLogAdapter<'_>>)
        requires
            old(self).wf(),
        ensures
            r is Some <==> old(self).current() is Some,
            r matches Some(adapter) ==> adapter@ == old(self).current()->0,
            final(self).wf(),
            final(self).signal() == old(self).signal(),
            final(self).event() == old(self).event(),
            final(self).history() == old(self).history(),
            final(self).drop_counts() == old(self).drop_counts(),
            final(self).eval_errors() == old(self).eval_errors(),
            match r {
                Some(adapter) => final(self).current() == Some(
                    RecordTree {
                        record: (*final(adapter.log_record))@,
                        resource: match adapter.resource {
                            Some(resource) => Some((*final(resource))@),
                            None => None,
                        },
                        scope: match adapter.scope {
                            Some(scope) => Some((*final(scope))@),
                            None => None,
                        },
                        ..old(self).current()->0
                    },
                ),
                None => final(self).current() is None,
            },
    {
        proof {
            self.lemma_stays_on_course(*final(self));
        }
        match (&mut self.resource, &mut self.scope, &mut self.record) {
            (Some(resource), Some(scope), Some(record)) => Some(
                OtlpLogAdapter {
                    log_record: record,
                    resource: resource.parent.as_mut(),
                    scope: scope.parent.as_mut(),
                    resource_schema_url: resource.entry.get("schemaUrl"),
                    scope_schema_url: scope.entry.get("schemaUrl"),
                },
            ),
            _ => None,
        }
    }

    /// The record that is handed out, for reading and changing as a log record with dotted
    /// attribute keys. Its resource and scope can only be read.
    pub fn dotted_log_record(&mut self) -> (r: Option<DottedLogAdapter<'_>>)
        requires
            old(self).wf(),
        ensures
            r is Some <==> old(self).current() is Some,
            r matches Some(adapter) ==> adapter@ == old(self).current()->0,
            final(self).wf(),
            final(self).signal() == old(self).signal(),
            final(self).event() == old(self).event(),
            final(self).history() == old(self).history(),
            final(self).drop_counts() == old(self).drop_counts(),
            final(self).eval_errors() == old(self).eval_errors(),
            match r {
                Some(adapter) => final(self).current() == Some(
                    RecordTree { record: (*final(adapter.log_record))@, ..old(self).current()->0 },
                ),
                None => final(self).current() is None,
            },
    {
        proof {
            self.lemma_stays_on_course(*final(self));
        }
        match (&self.resource, &self.scope, &mut self.record) {
            (Some(resource), Some(scope), Some(record)) => Some(
                DottedLogAdapter {
                    log_record: record,
                    resource: resource.parent.as_ref(),
                    scope: scope.parent.as_ref(),
                    resource_schema_url: resource.entry.get("schemaUrl"),
                    scope_schema_url: scope.entry.get("schemaUrl"),
                },
            ),
            _ => None,
        }
    }

    /// The record that is handed out, for reading as a metric.
    pub fn metric(&self) -> (r: Option<MetricAdapter<'_>>)
        requires
            self.wf(),
        ensures
            match r {
                Some(adapter) => self.current() == Some(adapter@),
                None => self.current() is None,
            },
    {
        match (&self.resource, &self.scope, &self.record) {
            (Some(resource), Some(scope), Some(record)) => Some(
                MetricAdapter {
                    metric: record,
                    resource: resource.parent.as_ref(),
                    scope: scope.parent.as_ref(),
                    resource_schema_url: resource.entry.get("schemaUrl"),
                    scope_schema_url: scope.entry.get("schemaUrl"),
                },
            ),
            _ => None,
        }
    }

    /// The record that is handed out, for reading and changing as a span. Its resource and
    /// scope can only be read.
    pub fn span(&mut self) -> (r: Option<TraceAdapter<'_>>)
        requires
            old(self).wf(),
        ensures
            r is Some <==> old(self).current() is Some,
            r matches Some(adapter) ==> adapter@ == old(self).current()->0,
            final(self).wf(),
            final(self).signal() == old(self).signal(),
            final(self).event() == old(self).event(),
            final(self).history() == old(self).history(),
            final(self).drop_counts() == old(self).drop_counts(),
            final(self).eval_errors() == old(self).eval_errors(),
            match r {
                Some(adapter) => final(self).current() == Some(
                    RecordTree { record: (*final(adapter.span))@, ..old(self).current()->0 },
                ),
                None => final(self).current() is None,
            },
    {
        proof {
            self.lemma_stays_on_course(*final(self));
        }
        match (&self.resource, &self.scope, &mut self.record) {
            (Some(resource), Some(scope), Some(record)) => Some(
                TraceAdapter {
                    span: record,
                    resource: resource.parent.as_ref(),
                    scope: scope.parent.as_ref(),
                    resource_schema_url: resource.entry.get("schemaUrl"),
                    scope_schema_url: scope.entry.get("schemaUrl"),
                },
            ),
            _ => None,
        }
    }
}

} // verus!
