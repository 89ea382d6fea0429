//! What holds of every walk through an envelope.

use crate::envelope::Outcome;
use crate::internal_events::DropReason;
use crate::value::Tree;
use crate::verdict::Signal;
use vstd::prelude::*;

verus! {

/// The records that outcomes keep, in order, as they stand after their evaluations.
pub open spec fn survivors(outcomes: Seq<Outcome>) -> Seq<Tree>
    decreases outcomes.len(),
{
    if outcomes.len() == 0 {
        Seq::empty()
    } else if outcomes[0].dropped is None {
        seq![outcomes[0].record] + survivors(outcomes.drop_first())
    } else {
        survivors(outcomes.drop_first())
    }
}

proof fn lemma_survivors_split(outcomes: Seq<Outcome>, a: int, b: int)
    requires
        0 <= a,
        0 <= b,
        a + b <= outcomes.len(),
    ensures
        survivors(outcomes.take(a + b)) == survivors(outcomes.take(a)) + survivors(
            outcomes.skip(a).take(b),
        ),
    decreases a,
{
    if a == 0 {
        assert(outcomes.take(0) =~= Seq::<Outcome>::empty());
        assert(outcomes.skip(0) =~= outcomes);
        assert(survivors(outcomes.take(0)) + survivors(outcomes.take(b)) =~= survivors(
            outcomes.take(b),
        ));
    } else {
        let rest = outcomes.drop_first();
        lemma_survivors_split(rest, a - 1, b);
        assert(outcomes.take(a + b).drop_first() =~= rest.take(a - 1 + b));
        assert(outcomes.take(a).drop_first() =~= rest.take(a - 1));
        assert(outcomes.skip(a) =~= rest.skip(a - 1));
        let first = seq![outcomes[0].record];
        assert(first + (survivors(rest.take(a - 1)) + survivors(rest.skip(a - 1).take(b)))
            =~= (first + survivors(rest.take(a - 1))) + survivors(rest.skip(a - 1).take(b)));
    }
}

pub(crate) proof fn lemma_run_records(
    records: Seq<Tree>,
    resource: Option<Tree>,
    scope: Option<Tree>,
    outcomes: Seq<Outcome>,
)
    ensures
        ({
            let run = crate::envelope::run_records(records, resource, scope, outcomes);
            let count = records.len() as int;
            if count <= outcomes.len() {
                &&& run.kept == survivors(outcomes.take(count))
                &&& run.rest == outcomes.skip(count)
                &&& run.next is None
            } else {
                &&& run.rest.len() == 0
                &&& run.next is Some
                &&& run.next->0.record == records[outcomes.len() as int]
            }
        }),
    decreases records.len(),
{
    if records.len() == 0 {
        assert(outcomes.take(0) =~= Seq::<Outcome>::empty());
        assert(outcomes.skip(0) =~= outcomes);
        assert(records =~= Seq::<Tree>::empty());
    } else if outcomes.len() > 0 {
        let rest = outcomes.drop_first();
        lemma_run_records(records.drop_first(), outcomes[0].resource, outcomes[0].scope, rest);
        if records.len() <= outcomes.len() {
            let count = records.len() as int;
            assert(outcomes.take(count).drop_first() =~= rest.take(count - 1));
            assert(outcomes.skip(count) =~= rest.skip(count - 1));
        }
    }
}

pub(crate) proof fn lemma_rebuilt_list(
    entry: Tree,
    parent_key: Seq<char>,
    parent: Option<Tree>,
    list_key: Seq<char>,
    list: Seq<Tree>,
)
    requires
        parent_key != list_key,
        crate::envelope::listed(entry, list_key) is Some,
    ensures
        crate::envelope::listed(
            crate::envelope::rebuilt(entry, parent_key, parent, list_key, list),
            list_key,
        ) == Some(list),
{
}

pub(crate) proof fn lemma_run_scopes(
    signal: Signal,
    scopes: Seq<Tree>,
    resource: Option<Tree>,
    outcomes: Seq<Outcome>,
)
    ensures
        ({
            let run = crate::envelope::run_scopes(signal, scopes, resource, outcomes);
            let records = crate::envelope::records_of_scopes(signal, scopes);
            let count = records.len() as int;
            if count <= outcomes.len() {
                &&& crate::envelope::records_of_scopes(signal, run.kept) == survivors(outcomes.take(count))
                &&& run.rest == outcomes.skip(count)
                &&& run.next is None
            } else {
                &&& run.rest.len() == 0
                &&& run.next is Some
                &&& run.next->0.record == records[outcomes.len() as int]
            }
        }),
    decreases scopes.len(),
{
    if scopes.len() == 0 {
        assert(outcomes.take(0) =~= Seq::<Outcome>::empty());
        assert(outcomes.skip(0) =~= outcomes);
    } else {
        let entry = scopes[0];
        let own = crate::envelope::records_of_scope(signal, entry);
        let others = crate::envelope::records_of_scopes(signal, scopes.drop_first());
        let a = own.len() as int;
        let b = others.len() as int;
        crate::envelope::lemma_keys_differ(signal);
        let run = crate::envelope::run_scopes(signal, scopes, resource, outcomes);
        match crate::envelope::listed(entry, crate::envelope::records_key(signal)) {
            None => {
                lemma_run_scopes(signal, scopes.drop_first(), resource, outcomes);
                let tail = crate::envelope::run_scopes(
                    signal,
                    scopes.drop_first(),
                    resource,
                    outcomes,
                );
                assert(own + others =~= others);
                assert(run.kept.drop_first() =~= tail.kept);
                assert(own + crate::envelope::records_of_scopes(signal, tail.kept) =~= crate::envelope::records_of_scopes(
                    signal,
                    tail.kept,
                ));
            },
            Some(records) => {
                lemma_run_records(records, resource, entry.field("scope"@), outcomes);
                let inner = crate::envelope::run_records(
                    records,
                    resource,
                    entry.field("scope"@),
                    outcomes,
                );
                lemma_run_scopes(signal, scopes.drop_first(), inner.resource, inner.rest);
                let tail = crate::envelope::run_scopes(
                    signal,
                    scopes.drop_first(),
                    inner.resource,
                    inner.rest,
                );
                if a + b <= outcomes.len() {
                    lemma_survivors_split(outcomes, a, b);
                    assert(outcomes.skip(a).skip(b) =~= outcomes.skip(a + b));
                    if inner.kept.len() == 0 {
                        assert(survivors(outcomes.take(a)) + survivors(outcomes.skip(a).take(b))
                            =~= survivors(outcomes.skip(a).take(b)));
                    } else {
                        let whole = crate::envelope::rebuilt(
                            entry,
                            "scope"@,
                            inner.scope,
                            crate::envelope::records_key(signal),
                            inner.kept,
                        );
                        lemma_rebuilt_list(
                            entry,
                            "scope"@,
                            inner.scope,
                            crate::envelope::records_key(signal),
                            inner.kept,
                        );
                        assert(run.kept.drop_first() =~= tail.kept);
                        assert(run.kept[0] == whole);
                    }
                }
            },
        }
    }
}

proof fn lemma_run_resources(signal: Signal, resources: Seq<Tree>, outcomes: Seq<Outcome>)
    ensures
        ({
            let run = crate::envelope::run_resources(signal, resources, outcomes);
            let records = crate::envelope::records_of_resources(signal, resources);
            let count = records.len() as int;
            if count <= outcomes.len() {
                &&& crate::envelope::records_of_resources(signal, run.kept) == survivors(outcomes.take(count))
                &&& run.rest == outcomes.skip(count)
                &&& run.next is None
            } else {
                &&& run.rest.len() == 0
                &&& run.next is Some
                &&& run.next->0.record == records[outcomes.len() as int]
            }
        }),
    decreases resources.len(),
{
    if resources.len() == 0 {
        assert(outcomes.take(0) =~= Seq::<Outcome>::empty());
        assert(outcomes.skip(0) =~= outcomes);
    } else {
        let entry = resources[0];
        let own = crate::envelope::records_of_resource(signal, entry);
        let others = crate::envelope::records_of_resources(signal, resources.drop_first());
        let a = own.len() as int;
        let b = others.len() as int;
        crate::envelope::lemma_keys_differ(signal);
        let run = crate::envelope::run_resources(signal, resources, outcomes);
        match crate::envelope::listed(entry, crate::envelope::scopes_key(signal)) {
            None => {
                lemma_run_resources(signal, resources.drop_first(), outcomes);
                let tail = crate::envelope::run_resources(
                    signal,
                    resources.drop_first(),
                    outcomes,
                );
                assert(own + others =~= others);
                if signal != Signal::Metrics {
                    assert(run.kept.drop_first() =~= tail.kept);
                    assert(own + crate::envelope::records_of_resources(signal, tail.kept)
                        =~= crate::envelope::records_of_resources(signal, tail.kept));
                }
            },
            Some(scopes) => {
                lemma_run_scopes(signal, scopes, entry.field("resource"@), outcomes);
                let inner = crate::envelope::run_scopes(
                    signal,
                    scopes,
                    entry.field("resource"@),
                    outcomes,
                );
                lemma_run_resources(signal, resources.drop_first(), inner.rest);
                let tail = crate::envelope::run_resources(
                    signal,
                    resources.drop_first(),
                    inner.rest,
                );
                if a + b <= outcomes.len() {
                    lemma_survivors_split(outcomes, a, b);
                    assert(outcomes.skip(a).skip(b) =~= outcomes.skip(a + b));
                    if inner.kept.len() == 0 {
                        assert(survivors(outcomes.take(a)) + survivors(outcomes.skip(a).take(b))
                            =~= survivors(outcomes.skip(a).take(b)));
                    } else {
                        let whole = crate::envelope::rebuilt(
                            entry,
                            "resource"@,
                            inner.resource,
                            crate::envelope::scopes_key(signal),
                            inner.kept,
                        );
                        lemma_rebuilt_list(
                            entry,
                            "resource"@,
                            inner.resource,
                            crate::envelope::scopes_key(signal),
                            inner.kept,
                        );
                        assert(run.kept.drop_first() =~= tail.kept);
                        assert(run.kept[0] == whole);
                    }
                }
            },
        }
    }
}

/// The records are handed out one after the other, each once, in order: as long as there are
/// fewer outcomes than records, the record at hand is the one that the outcomes lead up to;
/// after that there is none.
pub proof fn law_records_in_order(signal: Signal, event: Tree, outcomes: Seq<Outcome>)
    ensures
        ({
            let records = crate::envelope::records_of_envelope(signal, event);
            let next = crate::envelope::run_envelope(signal, event, outcomes).next;
            if outcomes.len() < records.len() {
                next is Some && next->0.record == records[outcomes.len() as int]
            } else {
                next is None
            }
        }),
{
    match crate::envelope::listed(event, crate::envelope::resources_key(signal)) {
        Some(resources) => {
            lemma_run_resources(signal, resources, outcomes);
        },
        None => {},
    }
}

/// An envelope is forwarded with exactly the records that their outcomes keep, in order. Where
/// it is dropped, no outcome keeps its record.
pub proof fn law_survivors_are_forwarded(signal: Signal, event: Tree, outcomes: Seq<Outcome>)
    requires
        outcomes.len() == crate::envelope::records_of_envelope(signal, event).len(),
    ensures
        match crate::envelope::run_envelope(signal, event, outcomes).forwarded {
            Some(forwarded) => crate::envelope::records_of_envelope(signal, forwarded) == survivors(outcomes),
            None => survivors(outcomes).len() == 0,
        },
{
    assert(outcomes.take(outcomes.len() as int) =~= outcomes);
    match crate::envelope::listed(event, crate::envelope::resources_key(signal)) {
        Some(resources) => {
            lemma_run_resources(signal, resources, outcomes);
        },
        None => {
            assert(outcomes =~= Seq::<Outcome>::empty());
        },
    }
}

/// An event that is no envelope is forwarded as it is, without any evaluation.
pub proof fn law_other_events_pass(signal: Signal, event: Tree, outcomes: Seq<Outcome>)
    requires
        crate::envelope::listed(event, crate::envelope::resources_key(signal)) is None,
    ensures
        crate::envelope::run_envelope(signal, event, outcomes).forwarded == Some(event),
        crate::envelope::run_envelope(signal, event, outcomes).next is None,
{
}

/// No scope entry has an empty list of records.
pub open spec fn scopes_pruned(signal: Signal, scopes: Seq<Tree>) -> bool {
    forall|i: int|
        0 <= i < scopes.len() ==> (crate::envelope::listed(
            #[trigger] scopes[i],
            crate::envelope::records_key(signal),
        ) matches Some(records) ==> records.len() > 0)
}

/// No resource entry has an empty list of scopes, and no scope entry an empty list of records.
/// Among metrics, every resource entry has a list of scopes.
pub open spec fn resources_pruned(signal: Signal, resources: Seq<Tree>) -> bool {
    forall|i: int|
        0 <= i < resources.len() ==> match crate::envelope::listed(
            #[trigger] resources[i],
            crate::envelope::scopes_key(signal),
        ) {
            Some(scopes) => scopes.len() > 0 && scopes_pruned(signal, scopes),
            None => signal != Signal::Metrics,
        }
}

/// An envelope has no empty list in it.
pub open spec fn pruned(signal: Signal, event: Tree) -> bool {
    match crate::envelope::listed(event, crate::envelope::resources_key(signal)) {
        Some(resources) => resources.len() > 0 && resources_pruned(signal, resources),
        None => true,
    }
}

proof fn lemma_scopes_pruned(
    signal: Signal,
    scopes: Seq<Tree>,
    resource: Option<Tree>,
    outcomes: Seq<Outcome>,
)
    ensures
        scopes_pruned(
            signal,
            crate::envelope::run_scopes(signal, scopes, resource, outcomes).kept,
        ),
    decreases scopes.len(),
{
    if scopes.len() > 0 {
        let entry = scopes[0];
        crate::envelope::lemma_keys_differ(signal);
        let run = crate::envelope::run_scopes(signal, scopes, resource, outcomes);
        match crate::envelope::listed(entry, crate::envelope::records_key(signal)) {
            None => {
                let tail = crate::envelope::run_scopes(
                    signal,
                    scopes.drop_first(),
                    resource,
                    outcomes,
                );
                lemma_scopes_pruned(signal, scopes.drop_first(), resource, outcomes);
                lemma_first_scope_pruned(signal, entry, tail.kept);
            },
            Some(records) => {
                let inner = crate::envelope::run_records(
                    records,
                    resource,
                    entry.field("scope"@),
                    outcomes,
                );
                let tail = crate::envelope::run_scopes(
                    signal,
                    scopes.drop_first(),
                    inner.resource,
                    inner.rest,
                );
                lemma_scopes_pruned(signal, scopes.drop_first(), inner.resource, inner.rest);
                lemma_rebuilt_list(
                    entry,
                    "scope"@,
                    inner.scope,
                    crate::envelope::records_key(signal),
                    inner.kept,
                );
                if inner.kept.len() > 0 {
                    lemma_first_scope_pruned(
                        signal,
                        crate::envelope::rebuilt(
                            entry,
                            "scope"@,
                            inner.scope,
                            crate::envelope::records_key(signal),
                            inner.kept,
                        ),
                        tail.kept,
                    );
                }
            },
        }
    }
}

proof fn lemma_first_scope_pruned(signal: Signal, entry: Tree, rest: Seq<Tree>)
    requires
        scopes_pruned(signal, rest),
        crate::envelope::listed(entry, crate::envelope::records_key(signal)) matches Some(records)
            ==> records.len() > 0,
    ensures
        scopes_pruned(signal, seq![entry] + rest),
{
    let all = seq![entry] + rest;
    assert forall|i: int| 0 <= i < all.len() implies (crate::envelope::listed(
        #[trigger] all[i],
        crate::envelope::records_key(signal),
    ) matches Some(records) ==> records.len() > 0) by {
        if i > 0 {
            assert(all[i] == rest[i - 1]);
        }
    }
}

proof fn lemma_resources_pruned(signal: Signal, resources: Seq<Tree>, outcomes: Seq<Outcome>)
    ensures
        resources_pruned(
            signal,
            crate::envelope::run_resources(signal, resources, outcomes).kept,
        ),
    decreases resources.len(),
{
    if resources.len() > 0 {
        let entry = resources[0];
        crate::envelope::lemma_keys_differ(signal);
        let run = crate::envelope::run_resources(signal, resources, outcomes);
        match crate::envelope::listed(entry, crate::envelope::scopes_key(signal)) {
            None => {
                let tail = crate::envelope::run_resources(
                    signal,
                    resources.drop_first(),
                    outcomes,
                );
                lemma_resources_pruned(signal, resources.drop_first(), outcomes);
                if signal != Signal::Metrics {
                    lemma_first_resource_pruned(signal, entry, tail.kept);
                }
            },
            Some(scopes) => {
                let inner = crate::envelope::run_scopes(
                    signal,
                    scopes,
                    entry.field("resource"@),
                    outcomes,
                );
                let tail = crate::envelope::run_resources(
                    signal,
                    resources.drop_first(),
                    inner.rest,
                );
                lemma_resources_pruned(signal, resources.drop_first(), inner.rest);
                lemma_scopes_pruned(signal, scopes, entry.field("resource"@), outcomes);
                lemma_rebuilt_list(
                    entry,
                    "resource"@,
                    inner.resource,
                    crate::envelope::scopes_key(signal),
                    inner.kept,
                );
                if inner.kept.len() > 0 {
                    lemma_first_resource_pruned(
                        signal,
                        crate::envelope::rebuilt(
                            entry,
                            "resource"@,
                            inner.resource,
                            crate::envelope::scopes_key(signal),
                            inner.kept,
                        ),
                        tail.kept,
                    );
                }
            },
        }
    }
}

proof fn lemma_first_resource_pruned(signal: Signal, entry: Tree, rest: Seq<Tree>)
    requires
        resources_pruned(signal, rest),
        match crate::envelope::listed(entry, crate::envelope::scopes_key(signal)) {
            Some(scopes) => scopes.len() > 0 && scopes_pruned(signal, scopes),
            None => signal != Signal::Metrics,
        },
    ensures
        resources_pruned(signal, seq![entry] + rest),
{
    let all = seq![entry] + rest;
    assert forall|i: int| 0 <= i < all.len() implies match crate::envelope::listed(
        #[trigger] all[i],
        crate::envelope::scopes_key(signal),
    ) {
        Some(scopes) => scopes.len() > 0 && scopes_pruned(signal, scopes),
        None => signal != Signal::Metrics,
    } by {
        if i > 0 {
            assert(all[i] == rest[i - 1]);
        }
    }
}

/// What is forwarded has no empty list in it: neither a scope entry without records nor a
/// resource entry without scopes, nor an envelope without resources.
pub proof fn law_forwarded_is_pruned(signal: Signal, event: Tree, outcomes: Seq<Outcome>)
    ensures
        crate::envelope::run_envelope(signal, event, outcomes).forwarded matches Some(forwarded)
            ==> pruned(signal, forwarded),
{
    match crate::envelope::listed(event, crate::envelope::resources_key(signal)) {
        Some(resources) => {
            lemma_resources_pruned(signal, resources, outcomes);
        },
        None => {},
    }
}

/// Every scope entry has a list of records.
pub open spec fn scopes_listed(signal: Signal, scopes: Seq<Tree>) -> bool {
    forall|i: int|
        0 <= i < scopes.len() ==> crate::envelope::listed(
            #[trigger] scopes[i],
            crate::envelope::records_key(signal),
        ) is Some
}

/// Every resource entry has a list of scopes, each with a list of records. Among metrics, a
/// resource entry may lack its list.
pub open spec fn resources_listed(signal: Signal, resources: Seq<Tree>) -> bool {
    forall|i: int|
        0 <= i < resources.len() ==> match crate::envelope::listed(
            #[trigger] resources[i],
            crate::envelope::scopes_key(signal),
        ) {
            Some(scopes) => scopes_listed(signal, scopes),
            None => signal == Signal::Metrics,
        }
}

proof fn lemma_all_dropped_from_scopes(
    signal: Signal,
    scopes: Seq<Tree>,
    resource: Option<Tree>,
    outcomes: Seq<Outcome>,
)
    requires
        scopes_listed(signal, scopes),
        outcomes.len() >= crate::envelope::records_of_scopes(signal, scopes).len(),
        forall|i: int| 0 <= i < outcomes.len() ==> (#[trigger] outcomes[i]).dropped is Some,
    ensures
        crate::envelope::run_scopes(signal, scopes, resource, outcomes).kept.len() == 0,
    decreases scopes.len(),
{
    if scopes.len() > 0 {
        let entry = scopes[0];
        let records = crate::envelope::records_of_scope(signal, entry);
        let rest = scopes.drop_first();
        assert(crate::envelope::listed(scopes[0], crate::envelope::records_key(signal)) is Some);
        lemma_run_records(records, resource, entry.field("scope"@), outcomes);
        let inner = crate::envelope::run_records(
            records,
            resource,
            entry.field("scope"@),
            outcomes,
        );
        lemma_no_survivors(outcomes.take(records.len() as int));
        assert forall|i: int| 0 <= i < rest.len() implies crate::envelope::listed(
            #[trigger] rest[i],
            crate::envelope::records_key(signal),
        ) is Some by {
            assert(rest[i] == scopes[i + 1]);
        }
        assert forall|i: int| 0 <= i < inner.rest.len() implies (
        #[trigger] inner.rest[i]).dropped is Some by {
            assert(inner.rest[i] == outcomes[records.len() + i]);
        }
        lemma_all_dropped_from_scopes(signal, rest, inner.resource, inner.rest);
    }
}

proof fn lemma_no_survivors(outcomes: Seq<Outcome>)
    requires
        forall|i: int| 0 <= i < outcomes.len() ==> (#[trigger] outcomes[i]).dropped is Some,
    ensures
        survivors(outcomes).len() == 0,
    decreases outcomes.len(),
{
    if outcomes.len() > 0 {
        let rest = outcomes.drop_first();
        assert forall|i: int| 0 <= i < rest.len() implies (#[trigger] rest[i]).dropped is Some by {
            assert(rest[i] == outcomes[i + 1]);
        }
        assert(outcomes[0].dropped is Some);
        lemma_no_survivors(rest);
    }
}

proof fn lemma_all_dropped_from_resources(
    signal: Signal,
    resources: Seq<Tree>,
    outcomes: Seq<Outcome>,
)
    requires
        resources_listed(signal, resources),
        outcomes.len() >= crate::envelope::records_of_resources(signal, resources).len(),
        forall|i: int| 0 <= i < outcomes.len() ==> (#[trigger] outcomes[i]).dropped is Some,
    ensures
        crate::envelope::run_resources(signal, resources, outcomes).kept.len() == 0,
    decreases resources.len(),
{
    if resources.len() > 0 {
        let entry = resources[0];
        let rest = resources.drop_first();
        assert forall|i: int| 0 <= i < rest.len() implies match crate::envelope::listed(
            #[trigger] rest[i],
            crate::envelope::scopes_key(signal),
        ) {
            Some(scopes) => scopes_listed(signal, scopes),
            None => signal == Signal::Metrics,
        } by {
            assert(rest[i] == resources[i + 1]);
        }
        let own = crate::envelope::records_of_resource(signal, entry);
        match crate::envelope::listed(resources[0], crate::envelope::scopes_key(signal)) {
            None => {
                lemma_all_dropped_from_resources(signal, rest, outcomes);
            },
            Some(scopes) => {
                lemma_run_scopes(signal, scopes, entry.field("resource"@), outcomes);
                lemma_all_dropped_from_scopes(
                    signal,
                    scopes,
                    entry.field("resource"@),
                    outcomes,
                );
                let inner = crate::envelope::run_scopes(
                    signal,
                    scopes,
                    entry.field("resource"@),
                    outcomes,
                );
                assert forall|i: int| 0 <= i < inner.rest.len() implies (
                #[trigger] inner.rest[i]).dropped is Some by {
                    assert(inner.rest[i] == outcomes[own.len() + i]);
                }
                lemma_all_dropped_from_resources(signal, rest, inner.rest);
            },
        }
    }
}

/// A logs envelope that loses every record it had is dropped, whatever else stands in it.
pub proof fn law_all_dropped(signal: Signal, event: Tree, outcomes: Seq<Outcome>)
    requires
        signal == Signal::Logs,
        crate::envelope::records_of_envelope(signal, event).len() > 0,
        outcomes.len() == crate::envelope::records_of_envelope(signal, event).len(),
        survivors(outcomes).len() == 0,
    ensures
        crate::envelope::run_envelope(signal, event, outcomes).forwarded is None,
{
    let resources = crate::envelope::listed(event, crate::envelope::resources_key(signal))->0;
    lemma_run_resources(signal, resources, outcomes);
    assert(outcomes.take(outcomes.len() as int) =~= outcomes);
}

/// An envelope of any signal whose records are all dropped, if it has any, is dropped itself,
/// provided that its entries all have their lists. (Among metrics and traces, an entry without
/// one stays and is forwarded, except for a resource entry among metrics.)
pub proof fn law_all_dropped_from_lists(signal: Signal, event: Tree, outcomes: Seq<Outcome>)
    requires
        crate::envelope::listed(event, crate::envelope::resources_key(signal)) is Some,
        resources_listed(
            signal,
            crate::envelope::listed(event, crate::envelope::resources_key(signal))->0,
        ),
        outcomes.len() == crate::envelope::records_of_envelope(signal, event).len(),
        forall|i: int| 0 <= i < outcomes.len() ==> (#[trigger] outcomes[i]).dropped is Some,
    ensures
        crate::envelope::run_envelope(signal, event, outcomes).forwarded is None,
{
    lemma_all_dropped_from_resources(
        signal,
        crate::envelope::listed(event, crate::envelope::resources_key(signal))->0,
        outcomes,
    );
}

/// The outcomes of evaluations that keep every record of a scope and change nothing.
pub open spec fn untouched_records(
    records: Seq<Tree>,
    resource: Option<Tree>,
    scope: Option<Tree>,
) -> Seq<Outcome> {
    records.map_values(|record: Tree| Outcome { dropped: None, record, resource, scope })
}

/// The outcomes of evaluations that keep every record of scope entries and change nothing.
pub open spec fn untouched_scopes(
    signal: Signal,
    scopes: Seq<Tree>,
    resource: Option<Tree>,
) -> Seq<Outcome>
    decreases scopes.len(),
{
    if scopes.len() == 0 {
        Seq::empty()
    } else {
        untouched_records(
            crate::envelope::records_of_scope(signal, scopes[0]),
            resource,
            scopes[0].field("scope"@),
        ) + untouched_scopes(signal, scopes.drop_first(), resource)
    }
}

/// The outcomes of evaluations that keep every record of resource entries and change nothing.
pub open spec fn untouched_resources(signal: Signal, resources: Seq<Tree>) -> Seq<Outcome>
    decreases resources.len(),
{
    if resources.len() == 0 {
        Seq::empty()
    } else {
        let own = match crate::envelope::listed(
            resources[0],
            crate::envelope::scopes_key(signal),
        ) {
            Some(scopes) => untouched_scopes(signal, scopes, resources[0].field("resource"@)),
            None => Seq::empty(),
        };
        own + untouched_resources(signal, resources.drop_first())
    }
}

/// The outcomes of evaluations that keep every record of an envelope and change nothing.
pub open spec fn untouched(signal: Signal, event: Tree) -> Seq<Outcome> {
    match crate::envelope::listed(event, crate::envelope::resources_key(signal)) {
        Some(resources) => untouched_resources(signal, resources),
        None => Seq::empty(),
    }
}

/// There is one outcome for each record of scope entries.
pub(crate) proof fn lemma_untouched_count(signal: Signal, scopes: Seq<Tree>, resource: Option<Tree>)
    ensures
        untouched_scopes(signal, scopes, resource).len() == crate::envelope::records_of_scopes(
            signal,
            scopes,
        ).len(),
    decreases scopes.len(),
{
    if scopes.len() > 0 {
        lemma_untouched_count(signal, scopes.drop_first(), resource);
    }
}

proof fn lemma_untouched_records(
    records: Seq<Tree>,
    resource: Option<Tree>,
    scope: Option<Tree>,
    rest: Seq<Outcome>,
)
    ensures
        ({
            let run = crate::envelope::run_records(
                records,
                resource,
                scope,
                untouched_records(records, resource, scope) + rest,
            );
            &&& run.kept == records
            &&& run.resource == resource
            &&& run.scope == scope
            &&& run.rest == rest
        }),
    decreases records.len(),
{
    let outcomes = untouched_records(records, resource, scope) + rest;
    if records.len() == 0 {
        assert(outcomes =~= rest);
    } else {
        lemma_untouched_records(records.drop_first(), resource, scope, rest);
        assert(outcomes.drop_first() =~= untouched_records(records.drop_first(), resource, scope)
            + rest);
        assert(seq![records[0]] + records.drop_first() =~= records);
    }
}

proof fn lemma_rebuilt_same(entry: Tree, parent_key: Seq<char>, list_key: Seq<char>)
    requires
        parent_key != list_key,
        crate::envelope::listed(entry, list_key) is Some,
    ensures
        crate::envelope::rebuilt(
            entry,
            parent_key,
            entry.field(parent_key),
            list_key,
            crate::envelope::listed(entry, list_key)->0,
        ) == entry,
{
    match entry {
        Tree::Object(fields) => {
            let list = Tree::Array(crate::envelope::listed(entry, list_key)->0);
            let bare = fields.remove(parent_key).insert(list_key, list);
            match entry.field(parent_key) {
                Some(parent) => {
                    assert(bare.insert(parent_key, parent) =~= fields);
                },
                None => {
                    assert(bare =~= fields);
                },
            }
        },
        _ => {},
    }
}

proof fn lemma_untouched_scopes(
    signal: Signal,
    scopes: Seq<Tree>,
    resource: Option<Tree>,
    rest: Seq<Outcome>,
)
    requires
        scopes_pruned(signal, scopes),
    ensures
        ({
            let run = crate::envelope::run_scopes(
                signal,
                scopes,
                resource,
                untouched_scopes(signal, scopes, resource) + rest,
            );
            &&& run.kept == scopes
            &&& run.resource == resource
            &&& run.rest == rest
        }),
    decreases scopes.len(),
{
    let outcomes = untouched_scopes(signal, scopes, resource) + rest;
    if scopes.len() == 0 {
        assert(outcomes =~= rest);
    } else {
        let entry = scopes[0];
        let others = scopes.drop_first();
        crate::envelope::lemma_keys_differ(signal);
        assert forall|i: int| 0 <= i < others.len() implies (crate::envelope::listed(
            #[trigger] others[i],
            crate::envelope::records_key(signal),
        ) matches Some(records) ==> records.len() > 0) by {
            assert(others[i] == scopes[i + 1]);
        }
        let own = untouched_records(
            crate::envelope::records_of_scope(signal, entry),
            resource,
            entry.field("scope"@),
        );
        let later = untouched_scopes(signal, others, resource) + rest;
        assert(outcomes =~= own + later);
        lemma_untouched_scopes(signal, others, resource, rest);
        assert(seq![entry] + others =~= scopes);
        match crate::envelope::listed(scopes[0], crate::envelope::records_key(signal)) {
            None => {
                assert(own + later =~= later);
            },
            Some(records) => {
                lemma_untouched_records(records, resource, entry.field("scope"@), later);
                lemma_rebuilt_same(entry, "scope"@, crate::envelope::records_key(signal));
            },
        }
    }
}

proof fn lemma_untouched_resources(signal: Signal, resources: Seq<Tree>, rest: Seq<Outcome>)
    requires
        resources_pruned(signal, resources),
    ensures
        ({
            let run = crate::envelope::run_resources(
                signal,
                resources,
                untouched_resources(signal, resources) + rest,
            );
            &&& run.kept == resources
            &&& run.rest == rest
        }),
    decreases resources.len(),
{
    let outcomes = untouched_resources(signal, resources) + rest;
    if resources.len() == 0 {
        assert(outcomes =~= rest);
    } else {
        let entry = resources[0];
        let others = resources.drop_first();
        crate::envelope::lemma_keys_differ(signal);
        assert forall|i: int| 0 <= i < others.len() implies match crate::envelope::listed(
            #[trigger] others[i],
            crate::envelope::scopes_key(signal),
        ) {
            Some(scopes) => scopes.len() > 0 && scopes_pruned(signal, scopes),
            None => signal != Signal::Metrics,
        } by {
            assert(others[i] == resources[i + 1]);
        }
        let later = untouched_resources(signal, others) + rest;
        lemma_untouched_resources(signal, others, rest);
        assert(seq![entry] + others =~= resources);
        match crate::envelope::listed(resources[0], crate::envelope::scopes_key(signal)) {
            None => {
                assert(outcomes =~= later);
            },
            Some(scopes) => {
                let own = untouched_scopes(signal, scopes, entry.field("resource"@));
                assert(outcomes =~= own + later);
                lemma_untouched_scopes(signal, scopes, entry.field("resource"@), later);
                lemma_rebuilt_same(entry, "resource"@, crate::envelope::scopes_key(signal));
            },
        }
    }
}

/// An envelope of which no record is dropped and nothing is changed is forwarded as it is, if
/// it has no empty list in it.
pub proof fn law_untouched_is_forwarded(signal: Signal, event: Tree)
    requires
        pruned(signal, event),
    ensures
        crate::envelope::run_envelope(signal, event, untouched(signal, event)).forwarded == Some(
            event,
        ),
{
    match crate::envelope::listed(event, crate::envelope::resources_key(signal)) {
        Some(resources) => {
            let outcomes = untouched_resources(signal, resources);
            assert(outcomes + Seq::<Outcome>::empty() =~= outcomes);
            lemma_untouched_resources(signal, resources, Seq::empty());
            match event {
                Tree::Object(fields) => {
                    assert(fields.insert(
                        crate::envelope::resources_key(signal),
                        Tree::Array(resources),
                    ) =~= fields);
                },
                _ => {},
            }
        },
        None => {},
    }
}

/// Every record is either forwarded or counted as dropped for one reason.
pub proof fn law_every_record_counts(outcomes: Seq<Outcome>)
    ensures
        survivors(outcomes).len() + crate::envelope::drops_for(outcomes, DropReason::PolicyDrop)
            + crate::envelope::drops_for(outcomes, DropReason::SampleRejected)
            + crate::envelope::drops_for(outcomes, DropReason::RateLimited) == outcomes.len(),
    decreases outcomes.len(),
{
    reveal(Seq::filter);
    if outcomes.len() > 0 {
        let earlier = outcomes.drop_last();
        let last = seq![outcomes.last()];
        law_every_record_counts(earlier);
        lemma_survivors_split(outcomes, earlier.len() as int, 1);
        assert(outcomes.take(earlier.len() as int + 1) =~= outcomes);
        assert(outcomes.take(earlier.len() as int) =~= earlier);
        assert(outcomes.skip(earlier.len() as int).take(1) =~= last);
        assert(survivors(last.drop_first()).len() == 0);
        match outcomes.last().dropped {
            Some(DropReason::PolicyDrop) => {},
            Some(DropReason::SampleRejected) => {},
            Some(DropReason::RateLimited) => {},
            None => {},
        }
    }
}

} // verus!
