//! How a walk through an envelope is made up of the walks through its parts.

use crate::envelope::Outcome;
use crate::internal_events::DropReason;
use crate::otlp_common::RecordTree;
use crate::value::Tree;
use crate::verdict::Signal;
use vstd::prelude::*;

verus! {

/// The names of an envelope's lists.
pub proof fn law_list_names()
    ensures
        crate::envelope::resources_key(Signal::Logs) == "resourceLogs"@,
        crate::envelope::scopes_key(Signal::Logs) == "scopeLogs"@,
        crate::envelope::records_key(Signal::Logs) == "logRecords"@,
        crate::envelope::resources_key(Signal::Metrics) == "resourceMetrics"@,
        crate::envelope::scopes_key(Signal::Metrics) == "scopeMetrics"@,
        crate::envelope::records_key(Signal::Metrics) == "metrics"@,
        crate::envelope::resources_key(Signal::Traces) == "resourceSpans"@,
        crate::envelope::scopes_key(Signal::Traces) == "scopeSpans"@,
        crate::envelope::records_key(Signal::Traces) == "spans"@,
{
}

/// A resource as the last of some outcomes leaves it.
pub open spec fn resource_after(resource: Option<Tree>, outcomes: Seq<Outcome>) -> Option<Tree> {
    if outcomes.len() == 0 {
        resource
    } else {
        outcomes.last().resource
    }
}

/// A scope as the last of some outcomes leaves it.
pub open spec fn scope_after(scope: Option<Tree>, outcomes: Seq<Outcome>) -> Option<Tree> {
    if outcomes.len() == 0 {
        scope
    } else {
        outcomes.last().scope
    }
}

/// What a value holds under a key, if anything.
pub open spec fn member(value: Tree, key: Seq<char>) -> Option<Tree> {
    if crate::matching_laws::has_key(value, key) {
        Some(crate::matching_laws::under(value, key))
    } else {
        None
    }
}

/// An entry with its list replaced, and with its parent object replaced or taken out.
pub open spec fn refilled(
    entry: Tree,
    parent_key: Seq<char>,
    parent: Option<Tree>,
    list_key: Seq<char>,
    list: Seq<Tree>,
) -> Tree {
    match (entry, parent) {
        (Tree::Object(fields), Some(parent)) => Tree::Object(
            fields.insert(list_key, Tree::Array(list)).insert(parent_key, parent),
        ),
        (Tree::Object(fields), None) => Tree::Object(
            fields.insert(list_key, Tree::Array(list)).remove(parent_key),
        ),
        _ => entry,
    }
}

proof fn lemma_refilled(
    entry: Tree,
    parent_key: Seq<char>,
    parent: Option<Tree>,
    list_key: Seq<char>,
    list: Seq<Tree>,
)
    requires
        parent_key != list_key,
    ensures
        crate::envelope::rebuilt(entry, parent_key, parent, list_key, list) == refilled(
            entry,
            parent_key,
            parent,
            list_key,
            list,
        ),
{
    match (entry, parent) {
        (Tree::Object(fields), Some(parent)) => {
            assert(fields.remove(parent_key).insert(list_key, Tree::Array(list)).insert(
                parent_key,
                parent,
            ) =~= fields.insert(list_key, Tree::Array(list)).insert(parent_key, parent));
        },
        (Tree::Object(fields), None) => {
            assert(fields.remove(parent_key).insert(list_key, Tree::Array(list)) =~= fields.insert(
                list_key,
                Tree::Array(list),
            ).remove(parent_key));
        },
        _ => {},
    }
}

/// Of the records of a scope, those whose outcomes keep them are left, as the outcomes leave
/// them. Resource and scope are as the last outcome leaves them. As long as there are more
/// records than outcomes, the next one is at hand, with resource and scope as they then stand.
pub proof fn law_records_run(
    records: Seq<Tree>,
    resource: Option<Tree>,
    scope: Option<Tree>,
    outcomes: Seq<Outcome>,
)
    ensures
        ({
            let run = crate::envelope::run_records(records, resource, scope, outcomes);
            let count = records.len() as int;
            if count <= outcomes.len() {
                let own = outcomes.take(count);
                &&& run.kept == crate::envelope_laws::survivors(own)
                &&& run.resource == resource_after(resource, own)
                &&& run.scope == scope_after(scope, own)
                &&& run.rest == outcomes.skip(count)
                &&& run.next is None
            } else {
                &&& run.rest.len() == 0
                &&& run.next == Some(
                    RecordTree {
                        record: records[outcomes.len() as int],
                        resource: resource_after(resource, outcomes),
                        scope: scope_after(scope, outcomes),
                        resource_schema_url: None,
                        scope_schema_url: None,
                    },
                )
            }
        }),
    decreases records.len(),
{
    crate::envelope_laws::lemma_run_records(records, resource, scope, outcomes);
    if records.len() > 0 && outcomes.len() > 0 {
        let rest = outcomes.drop_first();
        law_records_run(records.drop_first(), outcomes[0].resource, outcomes[0].scope, rest);
        let count = records.len() as int;
        if count <= outcomes.len() {
            assert(outcomes.take(count).last() == outcomes[count - 1]);
            if count > 1 {
                assert(rest.take(count - 1).last() == rest[count - 2]);
                assert(rest[count - 2] == outcomes[count - 1]);
            }
        } else if rest.len() > 0 {
            assert(rest.last() == outcomes.last());
        }
    }
}

/// A scope entry with a list of records is left with those that stay, and with its scope as the
/// last of its outcomes leaves it, or is gone if none stays. While its records are evaluated,
/// the one at hand has the entry's schema URL. An entry without such a list stays as it is.
pub proof fn law_scope_run(
    signal: Signal,
    entry: Tree,
    records: Seq<Tree>,
    resource: Option<Tree>,
    outcomes: Seq<Outcome>,
)
    ensures
        crate::matching_laws::has_list(entry, crate::envelope::records_key(signal), records) ==> ({
            let key = crate::envelope::records_key(signal);
            let scope = member(entry, "scope"@);
            let run = crate::envelope::run_scopes(signal, seq![entry], resource, outcomes);
            let inner = crate::envelope::run_records(records, resource, scope, outcomes);
            &&& run.kept == if inner.kept.len() == 0 {
                Seq::<Tree>::empty()
            } else {
                seq![refilled(entry, "scope"@, inner.scope, key, inner.kept)]
            }
            &&& run.resource == inner.resource
            &&& run.rest == inner.rest
            &&& run.next == match inner.next {
                Some(next) => Some(
                    RecordTree { scope_schema_url: member(entry, "schemaUrl"@), ..next },
                ),
                None => None,
            }
        }),
        crate::matching_laws::lacks_list(entry, crate::envelope::records_key(signal)) ==> ({
            let run = crate::envelope::run_scopes(signal, seq![entry], resource, outcomes);
            &&& run.kept == seq![entry]
            &&& run.resource == resource
            &&& run.rest == outcomes
            &&& run.next is None
        }),
{
    reveal_with_fuel(crate::envelope::run_scopes, 2);
    reveal_with_fuel(crate::envelope::run_resources, 2);
    let none = Seq::<Tree>::empty();
    assert(seq![entry].drop_first() =~= none);
    assert(seq![entry] + none =~= seq![entry]);
    crate::envelope::lemma_keys_differ(signal);
    if crate::matching_laws::has_list(entry, crate::envelope::records_key(signal), records) {
        let key = crate::envelope::records_key(signal);
        let inner = crate::envelope::run_records(
            records,
            resource,
            member(entry, "scope"@),
            outcomes,
        );
        lemma_refilled(entry, "scope"@, inner.scope, key, inner.kept);
        let now = refilled(entry, "scope"@, inner.scope, key, inner.kept);
        assert(seq![now] + none =~= seq![now]);
    }
}

/// Scope entries are walked one after the other, the later ones with the resource and the
/// outcomes that the earlier ones leave.
pub proof fn law_scopes_in_turn(
    signal: Signal,
    entry: Tree,
    others: Seq<Tree>,
    resource: Option<Tree>,
    outcomes: Seq<Outcome>,
)
    ensures
        ({
            let first = crate::envelope::run_scopes(signal, seq![entry], resource, outcomes);
            let later = crate::envelope::run_scopes(signal, others, first.resource, first.rest);
            let run = crate::envelope::run_scopes(signal, seq![entry] + others, resource, outcomes);
            &&& run.kept == first.kept + later.kept
            &&& run.resource == later.resource
            &&& run.rest == later.rest
            &&& run.next == if first.next is Some {
                first.next
            } else {
                later.next
            }
        }),
        ({
            let run = crate::envelope::run_scopes(signal, Seq::empty(), resource, outcomes);
            &&& run.kept == Seq::<Tree>::empty()
            &&& run.resource == resource
            &&& run.rest == outcomes
            &&& run.next is None
        }),
{
    reveal_with_fuel(crate::envelope::run_scopes, 2);
    reveal_with_fuel(crate::envelope::run_resources, 2);
    let none = Seq::<Tree>::empty();
    let all = seq![entry] + others;
    assert(seq![entry].drop_first() =~= none);
    assert(all.drop_first() =~= others);
    let first = crate::envelope::run_scopes(signal, seq![entry], resource, outcomes);
    let later = crate::envelope::run_scopes(signal, others, first.resource, first.rest);
    assert(none + later.kept =~= later.kept);
    assert(forall|one: Tree| #[trigger] (seq![one] + none) =~= seq![one]);
}

/// A resource entry with a list of scopes is left with those that stay, and with its resource as
/// the walk through them leaves it, or is gone if none stays. While its records are evaluated,
/// the one at hand has the entry's schema URL. An entry without such a list stays as it is,
/// except among metrics, where it is gone.
pub proof fn law_resource_run(
    signal: Signal,
    entry: Tree,
    scopes: Seq<Tree>,
    outcomes: Seq<Outcome>,
)
    ensures
        crate::matching_laws::has_list(entry, crate::envelope::scopes_key(signal), scopes) ==> ({
            let key = crate::envelope::scopes_key(signal);
            let run = crate::envelope::run_resources(signal, seq![entry], outcomes);
            let inner = crate::envelope::run_scopes(
                signal,
                scopes,
                member(entry, "resource"@),
                outcomes,
            );
            &&& run.kept == if inner.kept.len() == 0 {
                Seq::<Tree>::empty()
            } else {
                seq![refilled(entry, "resource"@, inner.resource, key, inner.kept)]
            }
            &&& run.rest == inner.rest
            &&& run.next == match inner.next {
                Some(next) => Some(
                    RecordTree { resource_schema_url: member(entry, "schemaUrl"@), ..next },
                ),
                None => None,
            }
        }),
        crate::matching_laws::lacks_list(entry, crate::envelope::scopes_key(signal)) ==> ({
            let run = crate::envelope::run_resources(signal, seq![entry], outcomes);
            &&& run.kept == if signal == Signal::Metrics {
                Seq::<Tree>::empty()
            } else {
                seq![entry]
            }
            &&& run.rest == outcomes
            &&& run.next is None
        }),
{
    reveal_with_fuel(crate::envelope::run_scopes, 2);
    reveal_with_fuel(crate::envelope::run_resources, 2);
    let none = Seq::<Tree>::empty();
    assert(seq![entry].drop_first() =~= none);
    assert(seq![entry] + none =~= seq![entry]);
    crate::envelope::lemma_keys_differ(signal);
    if crate::matching_laws::has_list(entry, crate::envelope::scopes_key(signal), scopes) {
        let key = crate::envelope::scopes_key(signal);
        let inner = crate::envelope::run_scopes(
            signal,
            scopes,
            member(entry, "resource"@),
            outcomes,
        );
        lemma_refilled(entry, "resource"@, inner.resource, key, inner.kept);
        let now = refilled(entry, "resource"@, inner.resource, key, inner.kept);
        assert(seq![now] + none =~= seq![now]);
    }
}

/// Resource entries are walked one after the other, the later ones with the outcomes that the
/// earlier ones leave.
pub proof fn law_resources_in_turn(
    signal: Signal,
    entry: Tree,
    others: Seq<Tree>,
    outcomes: Seq<Outcome>,
)
    ensures
        ({
            let first = crate::envelope::run_resources(signal, seq![entry], outcomes);
            let later = crate::envelope::run_resources(signal, others, first.rest);
            let run = crate::envelope::run_resources(signal, seq![entry] + others, outcomes);
            &&& run.kept == first.kept + later.kept
            &&& run.rest == later.rest
            &&& run.next == if first.next is Some {
                first.next
            } else {
                later.next
            }
        }),
        crate::envelope::run_resources(signal, Seq::empty(), outcomes).kept == Seq::<Tree>::empty(),
        crate::envelope::run_resources(signal, Seq::empty(), outcomes).next is None,
{
    reveal_with_fuel(crate::envelope::run_scopes, 2);
    reveal_with_fuel(crate::envelope::run_resources, 2);
    let none = Seq::<Tree>::empty();
    let all = seq![entry] + others;
    assert(seq![entry].drop_first() =~= none);
    assert(all.drop_first() =~= others);
    let first = crate::envelope::run_resources(signal, seq![entry], outcomes);
    let later = crate::envelope::run_resources(signal, others, first.rest);
    assert(none + later.kept =~= later.kept);
    assert(forall|one: Tree| #[trigger] (seq![one] + none) =~= seq![one]);
}

/// What is forwarded of an envelope is the envelope with the resource entries that are left, and
/// with every other field as it was. It is dropped if none is left, and a logs envelope also if
/// it had a record and what is left has none.
pub proof fn law_envelope_run(
    signal: Signal,
    event: Tree,
    resources: Seq<Tree>,
    outcomes: Seq<Outcome>,
)
    requires
        crate::matching_laws::has_list(event, crate::envelope::resources_key(signal), resources),
    ensures
        ({
            let key = crate::envelope::resources_key(signal);
            let whole = crate::envelope::run_envelope(signal, event, outcomes);
            let run = crate::envelope::run_resources(signal, resources, outcomes);
            let bereft = crate::envelope::records_of_resources(signal, resources).len() > 0
                && crate::envelope::records_of_resources(signal, run.kept).len() == 0;
            &&& whole.next == run.next
            &&& whole.forwarded == if run.kept.len() == 0 || signal == Signal::Logs && bereft {
                None
            } else {
                Some(crate::change_laws::put(event, key, Tree::Array(run.kept)))
            }
        }),
{
}

/// The records of an envelope are those of its resource entries, and theirs are those of their
/// scope entries, in order.
pub proof fn law_records_of(
    signal: Signal,
    entry: Tree,
    others: Seq<Tree>,
    items: Seq<Tree>,
)
    ensures
        crate::envelope::records_of_scopes(signal, Seq::empty()) == Seq::<Tree>::empty(),
        crate::envelope::records_of_resources(signal, Seq::empty()) == Seq::<Tree>::empty(),
        crate::matching_laws::has_list(entry, crate::envelope::records_key(signal), items)
            ==> crate::envelope::records_of_scopes(signal, seq![entry] + others) == items
            + crate::envelope::records_of_scopes(signal, others),
        crate::matching_laws::lacks_list(entry, crate::envelope::records_key(signal))
            ==> crate::envelope::records_of_scopes(signal, seq![entry] + others)
            == crate::envelope::records_of_scopes(signal, others),
        crate::matching_laws::has_list(entry, crate::envelope::scopes_key(signal), items)
            ==> crate::envelope::records_of_resources(signal, seq![entry] + others)
            == crate::envelope::records_of_scopes(signal, items)
            + crate::envelope::records_of_resources(signal, others),
        crate::matching_laws::lacks_list(entry, crate::envelope::scopes_key(signal))
            ==> crate::envelope::records_of_resources(signal, seq![entry] + others)
            == crate::envelope::records_of_resources(signal, others),
        crate::matching_laws::has_list(entry, crate::envelope::resources_key(signal), items)
            ==> crate::envelope::records_of_envelope(signal, entry)
            == crate::envelope::records_of_resources(signal, items),
        crate::matching_laws::lacks_list(entry, crate::envelope::resources_key(signal))
            ==> crate::envelope::records_of_envelope(signal, entry) == Seq::<Tree>::empty(),
{
    assert((seq![entry] + others).drop_first() =~= others);
    let none = Seq::<Tree>::empty();
    assert(none + crate::envelope::records_of_scopes(signal, others)
        =~= crate::envelope::records_of_scopes(signal, others));
    assert(none + crate::envelope::records_of_resources(signal, others)
        =~= crate::envelope::records_of_resources(signal, others));
}

/// Each outcome that drops a record counts once, for its own reason.
pub proof fn law_drops_are_counted(outcomes: Seq<Outcome>, outcome: Outcome, reason: DropReason)
    ensures
        crate::envelope::drops_for(Seq::empty(), reason) == 0,
        crate::envelope::drops_for(outcomes.push(outcome), reason) == crate::envelope::drops_for(
            outcomes,
            reason,
        ) + if outcome.dropped == Some(reason) {
            1nat
        } else {
            0nat
        },
{
    reveal(Seq::filter);
    assert(outcomes.push(outcome).drop_last() =~= outcomes);
}

} // verus!
