//! What holds of a walk that only reads the resources and scopes of an envelope, as the walks
//! through metrics, spans and log records with dotted keys do.

use crate::envelope::Outcome;
use crate::otlp_common::RecordTree;
use crate::value::Tree;
use crate::verdict::Signal;
use vstd::prelude::*;

verus! {

/// Outcomes carry on the resource and scope that each record came with, and, where
/// `whole` says so, the record itself.
pub open spec fn carry_on(outcomes: Seq<Outcome>, came: Seq<Outcome>, whole: bool) -> bool {
    &&& outcomes.len() <= came.len()
    &&& forall|i: int|
        0 <= i < outcomes.len() ==> {
            &&& (#[trigger] outcomes[i]).resource == came[i].resource
            &&& outcomes[i].scope == came[i].scope
            &&& whole ==> outcomes[i].record == came[i].record
        }
}

/// A record is handed out with the resource and scope it came with.
pub open spec fn as_it_came(next: RecordTree, came: Outcome) -> bool {
    &&& next.record == came.record
    &&& next.resource == came.resource
    &&& next.scope == came.scope
}

/// The scope entries of a resource entry.
pub open spec fn scopes_of(signal: Signal, entry: Tree) -> Seq<Tree> {
    match crate::envelope::listed(entry, crate::envelope::scopes_key(signal)) {
        Some(scopes) => scopes,
        None => Seq::empty(),
    }
}

/// A scope entry differs from `source` in its list of records at most. Where `whole` says so,
/// its records are among those of `source`.
pub open spec fn scope_stems(signal: Signal, entry: Tree, source: Tree, whole: bool) -> bool {
    &&& entry.without_field(crate::envelope::records_key(signal)) == source.without_field(
        crate::envelope::records_key(signal),
    )
    &&& whole ==> forall|record: Tree| #[trigger]
        crate::envelope::records_of_scope(signal, entry).contains(record)
            ==> crate::envelope::records_of_scope(signal, source).contains(record)
}

/// A scope entry stems from one of several.
pub open spec fn scope_stems_from(
    signal: Signal,
    entry: Tree,
    sources: Seq<Tree>,
    whole: bool,
) -> bool {
    exists|j: int| 0 <= j < sources.len() && scope_stems(signal, entry, #[trigger] sources[j], whole)
}

/// Scope entries all stem from one of several.
pub open spec fn scopes_stem(
    signal: Signal,
    entries: Seq<Tree>,
    sources: Seq<Tree>,
    whole: bool,
) -> bool {
    forall|i: int|
        0 <= i < entries.len() ==> scope_stems_from(signal, #[trigger] entries[i], sources, whole)
}

/// A resource entry differs from `source` in its list of scopes at most, and those stem from
/// the scopes of `source`.
pub open spec fn resource_stems(signal: Signal, entry: Tree, source: Tree, whole: bool) -> bool {
    &&& entry.without_field(crate::envelope::scopes_key(signal)) == source.without_field(
        crate::envelope::scopes_key(signal),
    )
    &&& scopes_stem(signal, scopes_of(signal, entry), scopes_of(signal, source), whole)
}

/// A resource entry stems from one of several.
pub open spec fn resource_stems_from(
    signal: Signal,
    entry: Tree,
    sources: Seq<Tree>,
    whole: bool,
) -> bool {
    exists|j: int|
        0 <= j < sources.len() && resource_stems(signal, entry, #[trigger] sources[j], whole)
}

/// Resource entries all stem from one of several.
pub open spec fn resources_stem(
    signal: Signal,
    entries: Seq<Tree>,
    sources: Seq<Tree>,
    whole: bool,
) -> bool {
    forall|i: int|
        0 <= i < entries.len() ==> resource_stems_from(
            signal,
            #[trigger] entries[i],
            sources,
            whole,
        )
}

/// An envelope differs from `source` in its list of resources at most, and those stem from the
/// resources of `source`.
pub open spec fn envelope_stems(signal: Signal, event: Tree, source: Tree, whole: bool) -> bool {
    let key = crate::envelope::resources_key(signal);
    &&& event.without_field(key) == source.without_field(key)
    &&& match (crate::envelope::listed(event, key), crate::envelope::listed(source, key)) {
        (Some(entries), Some(sources)) => resources_stem(signal, entries, sources, whole),
        (None, None) => event == source,
        _ => false,
    }
}

proof fn lemma_records(
    records: Seq<Tree>,
    resource: Option<Tree>,
    scope: Option<Tree>,
    outcomes: Seq<Outcome>,
    later: Seq<Outcome>,
    whole: bool,
)
    requires
        carry_on(
            outcomes,
            crate::envelope_laws::untouched_records(records, resource, scope) + later,
            whole,
        ),
    ensures
        ({
            let run = crate::envelope::run_records(records, resource, scope, outcomes);
            let came = crate::envelope_laws::untouched_records(records, resource, scope) + later;
            &&& run.resource == resource
            &&& run.scope == scope
            &&& carry_on(run.rest, later, whole)
            &&& run.next matches Some(next) ==> outcomes.len() < came.len() && as_it_came(
                next,
                came[outcomes.len() as int],
            )
            &&& whole ==> forall|record: Tree| #[trigger]
                run.kept.contains(record) ==> records.contains(record)
        }),
    decreases records.len(),
{
    let own = crate::envelope_laws::untouched_records(records, resource, scope);
    let came = own + later;
    if records.len() == 0 {
        assert(came =~= later);
    } else if outcomes.len() == 0 {
        assert(came[0] == own[0]);
    } else {
        let rest = outcomes.drop_first();
        let fewer = records.drop_first();
        let after = crate::envelope_laws::untouched_records(fewer, resource, scope) + later;
        assert(came.drop_first() =~= after);
        assert(came[0] == own[0]);
        assert(outcomes[0].resource == came[0].resource);
        assert forall|i: int| 0 <= i < rest.len() implies {
            &&& (#[trigger] rest[i]).resource == after[i].resource
            &&& rest[i].scope == after[i].scope
            &&& whole ==> rest[i].record == after[i].record
        } by {
            assert(rest[i] == outcomes[i + 1]);
            assert(after[i] == came[i + 1]);
        }
        lemma_records(fewer, resource, scope, rest, later, whole);
        let tail = crate::envelope::run_records(fewer, resource, scope, rest);
        if tail.next is Some {
            assert(after[rest.len() as int] == came[outcomes.len() as int]);
        }
        let run = crate::envelope::run_records(records, resource, scope, outcomes);
        if whole {
            assert forall|record: Tree| #[trigger] run.kept.contains(record) implies
                records.contains(record) by {
                let at = choose|at: int| 0 <= at < run.kept.len() && run.kept[at] == record;
                if outcomes[0].dropped is None && at == 0 {
                    assert(record == records[0]);
                } else {
                    let there = if outcomes[0].dropped is None {
                        at - 1
                    } else {
                        at
                    };
                    assert(tail.kept[there] == record);
                    assert(tail.kept.contains(record));
                    let j = choose|j: int| 0 <= j < fewer.len() && fewer[j] == record;
                    assert(records[j + 1] == record);
                }
            }
        }
    }
}

/// An entry rebuilt with the parent it had differs from the entry in its list at most.
proof fn lemma_rebuilt_stems(entry: Tree, parent_key: Seq<char>, list_key: Seq<char>, list: Seq<Tree>)
    requires
        parent_key != list_key,
    ensures
        crate::envelope::rebuilt(
            entry,
            parent_key,
            entry.field(parent_key),
            list_key,
            list,
        ).without_field(list_key) == entry.without_field(list_key),
{
    match entry {
        Tree::Object(fields) => {
            let bare = fields.remove(parent_key).insert(list_key, Tree::Array(list));
            match entry.field(parent_key) {
                Some(parent) => {
                    assert(bare.insert(parent_key, parent).remove(list_key) =~= fields.remove(
                        list_key,
                    ));
                },
                None => {
                    assert(bare.remove(list_key) =~= fields.remove(list_key));
                },
            }
        },
        _ => {},
    }
}

proof fn lemma_scopes_stem_wider(
    signal: Signal,
    entries: Seq<Tree>,
    sources: Seq<Tree>,
    whole: bool,
)
    requires
        sources.len() > 0,
        scopes_stem(signal, entries, sources.drop_first(), whole),
    ensures
        scopes_stem(signal, entries, sources, whole),
{
    assert forall|i: int| 0 <= i < entries.len() implies scope_stems_from(
        signal,
        #[trigger] entries[i],
        sources,
        whole,
    ) by {
        let rest = sources.drop_first();
        let j = choose|j: int|
            0 <= j < rest.len() && scope_stems(signal, entries[i], #[trigger] rest[j], whole);
        assert(sources[j + 1] == rest[j]);
    }
}

proof fn lemma_scope_stems_first(
    signal: Signal,
    entry: Tree,
    rest: Seq<Tree>,
    sources: Seq<Tree>,
    whole: bool,
)
    requires
        sources.len() > 0,
        scope_stems(signal, entry, sources[0], whole),
        scopes_stem(signal, rest, sources, whole),
    ensures
        scopes_stem(signal, seq![entry] + rest, sources, whole),
{
    let all = seq![entry] + rest;
    assert forall|i: int| 0 <= i < all.len() implies scope_stems_from(
        signal,
        #[trigger] all[i],
        sources,
        whole,
    ) by {
        if i > 0 {
            assert(all[i] == rest[i - 1]);
        }
    }
}

proof fn lemma_scopes(
    signal: Signal,
    scopes: Seq<Tree>,
    resource: Option<Tree>,
    outcomes: Seq<Outcome>,
    later: Seq<Outcome>,
    whole: bool,
)
    requires
        carry_on(
            outcomes,
            crate::envelope_laws::untouched_scopes(signal, scopes, resource) + later,
            whole,
        ),
    ensures
        ({
            let run = crate::envelope::run_scopes(signal, scopes, resource, outcomes);
            let came = crate::envelope_laws::untouched_scopes(signal, scopes, resource) + later;
            &&& run.resource == resource
            &&& carry_on(run.rest, later, whole)
            &&& run.next matches Some(next) ==> outcomes.len() < came.len() && as_it_came(
                next,
                came[outcomes.len() as int],
            )
            &&& scopes_stem(signal, run.kept, scopes, whole)
        }),
    decreases scopes.len(),
{
    let came = crate::envelope_laws::untouched_scopes(signal, scopes, resource) + later;
    if scopes.len() == 0 {
        assert(came =~= later);
    } else {
        let entry = scopes[0];
        let others = scopes.drop_first();
        let key = crate::envelope::records_key(signal);
        crate::envelope::lemma_keys_differ(signal);
        let own = crate::envelope_laws::untouched_records(
            crate::envelope::records_of_scope(signal, entry),
            resource,
            entry.field("scope"@),
        );
        let after = crate::envelope_laws::untouched_scopes(signal, others, resource) + later;
        assert(came =~= own + after);
        match crate::envelope::listed(entry, key) {
            None => {
                assert(own + after =~= after);
                lemma_scopes(signal, others, resource, outcomes, later, whole);
                let tail = crate::envelope::run_scopes(signal, others, resource, outcomes);
                lemma_scopes_stem_wider(signal, tail.kept, scopes, whole);
                lemma_scope_stems_first(signal, entry, tail.kept, scopes, whole);
            },
            Some(records) => {
                let scope = entry.field("scope"@);
                lemma_records(records, resource, scope, outcomes, after, whole);
                crate::envelope_laws::lemma_run_records(records, resource, scope, outcomes);
                let inner = crate::envelope::run_records(records, resource, scope, outcomes);
                lemma_scopes(signal, others, resource, inner.rest, later, whole);
                let tail = crate::envelope::run_scopes(signal, others, resource, inner.rest);
                if inner.next is None && tail.next is Some {
                    assert(after[inner.rest.len() as int] == came[outcomes.len() as int]);
                }
                lemma_scopes_stem_wider(signal, tail.kept, scopes, whole);
                if inner.kept.len() > 0 {
                    let now = crate::envelope::rebuilt(entry, "scope"@, scope, key, inner.kept);
                    lemma_rebuilt_stems(entry, "scope"@, key, inner.kept);
                    crate::envelope_laws::lemma_rebuilt_list(
                        entry,
                        "scope"@,
                        scope,
                        key,
                        inner.kept,
                    );
                    lemma_scope_stems_first(signal, now, tail.kept, scopes, whole);
                }
            },
        }
    }
}

proof fn lemma_scopes_stem_from_themselves(signal: Signal, scopes: Seq<Tree>, whole: bool)
    ensures
        scopes_stem(signal, scopes, scopes, whole),
{
    assert forall|i: int| 0 <= i < scopes.len() implies scope_stems_from(
        signal,
        #[trigger] scopes[i],
        scopes,
        whole,
    ) by {
        assert(scope_stems(signal, scopes[i], scopes[i], whole));
    }
}

proof fn lemma_resources_stem_wider(
    signal: Signal,
    entries: Seq<Tree>,
    sources: Seq<Tree>,
    whole: bool,
)
    requires
        sources.len() > 0,
        resources_stem(signal, entries, sources.drop_first(), whole),
    ensures
        resources_stem(signal, entries, sources, whole),
{
    assert forall|i: int| 0 <= i < entries.len() implies resource_stems_from(
        signal,
        #[trigger] entries[i],
        sources,
        whole,
    ) by {
        let rest = sources.drop_first();
        let j = choose|j: int|
            0 <= j < rest.len() && resource_stems(signal, entries[i], #[trigger] rest[j], whole);
        assert(sources[j + 1] == rest[j]);
    }
}

proof fn lemma_resource_stems_first(
    signal: Signal,
    entry: Tree,
    rest: Seq<Tree>,
    sources: Seq<Tree>,
    whole: bool,
)
    requires
        sources.len() > 0,
        resource_stems(signal, entry, sources[0], whole),
        resources_stem(signal, rest, sources, whole),
    ensures
        resources_stem(signal, seq![entry] + rest, sources, whole),
{
    let all = seq![entry] + rest;
    assert forall|i: int| 0 <= i < all.len() implies resource_stems_from(
        signal,
        #[trigger] all[i],
        sources,
        whole,
    ) by {
        if i > 0 {
            assert(all[i] == rest[i - 1]);
        }
    }
}

proof fn lemma_resources(
    signal: Signal,
    resources: Seq<Tree>,
    outcomes: Seq<Outcome>,
    whole: bool,
)
    requires
        carry_on(outcomes, crate::envelope_laws::untouched_resources(signal, resources), whole),
    ensures
        ({
            let run = crate::envelope::run_resources(signal, resources, outcomes);
            let came = crate::envelope_laws::untouched_resources(signal, resources);
            &&& run.next matches Some(next) ==> outcomes.len() < came.len() && as_it_came(
                next,
                came[outcomes.len() as int],
            )
            &&& resources_stem(signal, run.kept, resources, whole)
        }),
    decreases resources.len(),
{
    let came = crate::envelope_laws::untouched_resources(signal, resources);
    if resources.len() > 0 {
        let entry = resources[0];
        let others = resources.drop_first();
        let key = crate::envelope::scopes_key(signal);
        crate::envelope::lemma_keys_differ(signal);
        let after = crate::envelope_laws::untouched_resources(signal, others);
        match crate::envelope::listed(entry, key) {
            None => {
                assert(came =~= after);
                lemma_resources(signal, others, outcomes, whole);
                let tail = crate::envelope::run_resources(signal, others, outcomes);
                lemma_resources_stem_wider(signal, tail.kept, resources, whole);
                lemma_scopes_stem_from_themselves(signal, scopes_of(signal, entry), whole);
                lemma_resource_stems_first(signal, entry, tail.kept, resources, whole);
            },
            Some(scopes) => {
                let resource = entry.field("resource"@);
                lemma_scopes(signal, scopes, resource, outcomes, after, whole);
                crate::envelope_laws::lemma_run_scopes(signal, scopes, resource, outcomes);
                crate::envelope_laws::lemma_untouched_count(signal, scopes, resource);
                let inner = crate::envelope::run_scopes(signal, scopes, resource, outcomes);
                lemma_resources(signal, others, inner.rest, whole);
                let tail = crate::envelope::run_resources(signal, others, inner.rest);
                if inner.next is None && tail.next is Some {
                    assert(after[inner.rest.len() as int] == came[outcomes.len() as int]);
                }
                lemma_resources_stem_wider(signal, tail.kept, resources, whole);
                if inner.kept.len() > 0 {
                    let now = crate::envelope::rebuilt(
                        entry,
                        "resource"@,
                        resource,
                        key,
                        inner.kept,
                    );
                    lemma_rebuilt_stems(entry, "resource"@, key, inner.kept);
                    crate::envelope_laws::lemma_rebuilt_list(
                        entry,
                        "resource"@,
                        resource,
                        key,
                        inner.kept,
                    );
                    lemma_resource_stems_first(signal, now, tail.kept, resources, whole);
                }
            },
        }
    }
}

/// As long as a walk only reads resources and scopes, each record is handed out as it came:
/// with the resource and scope that the envelope has for it.
pub proof fn law_handed_out_as_it_came(signal: Signal, event: Tree, outcomes: Seq<Outcome>)
    requires
        carry_on(outcomes, crate::envelope_laws::untouched(signal, event), false),
    ensures
        crate::envelope::run_envelope(signal, event, outcomes).next matches Some(next)
            ==> as_it_came(
            next,
            crate::envelope_laws::untouched(signal, event)[outcomes.len() as int],
        ),
{
    match crate::envelope::listed(event, crate::envelope::resources_key(signal)) {
        Some(resources) => {
            lemma_resources(signal, resources, outcomes, false);
        },
        None => {},
    }
}

/// A walk that only reads resources and scopes forwards an envelope whose entries have all that
/// they came with, the `resource`, `scope` and `schemaUrl` among it: they have lost records at
/// most. If it does not change records either, those that are left are the ones that came.
pub proof fn law_surroundings_stay(
    signal: Signal,
    event: Tree,
    outcomes: Seq<Outcome>,
    whole: bool,
)
    requires
        carry_on(outcomes, crate::envelope_laws::untouched(signal, event), whole),
    ensures
        crate::envelope::run_envelope(signal, event, outcomes).forwarded matches Some(forwarded)
            ==> envelope_stems(signal, forwarded, event, whole),
{
    let key = crate::envelope::resources_key(signal);
    match crate::envelope::listed(event, key) {
        Some(resources) => {
            lemma_resources(signal, resources, outcomes, whole);
            let run = crate::envelope::run_resources(signal, resources, outcomes);
            match event {
                Tree::Object(fields) => {
                    assert(fields.insert(key, Tree::Array(run.kept)).remove(key) =~= fields.remove(
                        key,
                    ));
                },
                _ => {},
            }
        },
        None => {},
    }
}

} // verus!
