//! What holds of all workers of a snapshot together.

use vstd::prelude::*;

use crate::mysql::assignment::{
    any_planned, bounds_from, bounds_of, bounds_views, outcome_for, planned, published, rewinds_of,
    splits_for, splits_view, table_rewinds, without, OutputError, RewindView, SampledTable,
    SchemaFailure, TableBounds, TaskView,
};
use crate::mysql::desc::{
    lemma_first_match, lemma_table_order, table_order, GtidPartition, SourceOutputInfo,
};
use crate::mysql::sampling::{
    increasing, law_sampled_boundaries_increase, replies_ascend, sampled, ReplyView, SamplerView,
};
use crate::mysql::splits::{
    law_every_row_is_read_once, law_owner_always_reads, non_decreasing, plan_of, reads_key,
    total_preorder,
};
use crate::mysql::tables::{groups, has_table, of_table, SnapshotTable};

verus! {

/// Given the same broadcast, the workers together read every row of every table exactly once:
/// for each key there is one worker whose plan for the table covers it, and no other's does.
pub proof fn law_workers_read_every_row_once(
    tasks: Seq<TaskView>,
    bounds: Seq<TableBounds>,
    worker_count: int,
    i: int,
    key: Seq<char>,
    le: spec_fn(Seq<char>, Seq<char>) -> bool,
)
    requires
        0 <= i < tasks.len(),
        0 <= tasks[i].owner < worker_count,
        total_preorder(le),
        splits_for(bounds, tasks[i].name) matches Some(s) ==> non_decreasing(s.boundaries, le)
            && s.boundaries.len() < worker_count,
    ensures
        exists|w: int|
            #![trigger planned(tasks, bounds, w, worker_count)]
            {
                &&& 0 <= w < worker_count
                &&& reads_key(planned(tasks, bounds, w, worker_count)[i].plan, key, le)
                &&& forall|v: int|
                    #![trigger planned(tasks, bounds, v, worker_count)]
                    0 <= v < worker_count && v != w ==> !reads_key(
                        planned(tasks, bounds, v, worker_count)[i].plan,
                        key,
                        le,
                    )
            },
{
    let splits = splits_for(bounds, tasks[i].name);
    let owner = tasks[i].owner;
    law_every_row_is_read_once(splits, owner, worker_count, key, le);
    let w = choose|w: int|
        #![trigger plan_of(splits, w, owner, worker_count)]
        {
            &&& 0 <= w < worker_count
            &&& reads_key(plan_of(splits, w, owner, worker_count), key, le)
            &&& forall|v: int|
                #![trigger plan_of(splits, v, owner, worker_count)]
                0 <= v < worker_count && v != w ==> !reads_key(
                    plan_of(splits, v, owner, worker_count),
                    key,
                    le,
                )
        };
    assert(planned(tasks, bounds, w, worker_count)[i].plan == plan_of(
        splits,
        w,
        owner,
        worker_count,
    ));
    assert forall|v: int|
        #![trigger planned(tasks, bounds, v, worker_count)]
        0 <= v < worker_count && v != w implies !reads_key(
        planned(tasks, bounds, v, worker_count)[i].plan,
        key,
        le,
    ) by {
        assert(planned(tasks, bounds, v, worker_count)[i].plan == plan_of(
            splits,
            v,
            owner,
            worker_count,
        ));
    }
}

/// No two tasks are about the same table.
pub open spec fn distinct_tables(tasks: Seq<TaskView>) -> bool {
    forall|i: int, j: int|
        0 <= i < tasks.len() && 0 <= j < tasks.len() && (#[trigger] tasks[i]).name == (
        #[trigger] tasks[j]).name ==> i == j
}

/// Looking up the table of task `i` finds the entry at the same position.
pub proof fn lemma_lookup(tasks: Seq<TaskView>, bounds: Seq<TableBounds>, i: int)
    requires
        distinct_tables(tasks),
        bounds.len() == tasks.len(),
        forall|j: int| 0 <= j < bounds.len() ==> (#[trigger] bounds[j]).table@ == tasks[j].name,
        0 <= i < tasks.len(),
    ensures
        splits_for(bounds, tasks[i].name) == splits_view(bounds[i].splits),
{
    let p = bounds_of(tasks[i].name);
    assert forall|j: int| 0 <= j < i implies !p(#[trigger] bounds.take(i)[j]) by {
        assert(bounds.take(i)[j] == bounds[j]);
        assert(tasks[j].name != tasks[i].name);
    }
    bounds.take(i).lemma_all_neg_filter_empty(p);
    assert(bounds[i].table@ == tasks[i].name);
    lemma_first_match(bounds, p, i);
}

/// What was sampled for a table is what every worker finds in the broadcast for it.
pub proof fn law_workers_use_what_was_sampled(
    tasks: Seq<TaskView>,
    results: Seq<SampledTable>,
    bounds: Seq<TableBounds>,
    i: int,
)
    requires
        distinct_tables(tasks),
        bounds_views(bounds) == bounds_from(tasks, results),
        0 <= i < tasks.len(),
    ensures
        splits_for(bounds, tasks[i].name) == outcome_for(results, i),
{
    let views = bounds_views(bounds);
    assert(views.len() == bounds.len());
    assert forall|j: int| 0 <= j < bounds.len() implies (#[trigger] bounds[j]).table@
        == tasks[j].name by {
        assert(views[j] == bounds[j]@);
    }
    lemma_lookup(tasks, bounds, i);
    assert(views[i] == bounds[i]@);
}

/// From sampling through the broadcast to the reading, no row is lost and none is read twice: if
/// table `i` was sampled for the workers there are, each of its rows is read by exactly one of
/// them, whatever the table contains by then.
pub proof fn law_sampled_tables_are_read_once(
    tasks: Seq<TaskView>,
    results: Seq<SampledTable>,
    bounds: Seq<TableBounds>,
    start: SamplerView,
    replies: Seq<ReplyView>,
    worker_count: int,
    i: int,
    key: Seq<char>,
    le: spec_fn(Seq<char>, Seq<char>) -> bool,
)
    requires
        distinct_tables(tasks),
        bounds_views(bounds) == bounds_from(tasks, results),
        0 <= i < tasks.len(),
        0 <= tasks[i].owner < worker_count,
        start.well_formed(),
        start.boundaries.len() == 0,
        start.partitions == worker_count,
        sampled(start, replies) == Some(outcome_for(results, i)),
        replies_ascend(start, replies, le),
        total_preorder(le),
    ensures
        exists|w: int|
            #![trigger planned(tasks, bounds, w, worker_count)]
            {
                &&& 0 <= w < worker_count
                &&& reads_key(planned(tasks, bounds, w, worker_count)[i].plan, key, le)
                &&& forall|v: int|
                    #![trigger planned(tasks, bounds, v, worker_count)]
                    0 <= v < worker_count && v != w ==> !reads_key(
                        planned(tasks, bounds, v, worker_count)[i].plan,
                        key,
                        le,
                    )
            },
{
    assert(increasing(start.boundaries, le));
    law_sampled_boundaries_increase(start, replies, le);
    law_workers_use_what_was_sampled(tasks, results, bounds, i);
    law_workers_read_every_row_once(tasks, bounds, worker_count, i, key, le);
}

/// The owner of a table has something to read, so it takes part in the reading and is there to
/// publish the table's errors and rewind requests.
pub proof fn law_owner_takes_part(
    tasks: Seq<TaskView>,
    bounds: Seq<TableBounds>,
    worker_count: int,
    i: int,
)
    requires
        0 <= i < tasks.len(),
        0 <= tasks[i].owner < worker_count,
    ensures
        planned(tasks, bounds, tasks[i].owner, worker_count)[i].plan is Some,
        any_planned(planned(tasks, bounds, tasks[i].owner, worker_count)),
{
    law_owner_always_reads(splits_for(bounds, tasks[i].name), tasks[i].owner, worker_count);
    assert(planned(tasks, bounds, tasks[i].owner, worker_count)[i].plan is Some);
}

/// No output index occurs in two places.
pub open spec fn distinct_outputs(tasks: Seq<TaskView>) -> bool {
    forall|i: int, k: int, j: int, l: int|
        #![trigger tasks[i].outputs[k], tasks[j].outputs[l]]
        0 <= i < tasks.len() && 0 <= k < tasks[i].outputs.len() && 0 <= j < tasks.len() && 0 <= l
            < tasks[j].outputs.len() && tasks[i].outputs[k].output_index
            == tasks[j].outputs[l].output_index ==> i == j && k == l
}

/// Without the last task no output index occurs in two places either.
pub proof fn lemma_distinct_rest(tasks: Seq<TaskView>)
    requires
        distinct_outputs(tasks),
        tasks.len() > 0,
    ensures
        distinct_outputs(tasks.drop_last()),
{
    let rest = tasks.drop_last();
    assert forall|a: int, b: int, c: int, d: int|
        #![trigger rest[a].outputs[b], rest[c].outputs[d]]
        0 <= a < rest.len() && 0 <= b < rest[a].outputs.len() && 0 <= c < rest.len() && 0 <= d
            < rest[c].outputs.len() && rest[a].outputs[b].output_index
            == rest[c].outputs[d].output_index implies a == c && b == d by {
        assert(rest[a].outputs[b] == tasks[a].outputs[b]);
        assert(rest[c].outputs[d] == tasks[c].outputs[d]);
    }
}

/// The number of requests for the output of the given index.
pub open spec fn requests_for(requests: Seq<RewindView>, output_index: usize) -> nat {
    requests.filter(|r: RewindView| r.output_index == output_index).len()
}

proof fn lemma_table_rewinds_count(
    outputs: Seq<SourceOutputInfo>,
    upper: Seq<GtidPartition>,
    output_index: usize,
)
    ensures
        (forall|k: int| 0 <= k < outputs.len() ==> (#[trigger] outputs[k]).output_index
            != output_index) ==> requests_for(table_rewinds(outputs, upper), output_index) == 0,
        (exists|k: int|
            {
                &&& 0 <= k < outputs.len()
                &&& (#[trigger] outputs[k]).output_index == output_index
                &&& forall|l: int| 0 <= l < outputs.len() && l != k ==> (
                #[trigger] outputs[l]).output_index != output_index
            }) ==> requests_for(table_rewinds(outputs, upper), output_index) == 1,
    decreases outputs.len(),
{
    let p = |r: RewindView| r.output_index == output_index;
    let all = table_rewinds(outputs, upper);
    if outputs.len() == 0 {
        reveal(Seq::filter);
        assert(all =~= Seq::<RewindView>::empty());
    } else {
        let rest = outputs.drop_last();
        let last = RewindView { output_index: outputs.last().output_index, snapshot_upper: upper };
        lemma_table_rewinds_count(rest, upper, output_index);
        assert(all =~= table_rewinds(rest, upper).push(last));
        table_rewinds(rest, upper).lemma_filter_push(last, p);
        assert forall|k: int| 0 <= k < rest.len() implies #[trigger] rest[k] == outputs[k] by {}
        if outputs.last().output_index == output_index {
            if exists|k: int|
                {
                    &&& 0 <= k < outputs.len()
                    &&& (#[trigger] outputs[k]).output_index == output_index
                    &&& forall|l: int| 0 <= l < outputs.len() && l != k ==> (
                    #[trigger] outputs[l]).output_index != output_index
                } {
                assert(outputs[outputs.len() - 1].output_index == output_index);
                assert forall|k: int| 0 <= k < rest.len() implies (#[trigger] rest[k]).output_index
                    != output_index by {}
            }
        } else {
            if exists|k: int|
                {
                    &&& 0 <= k < outputs.len()
                    &&& (#[trigger] outputs[k]).output_index == output_index
                    &&& forall|l: int| 0 <= l < outputs.len() && l != k ==> (
                    #[trigger] outputs[l]).output_index != output_index
                } {
                let k = choose|k: int|
                    {
                        &&& 0 <= k < outputs.len()
                        &&& (#[trigger] outputs[k]).output_index == output_index
                        &&& forall|l: int| 0 <= l < outputs.len() && l != k ==> (
                        #[trigger] outputs[l]).output_index != output_index
                    };
                assert(rest[k].output_index == output_index);
            }
        }
    }
}

proof fn lemma_no_rewinds(
    tasks: Seq<TaskView>,
    worker: int,
    upper: Seq<GtidPartition>,
    output_index: usize,
)
    requires
        forall|i: int, k: int|
            #![trigger tasks[i].outputs[k]]
            0 <= i < tasks.len() && 0 <= k < tasks[i].outputs.len() && tasks[i].owner == worker
                ==> tasks[i].outputs[k].output_index != output_index,
    ensures
        requests_for(rewinds_of(tasks, worker, upper), output_index) == 0,
    decreases tasks.len(),
{
    let p = |r: RewindView| r.output_index == output_index;
    if tasks.len() == 0 {
        reveal(Seq::filter);
    } else {
        let rest = tasks.drop_last();
        let last = tasks.last();
        assert forall|i: int, k: int|
            #![trigger rest[i].outputs[k]]
            0 <= i < rest.len() && 0 <= k < rest[i].outputs.len() && rest[i].owner
                == worker implies rest[i].outputs[k].output_index != output_index by {
            assert(rest[i].outputs[k] == tasks[i].outputs[k]);
        }
        lemma_no_rewinds(rest, worker, upper, output_index);
        if last.owner == worker {
            assert forall|k: int| 0 <= k < last.outputs.len() implies (
            #[trigger] last.outputs[k]).output_index != output_index by {
                assert(tasks[tasks.len() - 1].outputs[k] == last.outputs[k]);
            }
            lemma_table_rewinds_count(last.outputs, upper, output_index);
            Seq::filter_distributes_over_add(
                rewinds_of(rest, worker, upper),
                table_rewinds(last.outputs, upper),
                p,
            );
        }
    }
}

/// For each output exactly one rewind is requested by all workers together: the owner of its
/// table makes one request, and no other worker makes any.
pub proof fn law_each_output_is_rewound_once(
    tasks: Seq<TaskView>,
    worker: int,
    upper: Seq<GtidPartition>,
    i: int,
    k: int,
)
    requires
        distinct_outputs(tasks),
        0 <= i < tasks.len(),
        0 <= k < tasks[i].outputs.len(),
    ensures
        requests_for(rewinds_of(tasks, worker, upper), tasks[i].outputs[k].output_index) == (
        if worker == tasks[i].owner {
            1nat
        } else {
            0nat
        }),
    decreases tasks.len(),
{
    let output_index = tasks[i].outputs[k].output_index;
    let p = |r: RewindView| r.output_index == output_index;
    let rest = tasks.drop_last();
    let last = tasks.last();
    lemma_distinct_rest(tasks);
    if last.owner == worker {
        Seq::filter_distributes_over_add(
            rewinds_of(rest, worker, upper),
            table_rewinds(last.outputs, upper),
            p,
        );
    }
    lemma_table_rewinds_count(last.outputs, upper, output_index);
    if i < tasks.len() - 1 {
        assert(rest[i].outputs[k] == tasks[i].outputs[k]);
        law_each_output_is_rewound_once(rest, worker, upper, i, k);
        assert forall|l: int| 0 <= l < last.outputs.len() implies (
        #[trigger] last.outputs[l]).output_index != output_index by {
            assert(tasks[tasks.len() - 1].outputs[l] == last.outputs[l]);
            assert(tasks[i].outputs[k].output_index == output_index);
        }
    } else {
        assert forall|a: int, b: int|
            #![trigger rest[a].outputs[b]]
            0 <= a < rest.len() && 0 <= b < rest[a].outputs.len() && rest[a].owner
                == worker implies rest[a].outputs[b].output_index != output_index by {
            assert(rest[a].outputs[b] == tasks[a].outputs[b]);
            assert(tasks[i].outputs[k].output_index == output_index);
        }
        lemma_no_rewinds(rest, worker, upper, output_index);
        assert(last.outputs[k].output_index == output_index);
        assert forall|l: int| 0 <= l < last.outputs.len() && l != k implies (
        #[trigger] last.outputs[l]).output_index != output_index by {
            assert(tasks[tasks.len() - 1].outputs[l] == last.outputs[l]);
            assert(tasks[i].outputs[k].output_index == output_index);
        }
    }
}

/// The number of errors for the output of the given index.
pub open spec fn errors_for(errors: Seq<OutputError>, output_index: usize) -> nat {
    errors.filter(|e: OutputError| e.output_index == output_index).len()
}

/// No output fails twice.
pub open spec fn distinct_failures(failures: Seq<SchemaFailure>) -> bool {
    forall|i: int, j: int|
        0 <= i < failures.len() && 0 <= j < failures.len() && (
        #[trigger] failures[i]).output_index == (#[trigger] failures[j]).output_index ==> i == j
}

/// How often a worker publishes an error for an output.
pub proof fn lemma_published_count(
    failures: Seq<SchemaFailure>,
    tasks: Seq<TaskView>,
    worker: int,
    output_index: usize,
)
    requires
        distinct_failures(failures),
    ensures
        errors_for(published(failures, tasks, worker), output_index) == (if exists|f: int|
            0 <= f < failures.len() && (#[trigger] failures[f]).output_index == output_index
                && tasks[failures[f].table as int].owner == worker {
            1nat
        } else {
            0nat
        }),
    decreases failures.len(),
{
    let mine = |f: SchemaFailure| tasks[f.table as int].owner == worker;
    let report = |f: SchemaFailure| OutputError { output_index: f.output_index, error: f.error };
    let p = |e: OutputError| e.output_index == output_index;
    if failures.len() == 0 {
        reveal(Seq::filter);
        assert(published(failures, tasks, worker) =~= Seq::<OutputError>::empty());
    } else {
        let rest = failures.drop_last();
        let last = failures.last();
        assert(distinct_failures(rest)) by {
            assert forall|i: int, j: int|
                0 <= i < rest.len() && 0 <= j < rest.len() && (#[trigger] rest[i]).output_index == (
                #[trigger] rest[j]).output_index implies i == j by {
                assert(failures[i].output_index == failures[j].output_index);
            }
        }
        lemma_published_count(rest, tasks, worker, output_index);
        assert(failures =~= rest.push(last));
        rest.lemma_filter_push(last, mine);
        let before = published(rest, tasks, worker);
        if mine(last) {
            assert(published(failures, tasks, worker) =~= before.push(report(last)));
            before.lemma_filter_push(report(last), p);
        }
        assert forall|f: int| 0 <= f < rest.len() implies #[trigger] rest[f] == failures[f] by {}
        if last.output_index == output_index {
            assert(failures[failures.len() - 1].output_index == output_index);
            assert forall|f: int| 0 <= f < rest.len() implies (#[trigger] rest[f]).output_index
                != output_index by {
                assert(rest[f] == failures[f]);
            }
        } else if exists|f: int|
            0 <= f < failures.len() && (#[trigger] failures[f]).output_index == output_index
                && tasks[failures[f].table as int].owner == worker {
            let f = choose|f: int|
                0 <= f < failures.len() && (#[trigger] failures[f]).output_index == output_index
                    && tasks[failures[f].table as int].owner == worker;
            assert(rest[f] == failures[f]);
        }
    }
}

/// An output's schema error is written exactly once by all workers together, though every worker
/// that reads the table learns of it: the owner of the table writes it, and no other worker does.
pub proof fn law_each_error_is_published_once(
    failures: Seq<SchemaFailure>,
    tasks: Seq<TaskView>,
    worker: int,
    f: int,
)
    requires
        distinct_failures(failures),
        0 <= f < failures.len(),
    ensures
        errors_for(published(failures, tasks, worker), failures[f].output_index) == (if worker
            == tasks[failures[f].table as int].owner {
            1nat
        } else {
            0nat
        }),
{
    lemma_published_count(failures, tasks, worker, failures[f].output_index);
}

/// Dropping failed outputs keeps every other output, and keeps none of the failed ones.
pub proof fn law_only_failed_outputs_are_dropped(
    outputs: Seq<SourceOutputInfo>,
    removed: Set<usize>,
    k: int,
)
    requires
        0 <= k < outputs.len(),
    ensures
        without(outputs, removed).contains(outputs[k]) <==> !removed.contains(
            outputs[k].output_index,
        ),
{
    let p = |o: SourceOutputInfo| !removed.contains(o.output_index);
    broadcast use vstd::seq_lib::group_filter_ensures;

    let kept = without(outputs, removed);
    if kept.contains(outputs[k]) {
        let i = choose|i: int| 0 <= i < kept.len() && kept[i] == outputs[k];
        assert(p(kept[i]));
    }
    if p(outputs[k]) {
        assert(outputs.filter(p).contains(outputs[k]));
    }
}

/// Every output that has to be snapshotted belongs to exactly one of the tables.
pub proof fn law_each_output_has_one_table(
    tables: Seq<SnapshotTable>,
    outputs: Seq<SourceOutputInfo>,
    k: int,
)
    requires
        groups(tables, outputs),
        0 <= k < outputs.len(),
    ensures
        exists|i: int|
            #![trigger tables[i]]
            {
                &&& 0 <= i < tables.len()
                &&& tables[i].outputs@.contains(outputs[k])
                &&& forall|j: int|
                    #![trigger tables[j]]
                    0 <= j < tables.len() && j != i ==> !tables[j].outputs@.contains(outputs[k])
            },
{
    broadcast use vstd::seq_lib::group_filter_ensures;

    let name = outputs[k].table_name@;
    assert(has_table(tables, name));
    let i = choose|i: int| 0 <= i < tables.len() && (#[trigger] tables[i]).name@ == name;
    assert(of_table(name)(outputs[k]));
    assert(outputs.filter(of_table(name)).contains(outputs[k]));
    assert forall|j: int|
        #![trigger tables[j]]
        0 <= j < tables.len() && j != i implies !tables[j].outputs@.contains(outputs[k]) by {
        let other = tables[j].name@;
        if tables[j].outputs@.contains(outputs[k]) {
            let l = choose|l: int|
                0 <= l < tables[j].outputs@.len() && tables[j].outputs@[l] == outputs[k];
            assert(of_table(other)(outputs.filter(of_table(other))[l]));
            assert(other == name);
            lemma_table_order();
            let lt = table_order();
            assert(!lt(name, name));
            if i < j {
                assert(lt(tables[i].name@, tables[j].name@));
            } else {
                assert(lt(tables[j].name@, tables[i].name@));
            }
        }
    }
}

/// `t` is at or beyond the frontier.
pub open spec fn beyond<T>(frontier: Seq<T>, t: T, le: spec_fn(T, T) -> bool) -> bool {
    exists|i: int| 0 <= i < frontier.len() && le(#[trigger] frontier[i], t)
}

/// The frontier `a` is not ahead of the frontier `b`.
pub open spec fn frontier_le<T>(a: Seq<T>, b: Seq<T>, le: spec_fn(T, T) -> bool) -> bool {
    forall|j: int| 0 <= j < b.len() ==> beyond(a, #[trigger] b[j], le)
}

/// Rewinding turns a snapshot at `snapshot_upper` into one at `initial`: of the updates that the
/// snapshot contains, taking back those from `initial` on leaves exactly those before `initial`.
pub proof fn law_rewind_restores_initial<T>(
    initial: Seq<T>,
    snapshot_upper: Seq<T>,
    t: T,
    le: spec_fn(T, T) -> bool,
)
    requires
        forall|a: T, b: T, c: T| #[trigger] le(a, b) && #[trigger] le(b, c) ==> le(a, c),
        frontier_le(initial, snapshot_upper, le),
    ensures
        !beyond(initial, t, le) <==> {
            let in_snapshot = !beyond(snapshot_upper, t, le);
            let taken_back = beyond(initial, t, le) && !beyond(snapshot_upper, t, le);
            in_snapshot && !taken_back
        },
{
    if beyond(snapshot_upper, t, le) {
        let j = choose|j: int| 0 <= j < snapshot_upper.len() && le(#[trigger] snapshot_upper[j], t);
        assert(beyond(initial, snapshot_upper[j], le));
        let i = choose|i: int| 0 <= i < initial.len() && le(
            #[trigger] initial[i],
            snapshot_upper[j],
        );
        assert(le(initial[i], t));
    }
}

} // verus!
