//! The tables that a source has to snapshot.

use vstd::prelude::*;

use crate::mysql::desc::{
    lemma_table_order, table_before, table_order, GlobalId, GtidPartition, GtidState,
    MySqlTableName, SourceOutputInfo,
};

verus! {

/// A table to snapshot.
#[derive(Debug)]
pub struct SnapshotTable {
    pub name: MySqlTableName,
    /// The exports whose statistics the table's progress is reported to.
    pub exports: Vec<GlobalId>,
    /// The outputs that the table's rows go to.
    pub outputs: Vec<SourceOutputInfo>,
}

/// The output has not been snapshotted yet: it resumes from the very beginning.
pub open spec fn needs_snapshot(output: SourceOutputInfo) -> bool {
    output.resume_upper@ == seq![GtidPartition::spec_minimum()]
}

/// [`needs_snapshot`] as a value.
pub open spec fn pending() -> spec_fn(SourceOutputInfo) -> bool {
    |output: SourceOutputInfo| needs_snapshot(output)
}

/// Exports the given table.
pub open spec fn of_table(name: (Seq<char>, Seq<char>)) -> spec_fn(SourceOutputInfo) -> bool {
    |output: SourceOutputInfo| output.table_name@ == name
}

/// The indexes of outputs.
pub open spec fn output_indexes(outputs: Seq<SourceOutputInfo>) -> Seq<usize> {
    outputs.map_values(|o: SourceOutputInfo| o.output_index)
}

/// The exports behind outputs.
pub open spec fn output_exports(outputs: Seq<SourceOutputInfo>) -> Seq<GlobalId> {
    outputs.map_values(|o: SourceOutputInfo| o.export_id)
}

/// Every table comes before all later ones.
pub open spec fn tables_sorted(tables: Seq<SnapshotTable>) -> bool {
    forall|i: int, j: int|
        0 <= i < j < tables.len() ==> table_before(
            (#[trigger] tables[i]).name@,
            (#[trigger] tables[j]).name@,
        )
}

/// The table of the given name is among `tables`.
pub open spec fn has_table(tables: Seq<SnapshotTable>, name: (Seq<char>, Seq<char>)) -> bool {
    exists|i: int| 0 <= i < tables.len() && (#[trigger] tables[i]).name@ == name
}

/// `tables` are the tables of `outputs`, each once and in their order, each with its outputs in
/// the order given and with the exports behind them.
pub open spec fn groups(tables: Seq<SnapshotTable>, outputs: Seq<SourceOutputInfo>) -> bool {
    &&& tables_sorted(tables)
    &&& forall|i: int|
        #![trigger tables[i]]
        0 <= i < tables.len() ==> {
            &&& tables[i].outputs@ == outputs.filter(of_table(tables[i].name@))
            &&& tables[i].outputs@.len() > 0
            &&& tables[i].exports@ == output_exports(tables[i].outputs@)
        }
    &&& forall|k: int|
        #![trigger outputs[k]]
        0 <= k < outputs.len() ==> has_table(tables, outputs[k].table_name@)
}

/// Whether the output has not been snapshotted yet.
pub fn is_pending(output: &SourceOutputInfo) -> (r: bool)
    ensures
        r == needs_snapshot(*output),
        r <==> resumes_from_the_beginning(*output),
{
    let r = output.resume_upper.len() == 1 && output.resume_upper[0] == GtidPartition::minimum();
    proof {
        if r {
            assert(output.resume_upper@ =~= seq![GtidPartition::spec_minimum()]);
        }
    }
    r
}

/// Adds `output` to its table, which is added too if it is not there yet.
fn place(
    tables: &mut Vec<SnapshotTable>,
    output: SourceOutputInfo,
    Ghost(placed): Ghost<Seq<SourceOutputInfo>>,
)
    requires
        groups(old(tables)@, placed),
    ensures
        groups(final(tables)@, placed.push(output)),
{
    broadcast use Seq::lemma_filter_push;

    let ghost before = tables@;
    let ghost name = output.table_name@;
    let ghost after = placed.push(output);
    let ghost lt = table_order();
    let mut i: usize = 0;
    while i < tables.len() && tables[i].name.before(&output.table_name)
        invariant
            tables@ == before,
            i <= before.len(),
            name == output.table_name@,
            forall|j: int| 0 <= j < i ==> table_before((#[trigger] before[j]).name@, name),
        decreases before.len() - i,
    {
        i += 1;
    }
    proof {
        lemma_table_order();
    }
    if i < tables.len() && tables[i].name.same(&output.table_name) {
        let export_id = output.export_id;
        let mut table = tables.remove(i);
        table.exports.push(export_id);
        table.outputs.push(output);
        tables.insert(i, table);
        proof {
            assert(tables@ =~= before.update(i as int, table));
            assert forall|k: int| #![trigger tables@[k]] 0 <= k < tables@.len() implies {
                &&& tables@[k].outputs@ == after.filter(of_table(tables@[k].name@))
                &&& tables@[k].outputs@.len() > 0
                &&& tables@[k].exports@ == output_exports(tables@[k].outputs@)
            } by {
                assert(before[k].name@ == tables@[k].name@);
                if k == i {
                    assert(tables@[k].exports@ =~= output_exports(tables@[k].outputs@));
                } else {
                    if k < i {
                        assert(lt(before[k].name@, before[i as int].name@));
                    } else {
                        assert(lt(before[i as int].name@, before[k].name@));
                    }
                    assert(!lt(name, name));
                }
            }
            assert forall|k: int| #![trigger after[k]] 0 <= k < after.len() implies has_table(
                tables@,
                after[k].table_name@,
            ) by {
                if k < placed.len() {
                    assert(after[k] == placed[k]);
                    assert(has_table(before, placed[k].table_name@));
                    let t = choose|t: int|
                        #![trigger before[t]]
                        0 <= t < before.len() && before[t].name@ == placed[k].table_name@;
                    assert(tables@[t].name@ == before[t].name@);
                } else {
                    assert(tables@[i as int].name@ == name);
                }
            }
            assert forall|a: int, b: int| 0 <= a < b < tables@.len() implies table_before(
                (#[trigger] tables@[a]).name@,
                (#[trigger] tables@[b]).name@,
            ) by {
                assert(table_before(before[a].name@, before[b].name@));
            }
            assert(tables_sorted(tables@));
            assert(groups(tables@, after));
        }
    } else {
        proof {
            assert forall|k: int| 0 <= k < before.len() implies (#[trigger] before[k]).name@
                != name by {
                assert(!lt(name, name));
                if k < i {
                    assert(lt(before[k].name@, name));
                } else {
                    assert(lt(name, before[i as int].name@));
                    if k > i {
                        assert(lt(before[i as int].name@, before[k].name@));
                        assert(lt(name, before[k].name@));
                    }
                }
            }
        }
        let table_name = output.table_name.clone();
        let mut exports: Vec<GlobalId> = Vec::new();
        exports.push(output.export_id);
        let mut outputs: Vec<SourceOutputInfo> = Vec::new();
        outputs.push(output);
        let table = SnapshotTable { name: table_name, exports, outputs };
        tables.insert(i, table);
        proof {
            assert(tables@ =~= before.insert(i as int, table));
            let none = placed.filter(of_table(name));
            assert(none.len() == 0) by {
                assert forall|k: int| 0 <= k < placed.len() implies !of_table(name)(
                    #[trigger] placed[k],
                ) by {
                    assert(has_table(before, placed[k].table_name@));
                    let t = choose|t: int|
                        #![trigger before[t]]
                        0 <= t < before.len() && before[t].name@ == placed[k].table_name@;
                    assert(before[t].name@ != name);
                }
                placed.lemma_all_neg_filter_empty(of_table(name));
            }
            assert forall|k: int| #![trigger tables@[k]] 0 <= k < tables@.len() implies {
                &&& tables@[k].outputs@ == after.filter(of_table(tables@[k].name@))
                &&& tables@[k].outputs@.len() > 0
                &&& tables@[k].exports@ == output_exports(tables@[k].outputs@)
            } by {
                if k == i {
                    assert(tables@[k].outputs@ =~= none.push(output));
                    assert(tables@[k].exports@ =~= output_exports(tables@[k].outputs@));
                } else if k < i {
                    assert(tables@[k] == before[k]);
                } else {
                    assert(tables@[k] == before[k - 1]);
                }
            }
            assert forall|k: int| #![trigger after[k]] 0 <= k < after.len() implies has_table(
                tables@,
                after[k].table_name@,
            ) by {
                if k < placed.len() {
                    assert(after[k] == placed[k]);
                    assert(has_table(before, placed[k].table_name@));
                    let t = choose|t: int|
                        #![trigger before[t]]
                        0 <= t < before.len() && before[t].name@ == placed[k].table_name@;
                    if t < i {
                        assert(tables@[t] == before[t]);
                    } else {
                        assert(tables@[t + 1] == before[t]);
                    }
                } else {
                    assert(tables@[i as int].name@ == name);
                }
            }
            assert forall|a: int, b: int| 0 <= a < b < tables@.len() implies table_before(
                (#[trigger] tables@[a]).name@,
                (#[trigger] tables@[b]).name@,
            ) by {
                if a == i {
                    assert(lt(name, before[i as int].name@));
                    if b - 1 > i {
                        assert(lt(before[i as int].name@, before[b - 1].name@));
                        assert(lt(name, before[b - 1].name@));
                    }
                } else if b == i {
                    assert(lt(before[a].name@, name));
                } else {
                    let x = if a < i {
                        a
                    } else {
                        a - 1
                    };
                    let y = if b < i {
                        b
                    } else {
                        b - 1
                    };
                    assert(table_before(before[x].name@, before[y].name@));
                }
            }
            assert(tables_sorted(tables@));
            assert(groups(tables@, after));
        }
    }
}

/// Determines which outputs still have to be snapshotted and which tables they are read from.
/// Gives the indexes of those outputs and the tables.
pub fn snapshot_tables(source_outputs: Vec<SourceOutputInfo>) -> (r: (
    Vec<usize>,
    Vec<SnapshotTable>,
))
    ensures
        r.0@ == output_indexes(source_outputs@.filter(pending())),
        groups(r.1@, source_outputs@.filter(pending())),
{
    broadcast use Seq::lemma_filter_push;

    let ghost all = source_outputs@;
    let mut indexes: Vec<usize> = Vec::new();
    let mut tables: Vec<SnapshotTable> = Vec::new();
    proof {
        reveal(Seq::filter);
        assert(all.take(0) =~= Seq::<SourceOutputInfo>::empty());
        assert(output_indexes(all.take(0).filter(pending())) =~= Seq::<usize>::empty());
    }
    for output in it: source_outputs
        invariant
            it.seq() == all,
            indexes@ == output_indexes(all.take(it.index()).filter(pending())),
            groups(tables@, all.take(it.index()).filter(pending())),
    {
        let ghost done = all.take(it.index()).filter(pending());
        proof {
            assert(output == all[it.index()]);
            assert(all.take(it.index() + 1) =~= all.take(it.index()).push(output));
            all.take(it.index()).lemma_filter_push(output, pending());
        }
        if is_pending(&output) {
            indexes.push(output.output_index);
            proof {
                assert(output_indexes(done.push(output)) =~= output_indexes(done).push(
                    output.output_index,
                ));
            }
            place(&mut tables, output, Ghost(done));
        }
    }
    assert(all.take(all.len() as int) =~= all);
    (indexes, tables)
}

/// Ingestion of the output resumes from the very beginning: its frontier is a single time, at
/// which nothing has been seen of any source.
pub open spec fn resumes_from_the_beginning(output: SourceOutputInfo) -> bool {
    &&& output.resume_upper@.len() == 1
    &&& output.resume_upper@[0].lower == 0
    &&& output.resume_upper@[0].upper == u128::MAX
    &&& output.resume_upper@[0].timestamp == GtidState::Absent
}

/// Outputs are taken up one by one, in order: an output that resumes from the beginning is added
/// to those before it, and any other output is passed over.
pub proof fn law_outputs_are_taken_one_by_one(
    outputs: Seq<SourceOutputInfo>,
    output: SourceOutputInfo,
)
    ensures
        output_indexes(Seq::<SourceOutputInfo>::empty().filter(pending())).len() == 0,
        outputs.push(output).filter(pending()) == (if resumes_from_the_beginning(output) {
            outputs.filter(pending()).push(output)
        } else {
            outputs.filter(pending())
        }),
        output_indexes(outputs.push(output).filter(pending())) == (
        if resumes_from_the_beginning(output) {
            output_indexes(outputs.filter(pending())).push(output.output_index)
        } else {
            output_indexes(outputs.filter(pending()))
        }),
{
    reveal(Seq::filter);
    outputs.lemma_filter_push(output, pending());
    lemma_needs_snapshot(output);
    assert(output_indexes(outputs.filter(pending()).push(output)) =~= output_indexes(
        outputs.filter(pending()),
    ).push(output.output_index));
}

proof fn lemma_needs_snapshot(output: SourceOutputInfo)
    ensures
        needs_snapshot(output) <==> resumes_from_the_beginning(output),
{
    if resumes_from_the_beginning(output) {
        assert(output.resume_upper@ =~= seq![GtidPartition::spec_minimum()]);
    }
}

/// The output of the given index is one that resumes from the beginning.
pub open spec fn is_new_output(source_outputs: Seq<SourceOutputInfo>, output_index: usize) -> bool {
    exists|s: int|
        0 <= s < source_outputs.len() && (#[trigger] source_outputs[s]).output_index == output_index
            && resumes_from_the_beginning(source_outputs[s])
}

/// An output that has been snapshotted already is not snapshotted again: only outputs that resume
/// from the beginning are in any table, and every such output is in one. Their indexes are listed,
/// and no others.
pub proof fn law_only_new_outputs_are_snapshotted(
    source_outputs: Seq<SourceOutputInfo>,
    indexes: Seq<usize>,
    tables: Seq<SnapshotTable>,
)
    requires
        indexes == output_indexes(source_outputs.filter(pending())),
        groups(tables, source_outputs.filter(pending())),
    ensures
        forall|i: int, k: int|
            #![trigger tables[i].outputs@[k]]
            0 <= i < tables.len() && 0 <= k < tables[i].outputs@.len()
                ==> resumes_from_the_beginning(tables[i].outputs@[k]) && source_outputs.contains(
                tables[i].outputs@[k],
            ),
        forall|s: int|
            #![trigger source_outputs[s]]
            0 <= s < source_outputs.len() && resumes_from_the_beginning(source_outputs[s])
                ==> has_table(tables, source_outputs[s].table_name@) && indexes.contains(
                source_outputs[s].output_index,
            ),
        forall|x: int|
            0 <= x < indexes.len() ==> is_new_output(source_outputs, #[trigger] indexes[x]),
{
    broadcast use vstd::seq_lib::group_filter_ensures;

    let picked = source_outputs.filter(pending());
    assert forall|x: int| 0 <= x < picked.len() implies resumes_from_the_beginning(
        #[trigger] picked[x],
    ) && source_outputs.contains(picked[x]) by {
        assert(picked.contains(picked[x]));
        source_outputs.lemma_filter_contains_rev(pending(), picked[x]);
        assert(pending()(picked[x]));
        lemma_needs_snapshot(picked[x]);
    }
    assert forall|i: int, k: int|
        #![trigger tables[i].outputs@[k]]
        0 <= i < tables.len() && 0 <= k < tables[i].outputs@.len() implies
        resumes_from_the_beginning(tables[i].outputs@[k]) && source_outputs.contains(
        tables[i].outputs@[k],
    ) by {
        let p = of_table(tables[i].name@);
        let o = tables[i].outputs@[k];
        assert(picked.filter(p).contains(o));
        picked.lemma_filter_contains_rev(p, o);
        let x = choose|x: int| 0 <= x < picked.len() && picked[x] == o;
        assert(resumes_from_the_beginning(picked[x]));
    }
    assert forall|s: int|
        #![trigger source_outputs[s]]
        0 <= s < source_outputs.len() && resumes_from_the_beginning(
            source_outputs[s],
        ) implies has_table(tables, source_outputs[s].table_name@) && indexes.contains(
        source_outputs[s].output_index,
    ) by {
        lemma_needs_snapshot(source_outputs[s]);
        source_outputs.lemma_filter_contains(pending(), s);
        let x = choose|x: int| 0 <= x < picked.len() && picked[x] == source_outputs[s];
        assert(has_table(tables, picked[x].table_name@));
        assert(indexes[x] == source_outputs[s].output_index);
    }
    assert forall|x: int| 0 <= x < indexes.len() implies is_new_output(
        source_outputs,
        #[trigger] indexes[x],
    ) by {
        assert(source_outputs.contains(picked[x]));
        let s = choose|s: int| 0 <= s < source_outputs.len() && source_outputs[s] == picked[x];
        assert(resumes_from_the_beginning(source_outputs[s]));
    }
}

/// A table holds its own outputs and no others, in the order given, one export for each, and comes
/// after all tables of smaller schemas and names.
pub proof fn law_tables_hold_their_outputs(
    tables: Seq<SnapshotTable>,
    outputs: Seq<SourceOutputInfo>,
    i: int,
    k: int,
)
    requires
        groups(tables, outputs),
        0 <= i < tables.len(),
        0 <= k < tables[i].outputs@.len(),
    ensures
        tables[i].outputs@[k].table_name@ == tables[i].name@,
        tables[i].exports@.len() == tables[i].outputs@.len(),
        tables[i].exports@[k] == tables[i].outputs@[k].export_id,
        tables[i].outputs@ == outputs.filter(
            |o: SourceOutputInfo| o.table_name@ == tables[i].name@,
        ),
        forall|j: int| i < j < tables.len() ==> table_before(
            tables[i].name@,
            (#[trigger] tables[j]).name@,
        ),
{
    broadcast use vstd::seq_lib::group_filter_ensures;

    let p = of_table(tables[i].name@);
    let q = |o: SourceOutputInfo| o.table_name@ == tables[i].name@;
    assert(p =~= q);
    assert(p(outputs.filter(p)[k]));
}

} // verus!
