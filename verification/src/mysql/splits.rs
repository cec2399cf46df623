//! Splitting a table by primary key into ranges, one per worker.

use vstd::arithmetic::div_mod::{
    lemma_add_mod_noop, lemma_mod_multiples_vanish, lemma_mod_twice, lemma_small_mod,
    lemma_sub_mod_noop,
};
use vstd::prelude::*;

use crate::mysql::desc::{
    law_no_primary_key, lemma_first_match, primary_keys, KeyView, MySqlColumnDesc, MySqlTableDesc,
    SqlColumnType, SqlScalarType,
};
use crate::text::{enclosed, quote_identifier, texts};

verus! {

/// How the values of a primary key column are rendered as SQL literals in range predicates.
#[derive(Debug, Clone, Copy, PartialEq, Eq, Structural)]
pub enum PkColKind {
    /// Integer type, rendered and compared as a bare numeric literal.
    Numeric,
    /// Character type, rendered as a quoted string literal via MySQL `QUOTE()` and compared
    /// under the column's own collation.
    Text,
}

/// The kind of key that a column of the given type makes, if it can be split.
pub open spec fn kind_of(scalar_type: SqlScalarType) -> Option<PkColKind> {
    match scalar_type {
        SqlScalarType::Int16
        | SqlScalarType::Int32
        | SqlScalarType::Int64
        | SqlScalarType::UInt16
        | SqlScalarType::UInt32
        | SqlScalarType::UInt64 => Some(PkColKind::Numeric),
        SqlScalarType::Char { .. }
        | SqlScalarType::VarChar { .. }
        | SqlScalarType::String => Some(PkColKind::Text),
        SqlScalarType::Bytes | SqlScalarType::Other => None,
    }
}

/// Classify a scalar type for range splitting, or `None` if unsupported.
pub fn pk_col_kind(scalar_type: &SqlScalarType) -> (r: Option<PkColKind>)
    ensures
        r == kind_of(*scalar_type),
{
    match scalar_type {
        SqlScalarType::Int16
        | SqlScalarType::Int32
        | SqlScalarType::Int64
        | SqlScalarType::UInt16
        | SqlScalarType::UInt32
        | SqlScalarType::UInt64 => Some(PkColKind::Numeric),
        SqlScalarType::Char { .. }
        | SqlScalarType::VarChar { .. }
        | SqlScalarType::String => Some(PkColKind::Text),
        _ => None,
    }
}

/// Has the given name.
pub open spec fn is_named(name: Seq<char>) -> spec_fn(MySqlColumnDesc) -> bool {
    |c: MySqlColumnDesc| c.name@ == name
}

/// The columns of the given name.
pub open spec fn columns_named(
    columns: Seq<MySqlColumnDesc>,
    name: Seq<char>,
) -> Seq<MySqlColumnDesc> {
    columns.filter(is_named(name))
}

/// The name of the column that alone makes up the table's primary key, if one does.
pub open spec fn sole_key_column(desc: MySqlTableDesc) -> Option<Seq<char>> {
    let primary = primary_keys(desc.keys@);
    if primary.len() > 0 && primary[0].columns.len() == 1 {
        Some(primary[0].columns[0])
    } else {
        None
    }
}

/// The type of the column of the given name, if there is such a column and it has one.
pub open spec fn type_of_column(desc: MySqlTableDesc, name: Seq<char>) -> Option<SqlColumnType> {
    let named = columns_named(desc.columns@, name);
    if named.len() > 0 {
        named[0].column_type
    } else {
        None
    }
}

/// The quoted primary key column of a table and its kind, if the table can be split by it.
pub open spec fn splittable_pk(desc: MySqlTableDesc) -> Option<(Seq<char>, PkColKind)> {
    match sole_key_column(desc) {
        Some(name) => match type_of_column(desc, name) {
            Some(column_type) => match kind_of(column_type.scalar_type) {
                Some(kind) => Some((enclosed(name, '`'), kind)),
                None => None,
            },
            None => None,
        },
        None => None,
    }
}

/// If `desc` has a single-column primary key of a supported type, return the quoted key column
/// and its kind. Tables with a composite primary key are not split.
pub fn formattable_pk(desc: &MySqlTableDesc) -> (r: Option<(String, PkColKind)>)
    ensures
        match r {
            Some((col, kind)) => splittable_pk(*desc) == Some((col@, kind)),
            None => splittable_pk(*desc) is None,
        },
{
    let pk = match desc.keys.primary() {
        Some(pk) => pk,
        None => {
            return None;
        },
    };
    if pk.columns.len() != 1 {
        return None;
    }
    let name = &pk.columns[0];
    let ghost p = is_named(name@);
    let mut i: usize = 0;
    proof {
        assert(primary_keys(desc.keys@)[0].columns[0] == name@);
        assert(desc.columns@.take(0) =~= Seq::<MySqlColumnDesc>::empty());
        reveal(Seq::filter);
    }
    while i < desc.columns.len()
        invariant
            i <= desc.columns@.len(),
            p == is_named(name@),
            sole_key_column(*desc) == Some(name@),
            desc.columns@.take(i as int).filter(p).len() == 0,
        decreases desc.columns@.len() - i,
    {
        let col = &desc.columns[i];
        proof {
            lemma_first_match(desc.columns@, p, i as int);
        }
        if col.name == *name {
            return match &col.column_type {
                Some(column_type) => match pk_col_kind(&column_type.scalar_type) {
                    Some(kind) => Some((quote_identifier(name.as_str()), kind)),
                    None => None,
                },
                None => None,
            };
        }
        i += 1;
    }
    assert(desc.columns@.take(i as int) =~= desc.columns@);
    None
}

/// Primary key ranges of a table, computed by the leader.
///
/// `pk_col` is the quoted primary key column. Each of `boundaries` is one SQL literal, and
/// boundary `i` is the lower bound of partition `i + 1`, so the partitions are half-open ranges.
#[derive(Debug)]
pub struct PkSplits {
    pub pk_col: String,
    pub boundaries: Vec<String>,
}

/// What a [`PkSplits`] stands for.
#[verifier::ext_equal]
pub struct SplitsView {
    pub pk_col: Seq<char>,
    pub boundaries: Seq<Seq<char>>,
}

impl View for PkSplits {
    type V = SplitsView;

    open spec fn view(&self) -> SplitsView {
        SplitsView { pk_col: self.pk_col@, boundaries: texts(self.boundaries@) }
    }
}

impl Clone for PkSplits {
    fn clone(&self) -> (r: PkSplits)
        ensures
            r@ == self@,
    {
        let r = PkSplits { pk_col: self.pk_col.clone(), boundaries: self.boundaries.clone() };
        assert(r.boundaries@ =~= self.boundaries@);
        r
    }
}

/// A worker's primary key range of a table, as SQL fragments.
#[derive(Debug, Clone)]
pub struct PkRange {
    /// Quoted primary key column.
    pub pk_col: String,
    /// Inclusive lower bound literal, or `None` for the first partition (open start).
    pub lower: Option<String>,
    /// Exclusive upper bound literal, or `None` for the last partition (open end).
    pub upper: Option<String>,
}

/// What a [`PkRange`] stands for.
#[verifier::ext_equal]
pub struct RangeView {
    pub pk_col: Seq<char>,
    pub lower: Option<Seq<char>>,
    pub upper: Option<Seq<char>>,
}

/// The contents of an optional string.
pub open spec fn text_of(s: Option<String>) -> Option<Seq<char>> {
    match s {
        Some(s) => Some(s@),
        None => None,
    }
}

impl View for PkRange {
    type V = RangeView;

    open spec fn view(&self) -> RangeView {
        RangeView { pk_col: self.pk_col@, lower: text_of(self.lower), upper: text_of(self.upper) }
    }
}

/// What a worker does for one table during the snapshot.
#[derive(Debug, Clone)]
pub enum ReadPlan {
    /// Partitioned table: read this worker's range.
    Range(PkRange),
    /// Unpartitioned table: this worker reads it whole.
    WholeTable,
}

/// What a [`ReadPlan`] stands for.
pub enum PlanView {
    Range(RangeView),
    WholeTable,
}

impl View for ReadPlan {
    type V = PlanView;

    open spec fn view(&self) -> PlanView {
        match self {
            ReadPlan::Range(range) => PlanView::Range(range@),
            ReadPlan::WholeTable => PlanView::WholeTable,
        }
    }
}

/// The partition that `worker` reads of a table owned by `owner`: the owner reads partition 0
/// and the workers after it, going round, the following ones.
pub open spec fn partition_of(worker: int, owner: int, worker_count: int) -> int {
    (worker - owner) % worker_count
}

/// The worker that reads partition `partition` of a table owned by `owner`.
pub open spec fn reader_of(partition: int, owner: int, worker_count: int) -> int {
    (owner + partition) % worker_count
}

/// The partition index (0-based) that worker `worker_id` reads of a table whose owner is
/// `owner`. Partition 0 goes to the owner and the rest follow round-robin, so the open-started
/// first range and the open-ended last range land on different workers for tables with
/// different owners.
///
/// The index may be beyond the table's partition count: this worker then reads nothing of it.
pub fn partition_for_worker(worker_id: usize, owner: usize, worker_count: usize) -> (r: usize)
    requires
        worker_count > 0,
        worker_id + worker_count <= usize::MAX,
    ensures
        r == partition_of(worker_id as int, owner as int, worker_count as int),
        r < worker_count,
{
    proof {
        let n = worker_count as int;
        let reduced = worker_id + n - owner as int % n;
        lemma_sub_mod_noop(worker_id + n, owner as int, n);
        lemma_mod_twice(owner as int, n);
        lemma_sub_mod_noop(worker_id + n, owner as int % n, n);
        assert(reduced % n == (worker_id + n - owner) % n);
        lemma_mod_multiples_vanish(1, worker_id - owner, n);
        assert(n * 1 + (worker_id - owner) == worker_id + n - owner);
    }
    (worker_id + worker_count - owner % worker_count) % worker_count
}

/// Partition `partition` of `splits`, if there are that many.
pub open spec fn range_at(splits: SplitsView, partition: int) -> Option<RangeView> {
    let b = splits.boundaries;
    if partition <= b.len() {
        Some(
            RangeView {
                pk_col: splits.pk_col,
                lower: if partition > 0 {
                    Some(b[partition - 1])
                } else {
                    None
                },
                upper: if partition < b.len() {
                    Some(b[partition])
                } else {
                    None
                },
            },
        )
    } else {
        None
    }
}

/// The key range of partition `partition` of `splits`, or `None` if `partition` is beyond the
/// partition count (fewer partitions than workers).
pub fn worker_pk_range(splits: &PkSplits, partition: usize) -> (r: Option<PkRange>)
    ensures
        match r {
            Some(range) => range_at(splits@, partition as int) == Some(range@),
            None => range_at(splits@, partition as int) is None,
        },
{
    let count = splits.boundaries.len();
    if partition > count {
        return None;
    }
    let lower = if partition > 0 {
        Some(splits.boundaries[partition - 1].clone())
    } else {
        None
    };
    let upper = if partition < count {
        Some(splits.boundaries[partition].clone())
    } else {
        None
    };
    Some(PkRange { pk_col: splits.pk_col.clone(), lower, upper })
}

/// What `worker` reads of a table that has been split as `splits` says, if it has been split.
pub open spec fn plan_of(
    splits: Option<SplitsView>,
    worker: int,
    owner: int,
    worker_count: int,
) -> Option<PlanView> {
    match splits {
        Some(splits) => match range_at(splits, partition_of(worker, owner, worker_count)) {
            Some(range) => Some(PlanView::Range(range)),
            None => None,
        },
        None => if worker == owner {
            Some(PlanView::WholeTable)
        } else {
            None
        },
    }
}

/// The contents of optional splits.
pub open spec fn splits_of(splits: Option<&PkSplits>) -> Option<SplitsView> {
    match splits {
        Some(splits) => Some(splits@),
        None => None,
    }
}

/// The contents of an optional plan.
pub open spec fn plan_view(plan: Option<ReadPlan>) -> Option<PlanView> {
    match plan {
        Some(plan) => Some(plan@),
        None => None,
    }
}

/// What worker `worker_id` does for a table owned by `owner`. The ranges of a partitioned table
/// are assigned round-robin from the owner; an unpartitioned table is read whole by its owner.
pub fn read_plan(
    splits: Option<&PkSplits>,
    worker_id: usize,
    owner: usize,
    worker_count: usize,
) -> (r: Option<ReadPlan>)
    requires
        worker_count > 0,
        worker_id + worker_count <= usize::MAX,
    ensures
        plan_view(r) == plan_of(
            splits_of(splits),
            worker_id as int,
            owner as int,
            worker_count as int,
        ),
{
    match splits {
        Some(splits) => {
            let partition = partition_for_worker(worker_id, owner, worker_count);
            match worker_pk_range(splits, partition) {
                Some(range) => Some(ReadPlan::Range(range)),
                None => None,
            }
        },
        None => {
            if owner == worker_id {
                Some(ReadPlan::WholeTable)
            } else {
                None
            }
        },
    }
}

/// `le` is reflexive and transitive, and relates any two values one way or the other. The
/// comparison of key literals under a column's collation is such a relation.
pub open spec fn total_preorder<K>(le: spec_fn(K, K) -> bool) -> bool {
    &&& forall|a: K| #[trigger] le(a, a)
    &&& forall|a: K, b: K, c: K| #[trigger] le(a, b) && #[trigger] le(b, c) ==> le(a, c)
    &&& forall|a: K, b: K| #[trigger] le(a, b) || le(b, a)
}

/// No boundary is smaller than an earlier one.
pub open spec fn non_decreasing<K>(b: Seq<K>, le: spec_fn(K, K) -> bool) -> bool {
    forall|i: int, j: int| 0 <= i <= j < b.len() ==> le(#[trigger] b[i], #[trigger] b[j])
}

/// The key satisfies the predicates that a query for `range` carries: at least the lower bound
/// and less than the upper bound, as far as there are bounds.
pub open spec fn in_range(
    range: RangeView,
    key: Seq<char>,
    le: spec_fn(Seq<char>, Seq<char>) -> bool,
) -> bool {
    &&& range.lower matches Some(lower) ==> le(lower, key)
    &&& range.upper matches Some(upper) ==> !le(upper, key)
}

/// The row with the given key is among those that a worker with the given plan reads.
pub open spec fn reads_key(
    plan: Option<PlanView>,
    key: Seq<char>,
    le: spec_fn(Seq<char>, Seq<char>) -> bool,
) -> bool {
    match plan {
        Some(PlanView::Range(range)) => in_range(range, key, le),
        Some(PlanView::WholeTable) => true,
        None => false,
    }
}

/// The number of boundaries up to the last one that does not exceed `key`.
spec fn position_of(
    b: Seq<Seq<char>>,
    key: Seq<char>,
    le: spec_fn(Seq<char>, Seq<char>) -> bool,
) -> int
    decreases b.len(),
{
    if b.len() == 0 {
        0
    } else if le(b.last(), key) {
        b.len() as int
    } else {
        position_of(b.drop_last(), key, le)
    }
}

proof fn lemma_position_of(
    b: Seq<Seq<char>>,
    key: Seq<char>,
    le: spec_fn(Seq<char>, Seq<char>) -> bool,
)
    ensures
        0 <= position_of(b, key, le) <= b.len(),
        position_of(b, key, le) > 0 ==> le(b[position_of(b, key, le) - 1], key),
        position_of(b, key, le) < b.len() ==> !le(b[position_of(b, key, le)], key),
    decreases b.len(),
{
    if b.len() > 0 && !le(b.last(), key) {
        lemma_position_of(b.drop_last(), key, le);
    }
}

/// The partitions are disjoint and exhaustive over the entire key domain, whatever the data:
/// with non-decreasing boundaries every key lies in exactly one of them.
pub proof fn law_partitions_cover_keys_once(
    splits: SplitsView,
    key: Seq<char>,
    le: spec_fn(Seq<char>, Seq<char>) -> bool,
)
    requires
        total_preorder(le),
        non_decreasing(splits.boundaries, le),
    ensures
        exists|p: int|
            #![trigger range_at(splits, p)]
            {
                &&& 0 <= p <= splits.boundaries.len()
                &&& in_range(range_at(splits, p)->0, key, le)
                &&& forall|q: int|
                    #![trigger range_at(splits, q)]
                    0 <= q <= splits.boundaries.len() && q != p ==> !in_range(
                        range_at(splits, q)->0,
                        key,
                        le,
                    )
            },
{
    let b = splits.boundaries;
    let p = position_of(b, key, le);
    lemma_position_of(b, key, le);
    assert(in_range(range_at(splits, p)->0, key, le));
    assert forall|q: int|
        #![trigger range_at(splits, q)]
        0 <= q <= b.len() && q != p implies !in_range(range_at(splits, q)->0, key, le) by {
        if q < p {
            assert(le(b[q], b[p - 1]) && le(b[p - 1], key));
        } else {
            assert(le(b[p], b[q - 1]));
            if le(b[q - 1], key) {
                assert(le(b[p], key));
            }
        }
    }
}

/// Among the workers, the assignment of partitions is one-to-one: each partition index is read
/// by exactly one worker, and the owner takes partition 0. An owner beyond the workers counts as
/// the one that it wraps around to.
pub proof fn law_partition_assignment_is_one_to_one(
    partition: int,
    worker: int,
    owner: int,
    worker_count: int,
)
    requires
        0 <= partition < worker_count,
        0 <= worker < worker_count,
        0 <= owner,
    ensures
        0 <= reader_of(partition, owner, worker_count) < worker_count,
        partition_of(worker, owner, worker_count) == partition <==> worker == reader_of(
            partition,
            owner,
            worker_count,
        ),
        partition_of(owner % worker_count, owner, worker_count) == 0,
{
    let n = worker_count;
    let r = reader_of(partition, owner, n);
    // From a partition to its reader and back.
    lemma_sub_mod_noop(owner + partition, owner, n);
    lemma_mod_twice(owner + partition, n);
    lemma_sub_mod_noop(r, owner, n);
    lemma_small_mod(partition as nat, n as nat);
    assert(partition_of(r, owner, n) == partition);
    // From a worker to its partition and back.
    let p = partition_of(worker, owner, n);
    lemma_add_mod_noop(owner, worker - owner, n);
    lemma_mod_twice(worker - owner, n);
    lemma_add_mod_noop(owner, p, n);
    lemma_small_mod(worker as nat, n as nat);
    assert(reader_of(p, owner, n) == worker);
    lemma_sub_mod_noop(owner % n, owner, n);
    lemma_mod_twice(owner, n);
    lemma_small_mod(0, n as nat);
}

/// The same partition of two tables with different owners is read by different workers, so the
/// open-ended ranges of many tables do not pile up on one worker. Owners beyond the workers count
/// as those that they wrap around to.
pub proof fn law_owners_spread_partitions(
    partition: int,
    owner1: int,
    owner2: int,
    worker_count: int,
)
    requires
        0 <= partition < worker_count,
        0 <= owner1,
        0 <= owner2,
        owner1 % worker_count != owner2 % worker_count,
    ensures
        reader_of(partition, owner1, worker_count) != reader_of(partition, owner2, worker_count),
{
    let n = worker_count;
    let r1 = reader_of(partition, owner1, n);
    let r2 = reader_of(partition, owner2, n);
    lemma_sub_mod_noop(owner1 + partition, partition, n);
    lemma_mod_twice(owner1 + partition, n);
    lemma_sub_mod_noop(r1, partition, n);
    lemma_sub_mod_noop(owner2 + partition, partition, n);
    lemma_mod_twice(owner2 + partition, n);
    lemma_sub_mod_noop(r2, partition, n);
    assert((r1 - partition) % n == owner1 % n);
    assert((r2 - partition) % n == owner2 % n);
}

/// Every row is read by exactly one worker, whether or not the table is partitioned and
/// regardless of the actual data: for each key there is one worker whose plan covers it, and no
/// other worker's plan does.
pub proof fn law_every_row_is_read_once(
    splits: Option<SplitsView>,
    owner: int,
    worker_count: int,
    key: Seq<char>,
    le: spec_fn(Seq<char>, Seq<char>) -> bool,
)
    requires
        0 <= owner < worker_count,
        total_preorder(le),
        splits matches Some(s) ==> non_decreasing(s.boundaries, le) && s.boundaries.len()
            < worker_count,
    ensures
        exists|w: int|
            #![trigger plan_of(splits, w, owner, worker_count)]
            {
                &&& 0 <= w < worker_count
                &&& reads_key(plan_of(splits, w, owner, worker_count), key, le)
                &&& forall|v: int|
                    #![trigger plan_of(splits, v, owner, worker_count)]
                    0 <= v < worker_count && v != w ==> !reads_key(
                        plan_of(splits, v, owner, worker_count),
                        key,
                        le,
                    )
            },
{
    let n = worker_count;
    match splits {
        None => {
            assert(reads_key(plan_of(splits, owner, owner, n), key, le));
        },
        Some(s) => {
            law_partitions_cover_keys_once(s, key, le);
            let p = choose|p: int|
                #![trigger range_at(s, p)]
                {
                    &&& 0 <= p <= s.boundaries.len()
                    &&& in_range(range_at(s, p)->0, key, le)
                    &&& forall|q: int|
                        #![trigger range_at(s, q)]
                        0 <= q <= s.boundaries.len() && q != p ==> !in_range(
                            range_at(s, q)->0,
                            key,
                            le,
                        )
                };
            let w = reader_of(p, owner, n);
            law_partition_assignment_is_one_to_one(p, owner, owner, n);
            law_partition_assignment_is_one_to_one(p, w, owner, n);
            assert(reads_key(plan_of(splits, w, owner, n), key, le));
            assert forall|v: int|
                #![trigger plan_of(splits, v, owner, n)]
                0 <= v < n && v != w implies !reads_key(plan_of(splits, v, owner, n), key, le) by {
                let q = partition_of(v, owner, n);
                law_partition_assignment_is_one_to_one(p, v, owner, n);
                if q <= s.boundaries.len() {
                    assert(!in_range(range_at(s, q)->0, key, le));
                }
            }
        },
    }
}

/// A table's owner always has something to read of it: the first range, which has no lower
/// bound, or the whole table.
pub proof fn law_owner_always_reads(splits: Option<SplitsView>, owner: int, worker_count: int)
    requires
        0 <= owner < worker_count,
    ensures
        match plan_of(splits, owner, owner, worker_count) {
            Some(PlanView::Range(range)) => splits is Some && range.lower is None,
            Some(PlanView::WholeTable) => splits is None,
            None => false,
        },
{
    lemma_small_mod(0, worker_count as nat);
}

/// The columns that a table can be split by: integers as numbers, characters as text, and nothing
/// else.
pub proof fn law_key_kinds(t: SqlScalarType)
    ensures
        kind_of(t) == Some(PkColKind::Numeric) <==> {
            ||| t is Int16
            ||| t is Int32
            ||| t is Int64
            ||| t is UInt16
            ||| t is UInt32
            ||| t is UInt64
        },
        kind_of(t) == Some(PkColKind::Text) <==> t is Char || t is VarChar || t is String,
{
}

/// A table is split by its primary key if that is a single column whose type can be split.
///
/// Position `p` holds the first primary key, and position `i` the first column of the name of its
/// first column, or there is no such column and `i` is the number of columns.
pub proof fn law_split_key(desc: MySqlTableDesc, p: int, i: int)
    requires
        0 <= p < desc.keys@.len(),
        desc.keys@[p].is_primary,
        forall|q: int| 0 <= q < p ==> !(#[trigger] desc.keys@[q]).is_primary,
        0 <= i <= desc.columns@.len(),
        forall|j: int|
            0 <= j < i ==> (#[trigger] desc.columns@[j]).name@ != desc.keys@[p].columns[0],
        i < desc.columns@.len() ==> desc.columns@[i].name@ == desc.keys@[p].columns[0],
    ensures
        splittable_pk(desc) is Some <==> {
            &&& desc.keys@[p].columns.len() == 1
            &&& i < desc.columns@.len()
            &&& desc.columns@[i].column_type matches Some(t) && kind_of(t.scalar_type) is Some
        },
        splittable_pk(desc) matches Some((col, kind)) ==> {
            &&& col == enclosed(desc.keys@[p].columns[0], '`')
            &&& desc.columns@[i].column_type matches Some(t) && kind_of(t.scalar_type) == Some(kind)
        },
{
    let keys = desc.keys@;
    let primary = |k: KeyView| k.is_primary;
    assert forall|q: int| 0 <= q < p implies !primary(#[trigger] keys.take(p)[q]) by {
        assert(keys.take(p)[q] == keys[q]);
    }
    keys.take(p).lemma_all_neg_filter_empty(primary);
    lemma_first_match(keys, primary, p);
    let name = keys[p].columns[0];
    let columns = desc.columns@;
    let named = is_named(name);
    assert forall|j: int| 0 <= j < i implies !named(#[trigger] columns.take(i)[j]) by {
        assert(columns.take(i)[j] == columns[j]);
    }
    columns.take(i).lemma_all_neg_filter_empty(named);
    if i < columns.len() {
        lemma_first_match(columns, named, i);
    } else {
        assert(columns.take(i) =~= columns);
    }
}

/// A table without a primary key is not split.
pub proof fn law_no_split_key(desc: MySqlTableDesc)
    requires
        forall|q: int| 0 <= q < desc.keys@.len() ==> !(#[trigger] desc.keys@[q]).is_primary,
    ensures
        splittable_pk(desc) is None,
{
    law_no_primary_key(desc.keys@);
}

/// The ranges of a split meet at its boundaries: the first has no lower bound and the last no
/// upper bound, each ends where the next begins, and there is one more of them than there are
/// boundaries. All are about the key column.
pub proof fn law_ranges_meet(splits: SplitsView, p: int)
    requires
        0 <= p,
    ensures
        range_at(splits, p) is Some <==> p <= splits.boundaries.len(),
        range_at(splits, p) matches Some(range) ==> {
            &&& range.pk_col == splits.pk_col
            &&& range.lower is None <==> p == 0
            &&& range.upper is None <==> p == splits.boundaries.len()
        },
        p < splits.boundaries.len() ==> {
            &&& range_at(splits, p)->0.upper == Some(splits.boundaries[p])
            &&& range_at(splits, p + 1)->0.lower == Some(splits.boundaries[p])
        },
{
}

/// Partitions are handed out round-robin from the owner: it takes partition 0, and each next
/// worker takes the next one.
pub proof fn law_partitions_follow_round_robin(worker: int, owner: int, worker_count: int)
    requires
        worker_count > 0,
    ensures
        partition_of(owner, owner, worker_count) == 0,
        partition_of(worker + 1, owner, worker_count) == (partition_of(worker, owner, worker_count)
            + 1) % worker_count,
        partition_of(worker + worker_count, owner, worker_count) == partition_of(
            worker,
            owner,
            worker_count,
        ),
{
    let n = worker_count;
    lemma_small_mod(0, n as nat);
    lemma_add_mod_noop(worker - owner, 1, n);
    lemma_mod_twice(worker - owner, n);
    lemma_add_mod_noop(partition_of(worker, owner, n), 1, n);
    lemma_mod_multiples_vanish(1, worker - owner, n);
    assert(n * 1 + (worker - owner) == worker + n - owner);
}

/// A table that is split is never read whole, and each worker's range is the one of its
/// partition. A table that is not split is read whole by its owner and by no one else.
pub proof fn law_plans_follow_splits(
    splits: Option<SplitsView>,
    worker: int,
    owner: int,
    worker_count: int,
)
    ensures
        match splits {
            Some(s) => match plan_of(splits, worker, owner, worker_count) {
                Some(PlanView::Range(range)) => range_at(
                    s,
                    partition_of(worker, owner, worker_count),
                ) == Some(range),
                Some(PlanView::WholeTable) => false,
                None => range_at(s, partition_of(worker, owner, worker_count)) is None,
            },
            None => match plan_of(splits, worker, owner, worker_count) {
                Some(PlanView::WholeTable) => worker == owner,
                Some(PlanView::Range(_)) => false,
                None => worker != owner,
            },
        },
{
}

/// What splits, ranges and plans stand for is made up of their parts.
pub proof fn law_split_views_keep_all_parts(splits: PkSplits, range: PkRange)
    ensures
        splits@.pk_col == splits.pk_col@,
        splits@.boundaries.len() == splits.boundaries@.len(),
        forall|i: int|
            0 <= i < splits.boundaries@.len() ==> #[trigger] splits@.boundaries[i]
                == splits.boundaries@[i]@,
        range@.pk_col == range.pk_col@,
        match range.lower {
            Some(lower) => range@.lower == Some(lower@),
            None => range@.lower is None,
        },
        match range.upper {
            Some(upper) => range@.upper == Some(upper@),
            None => range@.upper is None,
        },
        ReadPlan::Range(range)@ == PlanView::Range(range@),
        ReadPlan::WholeTable@ == PlanView::WholeTable,
        plan_view(Some(ReadPlan::Range(range))) == Some(PlanView::Range(range@)),
        plan_view(Some(ReadPlan::WholeTable)) == Some(PlanView::WholeTable),
        plan_view(None) is None,
        splits_of(Some(&splits)) == Some(splits@),
        splits_of(None) is None,
{
}

} // verus!
