//! Finding the boundaries that split a table into roughly even ranges.
//!
//! The boundaries are sampled by keyset pagination: each probe reads the first key one chunk past
//! the previous boundary, so together the probes make a single forward pass of the primary key
//! index. [`SplitSampler`] decides what to probe next and when to stop. Its user runs the probes.

use vstd::prelude::*;
use vstd::string::*;

use crate::mysql::desc::{table_text, MySqlTableName};
use crate::mysql::error::{classify_query_error, query_failure, QueryError, SnapshotSetupError};
use crate::mysql::splits::{non_decreasing, total_preorder, PkColKind, PkSplits, SplitsView};
use crate::text::{decimal, decimal_text, texts};

verus! {

/// The parameterized query for the approximate number of rows of a table, by schema and name.
/// The number only sets the sampling stride: where it is wrong, partitions are less even.
pub fn row_estimate_query() -> (r: &'static str)
    ensures
        r@ == "SELECT table_rows FROM information_schema.tables WHERE table_schema = ? AND table_name = ?"@,
{
    "SELECT table_rows FROM information_schema.tables WHERE table_schema = ? AND table_name = ?"
}

/// The statement that a connection runs before its first probe. The transaction keeps the tables
/// that it probes from being altered until it ends.
pub fn probe_transaction_statement() -> (r: &'static str)
    ensures
        r@ == "START TRANSACTION READ ONLY"@,
{
    "START TRANSACTION READ ONLY"
}

/// What came back of a probe.
#[derive(Debug)]
pub enum ProbeReply {
    /// The next boundary, rendered by the server as an SQL literal.
    Literal(String),
    /// A row whose key is not valid text.
    Undecodable,
    /// No row: the probe ran off the end of the table.
    NoRow,
}

/// What a [`ProbeReply`] stands for.
pub enum ReplyView {
    Literal(Seq<char>),
    Undecodable,
    NoRow,
}

impl View for ProbeReply {
    type V = ReplyView;

    open spec fn view(&self) -> ReplyView {
        match self {
            ProbeReply::Literal(literal) => ReplyView::Literal(literal@),
            ProbeReply::Undecodable => ReplyView::Undecodable,
            ProbeReply::NoRow => ReplyView::NoRow,
        }
    }
}

/// The boundaries found so far, and what is needed to find the next.
#[derive(Debug)]
pub struct SplitSampler {
    table: MySqlTableName,
    pk_col: String,
    kind: PkColKind,
    partitions: u64,
    chunk: u64,
    boundaries: Vec<String>,
}

/// What a [`SplitSampler`] stands for.
#[verifier::ext_equal]
pub struct SamplerView {
    pub table: (Seq<char>, Seq<char>),
    pub pk_col: Seq<char>,
    pub kind: PkColKind,
    /// The number of partitions aimed at.
    pub partitions: nat,
    /// The number of rows per partition.
    pub chunk: nat,
    pub boundaries: Seq<Seq<char>>,
}

impl View for SplitSampler {
    type V = SamplerView;

    closed spec fn view(&self) -> SamplerView {
        SamplerView {
            table: self.table@,
            pk_col: self.pk_col@,
            kind: self.kind,
            partitions: self.partitions as nat,
            chunk: self.chunk as nat,
            boundaries: texts(self.boundaries@),
        }
    }
}

impl SamplerView {
    /// There is at least one more boundary to find.
    pub open spec fn well_formed(self) -> bool {
        &&& self.boundaries.len() + 1 < self.partitions
        &&& self.chunk >= 1
    }
}

/// How a key value is read as an SQL literal.
pub open spec fn literal_text(pk_col: Seq<char>, kind: PkColKind) -> Seq<char> {
    match kind {
        PkColKind::Numeric => "CAST("@ + pk_col + " AS CHAR)"@,
        PkColKind::Text => "QUOTE("@ + pk_col + ")"@,
    }
}

/// The query for the next boundary: the first key a chunk past the previous boundary. The first
/// probe has no lower bound and skips a full chunk. Later probes start just after the previous
/// boundary, so they skip one row less.
pub open spec fn probe_text(v: SamplerView) -> Seq<char> {
    let start = "SELECT "@ + literal_text(v.pk_col, v.kind) + " FROM "@ + table_text(v.table);
    let bounded = if v.boundaries.len() > 0 {
        start + " WHERE "@ + v.pk_col + " > "@ + v.boundaries.last()
    } else {
        start
    };
    let offset = if v.boundaries.len() > 0 {
        (v.chunk - 1) as nat
    } else {
        v.chunk
    };
    bounded + " ORDER BY "@ + v.pk_col + " LIMIT 1 OFFSET "@ + decimal(offset)
}

/// The row count that the estimate gives. A table that was never analyzed has none.
pub open spec fn estimated_rows(estimate: Option<Option<u64>>) -> nat {
    match estimate {
        Some(Some(rows)) => rows as nat,
        _ => 0,
    }
}

/// A table of about `rows` rows is worth splitting: there is more than one worker, and there is
/// at least a row for each of them.
pub open spec fn worth_splitting(worker_count: nat, rows: nat) -> bool {
    2 <= worker_count <= rows
}

/// The splits that a sampler stops with: none if it found no boundary.
pub open spec fn splits_found(v: SamplerView) -> Option<SplitsView> {
    if v.boundaries.len() > 0 {
        Some(SplitsView { pk_col: v.pk_col, boundaries: v.boundaries })
    } else {
        None
    }
}

/// What a sampler does once a probe has been answered.
#[derive(Debug)]
pub enum SampleStep {
    /// Probe again.
    Probe(SplitSampler),
    /// Done, with the splits if the table can be split.
    Finished(Option<PkSplits>),
}

/// What a [`SampleStep`] stands for.
#[verifier::ext_equal]
pub enum StepView {
    Probe(SamplerView),
    Finished(Option<SplitsView>),
}

impl View for SampleStep {
    type V = StepView;

    open spec fn view(&self) -> StepView {
        match self {
            SampleStep::Probe(sampler) => StepView::Probe(sampler@),
            SampleStep::Finished(Some(splits)) => StepView::Finished(Some(splits@)),
            SampleStep::Finished(None) => StepView::Finished(None),
        }
    }
}

/// How a reply moves a sampler on. A literal is the next boundary. Past the end of the table the
/// boundaries found so far are used: fewer partitions are still correct. A key that cannot be
/// decoded means that the table cannot be partitioned safely.
pub open spec fn advanced(v: SamplerView, reply: ReplyView) -> StepView {
    match reply {
        ReplyView::Literal(literal) => {
            let next = SamplerView { boundaries: v.boundaries.push(literal), ..v };
            if next.boundaries.len() + 1 < v.partitions {
                StepView::Probe(next)
            } else {
                StepView::Finished(splits_found(next))
            }
        },
        ReplyView::Undecodable => StepView::Finished(None),
        ReplyView::NoRow => StepView::Finished(splits_found(v)),
    }
}

impl SplitSampler {
    #[verifier::type_invariant]
    spec fn unfinished(self) -> bool {
        self@.well_formed()
    }

    /// Starts sampling the key column `pk_col` of `table` for `worker_count` workers, or gives
    /// `None` if there is nothing to split: fewer than two workers, or an estimate below the
    /// number of workers (including a stale 0 for a table that was never analyzed).
    pub fn new(
        table: MySqlTableName,
        pk_col: (String, PkColKind),
        worker_count: usize,
        estimate: Option<Option<u64>>,
    ) -> (r: Option<SplitSampler>)
        ensures
            r is Some <==> worth_splitting(worker_count as nat, estimated_rows(estimate)),
            r is Some <==> worker_count >= 2 && (estimate matches Some(Some(rows)) && worker_count
                <= rows),
            r matches Some(sampler) ==> (estimate matches Some(Some(rows)) && sampler@.chunk
                * worker_count <= rows < (sampler@.chunk + 1) * worker_count),
            r matches Some(sampler) ==> sampler@.well_formed() && sampler@ == (SamplerView {
                table: table@,
                pk_col: pk_col.0@,
                kind: pk_col.1,
                partitions: worker_count as nat,
                chunk: estimated_rows(estimate) / worker_count as nat,
                boundaries: Seq::empty(),
            }),
    {
        let total: u64 = match estimate {
            Some(Some(rows)) => rows,
            _ => 0,
        };
        let partitions: u64 = worker_count as u64;
        if partitions < 2 || total < partitions {
            return None;
        }
        let chunk: u64 = total / partitions;
        let boundaries: Vec<String> = Vec::new();
        proof {
            assert(chunk >= 1) by (nonlinear_arith)
                requires
                    chunk == total / partitions,
                    2 <= partitions <= total,
            ;
            assert(chunk * worker_count <= total < (chunk + 1) * worker_count) by (nonlinear_arith)
                requires
                    chunk == total / partitions,
                    partitions == worker_count,
                    partitions > 0,
            ;
            assert(texts(boundaries@) =~= Seq::<Seq<char>>::empty());
        }
        Some(
            SplitSampler { table, pk_col: pk_col.0, kind: pk_col.1, partitions, chunk, boundaries },
        )
    }

    /// The query for the next boundary.
    pub fn probe(&self) -> (r: String)
        ensures
            r@ == probe_text(self@),
    {
        proof {
            use_type_invariant(self);
        }
        let mut r = "SELECT ".to_string();
        match self.kind {
            PkColKind::Numeric => {
                let mut literal = "CAST(".to_string();
                literal.append(self.pk_col.as_str());
                literal.append(" AS CHAR)");
                r.append(literal.as_str());
            },
            PkColKind::Text => {
                let mut literal = "QUOTE(".to_string();
                literal.append(self.pk_col.as_str());
                literal.append(")");
                r.append(literal.as_str());
            },
        }
        r.append(" FROM ");
        r.append(self.table.to_string().as_str());
        let count = self.boundaries.len();
        let offset: u64 = if count > 0 {
            r.append(" WHERE ");
            r.append(self.pk_col.as_str());
            r.append(" > ");
            r.append(self.boundaries[count - 1].as_str());
            self.chunk - 1
        } else {
            self.chunk
        };
        r.append(" ORDER BY ");
        r.append(self.pk_col.as_str());
        r.append(" LIMIT 1 OFFSET ");
        r.append(decimal_text(offset as u128).as_str());
        r
    }

    /// Takes in the reply to the last probe.
    pub fn advance(self, reply: ProbeReply) -> (r: SampleStep)
        ensures
            r@ == advanced(self@, reply@),
            r matches SampleStep::Probe(next) ==> next@.well_formed(),
    {
        proof {
            use_type_invariant(&self);
        }
        let SplitSampler { table, pk_col, kind, partitions, chunk, boundaries } = self;
        let mut boundaries = boundaries;
        match reply {
            ProbeReply::Literal(literal) => {
                let ghost found = texts(boundaries@);
                boundaries.push(literal);
                assert(texts(boundaries@) =~= found.push(literal@));
                if ((boundaries.len() - 1) as u64) < partitions - 2 {
                    SampleStep::Probe(
                        SplitSampler { table, pk_col, kind, partitions, chunk, boundaries },
                    )
                } else {
                    SampleStep::Finished(Some(PkSplits { pk_col, boundaries }))
                }
            },
            ProbeReply::Undecodable => SampleStep::Finished(None),
            ProbeReply::NoRow => {
                if boundaries.len() == 0 {
                    SampleStep::Finished(None)
                } else {
                    SampleStep::Finished(Some(PkSplits { pk_col, boundaries }))
                }
            },
        }
    }
}

/// What becomes of a failure to estimate the number of rows, or to get a connection ready for
/// probes: it is worth a restart.
pub fn estimate_failed<E>(e: QueryError<E>) -> (r: SnapshotSetupError<E>)
    ensures
        r == SnapshotSetupError::<E>::Transient(e.cause()),
{
    SnapshotSetupError::from(e)
}

/// What becomes of a failed probe: it ends the sampling, for good if the table is gone.
pub fn probe_failed<E>(sampler: SplitSampler, e: QueryError<E>) -> (r: SnapshotSetupError<E>)
    ensures
        r == query_failure(e),
{
    classify_query_error(e)
}

/// The outcome of answering the probes of a sampler with `replies` in turn, or `None` if it is
/// still probing after them.
pub open spec fn sampled(v: SamplerView, replies: Seq<ReplyView>) -> Option<Option<SplitsView>>
    decreases replies.len(),
{
    if replies.len() == 0 {
        None
    } else {
        match advanced(v, replies[0]) {
            StepView::Finished(splits) => Some(splits),
            StepView::Probe(next) => sampled(next, replies.skip(1)),
        }
    }
}

/// Every literal among the replies is a key that the probe it answers asks for: greater than the
/// boundary before it.
pub open spec fn replies_ascend(
    v: SamplerView,
    replies: Seq<ReplyView>,
    le: spec_fn(Seq<char>, Seq<char>) -> bool,
) -> bool
    decreases replies.len(),
{
    if replies.len() == 0 {
        true
    } else {
        &&& replies[0] matches ReplyView::Literal(literal) ==> v.boundaries.len() > 0 ==> !le(
            literal,
            v.boundaries.last(),
        )
        &&& advanced(v, replies[0]) matches StepView::Probe(next) ==> replies_ascend(
            next,
            replies.skip(1),
            le,
        )
    }
}

/// Every boundary is greater than all earlier ones.
pub open spec fn increasing<K>(b: Seq<K>, le: spec_fn(K, K) -> bool) -> bool {
    forall|i: int, j: int| 0 <= i < j < b.len() ==> !le(#[trigger] b[j], #[trigger] b[i])
}

/// Because each boundary is found with a strict comparison, the boundaries strictly increase.
/// What a sampler finds therefore partitions the key domain. There is at least one boundary, and
/// there are never more partitions than were aimed at.
pub proof fn law_sampled_boundaries_increase(
    v: SamplerView,
    replies: Seq<ReplyView>,
    le: spec_fn(Seq<char>, Seq<char>) -> bool,
)
    requires
        v.well_formed(),
        total_preorder(le),
        increasing(v.boundaries, le),
        replies_ascend(v, replies, le),
    ensures
        sampled(v, replies) matches Some(Some(splits)) ==> {
            &&& splits.pk_col == v.pk_col
            &&& increasing(splits.boundaries, le)
            &&& non_decreasing(splits.boundaries, le)
            &&& 0 < splits.boundaries.len() < v.partitions
        },
    decreases replies.len(),
{
    lemma_increasing_is_non_decreasing(v.boundaries, le);
    if replies.len() > 0 {
        if let ReplyView::Literal(literal) = replies[0] {
            let next = SamplerView { boundaries: v.boundaries.push(literal), ..v };
            assert forall|i: int, j: int| 0 <= i < j < next.boundaries.len() implies !le(
                #[trigger] next.boundaries[j],
                #[trigger] next.boundaries[i],
            ) by {
                if j == v.boundaries.len() && le(literal, v.boundaries[i]) {
                    assert(le(v.boundaries[i], v.boundaries.last()));
                }
            }
            lemma_increasing_is_non_decreasing(next.boundaries, le);
            if next.boundaries.len() + 1 < v.partitions {
                law_sampled_boundaries_increase(next, replies.skip(1), le);
            }
        }
    }
}

proof fn lemma_increasing_is_non_decreasing(
    b: Seq<Seq<char>>,
    le: spec_fn(Seq<char>, Seq<char>) -> bool,
)
    requires
        total_preorder(le),
        increasing(b, le),
    ensures
        non_decreasing(b, le),
{
    assert forall|i: int, j: int| 0 <= i <= j < b.len() implies le(
        #[trigger] b[i],
        #[trigger] b[j],
    ) by {
        assert(le(b[i], b[j]) || le(b[j], b[i]));
    }
}

/// A sampler never needs more replies than there are boundaries to find.
pub proof fn law_sampling_stops(v: SamplerView, replies: Seq<ReplyView>)
    requires
        v.well_formed(),
        replies.len() >= v.partitions - 1 - v.boundaries.len(),
    ensures
        sampled(v, replies) is Some,
    decreases replies.len(),
{
    if let StepView::Probe(next) = advanced(v, replies[0]) {
        law_sampling_stops(next, replies.skip(1));
    }
}

/// Replies that are the given literals.
pub open spec fn literals(found: Seq<Seq<char>>) -> Seq<ReplyView> {
    found.map_values(|literal: Seq<char>| ReplyView::Literal(literal))
}

/// Sampling keeps every literal that it is given, in order, until there is one boundary for each
/// partition but the first. If the table ends before, it stops with what it has, which is no split
/// at all if that is nothing. A key that cannot be decoded ends it without a split. Until then it
/// goes on probing.
pub proof fn law_sampling_keeps_all_literals(v: SamplerView, found: Seq<Seq<char>>)
    requires
        v.well_formed(),
        v.boundaries.len() + found.len() < v.partitions,
    ensures
        v.boundaries.len() + found.len() + 1 == v.partitions ==> sampled(v, literals(found))
            == Some(
            Some(SplitsView { pk_col: v.pk_col, boundaries: v.boundaries + found }),
        ),
        v.boundaries.len() + found.len() + 1 < v.partitions ==> {
            &&& sampled(v, literals(found)) is None
            &&& sampled(v, literals(found).push(ReplyView::NoRow)) == Some(
                if v.boundaries.len() + found.len() == 0 {
                    None
                } else {
                    Some(SplitsView { pk_col: v.pk_col, boundaries: v.boundaries + found })
                },
            )
            &&& sampled(v, literals(found).push(ReplyView::Undecodable)) == Some(
                None::<SplitsView>,
            )
        },
    decreases found.len(),
{
    let all = literals(found);
    if found.len() == 0 {
        assert(v.boundaries + found =~= v.boundaries);
        assert(all =~= Seq::<ReplyView>::empty());
    } else {
        let next = SamplerView { boundaries: v.boundaries.push(found[0]), ..v };
        let rest = found.skip(1);
        assert(all[0] == ReplyView::Literal(found[0]));
        assert(all.skip(1) =~= literals(rest));
        assert(next.boundaries + rest =~= v.boundaries + found);
        assert(all.push(ReplyView::NoRow).skip(1) =~= literals(rest).push(ReplyView::NoRow));
        assert(all.push(ReplyView::Undecodable).skip(1) =~= literals(rest).push(
            ReplyView::Undecodable,
        ));
        if next.boundaries.len() + 1 < v.partitions {
            law_sampling_keeps_all_literals(next, rest);
        } else {
            assert(found =~= seq![found[0]]);
            assert(v.boundaries + found =~= next.boundaries);
        }
    }
}

/// What a reply stands for is made up of its parts.
pub proof fn law_replies_keep_their_literal(literal: String)
    ensures
        ProbeReply::Literal(literal)@ == ReplyView::Literal(literal@),
        ProbeReply::Undecodable@ == ReplyView::Undecodable,
        ProbeReply::NoRow@ == ReplyView::NoRow,
{
}

/// A sampler that goes on probing has one boundary more, the literal that it was given, and is the
/// same otherwise.
pub proof fn law_sampler_stays_on_its_table(v: SamplerView, reply: ReplyView)
    ensures
        advanced(v, reply) matches StepView::Probe(next) ==> {
            &&& next.table == v.table
            &&& next.pk_col == v.pk_col
            &&& next.kind == v.kind
            &&& next.partitions == v.partitions
            &&& next.chunk == v.chunk
            &&& reply matches ReplyView::Literal(literal) && next.boundaries.len()
                == v.boundaries.len() + 1 && next.boundaries.drop_last() == v.boundaries
                && next.boundaries.last() == literal
        },
{
}

} // verus!
