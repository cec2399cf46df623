use upstream_ingest::mysql::desc::MySqlTableName;
use upstream_ingest::mysql::error::{DefiniteError, QueryError, SnapshotSetupError};
use upstream_ingest::mysql::sampling::{
    estimate_failed, probe_failed, probe_transaction_statement, row_estimate_query, ProbeReply, SampleStep, SplitSampler,
};
use upstream_ingest::mysql::splits::{PkColKind, PkSplits};

fn sampler(kind: PkColKind, workers: usize, estimate: Option<Option<u64>>) -> Option<SplitSampler> {
    SplitSampler::new(
        MySqlTableName("s".to_string(), "t".to_string()),
        ("`id`".to_string(), kind),
        workers,
        estimate,
    )
}

fn literal(s: &str) -> ProbeReply {
    ProbeReply::Literal(s.to_string())
}

fn next(step: SampleStep) -> SplitSampler {
    match step {
        SampleStep::Probe(sampler) => sampler,
        SampleStep::Finished(_) => panic!("finished"),
    }
}

fn last(step: SampleStep) -> Option<PkSplits> {
    match step {
        SampleStep::Probe(_) => panic!("not finished"),
        SampleStep::Finished(splits) => splits,
    }
}

#[test]
fn fixed_statements() {
    assert_eq!(
        row_estimate_query(),
        "SELECT table_rows FROM information_schema.tables \
         WHERE table_schema = ? AND table_name = ?"
    );
    assert_eq!(probe_transaction_statement(), "START TRANSACTION READ ONLY");
}

#[test]
fn small_tables_are_not_sampled() {
    for estimate in [None, Some(None), Some(Some(0)), Some(Some(1)), Some(Some(2))] {
        assert!(sampler(PkColKind::Numeric, 3, estimate).is_none());
    }
    assert!(sampler(PkColKind::Numeric, 3, Some(Some(3))).is_some());
    assert!(sampler(PkColKind::Numeric, 2, Some(Some(2))).is_some());
}

#[test]
fn fewer_than_two_workers_sample_nothing() {
    assert!(sampler(PkColKind::Numeric, 0, Some(Some(100))).is_none());
    assert!(sampler(PkColKind::Numeric, 1, Some(Some(100))).is_none());
}

#[test]
fn probes_go_through_the_key_in_chunks() {
    let first = sampler(PkColKind::Numeric, 3, Some(Some(100))).unwrap();
    assert_eq!(
        first.probe(),
        "SELECT CAST(`id` AS CHAR) FROM `s`.`t` ORDER BY `id` LIMIT 1 OFFSET 33"
    );
    let second = next(first.advance(literal("34")));
    assert_eq!(
        second.probe(),
        "SELECT CAST(`id` AS CHAR) FROM `s`.`t` WHERE `id` > 34 ORDER BY `id` LIMIT 1 OFFSET 32"
    );
    let splits = last(second.advance(literal("67"))).unwrap();
    assert_eq!(splits.pk_col, "`id`");
    assert_eq!(splits.boundaries, vec!["34".to_string(), "67".to_string()]);
}

#[test]
fn text_keys_are_quoted_by_the_server() {
    let first = sampler(PkColKind::Text, 3, Some(Some(3))).unwrap();
    assert_eq!(
        first.probe(),
        "SELECT QUOTE(`id`) FROM `s`.`t` ORDER BY `id` LIMIT 1 OFFSET 1"
    );
    let second = next(first.advance(literal("'it\\'s'")));
    assert_eq!(
        second.probe(),
        "SELECT QUOTE(`id`) FROM `s`.`t` WHERE `id` > 'it\\'s' ORDER BY `id` LIMIT 1 OFFSET 0"
    );
}

#[test]
fn running_off_the_end_keeps_what_was_found() {
    let first = sampler(PkColKind::Numeric, 4, Some(Some(400))).unwrap();
    let second = next(first.advance(literal("7")));
    let splits = last(second.advance(ProbeReply::NoRow)).unwrap();
    assert_eq!(splits.boundaries, vec!["7".to_string()]);
}

#[test]
fn an_empty_table_has_no_splits() {
    let first = sampler(PkColKind::Numeric, 4, Some(Some(400))).unwrap();
    assert!(last(first.advance(ProbeReply::NoRow)).is_none());
}

#[test]
fn an_undecodable_key_rules_out_splits() {
    let first = sampler(PkColKind::Text, 4, Some(Some(400))).unwrap();
    let second = next(first.advance(literal("'a'")));
    assert!(last(second.advance(ProbeReply::Undecodable)).is_none());
}

#[test]
fn sampling_stops_after_one_boundary_per_further_worker() {
    for workers in 2..8 {
        let mut probes = 0;
        let mut current = sampler(PkColKind::Numeric, workers, Some(Some(1000)));
        while let Some(sampler) = current {
            probes += 1;
            current = match sampler.advance(literal(&(probes * 10).to_string())) {
                SampleStep::Probe(sampler) => Some(sampler),
                SampleStep::Finished(splits) => {
                    let boundaries: Vec<u64> =
                        splits.unwrap().boundaries.iter().map(|b| b.parse().unwrap()).collect();
                    assert_eq!(boundaries.len(), workers - 1);
                    assert!(boundaries.windows(2).all(|w| w[0] < w[1]));
                    None
                }
            };
        }
        assert_eq!(probes, workers - 1);
    }
}

fn gone() -> QueryError<&'static str> {
    QueryError::Server { code: 1146, message: "no t".to_string(), source: "server" }
}

#[test]
fn a_failed_estimate_is_transient() {
    assert!(matches!(estimate_failed(gone()), SnapshotSetupError::Transient("server")));
    assert!(matches!(
        estimate_failed(QueryError::Other("io")),
        SnapshotSetupError::Transient("io")
    ));
}

#[test]
fn a_failed_probe_of_a_missing_table_is_definite() {
    let first = || sampler(PkColKind::Numeric, 2, Some(Some(10))).unwrap();
    assert!(matches!(
        probe_failed(first(), gone()),
        SnapshotSetupError::Definite(DefiniteError::TableDropped(m)) if m == "no t"
    ));
    assert!(matches!(
        probe_failed(first(), QueryError::Other("io")),
        SnapshotSetupError::Transient("io")
    ));
}
