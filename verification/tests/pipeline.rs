//! The pipeline end to end: candidate filtering, worker decisions, running a
//! segment, and the resumability and idempotence this buys.

use backfill::ItemError;
use backfill::engine::run_segment;
use backfill::journal::{JournalEntry, ResolvedSet, parse_journal};
use backfill::selector::{Candidate, filter_candidates};
use backfill::worker::{
    Decision, SkipReason, description_field, escape_newlines, flag_field, list_field,
    lookup_rel_path, lower_all, opt_field, size_field, text_literal, trim_field, worker_step,
};

fn bv(s: &str) -> Vec<u8> {
    s.as_bytes().to_vec()
}

fn cand(id: u64, name: &str, version: &str) -> Candidate {
    Candidate { record_id: id, name: bv(name), version: bv(version), recorded: None }
}

#[test]
fn lookup_paths_follow_name_length() {
    assert_eq!(lookup_rel_path(&bv("a"), &bv("0.1.0")), bv("1/a/a-0.1.0.crate"));
    assert_eq!(lookup_rel_path(&bv("ab"), &bv("2.0")), bv("2/ab/ab-2.0.crate"));
    assert_eq!(lookup_rel_path(&bv("abc"), &bv("0.3")), bv("3/a/abc/abc-0.3.crate"));
    assert_eq!(
        lookup_rel_path(&bv("serde"), &bv("1.0.0")),
        bv("se/rd/serde/serde-1.0.0.crate")
    );
}

#[test]
fn lookup_paths_lower_only_the_directories() {
    assert_eq!(
        lookup_rel_path(&bv("Serde"), &bv("1.0.0")),
        bv("se/rd/serde/Serde-1.0.0.crate")
    );
    assert_eq!(lower_all(&bv("AbC-9z")), bv("abc-9z"));
}

#[test]
fn value_fields_render_like_the_store_expects() {
    assert_eq!(text_literal(&bv("it's")), bv("'it''s'"));
    assert_eq!(text_literal(&bv("")), bv("''"));
    assert_eq!(opt_field(Some(bv("doc"))), bv("'doc'"));
    assert_eq!(opt_field(None), bv("NULL"));
    assert_eq!(flag_field(true), bv("t"));
    assert_eq!(flag_field(false), bv("f"));
    assert_eq!(list_field(&vec![bv("a"), bv("b")]), bv("{a,b}"));
    assert_eq!(list_field(&Vec::new()), bv("{}"));
}

#[test]
fn descriptions_become_single_line_literals() {
    assert_eq!(trim_field(&bv("  a b\t\n")), bv("a b"));
    assert_eq!(trim_field(&bv("")), bv(""));
    assert_eq!(trim_field(&bv("   ")), bv(""));
    assert_eq!(escape_newlines(&bv("a\nb")), bv("a\\nb"));
    assert_eq!(description_field(&bv(" it's\nfine ")), bv("'it''s\\nfine'"));
    assert_eq!(description_field(&bv("plain")), bv("'plain'"));
}

#[test]
fn sizes_must_fit_the_store_column() {
    assert_eq!(size_field(100), Ok(bv("100")));
    assert_eq!(size_field(i32::MAX as u64), Ok(bv("2147483647")));
    assert_eq!(size_field(i32::MAX as u64 + 1), Err(ItemError::TooLarge));
}

#[test]
fn filter_drops_only_resolved_candidates() {
    let mut resolved = ResolvedSet::new();
    resolved.insert(2);
    let cands = vec![cand(1, "a", "1.0"), cand(2, "b", "2.0"), cand(3, "c", "3.0")];
    let planned = filter_candidates(cands, &resolved);
    let ids: Vec<u64> = planned.iter().map(|c| c.record_id).collect();
    assert_eq!(ids, vec![1, 3]);
}

#[test]
fn worker_skips_every_failure() {
    let c = cand(5, "x", "1.0");
    for err in [ItemError::NotFound, ItemError::TooLarge, ItemError::ParseFailure] {
        match worker_step(&c, Err(err)) {
            Decision::Skip(reason) => assert_eq!(reason, SkipReason::Failed(err)),
            Decision::Journal(_) => panic!("a failed inspection must not be journaled"),
        }
    }
}

#[test]
fn worker_skips_an_unchanged_value() {
    let c = Candidate {
        record_id: 5,
        name: bv("x"),
        version: bv("1.0"),
        recorded: Some(vec![bv("t"), bv("{a}")]),
    };
    match worker_step(&c, Ok(vec![bv("t"), bv("{a}")])) {
        Decision::Skip(reason) => assert_eq!(reason, SkipReason::NoChange),
        Decision::Journal(_) => panic!("an unchanged value must not be journaled"),
    }
    match worker_step(&c, Ok(vec![bv("f"), bv("{a}")])) {
        Decision::Journal(e) => {
            assert_eq!(e.record_id, 5);
            assert_eq!(e.fields, vec![bv("f"), bv("{a}")]);
        },
        Decision::Skip(_) => panic!("a changed value must be journaled"),
    }
}

#[test]
fn worker_journals_when_nothing_is_recorded() {
    let c = cand(9, "y", "2.0");
    match worker_step(&c, Ok(vec![bv("123")])) {
        Decision::Journal(e) => {
            assert_eq!(e.record_id, 9);
            assert_eq!(e.fields, vec![bv("123")]);
        },
        Decision::Skip(_) => panic!("a fresh value must be journaled"),
    }
}

fn journal_ids(journal: &Vec<u8>, vcols: usize) -> Vec<u64> {
    let mut ids: Vec<u64> = parse_journal(journal, vcols)
        .unwrap()
        .iter()
        .map(|e: &JournalEntry| e.record_id)
        .collect();
    ids.sort();
    ids.dedup();
    ids
}

#[test]
fn three_records_one_missing_artifact() {
    // store has three unresolved records; artifacts exist for 1 and 3 only
    let cands = vec![cand(1, "a", "1.0"), cand(2, "b", "2.0"), cand(3, "c", "3.0")];
    let mut journal: Vec<u8> = Vec::new();
    let resolved = ResolvedSet::from_entries(&parse_journal(&journal, 1).unwrap());
    let planned = filter_candidates(cands, &resolved);
    assert_eq!(planned.len(), 3);
    let outcomes = vec![Ok(vec![bv("100")]), Err(ItemError::NotFound), Ok(vec![bv("300")])];
    let skipped = run_segment(&mut journal, planned, outcomes);
    // after one run: the journal holds entries for 1 and 3 only
    assert_eq!(journal_ids(&journal, 1), vec![1, 3]);
    assert_eq!(skipped, vec![(2, SkipReason::Failed(ItemError::NotFound))]);
    // candidate selection on a second run returns only record 2
    let cands = vec![cand(1, "a", "1.0"), cand(2, "b", "2.0"), cand(3, "c", "3.0")];
    let resolved = ResolvedSet::from_entries(&parse_journal(&journal, 1).unwrap());
    let planned = filter_candidates(cands, &resolved);
    let ids: Vec<u64> = planned.iter().map(|c| c.record_id).collect();
    assert_eq!(ids, vec![2]);
}

#[test]
fn a_second_run_changes_nothing() {
    let cands = || vec![cand(1, "a", "1.0"), cand(2, "b", "2.0"), cand(3, "c", "3.0")];
    // the artifact set stays fixed: 2 keeps failing, 1 and 3 keep succeeding
    let outcome_of = |c: &Candidate| match c.record_id {
        1 => Ok(vec![bv("100")]),
        3 => Ok(vec![bv("300")]),
        _ => Err(ItemError::NotFound),
    };
    let mut journal: Vec<u8> = Vec::new();
    for _run in 0..2 {
        let resolved = ResolvedSet::from_entries(&parse_journal(&journal, 1).unwrap());
        let planned = filter_candidates(cands(), &resolved);
        let outcomes: Vec<Result<Vec<Vec<u8>>, ItemError>> =
            planned.iter().map(|c| outcome_of(c)).collect();
        run_segment(&mut journal, planned, outcomes);
    }
    let after_first = bv("1,100\n3,300\n");
    // the second run appended nothing: same journal, same resolved set
    assert_eq!(journal, after_first);
    assert_eq!(journal_ids(&journal, 1), vec![1, 3]);
}

#[test]
fn an_interrupted_run_resumes_where_it_stopped() {
    // first run is interrupted after one of two successful candidates
    let mut journal = bv("1,100\n");
    let cands = vec![cand(1, "a", "1.0"), cand(2, "b", "2.0"), cand(3, "c", "3.0")];
    let resolved = ResolvedSet::from_entries(&parse_journal(&journal, 1).unwrap());
    let planned = filter_candidates(cands, &resolved);
    // exactly the unresolved records are selected; record 1 is never re-inspected
    let ids: Vec<u64> = planned.iter().map(|c| c.record_id).collect();
    assert_eq!(ids, vec![2, 3]);
    let outcomes = vec![Err(ItemError::ParseFailure), Ok(vec![bv("300")])];
    run_segment(&mut journal, planned, outcomes);
    assert_eq!(journal, bv("1,100\n3,300\n"));
}
