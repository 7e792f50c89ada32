//! The batch compiler: deterministic deduplication, no-op discarding, the
//! batch size bound, partition completeness on concrete journals, and the
//! rendered update statements.

use backfill::FormatError;
use backfill::compile::{
    chunk_entries, compile_batches, compile_statements, dedup_entries, discard_noop_entries,
    is_noop_entry, render_statement,
};
use backfill::journal::JournalEntry;
use itertools::Itertools;

fn bv(s: &str) -> Vec<u8> {
    s.as_bytes().to_vec()
}

fn entry(id: u64, fields: &[&str]) -> JournalEntry {
    JournalEntry { record_id: id, fields: fields.iter().map(|f| bv(f)).collect() }
}

#[test]
fn dedup_keeps_the_first_record_per_id() {
    let entries = vec![entry(1, &["a"]), entry(2, &["b"]), entry(1, &["c"]), entry(2, &["d"])];
    let deduped = dedup_entries(entries);
    let got: Vec<(u64, Vec<u8>)> =
        deduped.iter().map(|e| (e.record_id, e.fields[0].clone())).collect();
    assert_eq!(got, vec![(1, bv("a")), (2, bv("b"))]);
}

#[test]
fn dedup_is_deterministic() {
    let make = || vec![entry(7, &["x"]), entry(7, &["y"]), entry(8, &["z"])];
    let a = dedup_entries(make());
    let b = dedup_entries(make());
    let ids_a: Vec<u64> = a.iter().map(|e| e.record_id).collect();
    let ids_b: Vec<u64> = b.iter().map(|e| e.record_id).collect();
    assert_eq!(ids_a, ids_b);
    assert_eq!(a[0].fields, b[0].fields);
}

#[test]
fn noops_are_discarded() {
    assert!(is_noop_entry(&entry(1, &["NULL"])));
    assert!(is_noop_entry(&entry(1, &["NULL", "NULL"])));
    assert!(!is_noop_entry(&entry(1, &["NULL", "x"])));
    let entries = vec![entry(1, &["NULL"]), entry(2, &["'2018'"]), entry(3, &["NULL"])];
    let kept = discard_noop_entries(entries);
    let ids: Vec<u64> = kept.iter().map(|e| e.record_id).collect();
    assert_eq!(ids, vec![2]);
}

#[test]
fn batches_respect_the_size_bound() {
    let entries: Vec<JournalEntry> = (1..=5).map(|id| entry(id, &["v"])).collect();
    let batches = chunk_entries(entries, 2);
    let sizes: Vec<usize> = batches.iter().map(|b| b.len()).collect();
    // every batch holds at most the chunk size; only the last holds fewer
    assert_eq!(sizes, vec![2, 2, 1]);
    let entries: Vec<JournalEntry> = (1..=4).map(|id| entry(id, &["v"])).collect();
    let batches = chunk_entries(entries, 2);
    let sizes: Vec<usize> = batches.iter().map(|b| b.len()).collect();
    assert_eq!(sizes, vec![2, 2]);
    let batches = chunk_entries(Vec::new(), 2);
    assert_eq!(batches.len(), 0);
}

#[test]
fn batch_sizes_match_an_independent_chunking() {
    let ids: Vec<u64> = (1..=11).collect();
    let entries: Vec<JournalEntry> = ids.iter().map(|&id| entry(id, &["v"])).collect();
    let batches = chunk_entries(entries, 4);
    let ours: Vec<usize> = batches.iter().map(|b| b.len()).collect();
    let theirs: Vec<usize> = ids.iter().chunks(4).into_iter().map(|c| c.count()).collect();
    assert_eq!(ours, theirs);
}

#[test]
fn batches_partition_the_compiled_entries() {
    let entries = vec![
        entry(1, &["a"]),
        entry(2, &["NULL"]),
        entry(3, &["c"]),
        entry(1, &["dup"]),
        entry(4, &["d"]),
        entry(5, &["e"]),
    ];
    let batches = compile_batches(entries, 2);
    // the union of the batches is the deduplicated journal minus no-ops
    let mut all: Vec<u64> = batches.iter().flatten().map(|e| e.record_id).collect();
    assert_eq!(all, vec![1, 3, 4, 5]);
    // and no identifier appears in two batches
    all.sort();
    let before = all.len();
    all.dedup();
    assert_eq!(all.len(), before);
}

#[test]
fn statements_render_exactly() {
    let header = bv("update versions\nset crate_size = tmp.crate_size\nfrom (values\n");
    let footer = bv(") as tmp (version_id, crate_size)\nwhere id = tmp.version_id;\n");
    let batch = vec![entry(1, &["100"]), entry(3, &["300"])];
    let stmt = render_statement(&header, &batch, &footer);
    let expected = "update versions\n\
                    set crate_size = tmp.crate_size\n\
                    from (values\n\
                    \x20   (1, 100),\n\
                    \x20   (3, 300)\n\
                    ) as tmp (version_id, crate_size)\n\
                    where id = tmp.version_id;\n";
    assert_eq!(stmt, bv(expected));
}

#[test]
fn compilation_reads_the_journal_back() {
    // the example journal: records 1 and 3 resolved, chunk size 2
    let journal = bv("1,100\n3,300\n");
    let header = bv("update versions\nset crate_size = tmp.crate_size\nfrom (values\n");
    let footer = bv(") as tmp (version_id, crate_size)\nwhere id = tmp.version_id;\n");
    let stmts = compile_statements(&journal, 1, 2, &header, &footer).unwrap();
    // chunk size 2 yields exactly one batch holding both records
    assert_eq!(stmts.len(), 1);
    let expected = "update versions\n\
                    set crate_size = tmp.crate_size\n\
                    from (values\n\
                    \x20   (1, 100),\n\
                    \x20   (3, 300)\n\
                    ) as tmp (version_id, crate_size)\n\
                    where id = tmp.version_id;\n";
    assert_eq!(stmts[0], bv(expected));
}

#[test]
fn compilation_aborts_on_a_malformed_journal() {
    let header = bv("h\n");
    let footer = bv("f\n");
    // no partial statement set comes out of a malformed journal
    assert_eq!(
        compile_statements(&bv("1,a\nbad\n"), 1, 2, &header, &footer),
        Err(FormatError::ColumnCount)
    );
    assert_eq!(
        compile_statements(&bv("zz,a\n"), 1, 2, &header, &footer),
        Err(FormatError::RecordId)
    );
}
