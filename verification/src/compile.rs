//! The batch compiler: re-reads the whole journal, deduplicates it
//! deterministically, discards entries explicitly marked as needing no
//! update, partitions the rest into bounded batches, and renders each batch
//! as one multi-row update statement.

use vstd::prelude::*;

use crate::FormatError;
use crate::codec::{COMMA, LF, push_all, seq_views};
use crate::decimal::push_decimal;
use crate::journal::{
    EntryModel, JournalEntry, ResolvedSet, is_sentinel_field, lemma_resolved_take_push, models_of,
    parse_journal, resolved_ids, spec_parse_journal, spec_sentinel,
};

verus! {

/// No two entries share a record identifier.
pub open spec fn distinct_ids(s: Seq<EntryModel>) -> bool {
    forall|i: int, j: int|
        #![trigger s[i], s[j]]
        0 <= i < j < s.len() ==> s[i].record_id != s[j].record_id
}

/// Deduplication by record identifier, first record wins: deterministic, and
/// no identifier is updated twice.
pub open spec fn spec_dedup(es: Seq<EntryModel>) -> Seq<EntryModel>
    decreases es.len(),
{
    if es.len() == 0 {
        Seq::empty()
    } else {
        let pre = spec_dedup(es.drop_last());
        if resolved_ids(es.drop_last()).contains(es.last().record_id) {
            pre
        } else {
            pre.push(es.last())
        }
    }
}

/// Deduplication keeps exactly the journal's identifiers.
pub proof fn lemma_dedup_ids(es: Seq<EntryModel>, id: u64)
    ensures
        resolved_ids(spec_dedup(es)).contains(id) <==> resolved_ids(es).contains(id),
    decreases es.len(),
{
    if es.len() > 0 {
        lemma_dedup_ids(es.drop_last(), id);
        let pre = spec_dedup(es.drop_last());
        let whole = spec_dedup(es);
        if resolved_ids(whole).contains(id) {
            let k = choose|k: int| 0 <= k < whole.len() && whole[k].record_id == id;
            if k < pre.len() {
                assert(pre[k].record_id == id);
                assert(resolved_ids(pre).contains(id));
                let m = choose|m: int|
                    0 <= m < es.drop_last().len() && es.drop_last()[m].record_id == id;
                assert(es[m].record_id == id);
            } else {
                assert(whole[k] == es.last());
                assert(es[es.len() - 1].record_id == id);
            }
        }
        if resolved_ids(es).contains(id) {
            let k = choose|k: int| 0 <= k < es.len() && es[k].record_id == id;
            if k < es.len() - 1 {
                assert(es.drop_last()[k].record_id == id);
                assert(resolved_ids(es.drop_last()).contains(id));
                let m = choose|m: int| 0 <= m < pre.len() && pre[m].record_id == id;
                assert(whole[m].record_id == id);
                assert(resolved_ids(whole).contains(id));
            } else {
                if resolved_ids(es.drop_last()).contains(es.last().record_id) {
                    let m = choose|m: int| 0 <= m < pre.len() && pre[m].record_id == id;
                    assert(whole[m].record_id == id);
                } else {
                    assert(whole[whole.len() - 1].record_id == id);
                }
                assert(resolved_ids(whole).contains(id));
            }
        }
    }
}

/// Deduplication leaves no identifier twice.
pub proof fn lemma_dedup_distinct(es: Seq<EntryModel>)
    ensures
        distinct_ids(spec_dedup(es)),
    decreases es.len(),
{
    if es.len() > 0 {
        lemma_dedup_distinct(es.drop_last());
        let pre = spec_dedup(es.drop_last());
        let whole = spec_dedup(es);
        if !resolved_ids(es.drop_last()).contains(es.last().record_id) {
            assert forall|i: int, j: int|
                #![trigger whole[i], whole[j]]
                0 <= i < j < whole.len() implies whole[i].record_id != whole[j].record_id by {
                if j < pre.len() {
                    assert(whole[i] == pre[i] && whole[j] == pre[j]);
                } else {
                    assert(whole[j] == es.last());
                    assert(whole[i] == pre[i]);
                    if pre[i].record_id == es.last().record_id {
                        assert(resolved_ids(pre).contains(es.last().record_id));
                        lemma_dedup_ids(es.drop_last(), es.last().record_id);
                        assert(false);
                    }
                }
            }
        }
    }
}

/// An entry that asks for no update: every value column is the sentinel.
pub open spec fn is_noop(e: EntryModel) -> bool {
    forall|i: int| 0 <= i < e.fields.len() ==> #[trigger] e.fields[i] == spec_sentinel()
}

/// The entries that actually update something, in order.
pub open spec fn spec_discard_noops(es: Seq<EntryModel>) -> Seq<EntryModel>
    decreases es.len(),
{
    if es.len() == 0 {
        Seq::empty()
    } else {
        let pre = spec_discard_noops(es.drop_last());
        if is_noop(es.last()) {
            pre
        } else {
            pre.push(es.last())
        }
    }
}

/// Discarding no-ops resolves no identifier that the input does not.
pub proof fn lemma_discard_ids(es: Seq<EntryModel>, id: u64)
    ensures
        resolved_ids(spec_discard_noops(es)).contains(id) ==> resolved_ids(es).contains(id),
    decreases es.len(),
{
    if es.len() > 0 {
        lemma_discard_ids(es.drop_last(), id);
        let pre = spec_discard_noops(es.drop_last());
        let whole = spec_discard_noops(es);
        if resolved_ids(whole).contains(id) {
            let k = choose|k: int| 0 <= k < whole.len() && whole[k].record_id == id;
            if k < pre.len() {
                assert(pre[k].record_id == id);
                assert(resolved_ids(pre).contains(id));
                let m = choose|m: int|
                    0 <= m < es.drop_last().len() && es.drop_last()[m].record_id == id;
                assert(es[m].record_id == id);
            } else {
                assert(whole[k] == es.last());
                assert(es[es.len() - 1].record_id == id);
            }
            assert(resolved_ids(es).contains(id));
        }
    }
}

/// Discarding no-ops keeps identifiers distinct.
pub proof fn lemma_discard_distinct(es: Seq<EntryModel>)
    requires
        distinct_ids(es),
    ensures
        distinct_ids(spec_discard_noops(es)),
    decreases es.len(),
{
    if es.len() > 0 {
        assert forall|i: int, j: int|
            #![trigger es.drop_last()[i], es.drop_last()[j]]
            0 <= i < j < es.drop_last().len() implies es.drop_last()[i].record_id
            != es.drop_last()[j].record_id by {
            assert(es.drop_last()[i] == es[i] && es.drop_last()[j] == es[j]);
        }
        lemma_discard_distinct(es.drop_last());
        let pre = spec_discard_noops(es.drop_last());
        let whole = spec_discard_noops(es);
        if !is_noop(es.last()) {
            assert forall|i: int, j: int|
                #![trigger whole[i], whole[j]]
                0 <= i < j < whole.len() implies whole[i].record_id != whole[j].record_id by {
                if j < pre.len() {
                    assert(whole[i] == pre[i] && whole[j] == pre[j]);
                } else {
                    assert(whole[j] == es.last());
                    assert(whole[i] == pre[i]);
                    if pre[i].record_id == es.last().record_id {
                        assert(resolved_ids(pre).contains(es.last().record_id));
                        lemma_discard_ids(es.drop_last(), es.last().record_id);
                        let m = choose|m: int|
                            0 <= m < es.drop_last().len() && es.drop_last()[m].record_id
                                == es.last().record_id;
                        assert(es[m].record_id == es[es.len() - 1].record_id);
                        assert(false);
                    }
                }
            }
        }
    }
}

/// The entries cut into batches of `k`, in order: every batch but the last is
/// full, the last holds the remainder.
pub open spec fn spec_chunks(es: Seq<EntryModel>, k: nat) -> Seq<Seq<EntryModel>>
    decreases es.len(),
{
    if k == 0 {
        Seq::empty()
    } else if es.len() == 0 {
        Seq::empty()
    } else if es.len() <= k {
        seq![es]
    } else {
        seq![es.take(k as int)] + spec_chunks(es.skip(k as int), k)
    }
}

/// Batch size bound: every batch holds at least one and at most `k` entries,
/// and every batch before the last holds exactly `k`.
pub proof fn lemma_chunk_sizes(es: Seq<EntryModel>, k: nat)
    requires
        k >= 1,
    ensures
        forall|i: int|
            0 <= i < spec_chunks(es, k).len() ==> 1 <= (#[trigger] spec_chunks(es, k)[i]).len()
                <= k,
        forall|i: int|
            0 <= i < spec_chunks(es, k).len() - 1 ==> (#[trigger] spec_chunks(es, k)[i]).len()
                == k,
    decreases es.len(),
{
    if es.len() > k {
        lemma_chunk_sizes(es.skip(k as int), k);
        let whole = spec_chunks(es, k);
        let rest = spec_chunks(es.skip(k as int), k);
        assert forall|i: int| 0 <= i < whole.len() implies 1 <= (#[trigger] whole[i]).len()
            <= k by {
            if i >= 1 {
                assert(whole[i] == rest[i - 1]);
            }
        }
        assert forall|i: int| 0 <= i < whole.len() - 1 implies (#[trigger] whole[i]).len() == k by {
            if i >= 1 {
                assert(whole[i] == rest[i - 1]);
            }
        }
    }
}

/// Partition completeness, one half: the batches, in order, are exactly the
/// compiled entries — nothing is lost and nothing is invented.
pub proof fn lemma_chunks_flatten(es: Seq<EntryModel>, k: nat)
    requires
        k >= 1,
    ensures
        spec_chunks(es, k).flatten() == es,
    decreases es.len(),
{
    if es.len() == 0 {
        assert(spec_chunks(es, k).flatten() =~= es);
    } else if es.len() <= k {
        let whole = spec_chunks(es, k);
        assert(whole.first() == es);
        assert(whole.drop_first() =~= Seq::<Seq<EntryModel>>::empty());
        assert(Seq::<Seq<EntryModel>>::empty().flatten() == Seq::<EntryModel>::empty());
        assert(whole.flatten() == es.add(Seq::<EntryModel>::empty()));
        assert(es.add(Seq::<EntryModel>::empty()) =~= es);
    } else {
        lemma_chunks_flatten(es.skip(k as int), k);
        let whole = spec_chunks(es, k);
        let rest = spec_chunks(es.skip(k as int), k);
        assert(whole.first() == es.take(k as int));
        assert(whole.drop_first() =~= rest);
        assert(whole.flatten() == es.take(k as int) + rest.flatten());
        assert(es.take(k as int) + es.skip(k as int) =~= es);
    }
}

/// Every entry in a batch comes from the partitioned entries.
proof fn lemma_chunks_elements(es: Seq<EntryModel>, k: nat, j: int, b: int)
    requires
        k >= 1,
        0 <= j < spec_chunks(es, k).len(),
        0 <= b < spec_chunks(es, k)[j].len(),
    ensures
        es.contains(spec_chunks(es, k)[j][b]),
    decreases es.len(),
{
    let whole = spec_chunks(es, k);
    if es.len() <= k {
        assert(whole[j] == es);
        assert(es[b] == whole[j][b]);
    } else {
        if j == 0 {
            assert(whole[0] == es.take(k as int));
            assert(es[b] == whole[j][b]);
        } else {
            let rest = spec_chunks(es.skip(k as int), k);
            assert(whole[j] == rest[j - 1]);
            lemma_chunks_elements(es.skip(k as int), k, j - 1, b);
            let m = choose|m: int|
                0 <= m < es.skip(k as int).len() && es.skip(k as int)[m] == whole[j][b];
            assert(es[k + m] == whole[j][b]);
        }
    }
}

/// Partition completeness, the other half: batches are pairwise disjoint —
/// no record identifier is updated by two batches.
pub proof fn lemma_chunks_disjoint(es: Seq<EntryModel>, k: nat, i: int, j: int, a: int, b: int)
    requires
        k >= 1,
        distinct_ids(es),
        0 <= i < j < spec_chunks(es, k).len(),
        0 <= a < spec_chunks(es, k)[i].len(),
        0 <= b < spec_chunks(es, k)[j].len(),
    ensures
        spec_chunks(es, k)[i][a].record_id != spec_chunks(es, k)[j][b].record_id,
    decreases es.len(),
{
    let whole = spec_chunks(es, k);
    assert(es.len() > k);
    let rest = spec_chunks(es.skip(k as int), k);
    if i == 0 {
        assert(whole[0] == es.take(k as int));
        assert(whole[i][a] == es[a]);
        assert(whole[j] == rest[j - 1]);
        lemma_chunks_elements(es.skip(k as int), k, j - 1, b);
        let m = choose|m: int|
            0 <= m < es.skip(k as int).len() && es.skip(k as int)[m] == whole[j][b];
        assert(es[k + m] == whole[j][b]);
        assert(es[a].record_id != es[k + m].record_id);
    } else {
        assert forall|x: int, y: int|
            #![trigger es.skip(k as int)[x], es.skip(k as int)[y]]
            0 <= x < y < es.skip(k as int).len() implies es.skip(k as int)[x].record_id != es.skip(
            k as int,
        )[y].record_id by {
            assert(es.skip(k as int)[x] == es[k + x] && es.skip(k as int)[y] == es[k + y]);
        }
        lemma_chunks_disjoint(es.skip(k as int), k, i - 1, j - 1, a, b);
        assert(whole[i] == rest[i - 1] && whole[j] == rest[j - 1]);
    }
}

/// The models of a sequence of batches.
pub open spec fn batch_models(bs: Seq<Vec<JournalEntry>>) -> Seq<Seq<EntryModel>> {
    Seq::new(bs.len(), |i: int| models_of(bs[i]@))
}

/// What compilation makes of a journal's entries: deduplicate, drop the
/// explicit no-ops, cut into batches of `k`.
pub open spec fn spec_compile(es: Seq<EntryModel>, k: nat) -> Seq<Seq<EntryModel>> {
    spec_chunks(spec_discard_noops(spec_dedup(es)), k)
}

/// Deduplicates the entries: the first record for an identifier wins, later
/// ones are dropped, order of first appearance is kept.
pub fn dedup_entries(entries: Vec<JournalEntry>) -> (r: Vec<JournalEntry>)
    ensures
        models_of(r@) == spec_dedup(models_of(entries@)),
{
    let ghost orig = models_of(entries@);
    let mut rest = entries;
    let n = rest.len();
    proof {
        assert(orig.len() == n);
    }
    let mut out: Vec<JournalEntry> = Vec::new();
    let mut seen = ResolvedSet::new();
    let mut i: usize = 0;
    proof {
        assert(models_of(rest@) =~= orig.skip(0));
        assert(orig.take(0) =~= Seq::<EntryModel>::empty());
        assert(models_of(out@) =~= Seq::<EntryModel>::empty());
        assert(seen@ =~= resolved_ids(orig.take(0)));
    }
    while rest.len() > 0
        invariant
            i + rest@.len() == orig.len(),
            orig.len() <= usize::MAX,
            models_of(rest@) == orig.skip(i as int),
            models_of(out@) == spec_dedup(orig.take(i as int)),
            seen@ == resolved_ids(orig.take(i as int)),
        decreases rest@.len(),
    {
        let ghost rest0 = rest@;
        let e = rest.remove(0);
        proof {
            assert(models_of(rest0)[0] == rest0[0]@);
            assert(e@ == orig[i as int]);
            assert forall|j: int| 0 <= j < rest@.len() implies models_of(rest@)[j] == orig.skip(
                i as int + 1,
            )[j] by {
                assert(rest@[j] == rest0[j + 1]);
                assert(models_of(rest0)[j + 1] == rest0[j + 1]@);
                assert(orig.skip(i as int)[j + 1] == orig.skip(i as int + 1)[j]);
            }
            assert(models_of(rest@) =~= orig.skip(i as int + 1));
            assert(orig.take(i as int + 1).drop_last() =~= orig.take(i as int));
            assert(orig.take(i as int + 1).last() == orig[i as int]);
            lemma_resolved_take_push(orig, i as int);
        }
        let ghost pre = models_of(out@);
        let id = e.record_id;
        if !seen.contains(id) {
            out.push(e);
            proof {
                assert(models_of(out@) =~= pre.push(orig[i as int]));
            }
        }
        seen.insert(id);
        i += 1;
    }
    proof {
        assert(orig.take(i as int) =~= orig);
    }
    out
}

/// Whether an entry asks for no update at all.
pub fn is_noop_entry(e: &JournalEntry) -> (r: bool)
    ensures
        r == is_noop(e@),
{
    let mut i: usize = 0;
    while i < e.fields.len()
        invariant
            0 <= i <= e.fields@.len(),
            forall|k: int| 0 <= k < i ==> #[trigger] e@.fields[k] == spec_sentinel(),
        decreases e.fields@.len() - i,
    {
        if !is_sentinel_field(&e.fields[i]) {
            proof {
                assert(e@.fields[i as int] != spec_sentinel());
            }
            return false;
        }
        proof {
            assert(e@.fields[i as int] == e.fields@[i as int]@);
        }
        i += 1;
    }
    true
}

/// Drops every entry explicitly marked as needing no update.
pub fn discard_noop_entries(entries: Vec<JournalEntry>) -> (r: Vec<JournalEntry>)
    ensures
        models_of(r@) == spec_discard_noops(models_of(entries@)),
{
    let ghost orig = models_of(entries@);
    let mut rest = entries;
    let n = rest.len();
    proof {
        assert(orig.len() == n);
    }
    let mut out: Vec<JournalEntry> = Vec::new();
    let mut i: usize = 0;
    proof {
        assert(models_of(rest@) =~= orig.skip(0));
        assert(orig.take(0) =~= Seq::<EntryModel>::empty());
        assert(models_of(out@) =~= Seq::<EntryModel>::empty());
    }
    while rest.len() > 0
        invariant
            i + rest@.len() == orig.len(),
            orig.len() <= usize::MAX,
            models_of(rest@) == orig.skip(i as int),
            models_of(out@) == spec_discard_noops(orig.take(i as int)),
        decreases rest@.len(),
    {
        let ghost rest0 = rest@;
        let e = rest.remove(0);
        proof {
            assert(models_of(rest0)[0] == rest0[0]@);
            assert(e@ == orig[i as int]);
            assert forall|j: int| 0 <= j < rest@.len() implies models_of(rest@)[j] == orig.skip(
                i as int + 1,
            )[j] by {
                assert(rest@[j] == rest0[j + 1]);
                assert(models_of(rest0)[j + 1] == rest0[j + 1]@);
                assert(orig.skip(i as int)[j + 1] == orig.skip(i as int + 1)[j]);
            }
            assert(models_of(rest@) =~= orig.skip(i as int + 1));
            assert(orig.take(i as int + 1).drop_last() =~= orig.take(i as int));
            assert(orig.take(i as int + 1).last() == orig[i as int]);
        }
        let ghost pre = models_of(out@);
        if !is_noop_entry(&e) {
            out.push(e);
            proof {
                assert(models_of(out@) =~= pre.push(orig[i as int]));
            }
        }
        i += 1;
    }
    proof {
        assert(orig.take(i as int) =~= orig);
    }
    out
}

/// Cuts the entries into batches of at most `chunk_size`, in order.
pub fn chunk_entries(entries: Vec<JournalEntry>, chunk_size: usize) -> (r: Vec<Vec<JournalEntry>>)
    requires
        chunk_size >= 1,
    ensures
        batch_models(r@) == spec_chunks(models_of(entries@), chunk_size as nat),
{
    let ghost orig = models_of(entries@);
    let ghost k = chunk_size as nat;
    let mut rest = entries;
    let mut out: Vec<Vec<JournalEntry>> = Vec::new();
    proof {
        assert(models_of(rest@) =~= orig);
        assert(batch_models(out@) =~= Seq::<Seq<EntryModel>>::empty());
        assert(Seq::<Seq<EntryModel>>::empty() + spec_chunks(orig, k) =~= spec_chunks(orig, k));
    }
    while rest.len() > 0
        invariant
            chunk_size >= 1,
            k == chunk_size as nat,
            spec_chunks(orig, k) == batch_models(out@) + spec_chunks(models_of(rest@), k),
        decreases rest@.len(),
    {
        let ghost rem0 = models_of(rest@);
        let mut batch: Vec<JournalEntry> = Vec::new();
        proof {
            assert(models_of(batch@) =~= rem0.take(0));
        }
        while batch.len() < chunk_size && rest.len() > 0
            invariant
                chunk_size >= 1,
                batch@.len() <= chunk_size,
                batch@.len() + rest@.len() == rem0.len(),
                models_of(batch@) == rem0.take(batch@.len() as int),
                models_of(rest@) == rem0.skip(batch@.len() as int),
            decreases rest@.len(),
        {
            let ghost rest0 = rest@;
            let ghost b0 = batch@.len() as int;
            let e = rest.remove(0);
            batch.push(e);
            proof {
                assert(models_of(rest0)[0] == rest0[0]@);
                assert(e@ == rem0.skip(b0)[0]);
                assert(e@ == rem0[b0]);
                assert forall|j: int| 0 <= j < batch@.len() implies models_of(batch@)[j] == rem0
                    .take(b0 + 1)[j] by {
                    if j < b0 {
                        assert(models_of(batch@)[j] == batch@[j]@);
                    } else {
                        assert(batch@[j] == e);
                    }
                }
                assert(models_of(batch@) =~= rem0.take(b0 + 1));
                assert forall|j: int| 0 <= j < rest@.len() implies models_of(rest@)[j] == rem0.skip(
                    b0 + 1,
                )[j] by {
                    assert(rest@[j] == rest0[j + 1]);
                    assert(models_of(rest0)[j + 1] == rest0[j + 1]@);
                    assert(rem0.skip(b0)[j + 1] == rem0.skip(b0 + 1)[j]);
                }
                assert(models_of(rest@) =~= rem0.skip(b0 + 1));
            }
        }
        let ghost outpre = batch_models(out@);
        let ghost taken = batch@.len() as int;
        out.push(batch);
        proof {
            assert(batch_models(out@) =~= outpre.push(rem0.take(taken)));
            if rem0.len() <= k {
                assert(taken == rem0.len());
                assert(rem0.take(taken) =~= rem0);
                assert(models_of(rest@) =~= Seq::<EntryModel>::empty());
                assert(spec_chunks(rem0, k) =~= seq![rem0]);
                assert(batch_models(out@) + spec_chunks(models_of(rest@), k) =~= outpre
                    + spec_chunks(rem0, k));
            } else {
                assert(taken == k);
                assert(spec_chunks(rem0, k) == seq![rem0.take(k as int)] + spec_chunks(
                    rem0.skip(k as int),
                    k,
                ));
                assert(batch_models(out@) + spec_chunks(models_of(rest@), k) =~= outpre
                    + spec_chunks(rem0, k));
            }
        }
    }
    proof {
        assert(models_of(rest@) =~= Seq::<EntryModel>::empty());
        assert(spec_chunks(models_of(rest@), k) =~= Seq::<Seq<EntryModel>>::empty());
        assert(batch_models(out@) =~= spec_chunks(orig, k));
    }
    out
}

/// Compiles the journal's entries into update batches: deduplicate (first
/// record per identifier wins), discard explicit no-ops, cut into batches.
pub fn compile_batches(entries: Vec<JournalEntry>, chunk_size: usize) -> (r: Vec<
    Vec<JournalEntry>,
>)
    requires
        chunk_size >= 1,
    ensures
        batch_models(r@) == spec_compile(models_of(entries@), chunk_size as nat),
{
    let deduped = dedup_entries(entries);
    let kept = discard_noop_entries(deduped);
    chunk_entries(kept, chunk_size)
}

/// Partition completeness, stated of the compiler as a whole: the batches,
/// concatenated in order, are exactly the deduplicated journal minus its
/// explicit no-ops — every compiled entry lands in exactly one batch.
pub proof fn lemma_compile_complete(es: Seq<EntryModel>, k: nat)
    requires
        k >= 1,
    ensures
        spec_compile(es, k).flatten() == spec_discard_noops(spec_dedup(es)),
{
    lemma_chunks_flatten(spec_discard_noops(spec_dedup(es)), k);
}

/// Partition disjointness, stated of the compiler as a whole: no record
/// identifier is updated by two different batches.
pub proof fn lemma_compile_disjoint(es: Seq<EntryModel>, k: nat, i: int, j: int, a: int, b: int)
    requires
        k >= 1,
        0 <= i < j < spec_compile(es, k).len(),
        0 <= a < spec_compile(es, k)[i].len(),
        0 <= b < spec_compile(es, k)[j].len(),
    ensures
        spec_compile(es, k)[i][a].record_id != spec_compile(es, k)[j][b].record_id,
{
    lemma_dedup_distinct(es);
    lemma_discard_distinct(spec_dedup(es));
    lemma_chunks_disjoint(spec_discard_noops(spec_dedup(es)), k, i, j, a, b);
}

/// One value of a row: a comma, a space, and the value itself.
pub open spec fn spec_row_vals(fs: Seq<Seq<u8>>) -> Seq<u8>
    decreases fs.len(),
{
    if fs.len() == 0 {
        Seq::empty()
    } else {
        spec_row_vals(fs.drop_last()) + seq![COMMA, 0x20u8] + fs.last()
    }
}

/// One row of a statement's values list: indented, parenthesized, the record
/// identifier first, then the value columns.
pub open spec fn spec_row(e: EntryModel) -> Seq<u8> {
    seq![0x20u8, 0x20u8, 0x20u8, 0x20u8, 0x28u8] + crate::decimal::spec_decimal(
        e.record_id as nat,
    ) + spec_row_vals(e.fields) + seq![0x29u8]
}

/// The rows of a batch, separated by a comma and a line feed.
pub open spec fn spec_rows(es: Seq<EntryModel>) -> Seq<u8>
    decreases es.len(),
{
    if es.len() == 0 {
        Seq::empty()
    } else if es.len() == 1 {
        spec_row(es[0])
    } else {
        spec_rows(es.drop_last()) + seq![COMMA, LF] + spec_row(es.last())
    }
}

/// One self-contained update statement: the caller's header (the update and
/// set clauses), the batch's rows as a values list, and the caller's footer
/// (the join on the primary key and the still-unset guard).
pub open spec fn spec_statement(header: Seq<u8>, es: Seq<EntryModel>, footer: Seq<u8>) -> Seq<u8> {
    header + spec_rows(es) + seq![LF] + footer
}

/// The statements of all batches, in order.
pub open spec fn spec_statements(header: Seq<u8>, bs: Seq<Seq<EntryModel>>, footer: Seq<u8>) -> Seq<
    Seq<u8>,
> {
    Seq::new(bs.len(), |i: int| spec_statement(header, bs[i], footer))
}

/// Appends one row to the statement being rendered.
fn render_row(e: &JournalEntry, out: &mut Vec<u8>)
    ensures
        final(out)@ == old(out)@ + spec_row(e@),
{
    let ghost base = out@;
    out.push(0x20);
    out.push(0x20);
    out.push(0x20);
    out.push(0x20);
    out.push(0x28);
    push_decimal(e.record_id, out);
    let ghost mid = base + seq![0x20u8, 0x20u8, 0x20u8, 0x20u8, 0x28u8]
        + crate::decimal::spec_decimal(e.record_id as nat);
    proof {
        assert(out@ =~= mid);
        assert(out@ =~= mid + spec_row_vals(e@.fields.take(0)));
    }
    let mut i: usize = 0;
    while i < e.fields.len()
        invariant
            0 <= i <= e.fields@.len(),
            out@ == mid + spec_row_vals(e@.fields.take(i as int)),
        decreases e.fields@.len() - i,
    {
        out.push(COMMA);
        out.push(0x20);
        push_all(out, &e.fields[i]);
        proof {
            assert(e@.fields.take(i as int + 1).drop_last() =~= e@.fields.take(i as int));
            assert(e@.fields.take(i as int + 1).last() == e@.fields[i as int]);
            assert(e@.fields[i as int] == e.fields@[i as int]@);
            assert(out@ =~= mid + spec_row_vals(e@.fields.take(i as int + 1)));
        }
        i += 1;
    }
    out.push(0x29);
    proof {
        assert(e@.fields.take(i as int) =~= e@.fields);
        assert(out@ =~= old(out)@ + spec_row(e@));
    }
}

/// Renders one batch as one update statement.
pub fn render_statement(header: &Vec<u8>, batch: &Vec<JournalEntry>, footer: &Vec<u8>) -> (r: Vec<
    u8,
>)
    ensures
        r@ == spec_statement(header@, models_of(batch@), footer@),
{
    let mut out: Vec<u8> = Vec::new();
    push_all(&mut out, header);
    let ghost ms = models_of(batch@);
    let mut i: usize = 0;
    proof {
        assert(spec_rows(ms.take(0)) =~= Seq::<u8>::empty());
        assert(out@ =~= header@ + spec_rows(ms.take(0)));
    }
    while i < batch.len()
        invariant
            0 <= i <= batch@.len(),
            ms == models_of(batch@),
            out@ == header@ + spec_rows(ms.take(i as int)),
        decreases batch@.len() - i,
    {
        let ghost out0 = out@;
        if i > 0 {
            out.push(COMMA);
            out.push(LF);
        }
        render_row(&batch[i], &mut out);
        proof {
            assert(ms.take(i as int + 1).drop_last() =~= ms.take(i as int));
            assert(ms.take(i as int + 1).last() == ms[i as int]);
            assert(ms[i as int] == batch@[i as int]@);
            if i == 0 {
                assert(ms.take(1).len() == 1);
                assert(ms.take(1)[0] == ms[0]);
                assert(out@ =~= header@ + spec_rows(ms.take(1)));
            } else {
                assert(out@ =~= header@ + spec_rows(ms.take(i as int + 1)));
            }
        }
        i += 1;
    }
    out.push(LF);
    push_all(&mut out, footer);
    proof {
        assert(ms.take(i as int) =~= ms);
        assert(out@ =~= spec_statement(header@, ms, footer@));
    }
    out
}

/// Reads a whole journal and compiles it into rendered update statements,
/// one per batch. A malformed journal aborts with its error: no partial
/// statement set is ever produced.
pub fn compile_statements(
    bytes: &Vec<u8>,
    vcols: usize,
    chunk_size: usize,
    header: &Vec<u8>,
    footer: &Vec<u8>,
) -> (r: Result<Vec<Vec<u8>>, FormatError>)
    requires
        vcols < usize::MAX,
        chunk_size >= 1,
    ensures
        r matches Ok(stmts) ==> spec_parse_journal(bytes@, vcols as nat) matches Ok(es)
            && seq_views(stmts@) == spec_statements(
            header@,
            spec_compile(es, chunk_size as nat),
            footer@,
        ),
        r matches Err(e) ==> spec_parse_journal(bytes@, vcols as nat) == Err::<
            Seq<EntryModel>,
            FormatError,
        >(e),
{
    let entries = match parse_journal(bytes, vcols) {
        Ok(es) => es,
        Err(e) => {
            return Err(e);
        },
    };
    let ghost es = models_of(entries@);
    let batches = compile_batches(entries, chunk_size);
    let ghost bm = spec_compile(es, chunk_size as nat);
    let mut out: Vec<Vec<u8>> = Vec::new();
    let mut i: usize = 0;
    while i < batches.len()
        invariant
            0 <= i <= batches@.len(),
            batch_models(batches@) == bm,
            out@.len() == i,
            forall|j: int|
                0 <= j < i ==> seq_views(out@)[j] == spec_statement(header@, bm[j], footer@),
        decreases batches@.len() - i,
    {
        let stmt = render_statement(header, &batches[i], footer);
        proof {
            assert(batch_models(batches@)[i as int] == models_of(batches@[i as int]@));
        }
        let ghost out0 = out@;
        let ghost stmtv = stmt@;
        out.push(stmt);
        proof {
            assert forall|j: int| 0 <= j <= i implies seq_views(out@)[j] == spec_statement(
                header@,
                bm[j],
                footer@,
            ) by {
                if j < i {
                    assert(out@[j] == out0[j]);
                    assert(seq_views(out@)[j] == out0[j]@);
                    assert(seq_views(out0)[j] == out0[j]@);
                } else {
                    assert(seq_views(out@)[j] == stmtv);
                }
            }
        }
        i += 1;
    }
    proof {
        assert(seq_views(out@) =~= spec_statements(header@, bm, footer@));
    }
    Ok(out)
}

} // verus!
