//! The run model: one run selects candidates, filters them by the journal's
//! resolved set, inspects each planned candidate once, and appends what the
//! worker journals. The laws here make the pipeline safe to interrupt and to
//! repeat: a second run over an unchanged artifact set appends nothing, a
//! journaled identifier is never inspected again, and a failed candidate
//! stays out of the journal and is selected again next time.

use vstd::prelude::*;

use crate::ItemError;
use crate::journal::{EntryModel, append_entry, resolved_ids, spec_encode_journal};
use crate::selector::{Candidate, CandidateModel, cand_models, lemma_plan_membership, spec_plan};
use crate::worker::{Decision, SkipReason, outcome_model, spec_worker_entry, spec_worker_skip, worker_step};

verus! {

/// The models of a sequence of inspection outcomes.
pub open spec fn outcome_models(os: Seq<Result<Vec<Vec<u8>>, ItemError>>) -> Seq<
    Result<Seq<Seq<u8>>, ItemError>,
> {
    Seq::new(os.len(), |i: int| outcome_model(os[i]))
}

/// The entries appended when the planned candidates, in order, meet the
/// outcomes of a fixed artifact set (one outcome per record identifier).
pub open spec fn spec_new_entries(
    planned: Seq<CandidateModel>,
    outcomes: Map<u64, Result<Seq<Seq<u8>>, ItemError>>,
) -> Seq<EntryModel>
    decreases planned.len(),
{
    if planned.len() == 0 {
        Seq::empty()
    } else {
        let pre = spec_new_entries(planned.drop_last(), outcomes);
        match spec_worker_entry(planned.last(), outcomes[planned.last().record_id]) {
            Some(e) => pre.push(e),
            None => pre,
        }
    }
}

/// One full run against a fixed artifact set: filter the candidates by what
/// the journal already resolves, inspect each survivor once, and append what
/// the worker journals.
pub open spec fn spec_run(
    journal: Seq<EntryModel>,
    cands: Seq<CandidateModel>,
    outcomes: Map<u64, Result<Seq<Seq<u8>>, ItemError>>,
) -> Seq<EntryModel> {
    journal + spec_new_entries(spec_plan(cands, resolved_ids(journal)), outcomes)
}

/// The entries appended for planned candidates paired with their outcomes.
pub open spec fn spec_new_entries_list(
    planned: Seq<CandidateModel>,
    outs: Seq<Result<Seq<Seq<u8>>, ItemError>>,
) -> Seq<EntryModel>
    recommends
        planned.len() == outs.len(),
    decreases planned.len(),
{
    if planned.len() == 0 {
        Seq::empty()
    } else {
        let pre = spec_new_entries_list(planned.drop_last(), outs.drop_last());
        match spec_worker_entry(planned.last(), outs.last()) {
            Some(e) => pre.push(e),
            None => pre,
        }
    }
}

/// The skipped candidates, each with its reason, in order.
pub open spec fn spec_skips_list(
    planned: Seq<CandidateModel>,
    outs: Seq<Result<Seq<Seq<u8>>, ItemError>>,
) -> Seq<(u64, SkipReason)>
    recommends
        planned.len() == outs.len(),
    decreases planned.len(),
{
    if planned.len() == 0 {
        Seq::empty()
    } else {
        let pre = spec_skips_list(planned.drop_last(), outs.drop_last());
        match spec_worker_skip(planned.last(), outs.last()) {
            Some(s) => pre.push((planned.last().record_id, s)),
            None => pre,
        }
    }
}

/// Runs one segment: decides every planned candidate against its inspection
/// outcome, appends each journaled entry as one durable record, in arrival
/// order, and reports the skipped candidates. Per-item failures never abort
/// the segment.
pub fn run_segment(
    journal: &mut Vec<u8>,
    planned: Vec<Candidate>,
    outcomes: Vec<Result<Vec<Vec<u8>>, ItemError>>,
) -> (skipped: Vec<(u64, SkipReason)>)
    requires
        planned@.len() == outcomes@.len(),
    ensures
        final(journal)@ == old(journal)@ + spec_encode_journal(
            spec_new_entries_list(cand_models(planned@), outcome_models(outcomes@)),
        ),
        skipped@ == spec_skips_list(cand_models(planned@), outcome_models(outcomes@)),
{
    let ghost pm = cand_models(planned@);
    let ghost om = outcome_models(outcomes@);
    let mut cs = planned;
    let mut os = outcomes;
    let mut skipped: Vec<(u64, SkipReason)> = Vec::new();
    let mut i: usize = 0;
    let n = cs.len();
    proof {
        assert(pm.len() == n);
        assert(pm.take(0) =~= Seq::<CandidateModel>::empty());
        assert(om.take(0) =~= Seq::<Result<Seq<Seq<u8>>, ItemError>>::empty());
        assert(spec_encode_journal(spec_new_entries_list(pm.take(0), om.take(0)))
            =~= Seq::<u8>::empty());
        assert(journal@ =~= old(journal)@ + Seq::<u8>::empty());
        assert(skipped@ =~= spec_skips_list(pm.take(0), om.take(0)));
        assert(cand_models(cs@) =~= pm.skip(0));
        assert(outcome_models(os@) =~= om.skip(0));
    }
    while cs.len() > 0
        invariant
            i + cs@.len() == pm.len(),
            cs@.len() == os@.len(),
            pm.len() == om.len(),
            pm.len() <= usize::MAX,
            cand_models(cs@) == pm.skip(i as int),
            outcome_models(os@) == om.skip(i as int),
            journal@ == old(journal)@ + spec_encode_journal(
                spec_new_entries_list(pm.take(i as int), om.take(i as int)),
            ),
            skipped@ == spec_skips_list(pm.take(i as int), om.take(i as int)),
        decreases cs@.len(),
    {
        let ghost cs0 = cs@;
        let ghost os0 = os@;
        let c = cs.remove(0);
        let o = os.remove(0);
        proof {
            assert(cand_models(cs0)[0] == cs0[0]@);
            assert(outcome_models(os0)[0] == outcome_model(os0[0]));
            assert(c@ == pm[i as int]);
            assert(outcome_model(o) == om[i as int]);
            assert forall|j: int| 0 <= j < cs@.len() implies cand_models(cs@)[j] == pm.skip(
                i as int + 1,
            )[j] by {
                assert(cs@[j] == cs0[j + 1]);
                assert(cand_models(cs0)[j + 1] == cs0[j + 1]@);
                assert(pm.skip(i as int)[j + 1] == pm.skip(i as int + 1)[j]);
            }
            assert(cand_models(cs@) =~= pm.skip(i as int + 1));
            assert forall|j: int| 0 <= j < os@.len() implies outcome_models(os@)[j] == om.skip(
                i as int + 1,
            )[j] by {
                assert(os@[j] == os0[j + 1]);
                assert(outcome_models(os0)[j + 1] == outcome_model(os0[j + 1]));
                assert(om.skip(i as int)[j + 1] == om.skip(i as int + 1)[j]);
            }
            assert(outcome_models(os@) =~= om.skip(i as int + 1));
            assert(pm.take(i as int + 1).drop_last() =~= pm.take(i as int));
            assert(om.take(i as int + 1).drop_last() =~= om.take(i as int));
            assert(pm.take(i as int + 1).last() == pm[i as int]);
            assert(om.take(i as int + 1).last() == om[i as int]);
        }
        let ghost news0 = spec_new_entries_list(pm.take(i as int), om.take(i as int));
        let ghost skips0 = spec_skips_list(pm.take(i as int), om.take(i as int));
        match worker_step(&c, o) {
            Decision::Journal(e) => {
                append_entry(journal, &e);
                proof {
                    let x = news0.push(e@);
                    assert(spec_new_entries_list(pm.take(i as int + 1), om.take(i as int + 1))
                        == x);
                    assert(x.drop_last() =~= news0);
                    assert(x.last() == e@);
                    assert(spec_encode_journal(x) == spec_encode_journal(news0)
                        + crate::journal::spec_encode_entry(e@));
                    assert(journal@ =~= old(journal)@ + spec_encode_journal(x));
                }
            },
            Decision::Skip(s) => {
                skipped.push((c.record_id, s));
                proof {
                    assert(spec_skips_list(pm.take(i as int + 1), om.take(i as int + 1)) == skips0
                        .push((pm[i as int].record_id, s)));
                    assert(c@.record_id == c.record_id);
                    assert(skipped@ =~= skips0.push((pm[i as int].record_id, s)));
                }
            },
        }
        i += 1;
    }
    proof {
        assert(pm.take(i as int) =~= pm);
        assert(om.take(i as int) =~= om);
    }
    skipped
}

/// What a segment appends is what the run model appends: when the gathered
/// outcomes agree with a fixed artifact set (one outcome per identifier), the
/// entries of `spec_new_entries_list` — which `run_segment` journals — are
/// exactly those of `spec_new_entries`, which the laws below speak of.
pub proof fn lemma_segment_runs_the_model(
    planned: Seq<CandidateModel>,
    outs: Seq<Result<Seq<Seq<u8>>, ItemError>>,
    outcomes: Map<u64, Result<Seq<Seq<u8>>, ItemError>>,
)
    requires
        planned.len() == outs.len(),
        forall|i: int|
            0 <= i < planned.len() ==> outs[i] == outcomes[(#[trigger] planned[i]).record_id],
    ensures
        spec_new_entries_list(planned, outs) == spec_new_entries(planned, outcomes),
    decreases planned.len(),
{
    if planned.len() > 0 {
        assert forall|i: int| 0 <= i < planned.drop_last().len() implies outs.drop_last()[i]
            == outcomes[(#[trigger] planned.drop_last()[i]).record_id] by {
            assert(planned.drop_last()[i] == planned[i]);
            assert(outs.drop_last()[i] == outs[i]);
        }
        lemma_segment_runs_the_model(planned.drop_last(), outs.drop_last(), outcomes);
        assert(outs.last() == outs[planned.len() - 1]);
        assert(outs[planned.len() - 1] == outcomes[planned[planned.len() - 1].record_id]);
    }
}

/// An identifier is resolved by a concatenation of journals exactly when one
/// of the parts resolves it. In particular the resolved set never shrinks as
/// the journal grows.
pub proof fn lemma_resolved_concat(a: Seq<EntryModel>, b: Seq<EntryModel>, id: u64)
    ensures
        resolved_ids(a + b).contains(id) <==> resolved_ids(a).contains(id) || resolved_ids(
            b,
        ).contains(id),
{
    if resolved_ids(a + b).contains(id) {
        let k = choose|k: int| 0 <= k < (a + b).len() && (a + b)[k].record_id == id;
        if k < a.len() {
            assert(a[k].record_id == id);
        } else {
            assert(b[k - a.len()].record_id == id);
        }
    }
    if resolved_ids(a).contains(id) {
        let k = choose|k: int| 0 <= k < a.len() && a[k].record_id == id;
        assert((a + b)[k].record_id == id);
    }
    if resolved_ids(b).contains(id) {
        let k = choose|k: int| 0 <= k < b.len() && b[k].record_id == id;
        assert((a + b)[a.len() + k].record_id == id);
    }
}

/// A planned candidate whose outcome the worker journals has its identifier
/// resolved by the appended entries.
proof fn lemma_new_entries_covers(
    planned: Seq<CandidateModel>,
    outcomes: Map<u64, Result<Seq<Seq<u8>>, ItemError>>,
    k: int,
)
    requires
        0 <= k < planned.len(),
        spec_worker_entry(planned[k], outcomes[planned[k].record_id]) is Some,
    ensures
        resolved_ids(spec_new_entries(planned, outcomes)).contains(planned[k].record_id),
    decreases planned.len(),
{
    let pre = spec_new_entries(planned.drop_last(), outcomes);
    let whole = spec_new_entries(planned, outcomes);
    if k == planned.len() - 1 {
        let e = spec_worker_entry(planned[k], outcomes[planned[k].record_id])->Some_0;
        assert(whole == pre.push(e));
        assert(whole[pre.len() as int].record_id == planned[k].record_id);
    } else {
        assert(planned.drop_last()[k] == planned[k]);
        lemma_new_entries_covers(planned.drop_last(), outcomes, k);
        let m = choose|m: int| 0 <= m < pre.len() && pre[m].record_id == planned[k].record_id;
        assert(whole[m].record_id == planned[k].record_id);
    }
}

/// Every identifier resolved by the appended entries comes from a planned
/// candidate whose outcome the worker journaled.
proof fn lemma_new_entries_ids(
    planned: Seq<CandidateModel>,
    outcomes: Map<u64, Result<Seq<Seq<u8>>, ItemError>>,
    id: u64,
)
    requires
        resolved_ids(spec_new_entries(planned, outcomes)).contains(id),
    ensures
        exists|k: int|
            0 <= k < planned.len() && (#[trigger] planned[k]).record_id == id && spec_worker_entry(
                planned[k],
                outcomes[id],
            ) is Some,
    decreases planned.len(),
{
    let whole = spec_new_entries(planned, outcomes);
    if planned.len() == 0 {
        let k = choose|k: int| 0 <= k < whole.len() && whole[k].record_id == id;
        assert(false);
    } else {
        let pre = spec_new_entries(planned.drop_last(), outcomes);
        match spec_worker_entry(planned.last(), outcomes[planned.last().record_id]) {
            Some(e) => {
                let m = choose|m: int| 0 <= m < whole.len() && whole[m].record_id == id;
                if m < pre.len() {
                    assert(pre[m].record_id == id);
                    assert(resolved_ids(pre).contains(id));
                    lemma_new_entries_ids(planned.drop_last(), outcomes, id);
                    let k = choose|k: int|
                        0 <= k < planned.drop_last().len()
                        && (#[trigger] planned.drop_last()[k]).record_id == id
                        && spec_worker_entry(planned.drop_last()[k], outcomes[id]) is Some;
                    assert(planned[k] == planned.drop_last()[k]);
                    assert(planned[k].record_id == id && spec_worker_entry(
                        planned[k],
                        outcomes[id],
                    ) is Some);
                } else {
                    assert(whole[m] == e);
                    assert(planned.last().record_id == id);
                    assert(planned[planned.len() - 1].record_id == id && spec_worker_entry(
                        planned[planned.len() - 1],
                        outcomes[id],
                    ) is Some);
                }
            },
            None => {
                lemma_new_entries_ids(planned.drop_last(), outcomes, id);
                let k = choose|k: int|
                    0 <= k < planned.drop_last().len()
                    && (#[trigger] planned.drop_last()[k]).record_id == id
                    && spec_worker_entry(planned.drop_last()[k], outcomes[id]) is Some;
                assert(planned[k] == planned.drop_last()[k]);
                assert(planned[k].record_id == id && spec_worker_entry(
                    planned[k],
                    outcomes[id],
                ) is Some);
            },
        }
    }
}

/// When every planned candidate is skipped, nothing is appended.
proof fn lemma_all_skips(
    planned: Seq<CandidateModel>,
    outcomes: Map<u64, Result<Seq<Seq<u8>>, ItemError>>,
)
    requires
        forall|i: int|
            0 <= i < planned.len() ==> spec_worker_entry(
                #[trigger] planned[i],
                outcomes[planned[i].record_id],
            ) is None,
    ensures
        spec_new_entries(planned, outcomes) == Seq::<EntryModel>::empty(),
    decreases planned.len(),
{
    if planned.len() == 0 {
        assert(spec_new_entries(planned, outcomes) =~= Seq::<EntryModel>::empty());
    } else {
        assert(planned[planned.len() - 1] == planned.last());
        assert forall|i: int| 0 <= i < planned.drop_last().len() implies spec_worker_entry(
            #[trigger] planned.drop_last()[i],
            outcomes[planned.drop_last()[i].record_id],
        ) is None by {
            assert(planned.drop_last()[i] == planned[i]);
        }
        lemma_all_skips(planned.drop_last(), outcomes);
    }
}

/// Idempotence: a second run against the same store and the same artifact
/// set appends nothing, so the journal — and its resolved set — is identical
/// after the second run.
pub proof fn lemma_idempotent(
    journal: Seq<EntryModel>,
    cands: Seq<CandidateModel>,
    outcomes: Map<u64, Result<Seq<Seq<u8>>, ItemError>>,
)
    ensures
        spec_run(spec_run(journal, cands, outcomes), cands, outcomes) == spec_run(
            journal,
            cands,
            outcomes,
        ),
{
    let plan1 = spec_plan(cands, resolved_ids(journal));
    let new1 = spec_new_entries(plan1, outcomes);
    let j1 = spec_run(journal, cands, outcomes);
    let plan2 = spec_plan(cands, resolved_ids(j1));
    assert forall|i: int| 0 <= i < plan2.len() implies spec_worker_entry(
        #[trigger] plan2[i],
        outcomes[plan2[i].record_id],
    ) is None by {
        let c = plan2[i];
        assert(plan2.contains(c));
        lemma_plan_membership(cands, resolved_ids(j1), c);
        lemma_resolved_concat(journal, new1, c.record_id);
        lemma_plan_membership(cands, resolved_ids(journal), c);
        if spec_worker_entry(c, outcomes[c.record_id]) is Some {
            let k = choose|k: int| 0 <= k < plan1.len() && plan1[k] == c;
            lemma_new_entries_covers(plan1, outcomes, k);
            assert(false);
        }
    }
    lemma_all_skips(plan2, outcomes);
    assert(spec_run(j1, cands, outcomes) =~= j1);
}

/// Resumability: however many of a run's entries were journaled before an
/// interruption, a fresh run selects exactly the candidates whose identifiers
/// the journal does not yet hold — and never one that it does. The resolved
/// set only grows.
pub proof fn lemma_resumable(
    journal: Seq<EntryModel>,
    cands: Seq<CandidateModel>,
    outcomes: Map<u64, Result<Seq<Seq<u8>>, ItemError>>,
    n: int,
    c: CandidateModel,
)
    requires
        0 <= n <= spec_new_entries(spec_plan(cands, resolved_ids(journal)), outcomes).len(),
    ensures
        ({
            let mid = journal + spec_new_entries(
                spec_plan(cands, resolved_ids(journal)),
                outcomes,
            ).take(n);
            &&& (spec_plan(cands, resolved_ids(mid)).contains(c) <==> cands.contains(c)
                && !resolved_ids(mid).contains(c.record_id))
            &&& (resolved_ids(journal).contains(c.record_id) ==> resolved_ids(mid).contains(
                c.record_id,
            ))
        }),
{
    let taken = spec_new_entries(spec_plan(cands, resolved_ids(journal)), outcomes).take(n);
    let mid = journal + taken;
    lemma_plan_membership(cands, resolved_ids(mid), c);
    lemma_resolved_concat(journal, taken, c.record_id);
}

/// Skip-safety: a candidate whose inspection fails is not journaled by the
/// run — its identifier stays unresolved — and it is selected again by the
/// next run.
pub proof fn lemma_skip_safety(
    journal: Seq<EntryModel>,
    cands: Seq<CandidateModel>,
    outcomes: Map<u64, Result<Seq<Seq<u8>>, ItemError>>,
    c: CandidateModel,
)
    requires
        cands.contains(c),
        outcomes[c.record_id] is Err,
        !resolved_ids(journal).contains(c.record_id),
    ensures
        !resolved_ids(spec_run(journal, cands, outcomes)).contains(c.record_id),
        spec_plan(cands, resolved_ids(spec_run(journal, cands, outcomes))).contains(c),
{
    let plan1 = spec_plan(cands, resolved_ids(journal));
    let new1 = spec_new_entries(plan1, outcomes);
    let j1 = spec_run(journal, cands, outcomes);
    lemma_resolved_concat(journal, new1, c.record_id);
    if resolved_ids(new1).contains(c.record_id) {
        lemma_new_entries_ids(plan1, outcomes, c.record_id);
        assert(false);
    }
    lemma_plan_membership(cands, resolved_ids(j1), c);
}

} // verus!
