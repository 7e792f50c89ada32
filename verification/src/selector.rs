//! Candidate selection: the store hands over every record still missing the
//! target field; the resolved-set filter then removes whatever the journal
//! already covers, so no artifact is ever inspected twice.

use vstd::prelude::*;

use crate::codec::seq_views;
use crate::journal::ResolvedSet;

verus! {

/// The ghost shape of a candidate.
pub ghost struct CandidateModel {
    pub record_id: u64,
    pub name: Seq<u8>,
    pub version: Seq<u8>,
    pub recorded: Option<Seq<Seq<u8>>>,
}

/// One record still missing the target field: its identifier, the lookup key
/// (name and version) that locates its artifact, and, for tasks that only
/// update on a mismatch, the value columns the store currently holds.
pub struct Candidate {
    pub record_id: u64,
    pub name: Vec<u8>,
    pub version: Vec<u8>,
    pub recorded: Option<Vec<Vec<u8>>>,
}

impl View for Candidate {
    type V = CandidateModel;

    open spec fn view(&self) -> CandidateModel {
        CandidateModel {
            record_id: self.record_id,
            name: self.name@,
            version: self.version@,
            recorded: match self.recorded {
                None => None,
                Some(v) => Some(seq_views(v@)),
            },
        }
    }
}

/// The models of a sequence of candidates.
pub open spec fn cand_models(cs: Seq<Candidate>) -> Seq<CandidateModel> {
    Seq::new(cs.len(), |i: int| cs[i]@)
}

/// The candidates left after removing those already resolved, in order.
pub open spec fn spec_plan(cands: Seq<CandidateModel>, resolved: Set<u64>) -> Seq<CandidateModel>
    decreases cands.len(),
{
    if cands.len() == 0 {
        Seq::empty()
    } else {
        let pre = spec_plan(cands.drop_last(), resolved);
        if resolved.contains(cands.last().record_id) {
            pre
        } else {
            pre.push(cands.last())
        }
    }
}

/// The plan holds exactly the candidates whose identifier is unresolved:
/// nothing already journaled is inspected again, and nothing unresolved is
/// left behind.
pub proof fn lemma_plan_membership(cands: Seq<CandidateModel>, resolved: Set<u64>, c: CandidateModel)
    ensures
        spec_plan(cands, resolved).contains(c) <==> cands.contains(c) && !resolved.contains(
            c.record_id,
        ),
    decreases cands.len(),
{
    if cands.len() > 0 {
        lemma_plan_membership(cands.drop_last(), resolved, c);
        let pre = spec_plan(cands.drop_last(), resolved);
        let whole = spec_plan(cands, resolved);
        if whole.contains(c) {
            let k = choose|k: int| 0 <= k < whole.len() && whole[k] == c;
            if k < pre.len() {
                assert(pre[k] == c);
                assert(pre.contains(c));
                let m = choose|m: int|
                    0 <= m < cands.drop_last().len() && cands.drop_last()[m] == c;
                assert(cands[m] == c);
                assert(cands.contains(c));
            } else {
                assert(c == cands.last());
                assert(cands[cands.len() - 1] == c);
                assert(cands.contains(c));
            }
        }
        if cands.contains(c) && !resolved.contains(c.record_id) {
            let k = choose|k: int| 0 <= k < cands.len() && cands[k] == c;
            if k < cands.len() - 1 {
                assert(cands.drop_last()[k] == c);
                assert(cands.drop_last().contains(c));
                let m = choose|m: int| 0 <= m < pre.len() && pre[m] == c;
                assert(whole[m] == c);
                assert(whole.contains(c));
            } else {
                assert(c == cands.last());
                assert(whole[whole.len() - 1] == c);
                assert(whole.contains(c));
            }
        }
    }
}

/// Removes every candidate whose identifier the journal already resolves.
/// Pure: no store access, no side effects; a missing journal is the empty set.
pub fn filter_candidates(cands: Vec<Candidate>, resolved: &ResolvedSet) -> (r: Vec<Candidate>)
    ensures
        cand_models(r@) == spec_plan(cand_models(cands@), resolved@),
{
    let ghost orig = cand_models(cands@);
    let mut rest = cands;
    let n = rest.len();
    proof {
        assert(orig.len() == n);
    }
    let mut out: Vec<Candidate> = Vec::new();
    let mut i: usize = 0;
    proof {
        assert(cand_models(rest@) =~= orig.skip(0));
        assert(orig.take(0) =~= Seq::<CandidateModel>::empty());
        assert(cand_models(out@) =~= Seq::<CandidateModel>::empty());
    }
    while rest.len() > 0
        invariant
            i + rest@.len() == orig.len(),
            orig.len() <= usize::MAX,
            cand_models(rest@) == orig.skip(i as int),
            cand_models(out@) == spec_plan(orig.take(i as int), resolved@),
        decreases rest@.len(),
    {
        let ghost rest0 = rest@;
        let c = rest.remove(0);
        proof {
            assert(cand_models(rest0)[0] == rest0[0]@);
            assert(c@ == orig.skip(i as int)[0]);
            assert(c@ == orig[i as int]);
            assert forall|j: int| 0 <= j < rest@.len() implies cand_models(rest@)[j] == orig.skip(
                i as int + 1,
            )[j] by {
                assert(rest@[j] == rest0[j + 1]);
                assert(cand_models(rest0)[j + 1] == rest0[j + 1]@);
                assert(orig.skip(i as int)[j + 1] == orig.skip(i as int + 1)[j]);
            }
            assert(cand_models(rest@) =~= orig.skip(i as int + 1));
            assert(orig.take(i as int + 1).drop_last() =~= orig.take(i as int));
            assert(orig.take(i as int + 1).last() == orig[i as int]);
        }
        let ghost pre = cand_models(out@);
        if !resolved.contains(c.record_id) {
            out.push(c);
            proof {
                assert(cand_models(out@) =~= pre.push(orig[i as int]));
            }
        }
        i += 1;
    }
    proof {
        assert(orig.take(i as int) =~= orig);
    }
    out
}

} // verus!
