//! The batch protocol's laws, proved over the abstract transition
//! [`step`]: a complete batch yields exactly one DONE summary, an
//! incomplete one exactly one TIMEOUT summary at its deadline, and a
//! mismatched event exactly one summary for the abandoned batch.

use vstd::prelude::*;

use crate::notifier::{
    accumulate, clamp_size, empty_state, lemma_insert_code, remaining_of, sorted_strict, step,
    CtxV, EmitV, ResV,
};

verus! {

/// The state after a run of outcome arrivals, no deadline among them.
pub open spec fn run_state(s: CtxV, evs: Seq<ResV>) -> CtxV
    decreases evs.len(),
{
    if evs.len() == 0 {
        s
    } else {
        run_state(step(s, Some(evs[0])).0, evs.drop_first())
    }
}

/// Every summary emitted along such a run, in order.
pub open spec fn run_emits(s: CtxV, evs: Seq<ResV>) -> Seq<EmitV>
    decreases evs.len(),
{
    if evs.len() == 0 {
        Seq::empty()
    } else {
        let r = step(s, Some(evs[0]));
        (match r.1 {
            Some(e) => seq![e],
            None => Seq::empty(),
        }) + run_emits(r.0, evs.drop_first())
    }
}

/// All events in a run belong to one batch descriptor.
pub open spec fn uniform_batch(evs: Seq<ResV>, id: Seq<char>, size: u64) -> bool {
    forall|k: int|
        0 <= k < evs.len() ==> (#[trigger] evs[k]).batch.id == id && evs[k].batch.size == size
}

/// All events in a run are successes, with pairwise distinct codes.
pub open spec fn distinct_successes(evs: Seq<ResV>) -> bool {
    &&& forall|k: int| 0 <= k < evs.len() ==> (#[trigger] evs[k]).code is Some
    &&& forall|k: int, l: int|
        0 <= k < l < evs.len() ==> (#[trigger] evs[k]).code != (#[trigger] evs[l]).code
}

/// Inductive core of [`lemma_complete_batch`]: from a state that has
/// already counted `k` successes of the batch, the remaining distinct
/// successes drive it to completion with exactly one summary at the end.
proof fn lemma_complete_run(evs: Seq<ResV>, id: Seq<char>, size: u64, s: CtxV, k: nat)
    requires
        1 <= size <= usize::MAX,
        evs.len() >= 1,
        k + evs.len() == size,
        uniform_batch(evs, id, size),
        distinct_successes(evs),
        s.ok == k,
        s.err == 0,
        s.codes.len() == k,
        sorted_strict(s.codes),
        match s.batch {
            Some(b) => b.batch.id == id,
            None => k == 0,
        },
        forall|j: int| 0 <= j < evs.len() ==> !s.codes.contains((#[trigger] evs[j]).code->0),
    ensures
        run_state(s, evs) == empty_state(),
        run_emits(s, evs).len() == 1,
        ({
            let em = run_emits(s, evs)[0];
            &&& em.hint == ("DONE")@
            &&& em.state.ok == size
            &&& em.state.err == 0
            &&& remaining_of(em.state) == 0
            &&& em.state.codes.len() == size
        }),
    decreases evs.len(),
{
    let e = evs[0];
    let c = e.code->0;
    lemma_insert_code(s.codes, c);
    let s1 = accumulate(s, e);
    assert(s1.ok == k + 1);
    assert(s1.codes.len() == k + 1);
    assert(clamp_size(size) == size);
    if evs.len() == 1 {
        assert(s1.ok + s1.err == clamp_size(e.batch.size));
        let r = step(s, Some(e));
        assert(r.0 == empty_state());
        assert(evs.drop_first().len() == 0);
        assert(run_state(r.0, evs.drop_first()) == r.0);
        assert(run_state(s, evs) == empty_state());
        assert(run_emits(r.0, evs.drop_first()) =~= Seq::<EmitV>::empty());
        assert(run_emits(s, evs) =~= seq![EmitV { state: s1, hint: ("DONE")@ }]);
        assert(remaining_of(s1) == 0);
    } else {
        assert(s1.ok + s1.err == k + 1 < size);
        let r = step(s, Some(e));
        assert(r.0 == s1 && r.1 is None);
        let rest = evs.drop_first();
        assert(uniform_batch(rest, id, size)) by {
            assert(forall|j: int| 0 <= j < rest.len() ==> rest[j] == evs[j + 1]);
        }
        assert(distinct_successes(rest)) by {
            assert(forall|j: int| 0 <= j < rest.len() ==> rest[j] == evs[j + 1]);
        }
        assert(forall|j: int|
            0 <= j < rest.len() ==> !s1.codes.contains((#[trigger] rest[j]).code->0)) by {
            assert forall|j: int|
                0 <= j < rest.len() implies !s1.codes.contains((#[trigger] rest[j]).code->0) by {
                assert(rest[j] == evs[j + 1]);
                assert(evs[j + 1].code != evs[0].code);
                assert(evs[j + 1].code is Some && evs[0].code is Some);
                assert(evs[j + 1].code->0 != c);
                assert(!s.codes.contains(evs[j + 1].code->0));
            }
        }
        lemma_complete_run(rest, id, size, s1, (k + 1) as nat);
        assert(run_emits(s, evs) =~= run_emits(s1, rest));
    }
}

/// A batch of expected size `N` whose `N` outcomes all arrive with one
/// batch id, all successes with pairwise distinct codes, before any
/// deadline: exactly one summary is emitted, at the final outcome, tagged
/// DONE, counting `N` successes, no failures and nothing remaining, and
/// listing one code per outcome; the accumulator ends empty.
pub proof fn lemma_complete_batch(evs: Seq<ResV>, id: Seq<char>, size: u64)
    requires
        1 <= size <= usize::MAX,
        evs.len() == size,
        uniform_batch(evs, id, size),
        distinct_successes(evs),
    ensures
        run_state(empty_state(), evs) == empty_state(),
        run_emits(empty_state(), evs).len() == 1,
        ({
            let em = run_emits(empty_state(), evs)[0];
            &&& em.hint == ("DONE")@
            &&& em.state.ok == size
            &&& em.state.err == 0
            &&& remaining_of(em.state) == 0
            &&& em.state.codes.len() == size
        }),
{
    lemma_complete_run(evs, id, size, empty_state(), 0);
}

/// How many events of a run are successes.
pub open spec fn count_ok(evs: Seq<ResV>) -> nat
    decreases evs.len(),
{
    if evs.len() == 0 {
        0
    } else {
        count_ok(evs.drop_first()) + (if evs[0].code is Some {
            1nat
        } else {
            0nat
        })
    }
}

/// Inductive core of [`lemma_partial_batch_timeout`]: too few events of
/// one batch never finalize it and emit nothing, and the counters track
/// the successes and failures seen.
proof fn lemma_partial_run(evs: Seq<ResV>, id: Seq<char>, size: u64, s: CtxV, k: nat)
    requires
        size <= usize::MAX,
        k + evs.len() < size,
        uniform_batch(evs, id, size),
        s.ok + s.err == k,
        match s.batch {
            Some(b) => b.batch.id == id,
            None => k == 0,
        },
    ensures
        run_emits(s, evs).len() == 0,
        run_state(s, evs).ok == s.ok + count_ok(evs),
        run_state(s, evs).err == s.err + evs.len() - count_ok(evs),
        match run_state(s, evs).batch {
            Some(b) => b.batch.id == id,
            None => k + evs.len() == 0,
        },
    decreases evs.len(),
{
    if evs.len() > 0 {
        let e = evs[0];
        let s1 = accumulate(s, e);
        assert(clamp_size(size) == size);
        assert(s1.ok + s1.err == k + 1 < size);
        let r = step(s, Some(e));
        assert(r.0 == s1 && r.1 is None);
        let rest = evs.drop_first();
        assert(uniform_batch(rest, id, size)) by {
            assert(forall|j: int| 0 <= j < rest.len() ==> rest[j] == evs[j + 1]);
        }
        lemma_partial_run(rest, id, size, s1, (k + 1) as nat);
        assert(run_emits(s, evs) =~= run_emits(s1, rest));
    }
}

/// A batch that receives at least one but fewer than its expected number
/// of outcomes, all with one batch id, and then its deadline: nothing is
/// emitted while accumulating, and the deadline emits exactly one summary,
/// tagged TIMEOUT, carrying the partial counts; the accumulator ends
/// empty.
pub proof fn lemma_partial_batch_timeout(evs: Seq<ResV>, id: Seq<char>, size: u64)
    requires
        size <= usize::MAX,
        1 <= evs.len() < size,
        uniform_batch(evs, id, size),
    ensures
        run_emits(empty_state(), evs).len() == 0,
        ({
            let s = run_state(empty_state(), evs);
            &&& s.ok == count_ok(evs)
            &&& s.err == evs.len() - count_ok(evs)
            &&& step(s, None) == (empty_state(), Some(EmitV { state: s, hint: ("TIMEOUT")@ }))
        }),
{
    lemma_partial_run(evs, id, size, empty_state(), 0);
}

/// An event whose batch id differs from the batch in flight: the step
/// emits exactly one summary, rendered from the abandoned batch's state
/// and tagged as a mismatch, and resets the accumulator to empty — so the
/// triggering event is not folded into any subsequent batch.
pub proof fn lemma_mismatch_abandons(s: CtxV, e: ResV)
    requires
        match s.batch {
            Some(b) => b.batch.id != e.batch.id,
            None => false,
        },
    ensures
        step(s, Some(e)) == (
            empty_state(),
            Some(EmitV { state: s, hint: ("BATCH MISMATCH")@ }),
        ),
{
}

} // verus!
