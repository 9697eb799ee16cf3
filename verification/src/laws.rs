use crate::event_loop::{hook_step, run_from, step_of, EventLoop};
use crate::order::{event_lt, is_max_of, valid_order};
use vstd::multiset::Multiset;
use vstd::prelude::*;
use vstd::std_specs::cmp::PartialOrdSpec;
use core::cmp::Ordering;

verus! {

broadcast use vstd::multiset::group_multiset_axioms, vstd::seq_lib::group_to_multiset_ensures;

/// The number of events that the `finalise_event` hook produces over the
/// course of a run that executes the events of `trace` in order.
pub open spec fn produced_count<L: EventLoop>(l: L, c: L::Context, trace: Seq<L::Event>) -> nat
    decreases trace.len(),
{
    if trace.len() == 0 {
        0
    } else {
        let (l2, c2, produced) = hook_step(l, c, trace[0]);
        produced.len() + produced_count(l2, c2, trace.drop_first())
    }
}

/// The loop, context and queue after the first `i` events of `trace` have
/// been executed, starting from loop `l`, context `c` and queue `q`.
pub open spec fn state_at<L: EventLoop>(
    l: L,
    c: L::Context,
    q: Multiset<L::Event>,
    trace: Seq<L::Event>,
    i: int,
) -> (L, L::Context, Multiset<L::Event>)
    decreases i,
{
    if i <= 0 {
        (l, c, q)
    } else {
        let (l2, c2, q2) = step_of(l, c, q, trace[0]);
        state_at(l2, c2, q2, trace.drop_first(), i - 1)
    }
}

/// The loop and context after every hook mutation of a run that executes the
/// events of `trace` in order: `setup`'s successor hooks applied in temporal
/// order, independently of any queue.
pub open spec fn hooks_fold<L: EventLoop>(l: L, c: L::Context, trace: Seq<L::Event>) -> (
    L,
    L::Context,
)
    decreases trace.len(),
{
    if trace.len() == 0 {
        (l, c)
    } else {
        let (l2, c2, produced) = hook_step(l, c, trace[0]);
        hooks_fold(l2, c2, trace.drop_first())
    }
}

/// A run is still a run from any of its intermediate states: after `i` of
/// its events, the remaining trace is a run from the state then reached.
pub proof fn lemma_run_from_suffix<L: EventLoop>(
    l: L,
    c: L::Context,
    q: Multiset<L::Event>,
    trace: Seq<L::Event>,
    out: L::Output,
    i: int,
)
    requires
        run_from(l, c, q, trace, out),
        0 <= i <= trace.len(),
    ensures
        run_from(
            state_at(l, c, q, trace, i).0,
            state_at(l, c, q, trace, i).1,
            state_at(l, c, q, trace, i).2,
            trace.skip(i),
            out,
        ),
    decreases i,
{
    if i <= 0 {
        assert(trace.skip(0) =~= trace);
    } else {
        let (l2, c2, q2) = step_of(l, c, q, trace[0]);
        lemma_run_from_suffix(l2, c2, q2, trace.drop_first(), out, i - 1);
        assert(trace.drop_first().skip(i - 1) =~= trace.skip(i));
    }
}

/// Termination as exact accounting: a run executes exactly as many events as
/// were ever enqueued — the events initially pending plus every event that
/// the `finalise_event` hook produced along the way.
pub proof fn lemma_total_work<L: EventLoop>(
    l: L,
    c: L::Context,
    q: Multiset<L::Event>,
    trace: Seq<L::Event>,
    out: L::Output,
)
    requires
        run_from(l, c, q, trace, out),
    ensures
        trace.len() == q.len() + produced_count(l, c, trace),
    decreases trace.len(),
{
    if trace.len() == 0 {
    } else {
        let e = trace[0];
        let (l2, c2, produced) = hook_step(l, c, e);
        let q2 = step_of(l, c, q, e).2;
        lemma_total_work(l2, c2, q2, trace.drop_first(), out);
        assert forall|v: L::Event|
            Multiset::singleton(e).count(v) <= q.count(v) by {
            if v == e {
                assert(q.count(e) > 0);
            }
        }
        assert(Multiset::singleton(e).subset_of(q));
        assert(q.remove(e).len() == q.len() - 1);
        assert(q2.len() == q.len() - 1 + produced.len());
    }
}

/// Max-first selection: at each step of a run, the event executed is maximal
/// among the events then pending — no pending event is strictly greater.
pub proof fn lemma_max_first<L: EventLoop>(
    l: L,
    c: L::Context,
    q: Multiset<L::Event>,
    trace: Seq<L::Event>,
    out: L::Output,
    i: int,
)
    requires
        run_from(l, c, q, trace, out),
        0 <= i < trace.len(),
    ensures
        is_max_of(trace[i], state_at(l, c, q, trace, i).2),
        valid_order::<L::Event>() ==> forall|f: L::Event|
            #[trigger] state_at(l, c, q, trace, i).2.count(f) > 0 ==> f.partial_cmp_spec(
                &trace[i],
            ) != Some(Ordering::Greater),
{
    lemma_run_from_suffix(l, c, q, trace, out, i);
    let qi = state_at(l, c, q, trace, i).2;
    assert(trace.skip(i)[0] == trace[i]);
    assert(is_max_of(trace[i], qi));
    if valid_order::<L::Event>() {
        assert forall|f: L::Event| #[trigger] qi.count(f) > 0 implies f.partial_cmp_spec(
            &trace[i],
        ) != Some(Ordering::Greater) by {
            assert(!event_lt(trace[i], f));
        }
    }
}

/// Context threading: the run's output is `finalise` of exactly the loop
/// state and context obtained by applying every hook mutation in the order
/// the events were executed — the queue adds nothing to the outcome.
pub proof fn lemma_context_threading<L: EventLoop>(
    l: L,
    c: L::Context,
    q: Multiset<L::Event>,
    trace: Seq<L::Event>,
    out: L::Output,
)
    requires
        run_from(l, c, q, trace, out),
    ensures
        out == hooks_fold(l, c, trace).0.finalise_spec(hooks_fold(l, c, trace).1),
    decreases trace.len(),
{
    if trace.len() == 0 {
    } else {
        let (l2, c2, q2) = step_of(l, c, q, trace[0]);
        lemma_context_threading(l2, c2, q2, trace.drop_first(), out);
    }
}

/// No event resurrection: each step of a run removes exactly the executed
/// event instance from the queue, and adds exactly the events that
/// `finalise_event` produced for it — a dequeued instance re-enters only if
/// a hook explicitly returns an equal value.
pub proof fn lemma_no_resurrection<L: EventLoop>(
    l: L,
    c: L::Context,
    q: Multiset<L::Event>,
    trace: Seq<L::Event>,
    out: L::Output,
    i: int,
)
    requires
        run_from(l, c, q, trace, out),
        0 <= i < trace.len(),
    ensures
        ({
            let (li, ci, qi) = state_at(l, c, q, trace, i);
            let produced = hook_step(li, ci, trace[i]).2;
            &&& state_at(l, c, q, trace, i + 1).2 == qi.remove(trace[i]).add(
                produced.to_multiset(),
            )
            &&& forall|v: L::Event| #[trigger] state_at(l, c, q, trace, i + 1).2.count(v) == qi.count(
                v,
            ) - (if v == trace[i] {
                1int
            } else {
                0int
            }) + produced.to_multiset().count(v)
        }),
    decreases i,
{
    let (li, ci, qi) = state_at(l, c, q, trace, i);
    let produced = hook_step(li, ci, trace[i]).2;
    if i <= 0 {
        let (l2, c2, q2) = step_of(l, c, q, trace[0]);
        assert(state_at(l2, c2, q2, trace.drop_first(), 0) == (l2, c2, q2));
        assert(state_at(l, c, q, trace, 1).2 == step_of(l, c, q, trace[0]).2);
    } else {
        let (l2, c2, q2) = step_of(l, c, q, trace[0]);
        lemma_no_resurrection(l2, c2, q2, trace.drop_first(), out, i - 1);
        assert(trace.drop_first()[i - 1] == trace[i]);
    }
    let e = trace[i];
    lemma_run_from_suffix(l, c, q, trace, out, i);
    assert(trace.skip(i)[0] == e);
    assert(qi.count(e) > 0);
    assert forall|v: L::Event| #[trigger] state_at(l, c, q, trace, i + 1).2.count(v) == qi.count(v)
        - (if v == e {
        1int
    } else {
        0int
    }) + produced.to_multiset().count(v) by {
        if v == e {
            assert(Multiset::singleton(e).count(v) == 1);
        } else {
            assert(Multiset::singleton(e).count(v) == 0);
        }
    }
}

} // verus!
