use crate::events::Event;
use crate::order::{is_max_of, valid_order};
use crate::queue::EventQueue;
use vstd::multiset::Multiset;
use vstd::prelude::*;
use vstd::seq_lib::group_to_multiset_ensures;

verus! {

broadcast use vstd::multiset::group_multiset_axioms, group_to_multiset_ensures;

/// Types which execute a queue of events.
///
/// An `EventLoop` is parameterised by four hooks: `setup` populates the
/// queue, `event_context` derives the value handed to each event's
/// execution, `finalise_event` receives each output and returns the events
/// to enqueue next, and `finalise` turns the final context into the run's
/// output.  Each hook is described by a spec function that its implementor
/// supplies; the driver `execute` is proved against those descriptions.
pub trait EventLoop: Sized {
    /// The event type of the `EventLoop`.
    ///
    /// Ordering is maximum-ordered-event first, under the order that
    /// `partial_cmp` encodes.
    type Event: Event + PartialOrd;

    /// The context carried across each event execution.
    type Context;

    /// The final output once all events have been executed.
    type Output;

    /// Whether `setup` may be called in this state.
    spec fn setup_enabled(self, context: Self::Context) -> bool;

    /// The loop, context and initial events that `setup` yields.
    spec fn setup_spec(self, context: Self::Context) -> (Self, Self::Context, Seq<Self::Event>);

    /// Whether `event_context` may be called in this state.
    spec fn event_context_enabled(self, context: Self::Context) -> bool;

    /// The loop, context and event context that `event_context` yields.
    spec fn event_context_spec(self, context: Self::Context) -> (
        Self,
        Self::Context,
        <Self::Event as Event>::Context,
    );

    /// Whether `finalise_event` may be called in this state on `output`.
    spec fn finalise_event_enabled(
        self,
        context: Self::Context,
        output: <Self::Event as Event>::Output,
    ) -> bool;

    /// The loop, context and newly produced events that `finalise_event`
    /// yields.
    spec fn finalise_event_spec(
        self,
        context: Self::Context,
        output: <Self::Event as Event>::Output,
    ) -> (Self, Self::Context, Seq<Self::Event>);

    /// Whether `finalise` may be called in this state.
    spec fn finalise_enabled(self, context: Self::Context) -> bool;

    /// The output that `finalise` yields.
    spec fn finalise_spec(self, context: Self::Context) -> Self::Output;

    /// Generates a collection of initial events to populate the event queue
    /// in an `execute` call.
    fn setup(&mut self, context: &mut Self::Context) -> (events: Vec<Self::Event>)
        requires
            old(self).setup_enabled(*old(context)),
        ensures
            (*final(self), *final(context), events@) == old(self).setup_spec(*old(context)),
    ;

    /// Converts the `EventLoop`s context into an `Event`s context for
    /// execution.  Called before every event is executed.
    fn event_context(&mut self, context: &mut Self::Context) -> (event_context: <Self::Event as Event>::Context)
        requires
            old(self).event_context_enabled(*old(context)),
        ensures
            (*final(self), *final(context), event_context) == old(self).event_context_spec(
                *old(context),
            ),
    ;

    /// Converts an `Event`s output into more events to be queued for
    /// execution.  Called after every event is executed.
    fn finalise_event(
        &mut self,
        context: &mut Self::Context,
        output: <Self::Event as Event>::Output,
    ) -> (events: Vec<Self::Event>)
        requires
            old(self).finalise_event_enabled(*old(context), output),
        ensures
            (*final(self), *final(context), events@) == old(self).finalise_event_spec(
                *old(context),
                output,
            ),
    ;

    /// Converts the `EventLoop`s context into an `EventLoop`s output.
    /// Called once all events have been executed.
    fn finalise(self, context: Self::Context) -> (output: Self::Output)
        requires
            self.finalise_enabled(context),
        ensures
            output == self.finalise_spec(context),
    ;
}

/// The driver of an `EventLoop`.
///
/// 1. Calls `setup`, exactly once, to populate the event queue.
/// 2. Calls `event_context` before executing an `Event` from the queue.
/// 3. Executes a maximal `Event` from the queue.
/// 4. Calls `finalise_event` after executing an `Event` from the queue,
///    and enqueues the events it returns.
/// 5. Calls `finalise` after all `Event`s have been executed.
///
/// The output is that of some complete run: a trace of executed events
/// exists that dequeues a maximal pending event at every step, threads
/// the context through every hook in temporal order, and drains the
/// queue.  Which of several equal-priority events goes first is not
/// specified.
pub fn execute<L: EventLoop>(lp: L, context: L::Context) -> (output: L::Output)
    requires
        valid_order::<L::Event>(),
        lp.setup_enabled(context),
        exists|fuel: nat|
            #[trigger] safe_for(
                lp.setup_spec(context).0,
                lp.setup_spec(context).1,
                lp.setup_spec(context).2.to_multiset(),
                fuel,
            ),
    ensures
        exists|trace: Seq<L::Event>|
            #[trigger] run_from(
                lp.setup_spec(context).0,
                lp.setup_spec(context).1,
                lp.setup_spec(context).2.to_multiset(),
                trace,
                output,
            ),
{
    let ghost self0 = lp;
    let ghost context0 = context;
    let mut lp = lp;
    let mut ctx = context;
    let events = lp.setup(&mut ctx);
    let mut queue = EventQueue::<L::Event>::from_vec(events);
    let ghost l0 = self0.setup_spec(context0).0;
    let ghost c0 = self0.setup_spec(context0).1;
    let ghost q0 = self0.setup_spec(context0).2.to_multiset();
    let ghost mut fuel: nat = choose|fuel: nat| safe_for(l0, c0, q0, fuel);
    let ghost mut prefix: Seq<L::Event> = Seq::empty();
    proof {
        assert forall|tr: Seq<L::Event>, out: L::Output| #[trigger]
            run_from(lp, ctx, queue@, tr, out) implies run_from(
            l0,
            c0,
            q0,
            prefix + tr,
            out,
        ) by {
            assert(prefix + tr =~= tr);
        }
    }
    while !queue.is_empty()
        invariant
            valid_order::<L::Event>(),
            safe_for(lp, ctx, queue@, fuel),
            forall|tr: Seq<L::Event>, out: L::Output| #[trigger]
                run_from(lp, ctx, queue@, tr, out) ==> run_from(l0, c0, q0, prefix + tr, out),
        decreases fuel,
    {
        let ghost l_pre = lp;
        let ghost c_pre = ctx;
        let ghost q_pre = queue@;
        let ghost prefix_pre = prefix;
        let event = queue.pop_max();
        let event_context = lp.event_context(&mut ctx);
        proof {
            assert(is_max_of(event, q_pre));
            assert(event.execute_enabled(event_context));
        }
        let output = event.execute(event_context);
        let produced = lp.finalise_event(&mut ctx, output);
        queue.append(produced);
        proof {
            assert(queue@ =~= step_of(l_pre, c_pre, q_pre, event).2);
            fuel = (fuel - 1) as nat;
            prefix = prefix.push(event);
            assert forall|tr: Seq<L::Event>, out: L::Output| #[trigger]
                run_from(lp, ctx, queue@, tr, out) implies run_from(
                l0,
                c0,
                q0,
                prefix + tr,
                out,
            ) by {
                lemma_run_from_cons(l_pre, c_pre, q_pre, event, tr, out);
                assert(run_from(l_pre, c_pre, q_pre, seq![event] + tr, out));
                assert(prefix_pre + (seq![event] + tr) =~= prefix + tr);
            }
        }
    }
    proof {
        assert(queue@.len() == 0);
    }
    let ghost lp_end = lp;
    let ghost ctx_end = ctx;
    let output = lp.finalise(ctx);
    proof {
        assert(run_from(lp_end, ctx_end, queue@, Seq::<L::Event>::empty(), output));
        assert(prefix + Seq::<L::Event>::empty() =~= prefix);
        assert(run_from(
            self0.setup_spec(context0).0,
            self0.setup_spec(context0).1,
            self0.setup_spec(context0).2.to_multiset(),
            prefix,
            output,
        ));
    }
    output
}

/// Prepending a maximal event `e` to a run that continues from the state
/// `step_of(l, c, q, e)` gives a run from `(l, c, q)`.
proof fn lemma_run_from_cons<L: EventLoop>(
    l: L,
    c: L::Context,
    q: Multiset<L::Event>,
    e: L::Event,
    trace: Seq<L::Event>,
    out: L::Output,
)
    requires
        is_max_of(e, q),
        run_from(step_of(l, c, q, e).0, step_of(l, c, q, e).1, step_of(l, c, q, e).2, trace, out),
    ensures
        run_from(l, c, q, seq![e] + trace, out),
{
    let whole = seq![e] + trace;
    assert(whole.len() == 1 + trace.len());
    assert(whole[0] == e);
    assert(whole.drop_first() =~= trace);
}

/// The effect of running the per-event hooks once on event `e`: the loop and
/// context after `event_context`, the event's execution and
/// `finalise_event`, together with the events that `finalise_event`
/// produced.
pub open spec fn hook_step<L: EventLoop>(l: L, c: L::Context, e: L::Event) -> (
    L,
    L::Context,
    Seq<L::Event>,
) {
    let (l1, c1, ec) = l.event_context_spec(c);
    let output = e.execute_spec(ec);
    l1.finalise_event_spec(c1, output)
}

/// One full step of the drive loop from queue `q`: event `e` is dequeued,
/// the hooks run, and the events they produce are enqueued.
pub open spec fn step_of<L: EventLoop>(l: L, c: L::Context, q: Multiset<L::Event>, e: L::Event) -> (
    L,
    L::Context,
    Multiset<L::Event>,
) {
    let (l2, c2, produced) = hook_step(l, c, e);
    (l2, c2, q.remove(e).add(produced.to_multiset()))
}

/// A complete run of the drive loop from loop state `l`, context `c` and
/// queue `q`: the events of `trace` are executed in order, each a maximal
/// element of the queue at its turn, each dequeue followed by enqueueing
/// exactly what `finalise_event` produced; the queue ends empty and the run
/// returns `out`.
pub open spec fn run_from<L: EventLoop>(
    l: L,
    c: L::Context,
    q: Multiset<L::Event>,
    trace: Seq<L::Event>,
    out: L::Output,
) -> bool
    decreases trace.len(),
{
    if trace.len() == 0 {
        &&& q.len() == 0
        &&& out == l.finalise_spec(c)
    } else {
        let e = trace[0];
        &&& is_max_of(e, q)
        &&& {
            let (l2, c2, q2) = step_of(l, c, q, e);
            run_from(l2, c2, q2, trace.drop_first(), out)
        }
    }
}

/// Every possible continuation of the drive loop from this state finishes
/// within `fuel` steps, and every hook and event execution along the way is
/// enabled.  This is the driver's precondition beyond `setup` itself: hooks
/// must not re-enqueue events indefinitely, and no reachable execution may
/// fail.
pub open spec fn safe_for<L: EventLoop>(
    l: L,
    c: L::Context,
    q: Multiset<L::Event>,
    fuel: nat,
) -> bool
    decreases fuel,
{
    if q.len() == 0 {
        l.finalise_enabled(c)
    } else {
        &&& fuel > 0
        &&& l.event_context_enabled(c)
        &&& forall|e: L::Event| #[trigger] is_max_of(e, q) ==> {
            let (l1, c1, ec) = l.event_context_spec(c);
            &&& e.execute_enabled(ec)
            &&& l1.finalise_event_enabled(c1, e.execute_spec(ec))
            &&& {
                let (l2, c2, q2) = step_of(l, c, q, e);
                safe_for(l2, c2, q2, (fuel - 1) as nat)
            }
        }
    }
}

} // verus!
