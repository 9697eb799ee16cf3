use crate::event_loop::{execute, run_from, safe_for, step_of, EventLoop};
use crate::events::Event;
use crate::order::{event_lt, is_max_of, valid_order};
use vstd::multiset::Multiset;
use vstd::prelude::*;
use core::cmp::Ordering;

verus! {

broadcast use vstd::multiset::group_multiset_axioms, vstd::seq_lib::group_to_multiset_ensures;

/// A tagged arithmetic operation on an integer context.
///
/// The priority order ranks operations, not operands: `Div` above `Mul`,
/// `Mul` above `Add`, `Add` above `Sub`; two operations with the same tag
/// have equal priority whatever their operands.
#[derive(Clone, Copy, PartialEq, Eq)]
pub enum MathEnt {
    /// Divide the context by the operand.
    Div(i32),
    /// Multiply the context by the operand.
    Mul(i32),
    /// Add the operand to the context.
    Add(i32),
    /// Subtract the operand from the context.
    Sub(i32),
}

impl MathEnt {
    /// The rank of this operation under the priority order.
    pub open spec fn priority(self) -> int {
        match self {
            MathEnt::Div(_) => 3,
            MathEnt::Mul(_) => 2,
            MathEnt::Add(_) => 1,
            MathEnt::Sub(_) => 0,
        }
    }

    fn priority_value(&self) -> (p: u8)
        ensures
            p as int == self.priority(),
    {
        match self {
            MathEnt::Div(_) => 3,
            MathEnt::Mul(_) => 2,
            MathEnt::Add(_) => 1,
            MathEnt::Sub(_) => 0,
        }
    }
}

impl vstd::std_specs::cmp::PartialOrdSpecImpl for MathEnt {
    open spec fn obeys_partial_cmp_spec() -> bool {
        true
    }

    open spec fn partial_cmp_spec(&self, other: &Self) -> Option<Ordering> {
        if self.priority() < other.priority() {
            Some(Ordering::Less)
        } else if self.priority() == other.priority() {
            Some(Ordering::Equal)
        } else {
            Some(Ordering::Greater)
        }
    }
}

impl PartialOrd for MathEnt {
    fn partial_cmp(&self, other: &Self) -> (r: Option<Ordering>) {
        let a = self.priority_value();
        let b = other.priority_value();
        if a < b {
            Some(Ordering::Less)
        } else if a == b {
            Some(Ordering::Equal)
        } else {
            Some(Ordering::Greater)
        }
    }
}

impl Event for MathEnt {
    type Output = i32;

    type Context = i32;

    open spec fn execute_enabled(self, context: i32) -> bool {
        match self {
            MathEnt::Div(_) => self.execute_div_spec(context) is Some,
            MathEnt::Mul(f) => i32::MIN <= context * f <= i32::MAX,
            MathEnt::Add(f) => i32::MIN <= context + f <= i32::MAX,
            MathEnt::Sub(f) => i32::MIN <= context - f <= i32::MAX,
        }
    }

    open spec fn execute_spec(self, context: i32) -> i32 {
        match self {
            MathEnt::Div(_) => self.execute_div_spec(context).unwrap(),
            MathEnt::Mul(f) => (context * f) as i32,
            MathEnt::Add(f) => (context + f) as i32,
            MathEnt::Sub(f) => (context - f) as i32,
        }
    }

    fn execute(self, context: i32) -> (output: i32) {
        match self {
            MathEnt::Div(f) => context.checked_div(f).unwrap(),
            MathEnt::Mul(f) => context * f,
            MathEnt::Add(f) => context + f,
            MathEnt::Sub(f) => context - f,
        }
    }
}

impl MathEnt {
    /// What dividing `context` by this operation's operand yields, if it is
    /// defined: `None` on division by zero or overflow, as `checked_div`.
    pub open spec fn execute_div_spec(self, context: i32) -> Option<i32> {
        match self {
            MathEnt::Div(f) => context.checked_div(f),
            _ => None,
        }
    }
}

/// An event loop over arithmetic operations: the context is an integer, each
/// operation is applied to the context current when it is dequeued, and the
/// drained loop returns the final context.
pub struct MathLoop(pub Vec<MathEnt>);

impl EventLoop for MathLoop {
    type Event = MathEnt;

    type Context = i32;

    type Output = i32;

    open spec fn setup_enabled(self, context: i32) -> bool {
        true
    }

    open spec fn setup_spec(self, context: i32) -> (Self, i32, Seq<MathEnt>) {
        (self, context, self.0@)
    }

    open spec fn event_context_enabled(self, context: i32) -> bool {
        true
    }

    open spec fn event_context_spec(self, context: i32) -> (Self, i32, i32) {
        (self, context, context)
    }

    open spec fn finalise_event_enabled(self, context: i32, output: i32) -> bool {
        true
    }

    open spec fn finalise_event_spec(self, context: i32, output: i32) -> (Self, i32, Seq<MathEnt>) {
        (self, output, Seq::empty())
    }

    open spec fn finalise_enabled(self, context: i32) -> bool {
        true
    }

    open spec fn finalise_spec(self, context: i32) -> i32 {
        context
    }

    fn setup(&mut self, context: &mut i32) -> (events: Vec<MathEnt>) {
        let events = self.0.clone();
        proof {
            assert(events@ =~= self.0@);
        }
        events
    }

    fn event_context(&mut self, context: &mut i32) -> (event_context: i32) {
        *context
    }

    fn finalise_event(&mut self, context: &mut i32, output: i32) -> (events: Vec<MathEnt>) {
        *context = output;
        Vec::new()
    }

    fn finalise(self, context: i32) -> (output: i32) {
        context
    }
}

/// An event loop whose hook re-enqueues work: each executed event decrements
/// the context by one, and `finalise_event` enqueues another decrement until
/// the context reaches zero.
pub struct Countdown;

/// The decrements pending in a countdown at context `n`: one while `n` is
/// positive, none once it is not.
pub open spec fn countdown_pending(n: i32) -> Seq<MathEnt> {
    if n > 0 {
        seq![MathEnt::Sub(1)]
    } else {
        Seq::empty()
    }
}

impl EventLoop for Countdown {
    type Event = MathEnt;

    type Context = i32;

    type Output = i32;

    open spec fn setup_enabled(self, context: i32) -> bool {
        true
    }

    open spec fn setup_spec(self, context: i32) -> (Self, i32, Seq<MathEnt>) {
        (self, context, countdown_pending(context))
    }

    open spec fn event_context_enabled(self, context: i32) -> bool {
        true
    }

    open spec fn event_context_spec(self, context: i32) -> (Self, i32, i32) {
        (self, context, context)
    }

    open spec fn finalise_event_enabled(self, context: i32, output: i32) -> bool {
        true
    }

    open spec fn finalise_event_spec(self, context: i32, output: i32) -> (Self, i32, Seq<MathEnt>) {
        (self, output, countdown_pending(output))
    }

    open spec fn finalise_enabled(self, context: i32) -> bool {
        true
    }

    open spec fn finalise_spec(self, context: i32) -> i32 {
        context
    }

    fn setup(&mut self, context: &mut i32) -> (events: Vec<MathEnt>) {
        let mut events: Vec<MathEnt> = Vec::new();
        if *context > 0 {
            events.push(MathEnt::Sub(1));
        }
        proof {
            assert(events@ =~= countdown_pending(*context));
        }
        events
    }

    fn event_context(&mut self, context: &mut i32) -> (event_context: i32) {
        *context
    }

    fn finalise_event(&mut self, context: &mut i32, output: i32) -> (events: Vec<MathEnt>) {
        *context = output;
        let mut events: Vec<MathEnt> = Vec::new();
        if output > 0 {
            events.push(MathEnt::Sub(1));
        }
        proof {
            assert(events@ =~= countdown_pending(output));
        }
        events
    }

    fn finalise(self, context: i32) -> (output: i32) {
        context
    }
}

/// The queue of a countdown at context `n` holds only decrements.
proof fn lemma_countdown_queue(n: i32)
    ensures
        n > 0 ==> countdown_pending(n).to_multiset().count(MathEnt::Sub(1)) == 1,
        n > 0 ==> countdown_pending(n).to_multiset().len() == 1,
        n <= 0 ==> countdown_pending(n).to_multiset().len() == 0,
        forall|f: MathEnt| #[trigger] countdown_pending(n).to_multiset().count(f) > 0 ==> f
            == MathEnt::Sub(1),
{
    let q = countdown_pending(n).to_multiset();
    assert(Seq::<MathEnt>::empty().to_multiset() =~= Multiset::empty()) by {
        Seq::<MathEnt>::empty().to_multiset_ensures();
    }
    if n > 0 {
        assert(countdown_pending(n) =~= Seq::empty().push(MathEnt::Sub(1)));
        assert(q =~= Multiset::empty().insert(MathEnt::Sub(1)));
    }
    assert forall|f: MathEnt| #[trigger] q.count(f) > 0 implies f == MathEnt::Sub(1) by {
        assert(countdown_pending(n).contains(f));
        let i = choose|i: int| 0 <= i < countdown_pending(n).len() && countdown_pending(n)[i] == f;
    }
}

/// A countdown from any non-negative context is enabled throughout and
/// finishes within one step per unit counted down.
pub proof fn lemma_countdown_safe(l: Countdown, n: i32)
    requires
        0 <= n,
    ensures
        safe_for(l, n, countdown_pending(n).to_multiset(), (n + 1) as nat),
    decreases n,
{
    let q = countdown_pending(n).to_multiset();
    lemma_countdown_queue(n);
    if n > 0 {
        lemma_countdown_safe(l, (n - 1) as i32);
        let e = MathEnt::Sub(1);
        assert forall|f: MathEnt| e != f implies Multiset::singleton(e).count(f) == 0 by {}
        assert(q.remove(e).add(countdown_pending((n - 1) as i32).to_multiset()) =~= countdown_pending((n - 1) as i32).to_multiset()) by {
            lemma_countdown_queue((n - 1) as i32);
        }
        assert forall|f: MathEnt| is_max_of(f, q) implies f == e by {
            assert(q.count(f) > 0);
        }
        assert(e.execute_spec(n) == n - 1);
        assert(step_of(l, n, q, e).2 == countdown_pending((n - 1) as i32).to_multiset());
        assert(safe_for(l, n, q, (n + 1) as nat));
    }
}

/// Every complete countdown from a non-negative context returns zero, in
/// exactly one step per unit counted down: the single initial event plus
/// every event the hook produced.
pub proof fn lemma_countdown_run(l: Countdown, n: i32, trace: Seq<MathEnt>, out: i32)
    requires
        0 <= n,
        run_from(l, n, countdown_pending(n).to_multiset(), trace, out),
    ensures
        out == 0,
        trace.len() == n,
    decreases n,
{
    let q = countdown_pending(n).to_multiset();
    lemma_countdown_queue(n);
    if n == 0 {
        if trace.len() != 0 {
            assert(q.count(trace[0]) > 0);
            assert(false);
        }
    } else {
        assert(trace.len() != 0);
        assert(is_max_of(trace[0], q));
        assert(trace[0] == MathEnt::Sub(1));
        let e = MathEnt::Sub(1);
        assert forall|f: MathEnt| e != f implies Multiset::singleton(e).count(f) == 0 by {}
        assert(q.remove(e).add(countdown_pending((n - 1) as i32).to_multiset()) =~= countdown_pending((n - 1) as i32).to_multiset()) by {
            lemma_countdown_queue((n - 1) as i32);
        }
        assert(e.execute_spec(n) == n - 1);
        assert(step_of(l, n, q, e).2 == countdown_pending((n - 1) as i32).to_multiset());
        lemma_countdown_run(l, (n - 1) as i32, trace.drop_first(), out);
    }
}

/// Runs a countdown: decrements re-enqueued one at a time drain the context
/// to zero.
pub fn run_countdown(start: i32) -> (result: i32)
    requires
        0 <= start,
    ensures
        result == 0,
{
    proof {
        lemma_math_order();
        lemma_countdown_safe(Countdown, start);
        assert(safe_for(
            Countdown.setup_spec(start).0,
            Countdown.setup_spec(start).1,
            Countdown.setup_spec(start).2.to_multiset(),
            (start + 1) as nat,
        ));
    }
    let result = execute(Countdown, start);
    proof {
        let trace = choose|trace: Seq<MathEnt>|
            run_from(
                Countdown.setup_spec(start).0,
                Countdown.setup_spec(start).1,
                Countdown.setup_spec(start).2.to_multiset(),
                trace,
                result,
            );
        lemma_countdown_run(Countdown, start, trace, result);
    }
    result
}

/// The priority comparator of `MathEnt` is a valid total order.
pub proof fn lemma_math_order()
    ensures
        valid_order::<MathEnt>(),
{
}

/// The operations of the worked example.
pub open spec fn example_events() -> Seq<MathEnt> {
    seq![MathEnt::Add(2), MathEnt::Sub(3), MathEnt::Mul(6), MathEnt::Div(2)]
}

/// In a queue whose every element is `top` or strictly below it, `top` is
/// the only maximal element.
proof fn lemma_unique_max(q: Multiset<MathEnt>, top: MathEnt, e: MathEnt)
    requires
        is_max_of(e, q),
        q.count(top) > 0,
        forall|f: MathEnt| #[trigger] q.count(f) > 0 ==> f == top || event_lt(f, top),
    ensures
        e == top,
{
    if e != top {
        assert(event_lt(e, top));
        assert(!event_lt(e, top));
    }
}

/// The multiset of the example events: one of each operation, and nothing
/// else.
proof fn lemma_example_shape()
    ensures
        ({
            let q = example_events().to_multiset();
            &&& q.count(MathEnt::Add(2)) == 1
            &&& q.count(MathEnt::Sub(3)) == 1
            &&& q.count(MathEnt::Mul(6)) == 1
            &&& q.count(MathEnt::Div(2)) == 1
            &&& q.len() == 4
            &&& forall|f: MathEnt| #[trigger] q.count(f) > 0 ==> f == MathEnt::Add(2) || f
                == MathEnt::Sub(3) || f == MathEnt::Mul(6) || f == MathEnt::Div(2)
        }),
{
    let s = example_events();
    let q = s.to_multiset();
    assert(s =~= Seq::empty().push(MathEnt::Add(2)).push(MathEnt::Sub(3)).push(
        MathEnt::Mul(6),
    ).push(MathEnt::Div(2)));
    assert(Seq::<MathEnt>::empty().to_multiset() =~= Multiset::empty()) by {
        Seq::<MathEnt>::empty().to_multiset_ensures();
    }
    assert(q =~= Multiset::empty().insert(MathEnt::Add(2)).insert(MathEnt::Sub(3)).insert(
        MathEnt::Mul(6),
    ).insert(MathEnt::Div(2)));
    assert forall|f: MathEnt| #[trigger] q.count(f) > 0 implies f == MathEnt::Add(2) || f
        == MathEnt::Sub(3) || f == MathEnt::Mul(6) || f == MathEnt::Div(2) by {
        assert(s.contains(f));
        let i = choose|i: int| 0 <= i < s.len() && s[i] == f;
        assert(s[0] == MathEnt::Add(2) && s[1] == MathEnt::Sub(3) && s[2] == MathEnt::Mul(6) && s[3]
            == MathEnt::Div(2));
    }
}

/// Removing one instance of `v`, then enqueueing nothing, leaves exactly the
/// queue without that instance, one element shorter.
proof fn lemma_example_step(q: Multiset<MathEnt>, v: MathEnt)
    requires
        q.count(v) > 0,
    ensures
        q.remove(v).add(Seq::<MathEnt>::empty().to_multiset()) == q.remove(v),
        q.remove(v).len() == q.len() - 1,
        q.remove(v).count(v) == q.count(v) - 1,
        forall|f: MathEnt| f != v ==> #[trigger] q.remove(v).count(f) == q.count(f),
{
    assert(Seq::<MathEnt>::empty().to_multiset() =~= Multiset::empty()) by {
        Seq::<MathEnt>::empty().to_multiset_ensures();
    }
    assert(q.remove(v).add(Seq::<MathEnt>::empty().to_multiset()) =~= q.remove(v));
    assert forall|f: MathEnt| Multiset::singleton(v).count(f) <= q.count(f) by {
        if f == v {
            assert(q.count(v) > 0);
        }
    }
    assert(Multiset::singleton(v).subset_of(q));
}

/// Every complete run of the example drains the queue in strict priority
/// order — `Div(2)`, `Mul(6)`, `Add(2)`, `Sub(3)`, each applied to the
/// context current when it is dequeued — and returns 23.
pub proof fn lemma_example_run(l: MathLoop, trace: Seq<MathEnt>, out: i32)
    requires
        run_from(l, 8, example_events().to_multiset(), trace, out),
    ensures
        trace == seq![MathEnt::Div(2), MathEnt::Mul(6), MathEnt::Add(2), MathEnt::Sub(3)],
        out == 23,
{
    let a = MathEnt::Add(2);
    let s = MathEnt::Sub(3);
    let m = MathEnt::Mul(6);
    let d = MathEnt::Div(2);
    lemma_example_shape();
    let q0 = example_events().to_multiset();

    assert(trace.len() != 0);
    assert(is_max_of(trace[0], q0));
    lemma_unique_max(q0, d, trace[0]);
    assert(trace[0] == d);
    lemma_example_step(q0, d);
    let q1 = q0.remove(d);
    assert(step_of(l, 8, q0, d).2 == q1);
    assert(d.execute_spec(8) == 4) by {
        assert(8i32.checked_div(2i32) == Some(4i32));
    }
    let tr1 = trace.drop_first();
    assert(run_from(l, 4, q1, tr1, out));

    assert(tr1.len() != 0);
    assert(is_max_of(tr1[0], q1));
    lemma_unique_max(q1, m, tr1[0]);
    assert(tr1[0] == m);
    lemma_example_step(q1, m);
    let q2 = q1.remove(m);
    assert(step_of(l, 4, q1, m).2 == q2);
    assert(m.execute_spec(4) == 24);
    let tr2 = tr1.drop_first();
    assert(run_from(l, 24, q2, tr2, out));

    assert(tr2.len() != 0);
    assert(is_max_of(tr2[0], q2));
    lemma_unique_max(q2, a, tr2[0]);
    assert(tr2[0] == a);
    lemma_example_step(q2, a);
    let q3 = q2.remove(a);
    assert(step_of(l, 24, q2, a).2 == q3);
    assert(a.execute_spec(24) == 26);
    let tr3 = tr2.drop_first();
    assert(run_from(l, 26, q3, tr3, out));

    assert(tr3.len() != 0);
    assert(is_max_of(tr3[0], q3));
    lemma_unique_max(q3, s, tr3[0]);
    assert(tr3[0] == s);
    lemma_example_step(q3, s);
    let q4 = q3.remove(s);
    assert(step_of(l, 26, q3, s).2 == q4);
    assert(s.execute_spec(26) == 23);
    let tr4 = tr3.drop_first();
    assert(run_from(l, 23, q4, tr4, out));

    assert(q4.len() == 0);
    if tr4.len() != 0 {
        assert(q4.count(tr4[0]) > 0);
        assert(false);
    }
    assert(out == 23);
    assert(trace =~= seq![d, m, a, s]);
}

/// Every reachable execution of the example is enabled and the run finishes
/// within four steps: one per enqueued event.
pub proof fn lemma_example_safe(l: MathLoop)
    ensures
        safe_for(l, 8, example_events().to_multiset(), 4),
{
    let a = MathEnt::Add(2);
    let s = MathEnt::Sub(3);
    let m = MathEnt::Mul(6);
    let d = MathEnt::Div(2);
    lemma_example_shape();
    let q0 = example_events().to_multiset();
    lemma_example_step(q0, d);
    let q1 = q0.remove(d);
    lemma_example_step(q1, m);
    let q2 = q1.remove(m);
    lemma_example_step(q2, a);
    let q3 = q2.remove(a);
    lemma_example_step(q3, s);
    let q4 = q3.remove(s);

    assert(safe_for(l, 23, q4, 0));
    assert forall|e: MathEnt| is_max_of(e, q3) implies e == s by {
        lemma_unique_max(q3, s, e);
    }
    assert(s.execute_spec(26) == 23);
    assert(step_of(l, 26, q3, s).2 == q4);
    assert(safe_for(l, 26, q3, 1));
    assert forall|e: MathEnt| is_max_of(e, q2) implies e == a by {
        lemma_unique_max(q2, a, e);
    }
    assert(a.execute_spec(24) == 26);
    assert(step_of(l, 24, q2, a).2 == q3);
    assert(safe_for(l, 24, q2, 2));
    assert forall|e: MathEnt| is_max_of(e, q1) implies e == m by {
        lemma_unique_max(q1, m, e);
    }
    assert(m.execute_spec(4) == 24);
    assert(step_of(l, 4, q1, m).2 == q2);
    assert(safe_for(l, 4, q1, 3));
    assert forall|e: MathEnt| is_max_of(e, q0) implies e == d by {
        lemma_unique_max(q0, d, e);
    }
    assert(d.execute_spec(8) == 4) by {
        assert(8i32.checked_div(2i32) == Some(4i32));
    }
    assert(d.execute_enabled(8));
    assert(step_of(l, 8, q0, d).2 == q1);
    assert(safe_for(l, 8, q0, 4));
}

/// Runs the worked example: the operations `[Add(2), Sub(3), Mul(6), Div(2)]`
/// applied to initial context 8 execute in descending priority order and
/// yield 23.
pub fn run_example() -> (result: i32)
    ensures
        result == 23,
{
    let mut ops: Vec<MathEnt> = Vec::new();
    ops.push(MathEnt::Add(2));
    ops.push(MathEnt::Sub(3));
    ops.push(MathEnt::Mul(6));
    ops.push(MathEnt::Div(2));
    let lp = MathLoop(ops);
    let ghost lp0 = lp;
    proof {
        lemma_math_order();
        lemma_example_safe(lp0);
        assert(lp0.0@ =~= example_events());
        assert(safe_for(lp0.setup_spec(8).0, lp0.setup_spec(8).1, lp0.setup_spec(8).2.to_multiset(), 4));
    }
    let result = execute(lp, 8);
    proof {
        let trace = choose|trace: Seq<MathEnt>|
            run_from(
                lp0.setup_spec(8).0,
                lp0.setup_spec(8).1,
                lp0.setup_spec(8).2.to_multiset(),
                trace,
                result,
            );
        lemma_example_run(lp0, trace, result);
    }
    result
}

} // verus!
