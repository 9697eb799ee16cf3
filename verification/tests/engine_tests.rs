use event_loop::{execute, run_countdown, run_example, Countdown, Event, EventQueue, MathEnt, MathLoop};

#[test]
fn test_event_loop() {
    let math = MathLoop(vec![
        MathEnt::Add(2),
        MathEnt::Sub(3),
        MathEnt::Mul(6),
        MathEnt::Div(2),
    ]);

    assert_eq!(execute(math, 8), 23);
}

#[test]
fn run_example_returns_23() {
    assert_eq!(run_example(), 23);
}

#[test]
fn empty_setup_returns_initial_context() {
    let math = MathLoop(Vec::new());
    assert_eq!(execute(math, 8), 8);
}

#[test]
fn equal_priority_events_all_execute() {
    let math = MathLoop(vec![MathEnt::Add(2), MathEnt::Add(5)]);
    assert_eq!(execute(math, 0), 7);
}

#[test]
fn single_event_applies_to_context() {
    let math = MathLoop(vec![MathEnt::Mul(7)]);
    assert_eq!(execute(math, 6), 42);
}

#[test]
fn events_execute_purely() {
    assert_eq!(MathEnt::Div(2).execute(8), 4);
    assert_eq!(MathEnt::Mul(6).execute(4), 24);
    assert_eq!(MathEnt::Add(2).execute(24), 26);
    assert_eq!(MathEnt::Sub(3).execute(26), 23);
}

#[test]
fn division_truncates_toward_zero() {
    assert_eq!(MathEnt::Div(-3).execute(10), -3);
    assert_eq!(MathEnt::Div(3).execute(-10), -3);
    assert_eq!(MathEnt::Div(-3).execute(-10), 3);
}

#[test]
fn pop_max_selects_greatest_first() {
    let mut queue = EventQueue::from_vec(vec![
        MathEnt::Add(1),
        MathEnt::Div(9),
        MathEnt::Sub(4),
        MathEnt::Mul(3),
    ]);
    assert!(queue.pop_max() == MathEnt::Div(9));
    assert!(queue.pop_max() == MathEnt::Mul(3));
    assert!(queue.pop_max() == MathEnt::Add(1));
    assert!(queue.pop_max() == MathEnt::Sub(4));
    assert!(queue.is_empty());
}

#[test]
fn pop_max_breaks_ties_arbitrarily_but_loses_nothing() {
    let mut queue = EventQueue::new();
    queue.push(MathEnt::Add(1));
    queue.push(MathEnt::Add(2));
    assert_eq!(queue.len(), 2);
    let first = queue.pop_max();
    let second = queue.pop_max();
    assert!(
        (first == MathEnt::Add(1) && second == MathEnt::Add(2))
            || (first == MathEnt::Add(2) && second == MathEnt::Add(1))
    );
    assert!(queue.is_empty());
}

#[test]
fn priority_order_drives_execution() {
    // The division ranks above everything, so it runs first; the remaining
    // operations follow in descending priority order.
    let math = MathLoop(vec![MathEnt::Sub(1), MathEnt::Div(4), MathEnt::Mul(10)]);
    // 100 / 4 = 25, * 10 = 250, - 1 = 249.
    assert_eq!(execute(math, 100), 249);
}

#[test]
fn produced_events_rejoin_the_queue() {
    assert_eq!(execute(Countdown, 5), 0);
    assert_eq!(execute(Countdown, 0), 0);
    assert_eq!(run_countdown(7), 0);
}
