use futurelab::executor::BlockingExecutor;
use futurelab::executor::BoxedTask;
use futurelab::executor::SingleThreadExecutor;
use futurelab::future::and_then;
use futurelab::future::immediate;
use futurelab::future::join;
use futurelab::future::Future;
use futurelab::future::Join;
use futurelab::future::Poll;

fn ready<T>(p: Poll<T>) -> T {
    match p {
        Poll::Ready(t) => t,
        Poll::NotReady => panic!("expected Ready"),
    }
}

#[test]
fn immediate_is_ready_at_once() {
    let mut f = immediate(7);
    assert_eq!(ready(f.poll()), 7);
}

#[test]
fn map_applies_the_function_once_ready() {
    let mut f = futurelab::future::map(immediate(20), |x: i32| x + 1);
    assert_eq!(ready(f.poll()), 21);
}

#[test]
fn map_finish_applies_directly() {
    let mut f = futurelab::future::map(immediate(2), |x: i32| x * 10);
    assert_eq!(f.finish(5), 50);
}

#[test]
fn join_of_two_immediates_is_ready_with_both() {
    let mut j = join(immediate(1), immediate("one"));
    assert_eq!(ready(j.poll()), (1, "one"));
    assert!(matches!(j, Join::Done));
}

#[test]
fn join_waits_for_the_slower_future() {
    // The second future needs one more poll: the first completes the join.
    let slow = and_then(immediate(()), |_| immediate(5u8));
    let mut j = join(immediate('a'), slow);
    assert!(matches!(j.poll(), Poll::NotReady));
    assert!(matches!(j, Join::FirstDone('a', _)));
    assert_eq!(ready(j.poll()), ('a', 5u8));
    assert!(matches!(j, Join::Done));
}

#[test]
fn join_waits_for_the_slower_first_future() {
    let slow = and_then(immediate(()), |_| immediate(9i64));
    let mut j = join(slow, immediate(true));
    assert!(matches!(j.poll(), Poll::NotReady));
    assert!(matches!(j, Join::SecondDone(_, true)));
    assert_eq!(ready(j.poll()), (9i64, true));
}

#[test]
fn join_steps_decide_from_the_answers() {
    let mut j = join(immediate(1), immediate(2));
    assert!(matches!(j.on_both(Poll::NotReady, Poll::NotReady), Poll::NotReady));
    assert!(matches!(j, Join::BothRunning(_, _)));
    assert!(matches!(j.on_both(Poll::Ready(10), Poll::NotReady), Poll::NotReady));
    assert!(matches!(j, Join::FirstDone(10, _)));
    assert!(matches!(j.on_second(Poll::NotReady), Poll::NotReady));
    assert_eq!(ready(j.on_second(Poll::Ready(20))), (10, 20));

    let mut k = join(immediate(1), immediate(2));
    assert!(matches!(k.on_both(Poll::NotReady, Poll::Ready(7)), Poll::NotReady));
    assert!(matches!(k, Join::SecondDone(_, 7)));
    assert_eq!(ready(k.on_first(Poll::Ready(3))), (3, 7));

    let mut both = join(immediate(1), immediate(2));
    assert_eq!(ready(both.on_both(Poll::Ready(4), Poll::Ready(5))), (4, 5));
}

#[test]
fn and_then_runs_the_second_future_on_the_next_poll() {
    let mut f = and_then(immediate(3), |x: i32| immediate(x * 2));
    assert!(matches!(f.poll(), Poll::NotReady));
    assert_eq!(ready(f.poll()), 6);
}

#[test]
fn combinators_nest() {
    let inner = join(futurelab::future::map(immediate(2), |x: i32| x + 1), immediate(4));
    let mut f = futurelab::future::map(inner, |(a, b): (i32, i32)| a * b);
    assert_eq!(ready(f.poll()), 12);
}

#[test]
fn blocking_executor_runs_to_completion() {
    let mut e = BlockingExecutor::new();
    let mut f = and_then(immediate(()), |_| immediate(()));
    let mut polls = 1;
    while !e.advance(&mut f) {
        polls += 1;
    }
    assert_eq!(polls, 2);
}

#[test]
fn single_thread_executor_drops_completed_futures() {
    let mut e = SingleThreadExecutor::new();
    assert!(e.is_idle());
    e.spawn(immediate(()));
    assert!(e.is_idle());
    e.spawn(and_then(immediate(()), |_| immediate(())));
    assert!(!e.is_idle());
    e.spawn_task(BoxedTask::new(and_then(immediate(()), |_| immediate(()))));
    assert!(!e.is_idle());
    e.run_round();
    assert!(e.is_idle());
}

#[test]
fn single_thread_executor_keeps_slower_futures() {
    let mut e = SingleThreadExecutor::new();
    let two = and_then(immediate(()), |_| and_then(immediate(()), |_| immediate(())));
    e.spawn(two);
    e.spawn(and_then(immediate(()), |_| immediate(())));
    assert!(!e.is_idle());
    e.run_round();
    assert!(!e.is_idle());
    e.run_round();
    assert!(e.is_idle());
}
