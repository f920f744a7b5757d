use futurelab::executor::SingleThreadExecutor;
use futurelab::future::join;
use futurelab::future::Future;
use futurelab::future::Poll;

struct Countdown {
    left: u32,
}

impl Future for Countdown {
    type Item = u32;

    fn poll(&mut self) -> Poll<u32> {
        if self.left == 0 {
            Poll::Ready(7)
        } else {
            self.left -= 1;
            Poll::NotReady
        }
    }
}

struct Unit(Countdown);

impl Future for Unit {
    type Item = ();

    fn poll(&mut self) -> Poll<()> {
        match self.0.poll() {
            Poll::Ready(_) => Poll::Ready(()),
            Poll::NotReady => Poll::NotReady,
        }
    }
}

#[test]
fn join_of_user_futures_completes_with_the_slower() {
    let mut j = join(Countdown { left: 1 }, Countdown { left: 3 });
    let mut polls = 1;
    loop {
        match j.poll() {
            Poll::Ready(pair) => {
                assert_eq!(pair, (7, 7));
                break;
            }
            Poll::NotReady => polls += 1,
        }
    }
    assert_eq!(polls, 4);
}

#[test]
fn single_thread_executor_runs_rounds_until_idle() {
    let mut e = SingleThreadExecutor::new();
    e.spawn(Unit(Countdown { left: 2 }));
    e.spawn(Unit(Countdown { left: 0 }));
    e.spawn(Unit(Countdown { left: 1 }));
    let mut rounds = 0;
    let mut completed = vec![];
    while !e.is_idle() {
        completed.push(e.run_round());
        rounds += 1;
    }
    assert_eq!(rounds, 2);
    assert_eq!(completed, vec![vec![1], vec![0]]);
}

#[test]
fn and_then_of_user_futures_is_ready_after_both_counts() {
    // The first is ready on its 2nd poll, each second one on its 3rd.
    let mut a = futurelab::future::and_then(Countdown { left: 1 }, |x: u32| Countdown { left: x - 5 });
    let mut polls = 1;
    loop {
        match a.poll() {
            Poll::Ready(v) => {
                assert_eq!(v, 7);
                break;
            }
            Poll::NotReady => polls += 1,
        }
    }
    assert_eq!(polls, 5);
}

#[test]
fn executor_is_idle_after_as_many_rounds_as_polls_left() {
    // Ready on the 5th poll; spawning makes the first, four rounds the rest.
    let mut e = SingleThreadExecutor::new();
    e.spawn_task(futurelab::executor::BoxedTask::new(Unit(Countdown { left: 4 })));
    for _ in 0..3 {
        assert!(e.run_round().is_empty());
        assert!(!e.is_idle());
    }
    assert_eq!(e.run_round(), vec![0]);
    assert!(e.is_idle());
    assert!(e.run_round().is_empty());
    assert!(e.is_idle());
}
