use generators::borrow_test::{get_global_handle, get_handle, shrink_handle, shrink_ref, EventLoop};
use generators::callbacks::{ActiveFuture, DummyActiveFuture};
use generators::demo::{hm2, nested_sleep_test, return_test, sleep_test, SleepTest};
use generators::prime_outlives::{a, test_wrapper, Gen, TESTA};
use generators::coroutine::{run, Generator, State};
use generators::future::{EventLoop as Loop, Tick};

#[test]
fn priming_copies_the_borrowed_number() {
    let n: usize = 7;
    let p = generators::prime_outlives::test(&n).prime();
    assert_eq!(p.value(), 7);
    assert_eq!(p.prime().value(), 7);
}

#[test]
fn test_wrapper_gives_five() {
    assert_eq!(test_wrapper(&1).value(), 5);
    assert_eq!(a().value(), TESTA);
}

#[test]
fn shrink_ref_reborrows_the_loop() {
    let mut ev = EventLoop(1);
    {
        let mut outer = &mut ev;
        let inner = shrink_ref(&mut outer);
        inner.0 = 9;
    }
    assert_eq!(ev.0, 9);
}

#[test]
fn handles_shrink() {
    let mut ev = EventLoop(3);
    let mut h = get_handle(&mut ev);
    let _short = shrink_handle(&mut h);
    let mut g = get_global_handle();
    let _also_short = shrink_handle(&mut g);
}

#[test]
fn dummy_active_future_cancels() {
    let unit = ();
    let mut f = DummyActiveFuture::new(&unit);
    f.cancel();
    f.cancel();
}

#[test]
fn return_test_completes_with_three() {
    assert_eq!(run(return_test::<()>()), 3);
}

#[test]
fn return_test_completes_with_three_on_every_resumption() {
    let mut f = return_test::<()>();
    let mut e = ();
    for _ in 0..3 {
        assert!(matches!(f.resume(&mut e), State::Complete(3)));
    }
}

#[test]
fn sleep_test_wakes_after_a_thousand_passes() {
    let mut ev: Loop<SleepTest> = Loop::new();
    ev.run(nested_sleep_test());
    let mut passes = 0;
    loop {
        match ev.tick() {
            Tick::PassEnded => passes += 1,
            Tick::Fired(task) => {
                assert_eq!(task, 0);
                break;
            }
            Tick::Finished => panic!("the sleep's timer is pending"),
            _ => {}
        }
    }
    assert_eq!(passes, 1000);
    // The task set a new timer when resumed; it took the fired timer's
    // place in the list, so the same pass counts it down.
    assert_eq!(ev.tick(), Tick::CountedDown);
    assert_eq!(ev.tick(), Tick::PassEnded);
    assert_eq!(ev.tick(), Tick::PassStarted);
    let _ = sleep_test();
}

#[test]
fn hm2_builds_an_iterator() {
    let _it = hm2();
}
