use generators::coroutine::{run, Generator, Never, State};
use generators::future::{
    ArgsExecutor, ArgsExtractor, AsyncSleep, EventLoop, SleepExecutor, Tick, RPC,
};
use std::cell::Cell;
use std::rc::Rc;

#[test]
fn rpc_completes_with_one() {
    let mut r = RPC;
    let mut unit = ();
    assert!(matches!(r.resume(&mut unit), State::Complete(1)));
}

#[test]
fn map_applies_the_function_to_the_result() {
    assert_eq!(run(generators::future::map(RPC, |x: usize| x + 41)), 42);
}

#[test]
fn map_of_map_composes() {
    let inner = generators::future::map(RPC, |x: usize| x * 7);
    let m = generators::future::map(inner, |y: usize| y + 1);
    assert_eq!(run(m), 8);
}

#[test]
fn map_of_map_equals_one_map_of_both_functions() {
    let twice = generators::future::map(generators::future::map(RPC, |x: usize| x * 7), |y: usize| y + 1);
    let once = generators::future::map(RPC, |x: usize| x * 7 + 1);
    assert_eq!(run(twice), run(once));
}

#[test]
fn map_through_identity_completes_as_the_inner_future() {
    let mut m = generators::future::map(RPC, |x: usize| x);
    let mut r = RPC;
    let mut unit = ();
    let a = m.resume(&mut unit);
    let b = r.resume(&mut unit);
    assert!(matches!((a, b), (State::Complete(1), State::Complete(1))));
}

#[test]
fn args_extractor_hands_out_the_arguments() {
    let mut ex = ArgsExecutor::new((3u8, "three"));
    let mut g = ArgsExtractor;
    match g.resume(&mut ex) {
        State::Complete((n, s)) => {
            assert_eq!(n, 3);
            assert_eq!(s, "three");
        }
        _ => panic!("the extractor completes at once"),
    }
}

/// A task that sleeps `delta` passes once, counting its resumptions, and
/// optionally starts a child task when first resumed.
struct Sleeper {
    delta: u64,
    sleep: Option<AsyncSleep>,
    resumes: Rc<Cell<usize>>,
    child: Option<Box<Sleeper>>,
}

impl Sleeper {
    fn new(delta: u64, resumes: Rc<Cell<usize>>) -> Sleeper {
        Sleeper { delta, sleep: None, resumes, child: None }
    }
}

impl Generator<EventLoop<Sleeper>> for Sleeper {
    type Yield = Never;
    type Return = ();

    fn can_resume(&self, _executor: &EventLoop<Sleeper>) -> bool {
        true
    }

    fn may_step(&self, _before: &EventLoop<Sleeper>, _next: &Self, _after: &EventLoop<Sleeper>, _s: State<Never, (), ()>) -> bool {
        true
    }

    fn resume(&mut self, ev: &mut EventLoop<Sleeper>) -> State<Never, (), ()> {
        self.resumes.set(self.resumes.get() + 1);
        if let Some(child) = self.child.take() {
            ev.run(*child);
        }
        if self.sleep.is_none() {
            self.sleep = Some(<EventLoop<Sleeper> as SleepExecutor>::sleep(self.delta));
        }
        self.sleep.as_mut().unwrap().resume(ev)
    }
}

#[test]
fn new_loop_is_idle() {
    let mut ev: EventLoop<Sleeper> = EventLoop::new();
    assert_eq!(ev.running_task(), None);
    assert_eq!(ev.tick(), Tick::Finished);
    assert_eq!(ev.tick(), Tick::Finished);
}

#[test]
fn sleeping_task_wakes_after_its_passes() {
    let resumes = Rc::new(Cell::new(0));
    let mut ev = EventLoop::new();
    ev.run(Sleeper::new(2, resumes.clone()));
    assert_eq!(resumes.get(), 1);
    assert_eq!(ev.running_task(), None);
    let expected = [
        Tick::PassStarted,
        Tick::CountedDown,
        Tick::PassEnded,
        Tick::PassStarted,
        Tick::CountedDown,
        Tick::PassEnded,
        Tick::PassStarted,
        Tick::Fired(0),
        Tick::PassEnded,
        Tick::Finished,
    ];
    for (step, want) in expected.iter().enumerate() {
        assert_eq!(&ev.tick(), want, "step {}", step);
    }
    assert_eq!(resumes.get(), 2);
}

#[test]
fn zero_sleep_fires_in_the_first_pass() {
    let resumes = Rc::new(Cell::new(0));
    let mut ev = EventLoop::new();
    ev.run(Sleeper::new(0, resumes.clone()));
    assert_eq!(ev.tick(), Tick::PassStarted);
    assert_eq!(ev.tick(), Tick::Fired(0));
    assert_eq!(ev.tick(), Tick::PassEnded);
    assert_eq!(ev.tick(), Tick::Finished);
    assert_eq!(resumes.get(), 2);
}

#[test]
fn nested_run_schedules_the_task_for_the_next_pass() {
    let parent_resumes = Rc::new(Cell::new(0));
    let child_resumes = Rc::new(Cell::new(0));
    let mut parent = Sleeper::new(1, parent_resumes.clone());
    parent.child = Some(Box::new(Sleeper::new(5, child_resumes.clone())));
    let mut ev = EventLoop::new();
    ev.run(parent);
    // The child is not resumed by the nested run: it waits on a timer of
    // zero passes, set before the parent's own timer of one pass.
    assert_eq!(parent_resumes.get(), 1);
    assert_eq!(child_resumes.get(), 0);
    assert_eq!(ev.tick(), Tick::PassStarted);
    assert_eq!(ev.tick(), Tick::Fired(1));
    assert_eq!(child_resumes.get(), 1);
    // The fired timer left the list: the cursor now stands at the parent's
    // timer, then at the child's new timer of five passes.
    assert_eq!(ev.tick(), Tick::CountedDown);
    assert_eq!(ev.tick(), Tick::CountedDown);
    assert_eq!(ev.tick(), Tick::PassEnded);
    assert_eq!(ev.tick(), Tick::PassStarted);
    assert_eq!(ev.tick(), Tick::Fired(0));
    assert_eq!(parent_resumes.get(), 2);
}

#[test]
fn each_pass_counts_every_timer_down_once() {
    let a = Rc::new(Cell::new(0));
    let b = Rc::new(Cell::new(0));
    let mut ev = EventLoop::new();
    ev.run(Sleeper::new(3, a.clone()));
    ev.run(Sleeper::new(1, b.clone()));
    let mut fired = Vec::new();
    let mut passes = 0;
    loop {
        match ev.tick() {
            Tick::Finished => break,
            Tick::PassEnded => passes += 1,
            Tick::Fired(task) => fired.push((passes, task)),
            _ => {}
        }
    }
    assert_eq!(fired, vec![(1, 1), (3, 0)]);
    assert_eq!(passes, 4);
    assert_eq!(a.get(), 2);
    assert_eq!(b.get(), 2);
}
