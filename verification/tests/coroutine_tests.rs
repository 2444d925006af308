use generators::coroutine::{
    completed, run, yielded, Future, Generator, Iterator, Never, State, Stream,
};
use generators::future::RPC;

struct Countdown(usize);

impl Generator<()> for Countdown {
    type Yield = usize;
    type Return = ();

    fn can_resume(&self, _executor: &()) -> bool {
        true
    }

    fn may_step(&self, _before: &(), _next: &Self, _after: &(), _s: State<usize, (), Never>) -> bool {
        true
    }

    fn resume(&mut self, _executor: &mut ()) -> State<usize, (), Never> {
        if self.0 == 0 {
            State::Complete(())
        } else {
            self.0 -= 1;
            State::Yielded(self.0)
        }
    }
}

#[test]
fn run_gives_the_completed_value() {
    assert_eq!(run(RPC), 1);
}

#[test]
fn completed_unwraps_complete() {
    let s: State<Never, u32, Never> = State::Complete(7);
    assert_eq!(completed(s), 7);
}

#[test]
fn yielded_maps_states_to_items() {
    let s: State<u8, (), Never> = State::Yielded(4);
    assert_eq!(yielded(s), Some(4));
    let s: State<u8, (), Never> = State::Complete(());
    assert_eq!(yielded(s), None);
}

#[test]
fn generator_iterates_its_yields() {
    let mut c = Countdown(3);
    assert_eq!(Iterator::next(&mut c), Some(2));
    assert_eq!(Iterator::next(&mut c), Some(1));
    assert_eq!(Iterator::next(&mut c), Some(0));
    assert_eq!(Iterator::next(&mut c), None);
}

struct Echo(u8);

impl Generator<()> for Echo {
    type Yield = u8;
    type Return = u8;

    fn can_resume(&self, _executor: &()) -> bool {
        true
    }

    fn may_step(&self, _before: &(), _next: &Self, _after: &(), _s: State<u8, u8, Never>) -> bool {
        true
    }

    fn resume(&mut self, _executor: &mut ()) -> State<u8, u8, Never> {
        self.0 += 1;
        if self.0 < 3 {
            State::Yielded(self.0)
        } else {
            State::Complete(self.0 * 10)
        }
    }
}

#[test]
fn streams_poll_like_their_generator() {
    let mut e = Echo(0);
    let mut unit = ();
    assert!(matches!(Stream::poll(&mut e, &mut unit), State::Yielded(1)));
    assert!(matches!(Stream::poll(&mut e, &mut unit), State::Yielded(2)));
    assert!(matches!(Stream::poll(&mut e, &mut unit), State::Complete(30)));
}

#[test]
fn futures_poll_like_their_generator() {
    let mut r = RPC;
    let mut unit = ();
    assert!(matches!(Future::<()>::poll(&mut r, &mut unit), State::Complete(1)));
}
