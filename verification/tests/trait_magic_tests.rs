use generators::trait_magic::coroutine::{Generator, State};
use generators::trait_magic::future::{Pong, A};
use generators::trait_magic::future_traits::{yielded, Iterator};

struct Upto(u32, u32);

impl Generator<()> for Upto {
    type Yield = u32;
    type Return = ();

    fn can_resume(&self) -> bool {
        true
    }

    fn may_step(&self, _args: (), _next: &Self, _s: State<u32, ()>) -> bool {
        true
    }

    fn resume(&mut self, _args: ()) -> State<u32, ()> {
        if self.0 < self.1 {
            self.0 += 1;
            State::Yielded(self.0)
        } else {
            State::Complete(())
        }
    }
}

#[test]
fn a_hands_out_three_forever() {
    let mut it = A(());
    for _ in 0..4 {
        assert_eq!(it.next(), Some(3));
    }
}

#[test]
fn generators_of_unit_iterate() {
    let mut g = Upto(0, 2);
    assert_eq!(Iterator::next(&mut g), Some(1));
    assert_eq!(Iterator::next(&mut g), Some(2));
    assert_eq!(Iterator::next(&mut g), None);
}

#[test]
fn yielded_maps_states() {
    assert_eq!(yielded(State::<u8, ()>::Yielded(5)), Some(5));
    assert_eq!(yielded(State::<u8, ()>::Complete(())), None);
}

#[test]
fn map_and_pong_are_built() {
    let p = Pong(Some(4u8));
    assert_eq!(p.0, Some(4));
    let _m = generators::trait_magic::demo::map(p, |x: u8| x + 1);
}
