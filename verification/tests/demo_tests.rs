use scheduler::basics;
use scheduler::quad;
use scheduler::quad::Angles;
use scheduler::quad::Message;
use scheduler::quad::Quad;
use scheduler::quad::Sides;
use scheduler::quad::Test;

struct PairedSides;

impl Sides for PairedSides {}

struct RightAngles;

impl Angles for RightAngles {}

struct BothEqual;

impl Sides for BothEqual {}

impl Angles for BothEqual {}

#[test]
fn it_works() {
    let result = quad::add(2, 2);
    assert_eq!(result, 4);
}

#[test]
fn lib_it_works() {
    let result = basics::add(2, 2);
    assert_eq!(result, 4);
}

#[test]
fn quad_witnesses() {
    let kite: Quad<PairedSides> = Quad::new();
    assert!(kite.is_kite());
    let rect: Quad<RightAngles> = Quad::default();
    assert!(rect.is_rectangle());
    let square: Quad<BothEqual> = Quad::new();
    assert!(square.is_square());
    assert!(square.is_kite());
    assert!(square.is_rectangle());
}

#[test]
fn create_test_clamps() {
    assert_eq!(quad::create_test(5), Test(5));
    assert_eq!(quad::create_test(10), Test(10));
    assert_eq!(quad::create_test(43), Test(10));
}

#[test]
fn update_counter() {
    let mut n: u64 = 9;
    quad::update(&mut n, Message::Increment);
    assert_eq!(n, 10);
    quad::update(&mut n, Message::Increment);
    assert_eq!(n, 10);
    quad::update(&mut n, Message::Decrement);
    assert_eq!(n, 9);
    let mut z: u64 = 0;
    quad::update(&mut z, Message::Decrement);
    assert_eq!(z, 0);
    assert_eq!(quad::checked_increment(3), 4);
    assert_eq!(quad::checked_increment(10), 10);
}

#[test]
fn fib_values() {
    assert_eq!(basics::fib(0), 0);
    assert_eq!(basics::fib(1), 1);
    assert_eq!(basics::fib(2), 1);
    assert_eq!(basics::fib(10), 55);
    assert_eq!(basics::fib(50), 12586269025);
}
