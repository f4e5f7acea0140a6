use atomic_register::fibonacci::Fibonacci;

#[test]
fn fibonacci_smoke_test() {
    assert_eq!(Fibonacci::fibonacci(3), 2);
}

#[test]
fn iterator_smoke_test() {
    let mut fib = Fibonacci::new();
    assert_eq!(fib.nth(3), Some(2));
}

#[test]
fn iterator_max_test1() {
    let mut fib = Fibonacci::new();
    assert_eq!(fib.nth(187), None);
}

#[test]
fn iterator_max_test2() {
    let mut fib = Fibonacci::new();
    assert_eq!(fib.nth(186), Some(332825110087067562321196029789634457848));
}

#[test]
fn fibonacci_test() {
    assert_eq!(Fibonacci::fibonacci(20), 109);
}

#[test]
fn fibonacci_wraps_at_u8() {
    // fib(13) = 233, fib(14) = 377 = 256 + 121
    assert_eq!(Fibonacci::fibonacci(0), 0);
    assert_eq!(Fibonacci::fibonacci(1), 1);
    assert_eq!(Fibonacci::fibonacci(13), 233);
    assert_eq!(Fibonacci::fibonacci(14), 121);
}

#[test]
fn stream_starts_at_zero_and_stays_ended() {
    let mut fib = Fibonacci::new();
    assert_eq!(fib.next(), Some(0));
    assert_eq!(fib.next(), Some(1));
    assert_eq!(fib.next(), Some(1));
    assert_eq!(fib.next(), Some(2));
    let mut count = 4;
    while fib.next().is_some() {
        count += 1;
    }
    assert_eq!(count, 187);
    assert_eq!(fib.next(), None);
    assert_eq!(fib.nth(5), None);
}
