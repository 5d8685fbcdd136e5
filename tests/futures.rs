use rlu::{and_then, immediate, join, Counter, Future, Poll};

#[test]
fn test_join() {
    let f1 = immediate(5);
    let f2 = immediate(6);
    let mut f3 = join(f1, f2);
    loop {
        let res = f3.poll();
        if let Poll::Ready(x) = res {
            assert_eq!(x, (5, 6));
            break;
        }
    }
}

#[test]
fn test_join2() {
    let f1 = immediate(-8);
    let f2 = immediate("Future");
    let mut f3 = join(f1, f2);
    loop {
        let res = f3.poll();
        if let Poll::Ready(x) = res {
            assert_eq!(x, (-8, "Future"));
            break;
        }
    }
}

#[test]
fn join_is_done_after_ready() {
    let mut f = join(immediate(1), immediate(2));
    assert!(matches!(f.poll(), Poll::Ready((1, 2))));
    assert!(matches!(f.poll(), Poll::NotReady));
}

#[test]
fn immediate_hands_out_once() {
    let mut f = immediate(9);
    assert!(matches!(f.poll(), Poll::Ready(9)));
    assert!(matches!(f.poll(), Poll::NotReady));
}

#[test]
fn counter_counts_polls() {
    let mut c = Counter { fut: join(immediate(5), immediate(6)), value: 0 };
    assert!(matches!(c.poll(), Poll::Ready((5, 6))));
    assert_eq!(c.value, 1);
    let mut full = Counter { fut: immediate(1), value: i32::MAX };
    full.poll();
    assert_eq!(full.value, i32::MAX);
}

#[test]
fn test_and_then() {
    let f1 = rlu::future::map(immediate(3), |n| n * 2);
    let f2 = |n| immediate(n + 4);
    let mut f3 = and_then(f1, f2);
    loop {
        let res = f3.poll();
        if let Poll::Ready(x) = res {
            assert_eq!(x, 10);
            break;
        }
    }
}

#[test]
fn test_both() {
    let f1 = rlu::future::map(immediate(3), |n| n * 2);
    let f2 = |n| immediate(n + 1);
    let f3 = immediate("Future");
    let f4 = and_then(f1, f2);
    let mut f5 = join(f3, f4);
    loop {
        let res = f5.poll();
        if let Poll::Ready(x) = res {
            assert_eq!(x, ("Future", 7));
            break;
        }
    }
}

#[test]
fn test_join3() {
    let f1 = immediate(3);
    let f2 = rlu::future::map(immediate(3), |n| n + 1);
    let mut f3 = join(f1, f2);
    loop {
        let res = f3.poll();
        if let Poll::Ready(x) = res {
            assert_eq!(x, (3, 4));
            break;
        }
    }
}

#[test]
fn test_and_then_2() {
    let f1 = rlu::future::map(immediate(3), |n| n * 2);
    let f2 = |n| immediate(n + 1);
    let mut f3 = and_then(f1, f2);
    loop {
        let res = f3.poll();
        if let Poll::Ready(x) = res {
            assert_eq!(x, (7));
            break;
        }
    }
}

#[test]
fn test_both_2() {
    let f1 = rlu::future::map(immediate(3), |n| n * 2);
    let f2 = rlu::future::map(immediate(3), |n| n + 1);
    let f3 = join(f1, f2);
    let f4 = |(a, b)| immediate(a + b);
    let mut f5 = and_then(f3, f4);

    loop {
        let res = f5.poll();
        if let Poll::Ready(x) = res {
            assert_eq!(x, (10));
            break;
        }
    }
}

#[test]
fn map_applies_once() {
    let mut f = rlu::future::map(immediate(20), |n: i32| n / 4);
    assert!(matches!(f.poll(), Poll::Ready(5)));
    assert!(matches!(f.poll(), Poll::NotReady));
}
