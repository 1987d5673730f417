use rust_kart::iter_utils::{assimilate, successors, Perpetuity};

#[test]
fn next_item() {
    let mut got = Vec::new();
    let mut count = 0..;
    for _ in 0..4 {
        got.push(count.next_item());
    }
    assert_eq!(got, [0, 1, 2, 3]);
}

#[test]
fn into_iter() {
    let mut it = assimilate(0..).into_iter();
    let mut got: Vec<i32> = Vec::new();
    for _ in 0..4 {
        got.push(it.next().unwrap());
    }
    assert_eq!(got, [0, 1, 2, 3]);
    assert_eq!(it.size_hint(), (usize::MAX, None));
}

#[test]
fn take() {
    let mut t = assimilate(0..).take(4);
    let mut got: Vec<i32> = Vec::new();
    while let Some(x) = t.next() {
        got.push(x);
    }
    assert_eq!(got, [0, 1, 2, 3]);
    assert_eq!(t.next(), None);
}

#[test]
fn powers_of_two_by_successors() {
    let mut powers = successors(1u64, |a: &u64| a * 2);
    let got: Vec<u64> = (0..5).map(|_| powers.next_item()).collect();
    assert_eq!(got, [1, 2, 4, 8, 16]);
}

#[test]
fn ids_from_other_integer_types() {
    let mut ids = 7u8..;
    assert_eq!(ids.next_item(), 7);
    assert_eq!(ids.next_item(), 8);
    let mut big = -3i128..;
    assert_eq!(big.next_item(), -3);
    assert_eq!(big.next_item(), -2);
}
