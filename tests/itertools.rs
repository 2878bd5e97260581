use babencoin::itertools::{count, cycle, extract};

#[test]
fn count_from_zero() {
    let mut c = count();
    assert_eq!(c.next(), Some(0));
    assert_eq!(c.next(), Some(1));
    assert_eq!(c.next(), Some(2));
}

#[test]
fn cycle_repeats() {
    let mut c = cycle(vec![1, 2, 3]);
    let got: Vec<i32> = (0..7).map(|_| c.next().unwrap()).collect();
    assert_eq!(got, vec![1, 2, 3, 1, 2, 3, 1]);
    let mut empty = cycle(Vec::<i32>::new());
    assert_eq!(empty.next(), None);
}

#[test]
fn extract_takes_one_out() {
    let (x, rest) = extract(vec![10, 20, 30, 40], 2);
    assert_eq!(x, Some(30));
    assert_eq!(rest, vec![10, 20, 40]);
    let (x, rest) = extract(vec![10, 20], 5);
    assert_eq!(x, None);
    assert_eq!(rest, vec![10, 20]);
}
