use persistent::util::iterate;

#[test]
fn util_iterate_inc() {
    let res = iterate(5, |x| x + 1);
    assert_eq!(vec![5, 6, 7, 8], res.take(4));
}

#[test]
fn util_iterate_powers_of_two() {
    let res = iterate(1, |x| x * 2);
    assert_eq!(vec![1, 2, 4, 8], res.take(4));
}
