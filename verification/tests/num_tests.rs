use minidb::num_algos::{check_collatz, divisors, fill_tab};
use minidb::string_pair::DoubleString;

#[test]
fn fill_tab_powers() {
    assert_eq!(fill_tab(2), [2, 4, 8, 16, 32, 64, 128, 256, 512, 1024]);
    assert_eq!(fill_tab(1), [1; 10]);
    assert_eq!(fill_tab(0), [0; 10]);
}

#[test]
fn collatz_small_values() {
    let small: [u64; 10] = [1, 2, 3, 4, 5, 6, 7, 8, 9, 10];
    assert_eq!(check_collatz(small), [true; 10]);
    // 27 needs more than a hundred steps, so the bounded probe gives up on it
    let tab = fill_tab(3);
    let flags = check_collatz(tab);
    assert_eq!(flags[0], true);
    assert_eq!(flags[1], true);
    assert_eq!(flags[2], false);
}

#[test]
fn divisors_examples() {
    assert_eq!(divisors(1), Vec::<u32>::new());
    assert_eq!(divisors(7), Vec::<u32>::new());
    assert_eq!(divisors(4), vec![2]);
    assert_eq!(divisors(12), vec![2, 3, 4, 6]);
    assert_eq!(divisors(36), vec![2, 3, 4, 6, 9, 12, 18]);
}

#[test]
fn double_string_pairs() {
    let s = String::from("Abc");
    let d1 = DoubleString::from_strs(&s, "Abc");
    assert_eq!(d1.show(), "(Abc, Abc)");
    let d2 = DoubleString::from_strings(&s, &"xy".to_string());
    assert_eq!(d2.show(), "(Abc, xy)");
    assert_eq!(d2.0, "Abc");
    assert_eq!(d2.1, "xy");
}
