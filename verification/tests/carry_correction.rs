use spigot_pi::pi_digits_iter::PiDigitsIter;

fn correct(raw: Vec<i32>) -> Vec<u8> {
    let mut stream = PiDigitsIter::new(raw.into_iter());
    let mut out = Vec::new();
    while let Some(d) = stream.next() {
        out.push(d);
    }
    assert_eq!(stream.next(), None);
    out
}

#[test]
fn plain_digits_pass_through() {
    assert_eq!(correct(vec![3, 1, 4]), vec![3, 1, 4]);
}

#[test]
fn nines_run_absorbed_by_carry() {
    assert_eq!(correct(vec![3, 1, 4, 9, 9, 12, 5]), vec![3, 1, 5, 0, 0, 2, 5]);
}

#[test]
fn nines_run_flushed_as_nines() {
    assert_eq!(correct(vec![3, 1, 4, 9, 9, 2]), vec![3, 1, 4, 9, 9, 2]);
}

#[test]
fn nines_at_end_of_stream_stay_nines() {
    assert_eq!(correct(vec![9, 9, 9]), vec![9, 9, 9]);
}

#[test]
fn one_step_carry() {
    assert_eq!(correct(vec![4, 10]), vec![5, 0]);
}

#[test]
fn empty_input_gives_empty_output() {
    assert_eq!(correct(vec![]), Vec::<u8>::new());
}

#[test]
fn carry_on_first_input_is_dropped() {
    assert_eq!(correct(vec![12]), vec![2]);
    assert_eq!(correct(vec![10, 3]), vec![0, 3]);
}

#[test]
fn carry_with_no_nines_held() {
    assert_eq!(correct(vec![1, 2, 11, 4]), vec![1, 3, 1, 4]);
}

#[test]
fn leading_nines_with_nothing_held_before_them() {
    assert_eq!(correct(vec![9, 9, 3]), vec![9, 9, 3]);
    assert_eq!(correct(vec![9, 9, 10]), vec![0, 0, 0]);
}

#[test]
fn nines_held_at_end_after_a_digit() {
    assert_eq!(correct(vec![7, 9, 9]), vec![7, 9, 9]);
}

#[test]
fn output_is_as_long_as_input() {
    let inputs: Vec<Vec<i32>> = vec![
        vec![],
        vec![9],
        vec![10],
        vec![0, 0, 0, 0],
        vec![8, 9, 9, 9, 10, 9, 9, 1, 10, 10, 9],
        vec![3, 1, 4, 1, 5, 9, 2, 6, 5, 3, 5, 8, 9, 7, 9],
    ];
    for raw in inputs {
        let n = raw.len();
        assert_eq!(correct(raw).len(), n);
    }
}

#[test]
fn same_input_gives_same_output() {
    let raw = vec![8, 9, 9, 9, 10, 9, 9, 1, 10, 10, 9, 4];
    assert_eq!(correct(raw.clone()), correct(raw));
}

#[test]
fn raw_digits_up_to_ten_give_decimal_digits() {
    let raw = vec![8, 9, 9, 9, 10, 9, 9, 1, 10, 10, 9, 4, 0, 10, 9, 10];
    assert!(correct(raw).iter().all(|d| *d <= 9));
}

#[test]
fn digits_are_handed_out_as_soon_as_they_are_final() {
    let mut stream = PiDigitsIter::new(vec![3, 1, 4, 9, 9, 12, 5].into_iter());
    assert_eq!(stream.next(), Some(3));
    assert_eq!(stream.next(), Some(1));
    assert_eq!(stream.next(), Some(5));
    assert_eq!(stream.next(), Some(0));
    assert_eq!(stream.next(), Some(0));
    assert_eq!(stream.next(), Some(2));
    assert_eq!(stream.next(), Some(5));
    assert_eq!(stream.next(), None);
}

#[test]
fn out_of_range_raw_digits_keep_their_low_byte() {
    assert_eq!(correct(vec![-1, 2]), vec![255, 2]);
    assert_eq!(correct(vec![19, 10]), vec![10, 0]);
}

/// The number that digits denote in base ten, the first being the most significant.
fn value(digits: impl Iterator<Item = u128>) -> u128 {
    digits.fold(0, |acc, d| acc * 10 + d)
}

#[test]
fn corrected_digits_denote_the_same_number() {
    let inputs: Vec<Vec<i32>> = vec![
        vec![3, 1, 4, 9, 9, 12, 5],
        vec![3, 1, 4, 9, 9, 2],
        vec![4, 10],
        vec![8, 9, 9, 9, 10, 9, 9, 1, 10, 10, 9, 4, 0, 10, 9, 10],
        vec![0, 18, 18, 9, 9, 17, 3],
    ];
    for raw in inputs {
        let expected = value(raw.iter().map(|d| *d as u128));
        let digits = correct(raw);
        assert_eq!(value(digits.iter().map(|d| *d as u128)), expected);
    }
}

#[test]
fn a_carry_out_of_the_first_place_is_dropped() {
    // 9 9 10 denotes 1000: its last three digits are 0 0 0.
    assert_eq!(correct(vec![9, 9, 10]), vec![0, 0, 0]);
    // 13 5 denotes 135: its last two digits are 3 5.
    assert_eq!(correct(vec![13, 5]), vec![3, 5]);
}

#[test]
fn digits_handed_out_do_not_depend_on_what_follows() {
    let raw = vec![3, 1, 4, 9, 9, 12, 5, 9, 9, 9, 3, 10, 7];
    let whole = correct(raw.clone());
    for taken in 0..raw.len() {
        // A carry can reach the held digit and the nines behind it, nothing before them.
        let prefix = correct(raw[..taken].to_vec());
        let held = raw[..taken].iter().rev().take_while(|d| **d == 9).count() + 1;
        let settled = taken.saturating_sub(held);
        assert_eq!(&prefix[..settled], &whole[..settled]);
    }
}
