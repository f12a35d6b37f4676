use random_choice::wheel::{resample_in_place, sample_by_weight, select_indices};

fn bits(numbers: &[f64]) -> Vec<u64> {
    numbers.iter().map(|number| number.to_bits()).collect()
}

#[test]
fn each_spoke_picks_its_sector() {
    let marks = bits(&[6.0, 9.0, 9.5]);
    let spokes = bits(&[0.75, 3.75, 6.75, 9.25]);
    assert_eq!(select_indices(&marks, &spokes), vec![0, 0, 1, 2]);
}

#[test]
fn a_spoke_on_a_mark_picks_the_sector_that_ends_there() {
    let marks = bits(&[1.0, 2.0, 3.0]);
    let spokes = bits(&[1.0, 2.0]);
    assert_eq!(select_indices(&marks, &spokes), vec![0, 1]);
}

#[test]
fn empty_sectors_are_passed_over() {
    let marks = bits(&[0.0, 0.0, 4.0, 4.0, 8.0]);
    let spokes = bits(&[1.0, 5.0]);
    assert_eq!(select_indices(&marks, &spokes), vec![2, 4]);
    let spokes = bits(&[0.0, 4.0]);
    assert_eq!(select_indices(&marks, &spokes), vec![0, 2]);
}

#[test]
fn spokes_off_the_wheel_repeat_the_last_pick() {
    let marks = bits(&[1.0, 2.0, 3.0]);
    let spokes = bits(&[0.5, 1.5, 3.0, 0.1]);
    assert_eq!(select_indices(&marks, &spokes), vec![0, 1, 1, 1]);
    let spokes = bits(&[3.5, 0.5]);
    assert_eq!(select_indices(&marks, &spokes), vec![0, 0]);
}

#[test]
fn the_pointer_does_not_turn_back() {
    let marks = bits(&[1.0, 2.0, 3.0]);
    let spokes = bits(&[2.5, 0.5, 1.5]);
    assert_eq!(select_indices(&marks, &spokes), vec![2, 2, 2]);
}

#[test]
fn no_sectors_or_no_spokes_give_no_picks() {
    let marks = bits(&[1.0, 2.0]);
    let spokes = bits(&[0.5, 1.5]);
    assert_eq!(select_indices(&[], &spokes), Vec::<usize>::new());
    assert_eq!(select_indices(&marks, &[]), Vec::<usize>::new());
    assert_eq!(select_indices(&[], &[]), Vec::<usize>::new());
    let samples: Vec<char> = Vec::new();
    assert!(sample_by_weight(&samples, &[], &spokes).is_empty());
    assert!(sample_by_weight(&['a', 'b'], &marks, &[]).is_empty());
}

#[test]
fn what_is_not_a_number_ends_the_reading() {
    let marks = bits(&[1.0, f64::NAN]);
    let spokes = bits(&[0.5, 1.5]);
    assert_eq!(select_indices(&marks, &spokes), vec![0, 0]);
    let marks = bits(&[1.0, 2.0, 3.0]);
    let spokes = bits(&[1.5, f64::NAN, 2.5]);
    assert_eq!(select_indices(&marks, &spokes), vec![1, 1, 1]);
    let marks = bits(&[1.0, f64::INFINITY]);
    let spokes = bits(&[f64::INFINITY, f64::INFINITY]);
    assert_eq!(select_indices(&marks, &spokes), vec![0, 0]);
}

#[test]
fn a_wheel_without_width_gives_the_first_sector() {
    let marks = bits(&[0.0, 0.0, 0.0]);
    let spokes = bits(&[0.0, 0.0, 0.0, 0.0]);
    assert_eq!(select_indices(&marks, &spokes), vec![0, 0, 0, 0]);
    let marks = bits(&[-0.0, 0.0]);
    let spokes = bits(&[0.0, -0.0]);
    assert_eq!(select_indices(&marks, &spokes), vec![0, 0]);
}

#[test]
fn choices_refer_to_the_samples() {
    let samples = vec![String::from("x"), String::from("y"), String::from("z")];
    let marks = bits(&[6.0, 9.0, 9.5]);
    let spokes = bits(&[0.75, 3.75, 6.75, 9.25]);
    let choices = sample_by_weight(&samples, &marks, &spokes);
    assert_eq!(choices.len(), 4);
    assert!(std::ptr::eq(choices[0], &samples[0]));
    assert!(std::ptr::eq(choices[1], &samples[0]));
    assert!(std::ptr::eq(choices[2], &samples[1]));
    assert!(std::ptr::eq(choices[3], &samples[2]));
}

#[test]
fn resampling_copies_the_picks_into_place() {
    let mut samples = vec!["a", "b", "c", "d"];
    let marks = bits(&[1.0, 2.0, 7.0, 8.0]);
    let spokes = bits(&[1.5, 3.5, 5.5, 7.5]);
    resample_in_place(&mut samples, &marks, &spokes);
    assert_eq!(samples, vec!["b", "c", "c", "d"]);
}

#[test]
fn resampling_reads_what_it_has_written() {
    let mut samples = vec!["a", "b", "c"];
    let marks = bits(&[6.0, 9.0, 9.0]);
    let spokes = bits(&[0.75, 3.75, 6.75]);
    assert_eq!(select_indices(&marks, &spokes), vec![0, 0, 1]);
    resample_in_place(&mut samples, &marks, &spokes);
    assert_eq!(samples, vec!["a", "a", "a"]);
}

#[test]
fn resampling_one_item_leaves_it() {
    let mut samples = vec![String::from("only")];
    resample_in_place(&mut samples, &bits(&[2.0]), &bits(&[1.0]));
    assert_eq!(samples, vec![String::from("only")]);
    resample_in_place(&mut samples, &bits(&[2.0]), &[]);
    assert_eq!(samples, vec![String::from("only")]);
    let mut none: Vec<u8> = Vec::new();
    resample_in_place(&mut none, &[], &[]);
    assert!(none.is_empty());
}

#[test]
fn resampling_clones_each_item() {
    let mut samples = vec![vec![1, 2], vec![3], vec![4, 5, 6]];
    let marks = bits(&[0.5, 1.0, 3.0]);
    let spokes = bits(&[1.0, 2.0, 2.5]);
    resample_in_place(&mut samples, &marks, &spokes);
    assert_eq!(samples, vec![vec![3], vec![4, 5, 6], vec![4, 5, 6]]);
}

#[test]
fn a_sector_is_picked_as_often_as_it_is_wide() {
    let marks = bits(&[1.0, 3.0, 6.0]);
    let spokes = bits(&[0.5, 1.5, 2.5, 3.5, 4.5, 5.5]);
    assert_eq!(select_indices(&marks, &spokes), vec![0, 1, 1, 2, 2, 2]);
    let marks = bits(&[2.0, 4.0, 6.0, 8.0]);
    let spokes = bits(&[0.25, 1.0, 1.75, 2.5, 3.25, 4.0, 4.75, 5.5, 6.25, 7.0, 7.75]);
    assert_eq!(select_indices(&marks, &spokes), vec![0, 0, 0, 1, 1, 1, 2, 2, 3, 3, 3]);
}

#[test]
fn a_wide_sector_is_never_left_out() {
    let marks = bits(&[0.5, 1.0, 3.5, 3.75, 6.0]);
    let spokes = bits(&[0.75, 2.75, 4.75]);
    assert_eq!(select_indices(&marks, &spokes), vec![1, 2, 4]);
}

#[test]
fn fewer_than_two_marks_leave_any_samples() {
    let mut samples = vec!["a", "b", "c"];
    resample_in_place(&mut samples, &bits(&[2.0]), &bits(&[1.0, 1.5]));
    assert_eq!(samples, vec!["a", "b", "c"]);
    resample_in_place(&mut samples, &[], &[]);
    assert_eq!(samples, vec!["a", "b", "c"]);
    assert!(sample_by_weight(&samples, &bits(&[1.0]), &[]).is_empty());
    assert!(sample_by_weight(&samples, &[], &bits(&[0.5])).is_empty());
}

#[test]
fn the_first_and_the_last_sector_are_picked_by_their_width() {
    let marks = bits(&[2.5, 4.0, 6.0]);
    let spokes = bits(&[0.5, 1.5, 2.5, 3.5, 4.5, 5.5]);
    assert_eq!(select_indices(&marks, &spokes), vec![0, 0, 0, 1, 2, 2]);
}
