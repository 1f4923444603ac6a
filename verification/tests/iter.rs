use websdr::iter::IterExt;

#[test]
fn every_nth_keeps_the_head_of_each_full_group() {
    let mut heads = vec![10, 11, 12, 13, 14, 15, 16].into_iter().every_nth(3);
    assert_eq!(heads.next(), Some(10));
    assert_eq!(heads.next(), Some(13));
    assert_eq!(heads.next(), None);
    assert_eq!(heads.next(), None);
}

#[test]
fn every_first_is_every_item() {
    let mut heads = vec!['a', 'b'].into_iter().every_nth(1);
    assert_eq!(heads.next(), Some('a'));
    assert_eq!(heads.next(), Some('b'));
    assert_eq!(heads.next(), None);
}

#[test]
fn every_nth_of_an_exact_multiple() {
    let mut heads = (0u32..6).every_nth(2);
    assert_eq!(heads.next(), Some(0));
    assert_eq!(heads.next(), Some(2));
    assert_eq!(heads.next(), Some(4));
    assert_eq!(heads.next(), None);
}

#[test]
fn every_nth_of_too_few_items() {
    assert_eq!(vec![1, 2].into_iter().every_nth(3).next(), None);
    assert_eq!(Vec::<i32>::new().into_iter().every_nth(3).next(), None);
}

#[test]
fn windows_stop_before_the_last_run() {
    let mut windows = vec![1, 2, 3, 4].into_iter().array_windows::<2>();
    assert_eq!(windows.next(), Some([1, 2]));
    assert_eq!(windows.next(), Some([2, 3]));
    assert_eq!(windows.next(), None);
    assert_eq!(windows.next(), None);
}

#[test]
fn windows_of_three() {
    let mut windows = (1u8..=5).array_windows::<3>();
    assert_eq!(windows.next(), Some([1, 2, 3]));
    assert_eq!(windows.next(), Some([2, 3, 4]));
    assert_eq!(windows.next(), None);
}

#[test]
fn windows_of_one() {
    let mut windows = vec!['x', 'y'].into_iter().array_windows::<1>();
    assert_eq!(windows.next(), Some(['x']));
    assert_eq!(windows.next(), None);
}

#[test]
fn no_windows_in_too_few_items() {
    assert_eq!(vec![1].into_iter().array_windows::<2>().next(), None);
    assert_eq!(vec![1, 2].into_iter().array_windows::<2>().next(), None);
    assert_eq!(Vec::<i32>::new().into_iter().array_windows::<2>().next(), None);
}
