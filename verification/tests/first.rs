use bitonic_sorter::first::sort;

#[test]
fn first_sort_32_ascending() {
    let mut x = vec![10, 30, 11, 20, 4, 330, 21, 110];
    sort(&mut x, true);
    assert_eq!(x, vec![4, 10, 11, 20, 21, 30, 110, 330]);
}

#[test]
fn first_sort_32_descending() {
    let mut x = vec![10, 30, 11, 20, 4, 330, 21, 110];
    sort(&mut x, false);
    assert_eq!(x, vec![330, 110, 30, 21, 20, 11, 10, 4]);
}

#[test]
fn first_sort_keeps_the_elements_of_any_length() {
    let mut x = vec![5, 3, 9, 1, 7, 2];
    sort(&mut x, false);
    let mut seen = x.clone();
    seen.sort();
    assert_eq!(seen, vec![1, 2, 3, 5, 7, 9]);
}

#[test]
fn first_sort_keeps_what_is_in_order() {
    let mut up = vec![1, 2, 3, 4];
    sort(&mut up, true);
    assert_eq!(up, vec![1, 2, 3, 4]);
    let mut down = vec![4, 3, 2, 1];
    sort(&mut down, false);
    assert_eq!(down, vec![4, 3, 2, 1]);
    let mut one = vec![9];
    sort(&mut one, true);
    assert_eq!(one, vec![9]);
}
