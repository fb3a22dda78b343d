use bitonic_sorter::second::sort;

#[test]
fn second_sort_32_ascending() {
    let mut x: Vec<u32> = vec![10, 30, 11, 20, 4, 330, 21, 110];
    sort(&mut x, true);
    assert_eq!(x, vec![4, 10, 11, 20, 21, 30, 110, 330]);
}

#[test]
fn second_sort_32_descending() {
    let mut x: Vec<u32> = vec![10, 30, 11, 20, 4, 330, 21, 110];
    sort(&mut x, false);
    assert_eq!(x, vec![330, 110, 30, 21, 20, 11, 10, 4]);
}

#[test]
fn second_sort_str_ascending() {
    let mut x = vec!["Rust", "is", "fast", "and", "memory-efficient", "with", "no", "GC"];
    sort(&mut x, true);
    assert_eq!(x, vec!["GC", "Rust", "and", "fast", "is", "memory-efficient", "no", "with"]);
}

#[test]
fn second_sort_str_descending() {
    let mut x = vec!["Rust", "is", "fast", "and", "memory-efficient", "with", "no", "GC"];
    sort(&mut x, false);
    assert_eq!(x, vec!["with", "no", "memory-efficient", "is", "fast", "and", "Rust", "GC"]);
}

#[test]
fn second_sort_keeps_the_elements_of_any_length() {
    let mut x: Vec<u32> = vec![5, 3, 9, 1, 7];
    sort(&mut x, true);
    let mut seen = x.clone();
    seen.sort();
    assert_eq!(seen, vec![1, 3, 5, 7, 9]);
}
