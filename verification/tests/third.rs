use bitonic_sorter::fourth::sort_by;
use bitonic_sorter::third::sort;
use bitonic_sorter::SortOrder::{Ascending, Descending};

#[derive(Debug, PartialEq)]
struct Student {
    first_name: String,
    second_name: String,
    age: u8,
}

impl Student {
    fn new(first_name: &str, last_name: &str, age: u8) -> Self {
        Self { first_name: first_name.to_string(), second_name: last_name.to_string(), age }
    }
}

#[test]
fn third_sort_student_by_age_ascending() {
    let taro = Student::new("Taro", "Yamada", 16);
    let hanako = Student::new("Hanako", "Yamada", 14);
    let kyoko = Student::new("Kyoko", "Ito", 15);
    let ryosuke = Student::new("Ryosuke", "Hayashi", 17);

    let mut x = vec![&taro, &hanako, &kyoko, &ryosuke];
    let expected = vec![&hanako, &kyoko, &taro, &ryosuke];

    assert_eq!(sort_by(&mut x, &|a, b| a.age.cmp(&b.age)), Ok(()));
    assert_eq!(x, expected);
}

#[test]
fn third_sort_32_ascending() {
    let mut x: Vec<u32> = vec![10, 30, 11, 20, 4, 330, 21, 110];
    assert_eq!(sort(&mut x, &Ascending), Ok(()));
    assert_eq!(x, vec![4, 10, 11, 20, 21, 30, 110, 330]);
}

#[test]
fn third_sort_32_descending() {
    let mut x: Vec<u32> = vec![10, 30, 11, 20, 4, 330, 21, 110];
    assert_eq!(sort(&mut x, &Descending), Ok(()));
    assert_eq!(x, vec![330, 110, 30, 21, 20, 11, 10, 4]);
}

#[test]
fn third_sort_str_ascending() {
    let mut x = vec!["Rust", "is", "fast", "and", "memory-efficient", "with", "no", "GC"];
    assert_eq!(sort(&mut x, &Ascending), Ok(()));
    assert_eq!(x, vec!["GC", "Rust", "and", "fast", "is", "memory-efficient", "no", "with"]);
}

#[test]
fn third_sort_str_descending() {
    let mut x = vec!["Rust", "is", "fast", "and", "memory-efficient", "with", "no", "GC"];
    assert_eq!(sort(&mut x, &Descending), Ok(()));
    assert_eq!(x, vec!["with", "no", "memory-efficient", "is", "fast", "and", "Rust", "GC"]);
}

#[test]
fn third_sort_to_fail() {
    let mut x = vec![10, 30, 11];
    assert!(sort(&mut x, &Ascending).is_err())
}

#[test]
fn third_sort_rejects_without_touching() {
    let mut x: Vec<u32> = vec![10, 30, 11];
    assert_eq!(
        sort(&mut x, &Descending),
        Err("The length of x is not a power of two. (x.len(): 3)".to_string())
    );
    assert_eq!(x, vec![10, 30, 11]);
}

#[test]
fn third_sort_accepts_one_and_none() {
    let mut one: Vec<u32> = vec![7];
    assert_eq!(sort(&mut one, &Ascending), Ok(()));
    assert_eq!(one, vec![7]);
    assert_eq!(sort(&mut one, &Descending), Ok(()));
    assert_eq!(one, vec![7]);
    let mut none: Vec<u32> = vec![];
    assert_eq!(sort(&mut none, &Ascending), Ok(()));
    assert!(none.is_empty());
}
