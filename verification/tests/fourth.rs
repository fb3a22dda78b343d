use bitonic_sorter::fourth::{sort, sort_by, PARALLEL_THRESHOLD};
use bitonic_sorter::SortOrder::{Ascending, Descending};
use rand::distributions::Standard;
use rand::{Rng, SeedableRng};
use rand_pcg::Pcg64Mcg;

#[derive(Debug, PartialEq)]
struct Student {
    first_name: String,
    second_name: String,
    age: u8,
}

impl Student {
    fn new(first_name: &str, last_name: &str, age: u8) -> Self {
        Self { first_name: first_name.to_string(), second_name: last_name.to_string(), age }
    }
}

fn new_u32_vec(n: usize) -> Vec<u32> {
    let mut rng = Pcg64Mcg::from_seed([0; 16]);
    let mut v = Vec::with_capacity(n);
    for _ in 0..n {
        v.push(rng.sample(&Standard));
    }
    v
}

fn is_sorted_ascending(x: &[u32]) -> bool {
    x.windows(2).all(|pair| pair[0] <= pair[1])
}

fn is_sorted_descending(x: &[u32]) -> bool {
    x.windows(2).all(|pair| pair[0] >= pair[1])
}

#[test]
fn fourth_sort_student_by_age_ascending() {
    let taro = Student::new("Taro", "Yamada", 16);
    let hanako = Student::new("Hanako", "Yamada", 14);
    let kyoko = Student::new("Kyoko", "Ito", 15);
    let ryosuke = Student::new("Ryosuke", "Hayashi", 17);

    let mut x = vec![&taro, &hanako, &kyoko, &ryosuke];
    let expected = vec![&hanako, &kyoko, &taro, &ryosuke];

    assert_eq!(sort_by(&mut x, &|a, b| a.age.cmp(&b.age)), Ok(()));
    assert_eq!(x, expected);
}

#[test]
fn sort_students_by_name_ascending() {
    let taro = Student::new("Taro", "Yamada", 16);
    let hanako = Student::new("Hanako", "Yamada", 14);
    let kyoko = Student::new("Kyoko", "Ito", 15);
    let ryosuke = Student::new("Ryosuke", "Hayashi", 17);

    let mut x = vec![&taro, &hanako, &kyoko, &ryosuke];
    let expected = vec![&ryosuke, &kyoko, &hanako, &taro];

    assert_eq!(
        sort_by(&mut x, &|a, b| a
            .second_name
            .cmp(&b.second_name)
            .then_with(|| a.first_name.cmp(&b.first_name))),
        Ok(())
    );
    assert_eq!(x, expected);
}

#[test]
fn fourth_sort_32_ascending() {
    let mut x: Vec<u32> = vec![10, 30, 11, 20, 4, 330, 21, 110];
    assert_eq!(sort(&mut x, &Ascending), Ok(()));
    assert_eq!(x, vec![4, 10, 11, 20, 21, 30, 110, 330]);
}

#[test]
fn fourth_sort_32_descending() {
    let mut x: Vec<u32> = vec![10, 30, 11, 20, 4, 330, 21, 110];
    assert_eq!(sort(&mut x, &Descending), Ok(()));
    assert_eq!(x, vec![330, 110, 30, 21, 20, 11, 10, 4]);
}

#[test]
fn fourth_sort_str_ascending() {
    let mut x = vec!["Rust", "is", "fast", "and", "memory-efficient", "with", "no", "GC"];
    assert_eq!(sort(&mut x, &Ascending), Ok(()));
    assert_eq!(x, vec!["GC", "Rust", "and", "fast", "is", "memory-efficient", "no", "with"]);
}

#[test]
fn fourth_sort_str_descending() {
    let mut x = vec!["Rust", "is", "fast", "and", "memory-efficient", "with", "no", "GC"];
    assert_eq!(sort(&mut x, &Descending), Ok(()));
    assert_eq!(x, vec!["with", "no", "memory-efficient", "is", "fast", "and", "Rust", "GC"]);
}

#[test]
fn fourth_sort_to_fail() {
    let mut x = vec![10, 30, 11];
    assert!(sort(&mut x, &Ascending).is_err())
}

#[test]
fn sort_u32_large() {
    {
        let mut x = new_u32_vec(65536);
        assert_eq!(sort(&mut x, &Ascending), Ok(()));
        assert!(is_sorted_ascending(&x));
    };
    {
        let mut x = new_u32_vec(65536);
        assert_eq!(sort(&mut x, &Descending), Ok(()));
        assert!(is_sorted_descending(&x));
    };
}

#[test]
fn sort_by_rejects_without_touching() {
    let mut x: Vec<u32> = vec![10, 30, 11, 20, 4, 330];
    assert_eq!(
        sort_by(&mut x, &|a, b| a.cmp(b)),
        Err("The length of x is not a power of two. (x.len(): 6)".to_string())
    );
    assert_eq!(x, vec![10, 30, 11, 20, 4, 330]);
    assert_eq!(
        sort(&mut x, &Ascending),
        Err("The length of x is not a power of two. (x.len(): 6)".to_string())
    );
    assert_eq!(x, vec![10, 30, 11, 20, 4, 330]);
}

#[test]
fn sort_by_accepts_one_and_none() {
    let mut one: Vec<u32> = vec![42];
    assert_eq!(sort_by(&mut one, &|a, b| a.cmp(b)), Ok(()));
    assert_eq!(one, vec![42]);
    assert_eq!(sort(&mut one, &Descending), Ok(()));
    assert_eq!(one, vec![42]);
    let mut none: Vec<u32> = vec![];
    assert_eq!(sort_by(&mut none, &|a, b| a.cmp(b)), Ok(()));
    assert!(none.is_empty());
}

#[test]
fn sort_by_reversed_comparator_sorts_downwards() {
    let mut x: Vec<u32> = vec![10, 30, 11, 20, 4, 330, 21, 110];
    assert_eq!(sort_by(&mut x, &|a, b| b.cmp(a)), Ok(()));
    assert_eq!(x, vec![330, 110, 30, 21, 20, 11, 10, 4]);
}

#[test]
fn sort_by_composite_key_breaks_ties_by_second_key() {
    let mut x: Vec<(u8, u8)> = vec![(2, 1), (1, 9), (2, 0), (1, 3), (0, 5), (2, 2), (1, 1), (0, 0)];
    assert_eq!(sort_by(&mut x, &|a, b| a.0.cmp(&b.0).then_with(|| a.1.cmp(&b.1))), Ok(()));
    assert_eq!(x, vec![(0, 0), (0, 5), (1, 1), (1, 3), (1, 9), (2, 0), (2, 1), (2, 2)]);
}

#[test]
fn sort_by_orders_unequal_keys_whatever_becomes_of_equal_ones() {
    let mut x: Vec<(u8, char)> =
        vec![(3, 'a'), (1, 'b'), (3, 'c'), (2, 'd'), (1, 'e'), (3, 'f'), (2, 'g'), (0, 'h')];
    let before = x.clone();
    assert_eq!(sort_by(&mut x, &|a, b| a.0.cmp(&b.0)), Ok(()));
    let keys: Vec<u8> = x.iter().map(|pair| pair.0).collect();
    assert_eq!(keys, vec![0, 1, 1, 2, 2, 3, 3, 3]);
    let mut seen = x.clone();
    seen.sort();
    let mut given = before;
    given.sort();
    assert_eq!(seen, given);
}

#[test]
fn sorting_a_sorted_sequence_changes_nothing() {
    let mut up: Vec<u32> = vec![4, 10, 11, 20, 21, 30, 110, 330];
    assert_eq!(sort(&mut up, &Ascending), Ok(()));
    assert_eq!(up, vec![4, 10, 11, 20, 21, 30, 110, 330]);
    let mut down: Vec<u32> = vec![330, 110, 30, 21, 20, 11, 10, 4];
    assert_eq!(sort(&mut down, &Descending), Ok(()));
    assert_eq!(down, vec![330, 110, 30, 21, 20, 11, 10, 4]);
}

#[test]
fn parallel_and_sequential_paths_agree() {
    let n = 4 * PARALLEL_THRESHOLD;
    let given = new_u32_vec(n);

    let mut parallel = given.clone();
    assert_eq!(sort(&mut parallel, &Ascending), Ok(()));

    let mut sequential = given.clone();
    assert_eq!(bitonic_sorter::third::sort(&mut sequential, &Ascending), Ok(()));
    assert_eq!(parallel, sequential);

    let mut expected = given.clone();
    expected.sort();
    assert_eq!(parallel, expected);

    let mut parallel_down = given.clone();
    assert_eq!(sort_by(&mut parallel_down, &|a, b| b.cmp(a)), Ok(()));
    expected.reverse();
    assert_eq!(parallel_down, expected);
}

#[test]
fn threshold_is_4096() {
    assert_eq!(PARALLEL_THRESHOLD, 4096);
}

#[test]
fn equal_keys_may_change_places() {
    let mut x: Vec<(u8, u8)> = vec![(0, 0), (1, 1), (1, 2), (2, 3), (2, 4), (3, 5), (3, 6), (3, 7)];
    assert_eq!(sort_by(&mut x, &|a, b| a.0.cmp(&b.0)), Ok(()));
    assert_eq!(x, vec![(0, 0), (1, 1), (1, 2), (2, 3), (2, 4), (3, 6), (3, 7), (3, 5)]);
}
