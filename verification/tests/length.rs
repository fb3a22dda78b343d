use bitonic_sorter::length::{length_error, valid_length};

#[test]
fn powers_of_two_and_zero_are_valid() {
    assert!(valid_length(0));
    assert!(valid_length(1));
    assert!(valid_length(2));
    assert!(valid_length(4));
    assert!(valid_length(65536));
    assert!(valid_length(1usize << (usize::BITS - 1)));
}

#[test]
fn other_lengths_are_not_valid() {
    assert!(!valid_length(3));
    assert!(!valid_length(6));
    assert!(!valid_length(12));
    assert!(!valid_length(65535));
    assert!(!valid_length(usize::MAX));
}

#[test]
fn length_error_names_the_length() {
    assert_eq!(length_error(3), "The length of x is not a power of two. (x.len(): 3)");
    assert_eq!(length_error(0), "The length of x is not a power of two. (x.len(): 0)");
    assert_eq!(length_error(10), "The length of x is not a power of two. (x.len(): 10)");
    assert_eq!(length_error(65535), "The length of x is not a power of two. (x.len(): 65535)");
    assert_eq!(
        length_error(1234567890),
        "The length of x is not a power of two. (x.len(): 1234567890)"
    );
}
