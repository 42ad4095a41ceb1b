use hydra::helpers::{max, merge_vector_hashmaps, size_of_vec, size_with_capacity};

#[test]
fn max_is_the_greater() {
    assert_eq!(max(3, 5), 5);
    assert_eq!(max(5, 3), 5);
    assert_eq!(max(4, 4), 4);
    assert_eq!(max(0, u64::MAX), u64::MAX);
}

#[test]
fn size_of_vec_counts_header_and_buffer() {
    let v: Vec<u64> = Vec::with_capacity(10);
    let header = std::mem::size_of::<Vec<u64>>();
    assert_eq!(size_of_vec(&v), header + v.capacity() * 8);
    assert!(size_of_vec(&v) >= header + 80);
    let empty: Vec<u32> = Vec::new();
    assert_eq!(size_of_vec(&empty), std::mem::size_of::<Vec<u32>>());
    let units: Vec<()> = vec![(), ()];
    assert_eq!(size_of_vec(&units), std::mem::size_of::<Vec<()>>());
}

#[test]
fn size_with_capacity_is_header_plus_room() {
    let header = std::mem::size_of::<Vec<u16>>();
    assert_eq!(size_with_capacity::<u16>(0), header);
    assert_eq!(size_with_capacity::<u16>(7), header + 14);
}

fn entry(key: &str, values: &[u32]) -> (String, Vec<u32>) {
    (key.to_string(), values.to_vec())
}

#[test]
fn merge_keeps_the_values_of_a_key_in_one_list() {
    let h1 = vec![entry("a", &[1, 2])];
    let h2 = vec![entry("b", &[3])];
    assert_eq!(merge_vector_hashmaps(&h1, &h2), vec![entry("a", &[1, 2]), entry("b", &[3])]);
}

#[test]
fn merge_appends_the_second_list_twice_under_a_shared_key() {
    let h1 = vec![entry("a", &[1]), entry("b", &[2, 3])];
    let h2 = vec![entry("c", &[7]), entry("b", &[4, 5]), entry("d", &[])];
    assert_eq!(
        merge_vector_hashmaps(&h1, &h2),
        vec![
            entry("a", &[1]),
            entry("b", &[2, 3, 4, 5, 4, 5]),
            entry("c", &[7]),
            entry("d", &[]),
        ]
    );
}

#[test]
fn merge_with_an_empty_list_is_a_copy() {
    let h = vec![entry("x", &[9]), entry("y", &[])];
    let none: Vec<(String, Vec<u32>)> = vec![];
    assert_eq!(merge_vector_hashmaps(&h, &none), h);
    assert_eq!(merge_vector_hashmaps(&none, &h), h);
    assert_eq!(merge_vector_hashmaps(&none, &none), none);
}
