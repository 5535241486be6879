use luby_transform::chunking::split_into_blocks;

#[test]
fn test_split_uneven_tail() {
    let data: Vec<u8> = vec![0, 1, 2, 3, 4, 5, 6];
    let blocks = split_into_blocks(&data, 3);
    assert_eq!(blocks, vec![vec![0u8, 1, 2], vec![3, 4, 5], vec![6]]);
}

#[test]
fn test_split_exact_multiple() {
    let data: Vec<u8> = vec![9, 8, 7, 6];
    let blocks = split_into_blocks(&data, 2);
    assert_eq!(blocks, vec![vec![9u8, 8], vec![7, 6]]);
}

#[test]
fn test_split_oversized_block() {
    let data: Vec<u8> = vec![1, 2];
    let blocks = split_into_blocks(&data, 10);
    assert_eq!(blocks, vec![vec![1u8, 2]]);
}

#[test]
fn test_split_empty_input() {
    let data: Vec<u8> = Vec::new();
    let blocks = split_into_blocks(&data, 4);
    assert_eq!(blocks, Vec::<Vec<u8>>::new());
}

#[test]
fn test_split_single_bytes() {
    let data: Vec<u8> = vec![5, 6, 7];
    let blocks = split_into_blocks(&data, 1);
    assert_eq!(blocks, vec![vec![5u8], vec![6], vec![7]]);
}
