use dhtshare::file_manager::compute_hash;
use dhtshare::file_manager::split_into_chunks;

#[test]
fn sha256_known_vectors() {
    assert_eq!(
        compute_hash(b""),
        "e3b0c44298fc1c149afbf4c8996fb92427ae41e4649b934ca495991b7852b855"
    );
    assert_eq!(
        compute_hash(b"abc"),
        "ba7816bf8f01cfea414140de5dae2223b00361a396177a9cb410ff61f20015ad"
    );
    assert_eq!(
        compute_hash(b"Hello world!"),
        "c0535e4be2b79ffd93291305436bf889314e4a3faec05ecffcbb7df31ad9e51a"
    );
}

#[test]
fn hash_is_lowercase_hex_of_fixed_width() {
    let h = compute_hash(&[0u8, 255u8, 16u8]);
    assert_eq!(h.len(), 64);
    assert!(h.chars().all(|c| c.is_ascii_hexdigit() && !c.is_ascii_uppercase()));
}

#[test]
fn split_exact_multiple() {
    let data: Vec<u8> = (0u8..12u8).collect();
    let chunks = split_into_chunks(data.as_slice(), 4);
    assert_eq!(chunks.len(), 3);
    assert_eq!(chunks[0], vec![0, 1, 2, 3]);
    assert_eq!(chunks[1], vec![4, 5, 6, 7]);
    assert_eq!(chunks[2], vec![8, 9, 10, 11]);
}

#[test]
fn split_with_short_final_chunk() {
    let data: Vec<u8> = (0u8..10u8).collect();
    let chunks = split_into_chunks(data.as_slice(), 4);
    assert_eq!(chunks.len(), 3);
    assert_eq!(chunks[2], vec![8, 9]);
    let rejoined: Vec<u8> = chunks.into_iter().flatten().collect();
    assert_eq!(rejoined, data);
}

#[test]
fn split_empty_input_gives_no_chunks() {
    let chunks = split_into_chunks(&[], 8);
    assert_eq!(chunks.len(), 0);
}

#[test]
fn split_chunk_larger_than_input() {
    let chunks = split_into_chunks(&[1, 2, 3], 100);
    assert_eq!(chunks, vec![vec![1, 2, 3]]);
}

#[test]
fn split_chunk_size_one() {
    let chunks = split_into_chunks(&[7, 8], 1);
    assert_eq!(chunks, vec![vec![7], vec![8]]);
}
