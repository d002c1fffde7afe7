use wikipath::encoding::{decode_adjacency, decode_id, encode_adjacency, encode_id};
use wikipath::error::Error;

#[test]
fn an_id_is_four_bytes_least_significant_first() {
    assert_eq!(encode_id(1), vec![1, 0, 0, 0]);
    assert_eq!(encode_id(258), vec![2, 1, 0, 0]);
    assert_eq!(encode_id(0x0403_0201), vec![1, 2, 3, 4]);
    assert_eq!(encode_id(u32::MAX), vec![255, 255, 255, 255]);
    assert_eq!(encode_id(0), vec![0, 0, 0, 0]);
}

#[test]
fn a_list_is_the_bytes_of_its_ids_in_turn() {
    assert_eq!(encode_adjacency(&vec![1, 258]), vec![1, 0, 0, 0, 2, 1, 0, 0]);
    assert_eq!(encode_adjacency(&vec![]), Vec::<u8>::new());
}

#[test]
fn decoding_gives_the_list_back() {
    let lists: Vec<Vec<u32>> = vec![
        vec![],
        vec![0],
        vec![1, 2, 3],
        vec![5, 70_000, 16_777_216, 4_000_000_000, u32::MAX],
    ];
    for list in lists {
        assert_eq!(decode_adjacency(&encode_adjacency(&list)), Ok(list));
    }
}

#[test]
fn decoding_reads_the_bytes_in_fours() {
    assert_eq!(decode_adjacency(&[1, 0, 0, 0, 2, 1, 0, 0]), Ok(vec![1, 258]));
    assert_eq!(decode_adjacency(&[]), Ok(vec![]));
    assert_eq!(decode_id(&[1, 2, 3, 4]), Ok(0x0403_0201));
}

#[test]
fn a_value_of_a_wrong_size_is_corrupt() {
    assert_eq!(decode_adjacency(&[1, 0, 0]), Err(Error::CorruptArtifact));
    assert_eq!(decode_adjacency(&[1, 0, 0, 0, 2]), Err(Error::CorruptArtifact));
    assert_eq!(decode_id(&[1, 0, 0]), Err(Error::CorruptArtifact));
    assert_eq!(decode_id(&[]), Err(Error::CorruptArtifact));
    assert_eq!(decode_id(&[1, 0, 0, 0, 0, 0, 0, 0]), Err(Error::CorruptArtifact));
}
