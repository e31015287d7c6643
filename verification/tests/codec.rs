use mmr_verifier::baseline;
use mmr_verifier::compiled::{self, encode_leaves, encode_proof, Tagging, VariableBytes};
use mmr_verifier::error::DecodeError;
use mmr_verifier::format::{leaves_ascend, put_item, put_leaf, read_item, read_leaf};
use mmr_verifier::wire::Reader;

fn dynamic(bytes: &[u8]) -> VariableBytes {
    VariableBytes::Dynamic(bytes.to_vec())
}

#[test]
fn pack_writes_length_then_bytes() {
    assert_eq!(dynamic(&[7, 8, 9]).pack(), Ok(vec![3, 0, 7, 8, 9]));
    assert_eq!(dynamic(&[]).pack(), Ok(vec![0, 0]));
    let digest = VariableBytes::Hash(Box::new([0xab; 32]));
    let mut expected = vec![32u8, 0];
    expected.extend([0xab; 32]);
    assert_eq!(digest.pack(), Ok(expected));
}

#[test]
fn pack_accepts_the_longest_item_and_refuses_one_more_byte() {
    let longest = dynamic(&vec![5u8; 65535]);
    let packed = longest.pack().unwrap();
    assert_eq!(packed.len(), 65537);
    assert_eq!(&packed[0..2], &[0xff, 0xff]);
    assert_eq!(VariableBytes::unpack(&packed), Ok((longest, 65537)));
    assert_eq!(dynamic(&vec![5u8; 65536]).pack(), Err(DecodeError::ItemTooLarge));
}

#[test]
fn unpack_returns_the_item_and_what_it_took() {
    let data = [2u8, 0, 7, 8, 9];
    assert_eq!(VariableBytes::unpack(&data), Ok((dynamic(&[7, 8]), 4)));
    assert_eq!(VariableBytes::unpack(&[0, 0]), Ok((dynamic(&[]), 2)));
}

#[test]
fn unpack_refuses_a_cut_length_field() {
    assert_eq!(VariableBytes::unpack(&[]), Err(DecodeError::UnexpectedEof));
    assert_eq!(VariableBytes::unpack(&[5]), Err(DecodeError::UnexpectedEof));
}

#[test]
fn unpack_refuses_a_length_that_exceeds_what_is_left() {
    assert_eq!(VariableBytes::unpack(&[3, 0, 1, 2]), Err(DecodeError::UnexpectedEof));
    assert_eq!(VariableBytes::unpack(&[0xff, 0xff, 1]), Err(DecodeError::UnexpectedEof));
    assert_eq!(VariableBytes::unpack(&[1, 0]), Err(DecodeError::UnexpectedEof));
}

#[test]
fn unpack_inverts_pack() {
    for len in [0usize, 1, 31, 33, 255, 256, 1000] {
        let item = dynamic(&vec![len as u8; len]);
        let mut packed = item.pack().unwrap();
        packed.extend([0xee, 0xee, 0xee]);
        assert_eq!(VariableBytes::unpack(&packed), Ok((item, len + 2)));
    }
}

#[test]
fn a_payload_of_32_bytes_is_a_digest_by_length_and_leaf_bytes_untagged() {
    let mut data = vec![32u8, 0];
    data.extend(1u8..=32);
    let payload: Vec<u8> = (1u8..=32).collect();
    let mut digest = [0u8; 32];
    digest.copy_from_slice(&payload);

    let (by_length, used) = VariableBytes::unpack(&data).unwrap();
    assert_eq!(used, 34);
    assert_eq!(by_length, VariableBytes::Hash(Box::new(digest)));

    let (same, _) = VariableBytes::unpack_as(&data, Tagging::ByLength).unwrap();
    assert_eq!(same, VariableBytes::Hash(Box::new(digest)));

    let (untagged, used) = VariableBytes::unpack_as(&data, Tagging::Untagged).unwrap();
    assert_eq!(used, 34);
    assert_eq!(untagged, VariableBytes::Dynamic(payload.clone()));

    assert_eq!(by_length.as_bytes(), untagged.as_bytes());
    assert_eq!(by_length.as_bytes(), &payload[..]);
}

#[test]
fn payloads_of_other_lengths_are_leaf_bytes_under_either_tagging() {
    for len in [0usize, 31, 33] {
        let mut data = vec![len as u8, 0];
        data.extend(vec![4u8; len]);
        for tagging in [Tagging::ByLength, Tagging::Untagged] {
            let (item, _) = VariableBytes::unpack_as(&data, tagging).unwrap();
            assert_eq!(item, dynamic(&vec![4u8; len]));
        }
    }
}

#[test]
fn owned_as_bytes_gives_the_bytes_of_either_variant() {
    assert_eq!(dynamic(&[1, 2, 3]).as_bytes(), &[1, 2, 3]);
    assert_eq!(VariableBytes::Hash(Box::new([9; 32])).as_bytes(), &[9u8; 32]);
}

#[test]
fn borrowed_as_bytes_gives_the_bytes_of_either_variant() {
    let buffer = [1u8, 2, 3];
    assert_eq!(baseline::VariableBytes::Dynamic(&buffer).as_bytes(), &[1, 2, 3]);
    assert_eq!(baseline::VariableBytes::Hash(Box::new([9; 32])).as_bytes(), &[9u8; 32]);
}

#[test]
fn put_item_appends_and_leaves_the_output_alone_on_failure() {
    let mut out = vec![1u8];
    assert_eq!(put_item(&mut out, &[5, 6]), Ok(()));
    assert_eq!(out, vec![1, 2, 0, 5, 6]);
    assert_eq!(put_item(&mut out, &vec![0u8; 65536]), Err(DecodeError::ItemTooLarge));
    assert_eq!(out, vec![1, 2, 0, 5, 6]);
}

#[test]
fn put_leaf_writes_position_length_value() {
    let mut out = Vec::new();
    assert_eq!(put_leaf(&mut out, 0x0102, &[9]), Ok(()));
    assert_eq!(out, vec![2, 1, 0, 0, 0, 0, 0, 0, 1, 0, 9]);
    assert_eq!(put_leaf(&mut out, 3, &vec![0u8; 65536]), Err(DecodeError::ItemTooLarge));
    assert_eq!(out.len(), 11);
}

#[test]
fn read_item_and_read_leaf_borrow_from_the_buffer() {
    let data = [2u8, 0, 7, 8, 4, 0, 0, 0, 0, 0, 0, 0, 1, 0, 6, 0xcc];
    let mut reader = Reader::new(&data);
    assert_eq!(read_item(&mut reader), Ok(&data[2..4]));
    assert_eq!(read_leaf(&mut reader), Ok((4u64, &data[14..15])));
    assert_eq!(reader.remaining(), 1);
    assert_eq!(read_leaf(&mut reader), Err(DecodeError::UnexpectedEof));
}

#[test]
fn a_failed_read_stops_behind_the_last_whole_field() {
    let data = [9u8, 0, 1, 2, 3];
    let mut reader = Reader::new(&data);
    assert_eq!(read_item(&mut reader), Err(DecodeError::UnexpectedEof));
    assert_eq!(reader.remaining(), 3);

    let mut reader = Reader::new(&data[..1]);
    assert_eq!(read_item(&mut reader), Err(DecodeError::UnexpectedEof));
    assert_eq!(reader.remaining(), 1);

    let record = [1u8, 0, 0, 0, 0, 0, 0, 0, 4, 0, 7, 7];
    let mut reader = Reader::new(&record);
    assert_eq!(read_leaf(&mut reader), Err(DecodeError::UnexpectedEof));
    assert_eq!(reader.remaining(), 2);
    let mut reader = Reader::new(&record[..9]);
    assert_eq!(read_leaf(&mut reader), Err(DecodeError::UnexpectedEof));
    assert_eq!(reader.remaining(), 1);
    let mut reader = Reader::new(&record[..7]);
    assert_eq!(read_leaf(&mut reader), Err(DecodeError::UnexpectedEof));
    assert_eq!(reader.remaining(), 7);
}

#[test]
fn encode_proof_writes_size_then_items() {
    let items = vec![dynamic(&[0xaa]), dynamic(&[]), dynamic(&[1, 2])];
    assert_eq!(
        encode_proof(5, &items),
        Ok(vec![5, 0, 0, 0, 0, 0, 0, 0, 1, 0, 0xaa, 0, 0, 2, 0, 1, 2])
    );
    assert_eq!(encode_proof(0x0100, &Vec::new()), Ok(vec![0, 1, 0, 0, 0, 0, 0, 0]));
}

#[test]
fn encode_proof_fails_when_any_item_is_too_large() {
    let items = vec![dynamic(&[1]), dynamic(&vec![0u8; 65536]), dynamic(&[2])];
    assert_eq!(encode_proof(1, &items), Err(DecodeError::ItemTooLarge));
    let fits = vec![dynamic(&vec![0u8; 65535])];
    assert_eq!(encode_proof(1, &fits).unwrap().len(), 8 + 2 + 65535);
}

#[test]
fn encode_leaves_writes_record_after_record() {
    let leaves = vec![(3u64, dynamic(&[7])), (0x0a0b, dynamic(&[]))];
    assert_eq!(
        encode_leaves(&leaves),
        Ok(vec![3, 0, 0, 0, 0, 0, 0, 0, 1, 0, 7, 0x0b, 0x0a, 0, 0, 0, 0, 0, 0, 0, 0])
    );
    assert_eq!(encode_leaves(&Vec::new()), Ok(Vec::new()));
    let too_large = vec![(1u64, dynamic(&vec![0u8; 65536]))];
    assert_eq!(encode_leaves(&too_large), Err(DecodeError::ItemTooLarge));
}

#[test]
fn owned_decode_proof_inverts_encode_proof() {
    let items = vec![dynamic(&[0xaa]), dynamic(&[]), dynamic(&vec![3u8; 300])];
    let bytes = encode_proof(0xdead_beef, &items).unwrap();
    let proof = compiled::decode_proof(&bytes, bytes.len(), Tagging::ByLength).unwrap();
    assert_eq!(proof.mmr_size, 0xdead_beef);
    assert_eq!(proof.operands, items);
    assert_eq!(encode_proof(proof.mmr_size, &proof.operands), Ok(bytes));
}

#[test]
fn borrowed_decode_proof_inverts_encode_proof() {
    let items = vec![dynamic(&[0xaa]), dynamic(&[]), dynamic(&vec![3u8; 32])];
    let bytes = encode_proof(19, &items).unwrap();
    let proof = baseline::decode_proof(&bytes, bytes.len()).unwrap();
    assert_eq!(proof.mmr_size, 19);
    assert_eq!(proof.items.len(), 3);
    for (decoded, item) in proof.items.iter().zip(items.iter()) {
        assert!(matches!(decoded, baseline::VariableBytes::Dynamic(_)));
        assert_eq!(decoded.as_bytes(), item.as_bytes());
    }
}

#[test]
fn decode_proof_reads_only_the_loaded_length() {
    let buffer = [8u8, 0, 0, 0, 0, 0, 0, 0, 1, 0, 0xaa, 0x77, 0x77, 0x77];
    let proof = baseline::decode_proof(&buffer, 11).unwrap();
    assert_eq!(proof.mmr_size, 8);
    assert_eq!(proof.items.len(), 1);
    assert_eq!(proof.items[0].as_bytes(), &[0xaa]);
    let header_only = compiled::decode_proof(&buffer, 8, Tagging::ByLength).unwrap();
    assert_eq!(header_only.mmr_size, 8);
    assert!(header_only.operands.is_empty());
}

#[test]
fn decode_proof_refuses_a_cut_header() {
    let buffer = [8u8, 0, 0, 0, 0, 0, 0, 0, 1, 0, 0xaa];
    for length in 0..8 {
        assert_eq!(baseline::decode_proof(&buffer, length).err(), Some(DecodeError::UnexpectedEof));
        assert_eq!(
            compiled::decode_proof(&buffer, length, Tagging::ByLength).err(),
            Some(DecodeError::UnexpectedEof)
        );
    }
}

#[test]
fn decode_proof_refuses_a_length_beyond_the_buffer() {
    let buffer = [8u8, 0, 0, 0, 0, 0, 0, 0];
    assert_eq!(baseline::decode_proof(&buffer, 9).err(), Some(DecodeError::UnexpectedEof));
    assert_eq!(
        compiled::decode_proof(&buffer, usize::MAX, Tagging::Untagged).err(),
        Some(DecodeError::UnexpectedEof)
    );
}

#[test]
fn decode_proof_refuses_a_declared_length_that_exceeds_what_is_left() {
    let overlong = [8u8, 0, 0, 0, 0, 0, 0, 0, 1, 0, 0xaa, 5, 0, 1, 2, 3, 4];
    assert_eq!(baseline::decode_proof(&overlong, 17).err(), Some(DecodeError::UnexpectedEof));
    assert_eq!(
        compiled::decode_proof(&overlong, 17, Tagging::ByLength).err(),
        Some(DecodeError::UnexpectedEof)
    );
    let cut_length_field = [8u8, 0, 0, 0, 0, 0, 0, 0, 1, 0, 0xaa, 5];
    assert_eq!(baseline::decode_proof(&cut_length_field, 12).err(), Some(DecodeError::UnexpectedEof));
    let huge = [8u8, 0, 0, 0, 0, 0, 0, 0, 0xff, 0xff];
    assert_eq!(
        compiled::decode_proof(&huge, 10, Tagging::ByLength).err(),
        Some(DecodeError::UnexpectedEof)
    );
}

#[test]
fn decode_leaves_inverts_encode_leaves() {
    let leaves = vec![(0u64, dynamic(&[1; 32])), (3, dynamic(&[2; 5])), (u64::MAX, dynamic(&[]))];
    let bytes = encode_leaves(&leaves).unwrap();

    let owned = compiled::decode_leaves(&bytes, bytes.len(), Tagging::Untagged).unwrap();
    assert_eq!(owned, leaves);
    assert_eq!(encode_leaves(&owned), Ok(bytes.clone()));

    let borrowed = baseline::decode_leaves(&bytes, bytes.len()).unwrap();
    assert_eq!(borrowed.len(), 3);
    for ((position, value), (expected_position, expected_value)) in borrowed.iter().zip(leaves.iter()) {
        assert_eq!(position, expected_position);
        assert_eq!(value.as_bytes(), expected_value.as_bytes());
    }
}

#[test]
fn decode_leaves_tags_values_of_32_bytes_by_length() {
    let leaves = vec![(0u64, dynamic(&[1; 32])), (1, dynamic(&[2; 31]))];
    let bytes = encode_leaves(&leaves).unwrap();
    let decoded = compiled::decode_leaves(&bytes, bytes.len(), Tagging::ByLength).unwrap();
    assert_eq!(decoded[0], (0, VariableBytes::Hash(Box::new([1; 32]))));
    assert_eq!(decoded[1], (1, dynamic(&[2; 31])));
}

#[test]
fn decode_leaves_accepts_an_empty_buffer() {
    assert_eq!(compiled::decode_leaves(&[], 0, Tagging::ByLength), Ok(Vec::new()));
    assert!(baseline::decode_leaves(&[1, 2, 3], 0).unwrap().is_empty());
}

#[test]
fn decode_leaves_refuses_cut_records() {
    let bytes = [4u8, 0, 0, 0, 0, 0, 0, 0, 2, 0, 7, 8];
    for length in 1..12 {
        assert_eq!(baseline::decode_leaves(&bytes, length).err(), Some(DecodeError::UnexpectedEof));
        assert_eq!(
            compiled::decode_leaves(&bytes, length, Tagging::ByLength).err(),
            Some(DecodeError::UnexpectedEof)
        );
    }
    assert!(baseline::decode_leaves(&bytes, 12).is_ok());
    assert_eq!(baseline::decode_leaves(&bytes, 13).err(), Some(DecodeError::UnexpectedEof));
}

#[test]
fn leaves_ascend_is_strict() {
    assert!(leaves_ascend::<u8>(&vec![]));
    assert!(leaves_ascend(&vec![(7u64, 'a')]));
    assert!(leaves_ascend(&vec![(0u64, ()), (1, ()), (3, ()), (u64::MAX, ())]));
    assert!(!leaves_ascend(&vec![(0u64, ()), (3, ()), (3, ())]));
    assert!(!leaves_ascend(&vec![(0u64, ()), (4, ()), (3, ())]));
    assert!(!leaves_ascend(&vec![(1u64, ()), (0, ())]));
}
