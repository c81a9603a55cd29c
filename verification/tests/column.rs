use topk_pruning::column::{
    detect_dictionary_len, has_valid_dictionary_footer, open_column_bytes, open_column_str,
    open_column_u128, open_column_u128_as_compact_u64, open_column_u64,
    serialize_column_mappable_to_u128, serialize_column_mappable_to_u64, u64_codecs, CodecType,
    ColumnError, ValuesCodec, Version,
};

#[test]
fn a_column_ends_in_the_length_of_its_index() {
    let mut output = vec![9];
    serialize_column_mappable_to_u64(&[1, 2, 3], &[4, 5], &mut output);
    assert_eq!(output, vec![9, 1, 2, 3, 4, 5, 3, 0, 0, 0]);
    let mut output = Vec::new();
    serialize_column_mappable_to_u128(&[0; 300], &[], &mut output);
    assert_eq!(output.len(), 304);
    assert_eq!(&output[300..], &[44, 1, 0, 0]);
}

#[test]
fn what_is_serialized_can_be_opened() {
    let index: Vec<u8> = (0..=255).cycle().take(70_000).collect();
    let values = [7u8, 8, 9];
    let mut output = Vec::new();
    serialize_column_mappable_to_u64(&index, &values, &mut output);
    let column = open_column_u64(&output, Version::V2);
    assert_eq!(column.index, &index[..]);
    assert_eq!(column.values, &values[..]);
    assert_eq!(column.format_version, Version::V2);
    assert_eq!(column.values_codec, ValuesCodec::U64);

    let mut output = Vec::new();
    serialize_column_mappable_to_u128(&[], &values, &mut output);
    let column = open_column_u128(&output, Version::V1);
    assert_eq!(column.index.len(), 0);
    assert_eq!(column.values, &values[..]);
    assert_eq!(column.format_version, Version::V1);
    assert_eq!(column.values_codec, ValuesCodec::U128);
    let column = open_column_u128_as_compact_u64(&output, Version::V1);
    assert_eq!(column.values, &values[..]);
    assert_eq!(column.values_codec, ValuesCodec::U128AsCompactU64);
}

/// A dictionary: its blocks, and a footer.
fn dictionary(blocks: &[u8], index_offset: u64, version: u32) -> Vec<u8> {
    let mut bytes = blocks.to_vec();
    bytes.extend(index_offset.to_le_bytes());
    bytes.extend(12u64.to_le_bytes());
    bytes.extend(version.to_le_bytes());
    bytes
}

#[test]
fn the_footer_of_a_dictionary() {
    assert!(has_valid_dictionary_footer(&dictionary(&[1, 2, 3], 3, 3)));
    assert!(has_valid_dictionary_footer(&dictionary(&[1, 2, 3], 0, 3)));
    assert!(!has_valid_dictionary_footer(&dictionary(&[1, 2, 3], 4, 3)));
    assert!(!has_valid_dictionary_footer(&dictionary(&[1, 2, 3], 1 << 32, 3)));
    assert!(!has_valid_dictionary_footer(&dictionary(&[1, 2, 3], 3, 2)));
    assert!(!has_valid_dictionary_footer(&dictionary(&[], 0, 3)[1..]));
    assert!(has_valid_dictionary_footer(&dictionary(&[], 0, 3)));
}

#[test]
fn the_length_of_a_dictionary() {
    let mut body = dictionary(&[1, 2, 3], 2, 3);
    assert_eq!(detect_dictionary_len(&body, 23), Ok(23));
    body.extend([4, 5, 6]);
    assert_eq!(detect_dictionary_len(&body, 23), Ok(23));
    assert_eq!(detect_dictionary_len(&body, 22), Err(ColumnError::InvalidDictionaryLength));
    assert_eq!(detect_dictionary_len(&body, 27), Err(ColumnError::InvalidDictionaryLength));
    assert_eq!(detect_dictionary_len(&[], 0), Err(ColumnError::InvalidDictionaryLength));
}

fn bytes_column(stored_len: u32) -> Vec<u8> {
    let mut data = dictionary(&[1, 2, 3], 2, 3);
    serialize_column_mappable_to_u64(&[10, 11], &[12, 13, 14], &mut data);
    data.extend(stored_len.to_le_bytes());
    data
}

#[test]
fn a_column_of_byte_strings() {
    let data = bytes_column(23);
    let column = open_column_bytes(&data, Version::V2).ok().unwrap();
    assert_eq!(column.dictionary, &dictionary(&[1, 2, 3], 2, 3)[..]);
    assert_eq!(column.term_ord_column.index, &[10, 11]);
    assert_eq!(column.term_ord_column.values, &[12, 13, 14]);
    assert_eq!(column.term_ord_column.format_version, Version::V2);
    assert_eq!(column.term_ord_column.values_codec, ValuesCodec::U64);
    let column = open_column_str(&data, Version::V1).ok().unwrap();
    assert_eq!(column.bytes_column.dictionary.len(), 23);
    assert_eq!(column.bytes_column.term_ord_column.values, &[12, 13, 14]);
}

#[test]
fn a_column_without_a_dictionary() {
    let data = bytes_column(21);
    assert_eq!(
        open_column_bytes(&data, Version::V2).err(),
        Some(ColumnError::InvalidDictionaryLength)
    );
    assert_eq!(
        open_column_str(&data, Version::V2).err(),
        Some(ColumnError::InvalidDictionaryLength)
    );
}

#[test]
fn two_encodings_are_offered_for_values() {
    assert_eq!(u64_codecs(), vec![CodecType::Bitpacked, CodecType::BlockwiseLinear]);
}
