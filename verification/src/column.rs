//! How a column is laid out in bytes.
//!
//! A column is its index, its values, and the length of the index in the last four bytes. A
//! column of byte strings is a dictionary, a column of term ordinals, and the length of the
//! dictionary in the last four bytes. All numbers are little-endian.
use vstd::prelude::*;
use vstd::slice::slice_subrange;

verus! {

/// The version of the format of a column.
#[derive(Clone, Copy, Debug, PartialEq, Eq, Structural)]
pub enum Version {
    V1,
    V2,
}

/// How the values of a column are encoded.
#[derive(Clone, Copy, Debug, PartialEq, Eq, Structural)]
pub enum ValuesCodec {
    /// Values that map to `u64`.
    U64,
    /// Values that map to `u128`.
    U128,
    /// Values that map to `u128`, read as compact `u64`.
    U128AsCompactU64,
}

/// A column: its index in some version of the format, and its encoded values.
#[derive(Clone, Copy)]
pub struct Column<'a> {
    pub index: &'a [u8],
    pub format_version: Version,
    pub values: &'a [u8],
    pub values_codec: ValuesCodec,
}

/// A column of byte strings: a dictionary, and the ordinals of terms in it.
#[derive(Clone, Copy)]
pub struct BytesColumn<'a> {
    pub dictionary: &'a [u8],
    pub term_ord_column: Column<'a>,
}

/// A column of strings.
#[derive(Clone, Copy)]
pub struct StrColumn<'a> {
    pub bytes_column: BytesColumn<'a>,
}

impl<'a> StrColumn<'a> {
    pub fn wrap(bytes_column: BytesColumn<'a>) -> (column: StrColumn<'a>)
        ensures
            column.bytes_column == bytes_column,
    {
        StrColumn { bytes_column }
    }
}

/// Why a column cannot be opened.
#[derive(Clone, Copy, Debug, PartialEq, Eq, Structural)]
pub enum ColumnError {
    /// No dictionary ends where the stored length says.
    InvalidDictionaryLength,
}

/// The number in the first four bytes.
pub open spec fn le_u32(bytes: Seq<u8>) -> int {
    bytes[0] + bytes[1] * 0x100 + bytes[2] * 0x1_0000 + bytes[3] * 0x100_0000
}

/// The number in the first eight bytes.
pub open spec fn le_u64(bytes: Seq<u8>) -> int {
    le_u32(bytes) + le_u32(bytes.skip(4)) * 0x1_0000_0000
}

/// `n` in four bytes.
pub open spec fn le_bytes(n: u32) -> Seq<u8> {
    seq![
        (n % 0x100) as u8,
        (n / 0x100 % 0x100) as u8,
        (n / 0x1_0000 % 0x100) as u8,
        (n / 0x100_0000) as u8,
    ]
}

/// Four bytes hold a number and give it back.
pub proof fn law_le_bytes_round_trip(n: u32)
    ensures
        le_bytes(n).len() == 4,
        le_u32(le_bytes(n)) == n,
{
}

/// The last four bytes.
pub open spec fn trailer(bytes: Seq<u8>) -> Seq<u8> {
    bytes.skip(bytes.len() - 4)
}

/// All but the last four bytes.
pub open spec fn body(bytes: Seq<u8>) -> Seq<u8> {
    bytes.take(bytes.len() - 4)
}

/// A column of this index and these values.
pub open spec fn framed(index: Seq<u8>, values: Seq<u8>) -> Seq<u8> {
    index + values + le_bytes(index.len() as u32)
}

/// The bytes end in the length of an index that they can hold.
pub open spec fn is_framed(bytes: Seq<u8>) -> bool {
    bytes.len() >= 4 && le_u32(trailer(bytes)) <= bytes.len() - 4
}

pub open spec fn index_part(bytes: Seq<u8>) -> Seq<u8> {
    body(bytes).take(le_u32(trailer(bytes)))
}

pub open spec fn values_part(bytes: Seq<u8>) -> Seq<u8> {
    body(bytes).skip(le_u32(trailer(bytes)))
}

/// What was serialized can be opened, and gives back the index and the values.
pub proof fn law_column_round_trip(index: Seq<u8>, values: Seq<u8>)
    requires
        index.len() <= u32::MAX,
    ensures
        is_framed(framed(index, values)),
        index_part(framed(index, values)) == index,
        values_part(framed(index, values)) == values,
{
    let bytes = framed(index, values);
    law_le_bytes_round_trip(index.len() as u32);
    assert(trailer(bytes) =~= le_bytes(index.len() as u32));
    assert(body(bytes) =~= index + values);
    assert(index_part(bytes) =~= index);
    assert(values_part(bytes) =~= values);
}

/// The number in the first four bytes of `bytes`.
fn read_u32(bytes: &[u8]) -> (n: u32)
    requires
        bytes@.len() >= 4,
    ensures
        n == le_u32(bytes@),
{
    bytes[0] as u32 + bytes[1] as u32 * 0x100 + bytes[2] as u32 * 0x1_0000 + bytes[3] as u32
        * 0x100_0000
}

/// Appends a column: its index, its values, and the length of the index.
fn serialize_column(column_index: &[u8], column_values: &[u8], output: &mut Vec<u8>)
    requires
        column_index@.len() <= u32::MAX,
    ensures
        final(output)@ == old(output)@ + framed(column_index@, column_values@),
{
    output.extend_from_slice(column_index);
    output.extend_from_slice(column_values);
    let column_index_num_bytes: u32 = column_index.len() as u32;
    output.push((column_index_num_bytes % 0x100) as u8);
    output.push((column_index_num_bytes / 0x100 % 0x100) as u8);
    output.push((column_index_num_bytes / 0x1_0000 % 0x100) as u8);
    output.push((column_index_num_bytes / 0x100_0000) as u8);
    proof {
        assert(output@ =~= old(output)@ + framed(column_index@, column_values@));
    }
}

/// An encoding of values that map to `u64`.
#[derive(Clone, Copy, Debug, PartialEq, Eq, Structural)]
pub enum CodecType {
    Bitpacked,
    BlockwiseLinear,
}

/// The encodings that are offered for the values of a column that map to `u64`, in this order. No
/// other one may be chosen.
pub fn u64_codecs() -> (codecs: Vec<CodecType>)
    ensures
        codecs@ == seq![CodecType::Bitpacked, CodecType::BlockwiseLinear],
{
    let mut codecs: Vec<CodecType> = Vec::new();
    codecs.push(CodecType::Bitpacked);
    codecs.push(CodecType::BlockwiseLinear);
    codecs
}

/// Appends a column whose encoded values map to `u128`.
pub fn serialize_column_mappable_to_u128(
    column_index: &[u8],
    column_values: &[u8],
    output: &mut Vec<u8>,
)
    requires
        column_index@.len() <= u32::MAX,
    ensures
        final(output)@ == old(output)@ + framed(column_index@, column_values@),
{
    serialize_column(column_index, column_values, output);
}

/// Appends a column whose values map to `u64`. They are encoded by one of [`u64_codecs`].
pub fn serialize_column_mappable_to_u64(
    column_index: &[u8],
    column_values: &[u8],
    output: &mut Vec<u8>,
)
    requires
        column_index@.len() <= u32::MAX,
    ensures
        final(output)@ == old(output)@ + framed(column_index@, column_values@),
{
    serialize_column(column_index, column_values, output);
}

/// `column` holds the parts of `bytes`.
pub open spec fn opens(
    column: Column,
    bytes: Seq<u8>,
    format_version: Version,
    values_codec: ValuesCodec,
) -> bool {
    &&& column.index@ == index_part(bytes)
    &&& column.values@ == values_part(bytes)
    &&& column.format_version == format_version
    &&& column.values_codec == values_codec
}

fn open_column(bytes: &[u8], format_version: Version, values_codec: ValuesCodec) -> (column: Column)
    requires
        is_framed(bytes@),
    ensures
        opens(column, bytes@, format_version, values_codec),
{
    let len: usize = bytes.len();
    let payload: &[u8] = slice_subrange(bytes, len - 4, len);
    let column_index_num_bytes: usize = read_u32(payload) as usize;
    let index: &[u8] = slice_subrange(bytes, 0, column_index_num_bytes);
    let values: &[u8] = slice_subrange(bytes, column_index_num_bytes, len - 4);
    proof {
        assert(payload@ =~= trailer(bytes@));
        assert(index@ =~= index_part(bytes@));
        assert(values@ =~= values_part(bytes@));
    }
    Column { index, format_version, values, values_codec }
}

/// Opens a column whose values map to `u64`.
pub fn open_column_u64(bytes: &[u8], format_version: Version) -> (column: Column)
    requires
        is_framed(bytes@),
    ensures
        opens(column, bytes@, format_version, ValuesCodec::U64),
{
    open_column(bytes, format_version, ValuesCodec::U64)
}

/// Opens a column whose values map to `u128`.
pub fn open_column_u128(bytes: &[u8], format_version: Version) -> (column: Column)
    requires
        is_framed(bytes@),
    ensures
        opens(column, bytes@, format_version, ValuesCodec::U128),
{
    open_column(bytes, format_version, ValuesCodec::U128)
}

/// Opens a column whose values map to `u128`, to be read as compact `u64`.
pub fn open_column_u128_as_compact_u64(bytes: &[u8], format_version: Version) -> (column: Column)
    requires
        is_framed(bytes@),
    ensures
        opens(column, bytes@, format_version, ValuesCodec::U128AsCompactU64),
{
    open_column(bytes, format_version, ValuesCodec::U128AsCompactU64)
}

/// The length of the footer of a dictionary.
pub const DICTIONARY_FOOTER_LEN: usize = 20;

/// The version that the footer of a dictionary ends with.
pub const DICTIONARY_VERSION: u32 = 3;

/// The bytes end as a dictionary does: the footer holds the offset of an index that starts before
/// it, a number, and the version.
#[verifier::opaque]
pub open spec fn ends_as_dictionary(bytes: Seq<u8>) -> bool {
    &&& bytes.len() >= DICTIONARY_FOOTER_LEN
    &&& le_u64(bytes.skip(bytes.len() - DICTIONARY_FOOTER_LEN)) <= bytes.len()
        - DICTIONARY_FOOTER_LEN
    &&& le_u32(bytes.skip(bytes.len() - 4)) == DICTIONARY_VERSION
}

/// Whether `data` ends in the footer of a dictionary.
pub fn has_valid_dictionary_footer(data: &[u8]) -> (valid: bool)
    ensures
        valid == ends_as_dictionary(data@),
{
    proof {
        reveal(ends_as_dictionary);
    }
    let len: usize = data.len();
    if len < DICTIONARY_FOOTER_LEN {
        return false;
    }
    let body_len: usize = len - DICTIONARY_FOOTER_LEN;
    let low: &[u8] = slice_subrange(data, body_len, body_len + 4);
    let high: &[u8] = slice_subrange(data, body_len + 4, body_len + 8);
    let last: &[u8] = slice_subrange(data, len - 4, len);
    let index_offset: u64 = read_u32(low) as u64 + read_u32(high) as u64 * 0x1_0000_0000;
    let version: u32 = read_u32(last);
    proof {
        let footer = data@.skip(body_len as int);
        assert(le_u32(footer) == le_u32(low@));
        assert(le_u32(footer.skip(4)) == le_u32(high@));
        assert(le_u32(data@.skip(len - 4)) == le_u32(last@));
    }
    version == DICTIONARY_VERSION && index_offset <= body_len as u64
}

/// The length of the dictionary that `body` starts with, of which only the lower 32 bits are
/// stored.
pub open spec fn dictionary_len(body: Seq<u8>, stored_len: u32) -> Option<int> {
    let overflowed = stored_len + 0x1_0000_0000;
    if stored_len <= body.len() && ends_as_dictionary(body.take(stored_len as int)) {
        Some(stored_len as int)
    } else if overflowed <= body.len() && ends_as_dictionary(body.take(overflowed)) {
        Some(overflowed)
    } else {
        None
    }
}

/// Finds out how long the dictionary is that `body` starts with.
///
/// The stored length has 32 bits. A longer dictionary is recognised by its footer.
pub fn detect_dictionary_len(body: &[u8], stored_len: u32) -> (len: Result<usize, ColumnError>)
    ensures
        match len {
            Ok(len) => dictionary_len(body@, stored_len) == Some(len as int),
            Err(error) => {
                &&& dictionary_len(body@, stored_len) is None
                &&& error == ColumnError::InvalidDictionaryLength
            },
        },
{
    let stored: usize = stored_len as usize;
    if stored <= body.len() {
        let prefix: &[u8] = slice_subrange(body, 0, stored);
        assert(prefix@ =~= body@.take(stored as int));
        if has_valid_dictionary_footer(prefix) {
            return Ok(stored);
        }
    }
    let overflowed: u64 = stored_len as u64 + 0x1_0000_0000;
    if overflowed <= body.len() as u64 {
        let overflowed_len: usize = overflowed as usize;
        let prefix: &[u8] = slice_subrange(body, 0, overflowed_len);
        assert(prefix@ =~= body@.take(overflowed as int));
        if has_valid_dictionary_footer(prefix) {
            return Ok(overflowed_len);
        }
    }
    Err(ColumnError::InvalidDictionaryLength)
}

/// The dictionary that the bytes of a column of byte strings start with, if there is one.
pub open spec fn stored_dictionary_len(data: Seq<u8>) -> Option<int> {
    dictionary_len(body(data), le_u32(trailer(data)) as u32)
}

/// The bytes after the dictionary are a column.
pub open spec fn is_framed_after_dictionary(data: Seq<u8>) -> bool {
    &&& data.len() >= 4
    &&& match stored_dictionary_len(data) {
        Some(len) => is_framed(body(data).skip(len)),
        None => true,
    }
}

/// `column` holds the parts of `data`.
pub open spec fn opens_bytes(
    column: BytesColumn,
    data: Seq<u8>,
    format_version: Version,
) -> bool {
    &&& stored_dictionary_len(data) is Some
    &&& column.dictionary@ == body(data).take(stored_dictionary_len(data)->0)
    &&& opens(
        column.term_ord_column,
        body(data).skip(stored_dictionary_len(data)->0),
        format_version,
        ValuesCodec::U64,
    )
}

/// Opens a column of byte strings.
pub fn open_column_bytes(
    data: &[u8],
    format_version: Version,
) -> (result: Result<BytesColumn, ColumnError>)
    requires
        is_framed_after_dictionary(data@),
    ensures
        match result {
            Ok(column) => opens_bytes(column, data@, format_version),
            Err(error) => {
                &&& stored_dictionary_len(data@) is None
                &&& error == ColumnError::InvalidDictionaryLength
            },
        },
{
    let len: usize = data.len();
    let front: &[u8] = slice_subrange(data, 0, len - 4);
    let dictionary_len_bytes: &[u8] = slice_subrange(data, len - 4, len);
    let stored_len: u32 = read_u32(dictionary_len_bytes);
    proof {
        assert(front@ =~= body(data@));
        assert(dictionary_len_bytes@ =~= trailer(data@));
    }
    match detect_dictionary_len(front, stored_len) {
        Ok(dictionary_len) => {
            let dictionary: &[u8] = slice_subrange(front, 0, dictionary_len);
            let column_bytes: &[u8] = slice_subrange(front, dictionary_len, len - 4);
            proof {
                assert(dictionary@ =~= body(data@).take(dictionary_len as int));
                assert(column_bytes@ =~= body(data@).skip(dictionary_len as int));
            }
            let term_ord_column: Column = open_column_u64(column_bytes, format_version);
            Ok(BytesColumn { dictionary, term_ord_column })
        },
        Err(error) => Err(error),
    }
}

/// Opens a column of strings.
pub fn open_column_str(
    data: &[u8],
    format_version: Version,
) -> (result: Result<StrColumn, ColumnError>)
    requires
        is_framed_after_dictionary(data@),
    ensures
        match result {
            Ok(column) => opens_bytes(column.bytes_column, data@, format_version),
            Err(error) => {
                &&& stored_dictionary_len(data@) is None
                &&& error == ColumnError::InvalidDictionaryLength
            },
        },
{
    match open_column_bytes(data, format_version) {
        Ok(bytes_column) => Ok(StrColumn::wrap(bytes_column)),
        Err(error) => Err(error),
    }
}

/// The lower 32 bits of a length.
pub open spec fn lower_bits(len: int) -> u32 {
    (len % 0x1_0000_0000) as u32
}

/// The length of a dictionary is recovered from its lower 32 bits: always if that is all there
/// is, and up to twice as far if the bytes up to the stored length do not end as a dictionary.
pub proof fn law_dictionary_len_recovered(dictionary: Seq<u8>, column: Seq<u8>)
    requires
        ends_as_dictionary(dictionary),
        dictionary.len() < 0x2_0000_0000,
        dictionary.len() >= 0x1_0000_0000 ==> !ends_as_dictionary(
            dictionary.take(dictionary.len() - 0x1_0000_0000),
        ),
    ensures
        dictionary_len(dictionary + column, lower_bits(dictionary.len() as int)) == Some(
            dictionary.len() as int,
        ),
{
    let front = dictionary + column;
    let n = dictionary.len() as int;
    assert(lower_bits(n) == if n < 0x1_0000_0000 {
        n
    } else {
        n - 0x1_0000_0000
    });
    assert(front.take(n) =~= dictionary);
    if n >= 0x1_0000_0000 {
        assert(front.take(n - 0x1_0000_0000) =~= dictionary.take(n - 0x1_0000_0000));
    }
}

/// A dictionary and a column, stored together, are opened as such.
pub proof fn law_bytes_column_round_trip(
    dictionary: Seq<u8>,
    index: Seq<u8>,
    values: Seq<u8>,
    data: Seq<u8>,
)
    requires
        index.len() <= u32::MAX,
        ends_as_dictionary(dictionary),
        dictionary.len() < 0x2_0000_0000,
        dictionary.len() >= 0x1_0000_0000 ==> !ends_as_dictionary(
            dictionary.take(dictionary.len() - 0x1_0000_0000),
        ),
        data == dictionary + framed(index, values) + le_bytes(
            lower_bits(dictionary.len() as int),
        ),
    ensures
        is_framed_after_dictionary(data),
        stored_dictionary_len(data) == Some(dictionary.len() as int),
        body(data).take(dictionary.len() as int) == dictionary,
        body(data).skip(dictionary.len() as int) == framed(index, values),
        index_part(body(data).skip(dictionary.len() as int)) == index,
        values_part(body(data).skip(dictionary.len() as int)) == values,
{
    let column = framed(index, values);
    let stored = lower_bits(dictionary.len() as int);
    law_le_bytes_round_trip(stored);
    law_column_round_trip(index, values);
    law_dictionary_len_recovered(dictionary, column);
    assert(trailer(data) =~= le_bytes(stored));
    assert(body(data) =~= dictionary + column);
    assert(body(data).take(dictionary.len() as int) =~= dictionary);
    assert(body(data).skip(dictionary.len() as int) =~= column);
}

} // verus!
