//! What columns hold, byte by byte.
//!
//! The laws of this module speak of what the functions of [`column`](crate::column) are given and
//! what they return, and of bytes and numbers alone.
use vstd::prelude::*;

use crate::column::{
    body, detect_dictionary_len, ends_as_dictionary, framed, has_valid_dictionary_footer,
    index_part, is_framed, is_framed_after_dictionary, law_column_round_trip,
    law_dictionary_len_recovered, law_le_bytes_round_trip, le_bytes, le_u32, le_u64,
    open_column_bytes, open_column_str, open_column_u128, open_column_u128_as_compact_u64,
    open_column_u64, serialize_column_mappable_to_u128, serialize_column_mappable_to_u64,
    stored_dictionary_len, trailer, u64_codecs, values_part, BytesColumn, CodecType, Column,
    ColumnError, StrColumn, ValuesCodec, Version,
};

verus! {

/// The number that `bytes` hold, the lowest byte first.
pub open spec fn number(bytes: Seq<u8>) -> int
    decreases bytes.len(),
{
    if bytes.len() == 0 {
        0
    } else {
        bytes[0] + 256 * number(bytes.skip(1))
    }
}

proof fn lemma_number_of_4(bytes: Seq<u8>)
    requires
        bytes.len() == 4,
    ensures
        number(bytes) == le_u32(bytes),
        0 <= number(bytes) < 0x1_0000_0000,
{
    let b1 = bytes.skip(1);
    let b2 = b1.skip(1);
    let b3 = b2.skip(1);
    let b4 = b3.skip(1);
    assert(number(b4) == 0);
    assert(number(b3) == bytes[3]);
    assert(number(b2) == bytes[2] + 256 * number(b3));
    assert(number(b1) == bytes[1] + 256 * number(b2));
    assert(number(bytes) == bytes[0] + 256 * number(b1));
}

proof fn lemma_number_append(low: Seq<u8>, high: Seq<u8>)
    requires
        low.len() == 4,
        high.len() == 4,
    ensures
        number(low + high) == number(low) + 0x1_0000_0000 * number(high),
{
    let s = low + high;
    let s1 = s.skip(1);
    let s2 = s1.skip(1);
    let s3 = s2.skip(1);
    assert(s3.skip(1) =~= high);
    assert(number(s3) == low[3] + 256 * number(high));
    assert(number(s2) == low[2] + 256 * number(s3));
    assert(number(s1) == low[1] + 256 * number(s2));
    assert(number(s) == low[0] + 256 * number(s1));
    lemma_number_of_4(low);
}

/// Four bytes hold one number only.
proof fn lemma_number_unique(a: Seq<u8>, b: Seq<u8>)
    requires
        a.len() == 4,
        b.len() == 4,
        number(a) == number(b),
    ensures
        a == b,
{
    lemma_number_of_4(a);
    lemma_number_of_4(b);
    assert(a[0] == b[0] && a[1] == b[1] && a[2] == b[2] && a[3] == b[3]);
    assert(a =~= b);
}

/// The bytes of a dictionary: its blocks, the offset of its index, which starts in or right after
/// the blocks, a number of terms, and the version.
pub open spec fn is_dictionary(
    bytes: Seq<u8>,
    blocks: Seq<u8>,
    offset: Seq<u8>,
    terms: Seq<u8>,
    version: Seq<u8>,
) -> bool {
    &&& bytes == blocks + offset + terms + version
    &&& offset.len() == 8
    &&& terms.len() == 8
    &&& version.len() == 4
    &&& number(offset) <= blocks.len()
    &&& number(version) == 3
}

/// `bytes` are those of a dictionary.
pub open spec fn holds_dictionary(bytes: Seq<u8>) -> bool {
    exists|blocks: Seq<u8>, offset: Seq<u8>, terms: Seq<u8>, version: Seq<u8>| #[trigger]
        is_dictionary(bytes, blocks, offset, terms, version)
}

proof fn lemma_dictionary_ends(
    bytes: Seq<u8>,
    blocks: Seq<u8>,
    offset: Seq<u8>,
    terms: Seq<u8>,
    version: Seq<u8>,
)
    requires
        bytes == blocks + offset + terms + version,
        offset.len() == 8,
        terms.len() == 8,
        version.len() == 4,
    ensures
        ends_as_dictionary(bytes) <==> number(offset) <= blocks.len() && number(version) == 3,
{
    reveal(ends_as_dictionary);
    let footer = bytes.skip(bytes.len() - 20);
    let low = offset.take(4);
    let high = offset.skip(4);
    assert(offset =~= low + high);
    lemma_number_append(low, high);
    lemma_number_of_4(low);
    lemma_number_of_4(high);
    lemma_number_of_4(version);
    assert(bytes.skip(bytes.len() - 4) =~= version);
    assert(footer[0] == low[0] && footer[1] == low[1] && footer[2] == low[2] && footer[3] == low[3]);
    assert(le_u32(footer) == le_u32(low));
    let rest = footer.skip(4);
    assert(rest[0] == high[0] && rest[1] == high[1] && rest[2] == high[2] && rest[3] == high[3]);
    assert(le_u32(rest) == le_u32(high));
    assert(le_u64(footer) == number(offset));
}

proof fn lemma_ends_as_dictionary(bytes: Seq<u8>)
    ensures
        ends_as_dictionary(bytes) <==> holds_dictionary(bytes),
{
    if bytes.len() >= 20 {
        let n = bytes.len() - 20;
        let blocks = bytes.take(n);
        let offset = bytes.subrange(n, n + 8);
        let terms = bytes.subrange(n + 8, n + 16);
        let version = bytes.skip(n + 16);
        assert(bytes =~= blocks + offset + terms + version);
        lemma_dictionary_ends(bytes, blocks, offset, terms, version);
        if ends_as_dictionary(bytes) {
            assert(is_dictionary(bytes, blocks, offset, terms, version));
        }
    } else {
        reveal(ends_as_dictionary);
    }
    if holds_dictionary(bytes) {
        let (blocks, offset, terms, version) = choose|
            blocks: Seq<u8>,
            offset: Seq<u8>,
            terms: Seq<u8>,
            version: Seq<u8>,
        | #[trigger] is_dictionary(bytes, blocks, offset, terms, version);
        lemma_dictionary_ends(bytes, blocks, offset, terms, version);
    }
}

/// A dictionary of any length is recognised by its layout: blocks, the offset of an index that
/// starts no later than they end, any eight bytes, and version 3.
pub proof fn law_footer_of_layout(
    blocks: Seq<u8>,
    offset: Seq<u8>,
    terms: Seq<u8>,
    version: Seq<u8>,
    data: &[u8],
    valid: bool,
)
    requires
        offset.len() == 8,
        terms.len() == 8,
        version.len() == 4,
        data@ == blocks + offset + terms + version,
        call_ensures(has_valid_dictionary_footer, (data,), valid),
    ensures
        call_requires(has_valid_dictionary_footer, (data,)),
        valid <==> number(offset) <= blocks.len() && number(version) == 3,
{
    lemma_dictionary_ends(data@, blocks, offset, terms, version);
}

/// Fewer bytes than a footer has are no dictionary.
pub proof fn law_footer_of_few_bytes(data: &[u8], valid: bool)
    requires
        data@.len() < 20,
        call_ensures(has_valid_dictionary_footer, (data,), valid),
    ensures
        !valid,
{
    reveal(ends_as_dictionary);
}

/// What follows a dictionary, and what its blocks and the number of its terms are, does not
/// matter: only where its index starts, and its version, do.
pub proof fn law_footer_of_other_blocks(
    blocks: Seq<u8>,
    other_blocks: Seq<u8>,
    offset: Seq<u8>,
    terms: Seq<u8>,
    other_terms: Seq<u8>,
    version: Seq<u8>,
    data: &[u8],
    other: &[u8],
    valid: bool,
    other_valid: bool,
)
    requires
        offset.len() == 8,
        terms.len() == 8,
        other_terms.len() == 8,
        version.len() == 4,
        blocks.len() <= other_blocks.len(),
        data@ == blocks + offset + terms + version,
        other@ == other_blocks + offset + other_terms + version,
        call_ensures(has_valid_dictionary_footer, (data,), valid),
        call_ensures(has_valid_dictionary_footer, (other,), other_valid),
    ensures
        valid ==> other_valid,
        blocks.len() == other_blocks.len() ==> valid == other_valid,
{
    lemma_dictionary_ends(data@, blocks, offset, terms, version);
    lemma_dictionary_ends(other@, other_blocks, offset, other_terms, version);
}

/// The length of a dictionary is the stored one, if a dictionary ends there. If not, it is longer
/// by what 32 bits cannot store, if one ends there. Otherwise there is no dictionary.
pub proof fn law_dictionary_len(
    front: &[u8],
    stored_len: u32,
    result: Result<usize, ColumnError>,
)
    requires
        call_ensures(detect_dictionary_len, (front, stored_len), result),
    ensures
        call_requires(detect_dictionary_len, (front, stored_len)),
        stored_len <= front@.len() && holds_dictionary(front@.take(stored_len as int))
            ==> (result matches Ok(len) && len == stored_len),
        !(stored_len <= front@.len() && holds_dictionary(front@.take(stored_len as int)))
            && stored_len + 0x1_0000_0000 <= front@.len() && holds_dictionary(
            front@.take(stored_len + 0x1_0000_0000),
        ) ==> (result matches Ok(len) && len == stored_len + 0x1_0000_0000),
        result matches Ok(len) ==> len <= front@.len() && holds_dictionary(front@.take(len as int))
            && (len == stored_len || len == stored_len + 0x1_0000_0000),
        result matches Err(error) ==> error == ColumnError::InvalidDictionaryLength,
{
    lemma_ends_as_dictionary(front@.take(stored_len as int));
    lemma_ends_as_dictionary(front@.take(stored_len + 0x1_0000_0000));
}

/// The bytes of a column: its index, its values, and the length of the index.
pub open spec fn is_column(
    bytes: Seq<u8>,
    index: Seq<u8>,
    values: Seq<u8>,
    index_len: Seq<u8>,
) -> bool {
    &&& bytes == index + values + index_len
    &&& index_len.len() == 4
    &&& number(index_len) == index.len()
}

proof fn lemma_column_parts(
    bytes: Seq<u8>,
    index: Seq<u8>,
    values: Seq<u8>,
    index_len: Seq<u8>,
)
    requires
        is_column(bytes, index, values, index_len),
    ensures
        bytes == framed(index, values),
        is_framed(bytes),
        index_part(bytes) == index,
        values_part(bytes) == values,
{
    lemma_number_of_4(index_len);
    law_le_bytes_round_trip(index.len() as u32);
    lemma_number_of_4(le_bytes(index.len() as u32));
    lemma_number_unique(index_len, le_bytes(index.len() as u32));
    law_column_round_trip(index, values);
}

/// A column of `u64` values is opened as what it was laid out from.
pub proof fn law_open_u64<'a>(
    index: Seq<u8>,
    values: Seq<u8>,
    index_len: Seq<u8>,
    bytes: &'a [u8],
    format_version: Version,
    column: Column<'a>,
)
    requires
        is_column(bytes@, index, values, index_len),
        call_ensures(open_column_u64, (bytes, format_version), column),
    ensures
        call_requires(open_column_u64, (bytes, format_version)),
        column.index@ == index,
        column.values@ == values,
        column.format_version == format_version,
        column.values_codec == ValuesCodec::U64,
{
    lemma_column_parts(bytes@, index, values, index_len);
}

/// So is one of `u128` values.
pub proof fn law_open_u128<'a>(
    index: Seq<u8>,
    values: Seq<u8>,
    index_len: Seq<u8>,
    bytes: &'a [u8],
    format_version: Version,
    column: Column<'a>,
)
    requires
        is_column(bytes@, index, values, index_len),
        call_ensures(open_column_u128, (bytes, format_version), column),
    ensures
        call_requires(open_column_u128, (bytes, format_version)),
        column.index@ == index,
        column.values@ == values,
        column.format_version == format_version,
        column.values_codec == ValuesCodec::U128,
{
    lemma_column_parts(bytes@, index, values, index_len);
}

/// So is one of `u128` values that are read as compact `u64`.
pub proof fn law_open_u128_as_compact_u64<'a>(
    index: Seq<u8>,
    values: Seq<u8>,
    index_len: Seq<u8>,
    bytes: &'a [u8],
    format_version: Version,
    column: Column<'a>,
)
    requires
        is_column(bytes@, index, values, index_len),
        call_ensures(open_column_u128_as_compact_u64, (bytes, format_version), column),
    ensures
        call_requires(open_column_u128_as_compact_u64, (bytes, format_version)),
        column.index@ == index,
        column.values@ == values,
        column.format_version == format_version,
        column.values_codec == ValuesCodec::U128AsCompactU64,
{
    lemma_column_parts(bytes@, index, values, index_len);
}

/// Serializing appends the index, the values and the length of the index, and changes nothing
/// before them. Any index can be serialized whose length fits in four bytes.
pub proof fn law_serialize_u64(column_index: &[u8], column_values: &[u8], output: &mut Vec<u8>)
    requires
        column_index@.len() <= u32::MAX,
        call_ensures(
            serialize_column_mappable_to_u64,
            (column_index, column_values, output),
            (),
        ),
    ensures
        call_requires(
            serialize_column_mappable_to_u64,
            (column_index, column_values, output),
        ),
        exists|index_len: Seq<u8>, column: Seq<u8>| #[trigger]
            is_column(column, column_index@, column_values@, index_len) && final(output)@ == old(output)@ + column,
{
    lemma_serialized(column_index@, column_values@);
}

/// Values that map to `u128` are laid out the same way.
pub proof fn law_serialize_u128(column_index: &[u8], column_values: &[u8], output: &mut Vec<u8>)
    requires
        column_index@.len() <= u32::MAX,
        call_ensures(
            serialize_column_mappable_to_u128,
            (column_index, column_values, output),
            (),
        ),
    ensures
        call_requires(
            serialize_column_mappable_to_u128,
            (column_index, column_values, output),
        ),
        exists|index_len: Seq<u8>, column: Seq<u8>| #[trigger]
            is_column(column, column_index@, column_values@, index_len) && final(output)@ == old(output)@ + column,
{
    lemma_serialized(column_index@, column_values@);
}

proof fn lemma_serialized(index: Seq<u8>, values: Seq<u8>)
    requires
        index.len() <= u32::MAX,
    ensures
        is_column(framed(index, values), index, values, le_bytes(index.len() as u32)),
{
    law_le_bytes_round_trip(index.len() as u32);
    lemma_number_of_4(le_bytes(index.len() as u32));
}

/// What was serialized for `u64` values is opened as such: the two functions undo each other.
pub proof fn law_serialized_u64_opens<'a>(
    column_index: &[u8],
    column_values: &[u8],
    output: &mut Vec<u8>,
    bytes: &'a [u8],
    format_version: Version,
    column: Column<'a>,
)
    requires
        column_index@.len() <= u32::MAX,
        call_ensures(
            serialize_column_mappable_to_u64,
            (column_index, column_values, output),
            (),
        ),
        final(output)@ == old(output)@ + bytes@,
        call_ensures(open_column_u64, (bytes, format_version), column),
    ensures
        call_requires(open_column_u64, (bytes, format_version)),
        column.index@ == column_index@,
        column.values@ == column_values@,
{
    lemma_appended(column_index@, column_values@, old(output)@, bytes@);
}

/// So is what was serialized for `u128` values.
pub proof fn law_serialized_u128_opens<'a>(
    column_index: &[u8],
    column_values: &[u8],
    output: &mut Vec<u8>,
    bytes: &'a [u8],
    format_version: Version,
    column: Column<'a>,
)
    requires
        column_index@.len() <= u32::MAX,
        call_ensures(
            serialize_column_mappable_to_u128,
            (column_index, column_values, output),
            (),
        ),
        final(output)@ == old(output)@ + bytes@,
        call_ensures(open_column_u128, (bytes, format_version), column),
    ensures
        call_requires(open_column_u128, (bytes, format_version)),
        column.index@ == column_index@,
        column.values@ == column_values@,
{
    lemma_appended(column_index@, column_values@, old(output)@, bytes@);
}

proof fn lemma_appended(index: Seq<u8>, values: Seq<u8>, before: Seq<u8>, bytes: Seq<u8>)
    requires
        index.len() <= u32::MAX,
        before + framed(index, values) == before + bytes,
    ensures
        bytes == framed(index, values),
        is_column(bytes, index, values, le_bytes(index.len() as u32)),
        is_framed(bytes),
        index_part(bytes) == index,
        values_part(bytes) == values,
{
    let n = before.len() as int;
    let column = framed(index, values);
    assert((before + column).skip(n) =~= column);
    assert((before + bytes).skip(n) =~= bytes);
    lemma_serialized(index, values);
    lemma_column_parts(bytes, index, values, le_bytes(index.len() as u32));
}

/// The bytes of a column of byte strings: a dictionary, a column of term ordinals, and the length
/// of the dictionary, as far as four bytes can tell.
pub open spec fn is_bytes_column(
    data: Seq<u8>,
    dictionary: Seq<u8>,
    column: Seq<u8>,
    dictionary_len: Seq<u8>,
) -> bool {
    &&& data == dictionary + column + dictionary_len
    &&& dictionary_len.len() == 4
    &&& number(dictionary_len) == dictionary.len() % 0x1_0000_0000
}

proof fn lemma_bytes_column(
    data: Seq<u8>,
    dictionary: Seq<u8>,
    index: Seq<u8>,
    values: Seq<u8>,
    index_len: Seq<u8>,
    column: Seq<u8>,
    len: Seq<u8>,
)
    requires
        is_bytes_column(data, dictionary, column, len),
        is_column(column, index, values, index_len),
        holds_dictionary(dictionary),
        dictionary.len() < 0x2_0000_0000,
        dictionary.len() >= 0x1_0000_0000 ==> !holds_dictionary(
            dictionary.take(dictionary.len() - 0x1_0000_0000),
        ),
    ensures
        is_framed_after_dictionary(data),
        stored_dictionary_len(data) == Some(dictionary.len() as int),
        body(data).take(dictionary.len() as int) == dictionary,
        body(data).skip(dictionary.len() as int) == column,
        index_part(column) == index,
        values_part(column) == values,
{
    let n = dictionary.len() as int;
    lemma_ends_as_dictionary(dictionary);
    if n >= 0x1_0000_0000 {
        lemma_ends_as_dictionary(dictionary.take(n - 0x1_0000_0000));
    }
    lemma_column_parts(column, index, values, index_len);
    lemma_number_of_4(len);
    assert(trailer(data) =~= len);
    assert(body(data) =~= dictionary + column);
    law_dictionary_len_recovered(dictionary, column);
    assert(body(data).take(n) =~= dictionary);
    assert(body(data).skip(n) =~= column);
}

/// A column of byte strings is opened as what it was laid out from, for dictionaries of every
/// length that is recovered from its lower 32 bits: all that four bytes can store and, if no
/// dictionary ends where the stored length says, as many again.
pub proof fn law_open_bytes<'a>(
    dictionary: Seq<u8>,
    index: Seq<u8>,
    values: Seq<u8>,
    index_len: Seq<u8>,
    column: Seq<u8>,
    dictionary_len: Seq<u8>,
    data: &'a [u8],
    format_version: Version,
    result: Result<BytesColumn<'a>, ColumnError>,
)
    requires
        is_bytes_column(data@, dictionary, column, dictionary_len),
        is_column(column, index, values, index_len),
        holds_dictionary(dictionary),
        dictionary.len() < 0x2_0000_0000,
        dictionary.len() >= 0x1_0000_0000 ==> !holds_dictionary(
            dictionary.take(dictionary.len() - 0x1_0000_0000),
        ),
        call_ensures(open_column_bytes, (data, format_version), result),
    ensures
        call_requires(open_column_bytes, (data, format_version)),
        result is Ok,
        result->Ok_0.dictionary@ == dictionary,
        result->Ok_0.term_ord_column.index@ == index,
        result->Ok_0.term_ord_column.values@ == values,
        result->Ok_0.term_ord_column.format_version == format_version,
        result->Ok_0.term_ord_column.values_codec == ValuesCodec::U64,
{
    lemma_bytes_column(data@, dictionary, index, values, index_len, column, dictionary_len);
}

/// So is a column of strings.
pub proof fn law_open_str<'a>(
    dictionary: Seq<u8>,
    index: Seq<u8>,
    values: Seq<u8>,
    index_len: Seq<u8>,
    column: Seq<u8>,
    dictionary_len: Seq<u8>,
    data: &'a [u8],
    format_version: Version,
    result: Result<StrColumn<'a>, ColumnError>,
)
    requires
        is_bytes_column(data@, dictionary, column, dictionary_len),
        is_column(column, index, values, index_len),
        holds_dictionary(dictionary),
        dictionary.len() < 0x2_0000_0000,
        dictionary.len() >= 0x1_0000_0000 ==> !holds_dictionary(
            dictionary.take(dictionary.len() - 0x1_0000_0000),
        ),
        call_ensures(open_column_str, (data, format_version), result),
    ensures
        call_requires(open_column_str, (data, format_version)),
        result is Ok,
        result->Ok_0.bytes_column.dictionary@ == dictionary,
        result->Ok_0.bytes_column.term_ord_column.index@ == index,
        result->Ok_0.bytes_column.term_ord_column.values@ == values,
        result->Ok_0.bytes_column.term_ord_column.format_version == format_version,
        result->Ok_0.bytes_column.term_ord_column.values_codec == ValuesCodec::U64,
{
    lemma_bytes_column(data@, dictionary, index, values, index_len, column, dictionary_len);
}

/// Bytes that do not start with a dictionary of the stored length, nor of one that is longer by
/// what 32 bits cannot store, are refused; all others are not.
pub proof fn law_bytes_refused<'a>(
    front: Seq<u8>,
    stored: Seq<u8>,
    data: &'a [u8],
    format_version: Version,
    result: Result<BytesColumn<'a>, ColumnError>,
    str_result: Result<StrColumn<'a>, ColumnError>,
)
    requires
        data@ == front + stored,
        stored.len() == 4,
        call_ensures(open_column_bytes, (data, format_version), result),
        call_ensures(open_column_str, (data, format_version), str_result),
    ensures
        result is Err <==> {
            &&& !(number(stored) <= front.len() && holds_dictionary(front.take(number(stored))))
            &&& !(number(stored) + 0x1_0000_0000 <= front.len() && holds_dictionary(
                front.take(number(stored) + 0x1_0000_0000),
            ))
        },
        result is Err ==> call_requires(open_column_bytes, (data, format_version)),
        result is Err ==> call_requires(open_column_str, (data, format_version)),
        result matches Err(error) ==> error == ColumnError::InvalidDictionaryLength,
        str_result is Err <==> result is Err,
        str_result matches Err(error) ==> error == ColumnError::InvalidDictionaryLength,
{
    lemma_number_of_4(stored);
    assert(trailer(data@) =~= stored);
    assert(body(data@) =~= front);
    lemma_ends_as_dictionary(front.take(number(stored)));
    lemma_ends_as_dictionary(front.take(number(stored) + 0x1_0000_0000));
}

/// Two encodings are offered for values that map to `u64`.
pub proof fn law_codecs(codecs: Vec<CodecType>)
    requires
        call_ensures(u64_codecs, (), codecs),
    ensures
        codecs@.len() == 2,
        codecs@.first() == CodecType::Bitpacked,
        codecs@.last() == CodecType::BlockwiseLinear,
{
}

/// A column of strings is the column of byte strings that it wraps.
pub proof fn law_wrap<'a>(bytes_column: BytesColumn<'a>, column: StrColumn<'a>)
    requires
        call_ensures(StrColumn::<'a>::wrap, (bytes_column,), column),
    ensures
        column.bytes_column == bytes_column,
{
}

} // verus!
