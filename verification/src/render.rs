//! The two forms in which a batch leaves: the raw bytes of its records one
//! after the other, and the text of a C header and a C array that hold them.

use crate::level::RECORD_BYTES;
use vstd::prelude::*;

verus! {

/// The digit that stands for `d` in base 16, capitals for ten to fifteen.
pub open spec fn hex_digit(d: int) -> char {
    "0123456789ABCDEF"@[d]
}

/// A byte in base 16 behind `0x`, with no leading zero: `0x0`, `0xA`, `0xFF`.
pub open spec fn hex_text(byte: u8) -> Seq<char> {
    if byte < 16 {
        "0x"@.push(hex_digit(byte as int))
    } else {
        "0x"@.push(hex_digit(byte as int / 16)).push(hex_digit(byte as int % 16))
    }
}

/// The bytes of a record in base 16, with a comma and a space between two.
pub open spec fn hex_row(bytes: Seq<u8>) -> Seq<char>
    decreases bytes.len(),
{
    if bytes.len() == 0 {
        Seq::empty()
    } else if bytes.len() == 1 {
        hex_text(bytes[0])
    } else {
        hex_row(bytes.drop_last()) + ", "@ + hex_text(bytes.last())
    }
}

/// A number in base 10, with no leading zero.
pub open spec fn decimal_text(n: nat) -> Seq<char>
    decreases n,
{
    if n < 10 {
        seq![hex_digit(n as int)]
    } else {
        decimal_text(n / 10).push(hex_digit((n % 10) as int))
    }
}

/// The text of the header for a batch of `chunk_count` records.
pub open spec fn header_text(chunk_count: nat) -> Seq<char> {
    "// This file was generated by podpacker, DO NOT EDIT\n\n#ifndef _CHUNKS_H\n#define _CHUNKS_H\n\nextern const UINT8 CHUNKS[][];\n#define CHUNK_COUNT "@
        + decimal_text(chunk_count) + "\n\n\n#endif\n"@
}

/// The rows of the array, each between braces and followed by a comma and a
/// line break.
pub open spec fn rows_text(rows: Seq<String>) -> Seq<char>
    decreases rows.len(),
{
    if rows.len() == 0 {
        Seq::empty()
    } else {
        rows_text(rows.drop_last()) + "{ "@ + rows.last()@ + " },\n"@
    }
}

/// The text of the array that holds the given rows.
pub open spec fn array_decl_text(rows: Seq<String>) -> Seq<char> {
    "// This file was auto-generated by podpacker. DO NOT EDIT.\n#include <types.h>\n\nconst UINT8 CHUNKS[][] = { "@
        + rows_text(rows) + " };"@
}

/// The bytes of all records, one record after the other.
pub open spec fn raw_concat(records: Seq<[u8; 33]>) -> Seq<u8>
    decreases records.len(),
{
    if records.len() == 0 {
        Seq::empty()
    } else {
        raw_concat(records.drop_last()) + records.last()@
    }
}

fn digit_str(d: u8) -> (digit: &'static str)
    requires
        d < 16,
    ensures
        digit@ == seq![hex_digit(d as int)],
{
    let digits = "0123456789ABCDEF";
    proof {
        reveal_strlit("0123456789ABCDEF");
    }
    let digit = digits.substring_ascii(d as usize, d as usize + 1);
    assert(digit@ =~= seq![hex_digit(d as int)]);
    digit
}

/// Writes a byte in base 16 behind `0x`.
pub fn hex_byte(byte: u8) -> (text: String)
    ensures
        text@ == hex_text(byte),
{
    let mut text = String::from_str("0x");
    if byte >= 16 {
        text.append(digit_str(byte / 16));
    }
    text.append(digit_str(byte % 16));
    assert(text@ =~= hex_text(byte));
    text
}

/// Writes the bytes of a record in base 16, with a comma and a space between two.
pub fn hex_record(record: &[u8; 33]) -> (text: String)
    ensures
        text@ == hex_row(record@),
{
    let mut text = String::new();
    let mut i: usize = 0;
    assert(record@.take(0) =~= Seq::<u8>::empty());
    while i < RECORD_BYTES
        invariant
            i <= RECORD_BYTES,
            text@ == hex_row(record@.take(i as int)),
        decreases RECORD_BYTES - i,
    {
        let ghost before = text@;
        if i > 0 {
            text.append(", ");
        }
        let digits = hex_byte(record[i]);
        text.append(digits.as_str());
        proof {
            let seen = record@.take(i + 1);
            assert(seen.drop_last() =~= record@.take(i as int));
            assert(seen.last() == record@[i as int]);
            if i == 0 {
                assert(text@ =~= hex_text(record@[0]));
            } else {
                assert(text@ =~= before + ", "@ + hex_text(record@[i as int]));
            }
        }
        i += 1;
    }
    assert(record@.take(33) =~= record@);
    text
}

/// Writes every record of a batch as a row of bytes in base 16.
pub fn hex_levels(records: &Vec<[u8; 33]>) -> (rows: Vec<String>)
    ensures
        rows@.len() == records@.len(),
        forall|k: int| 0 <= k < records@.len() ==> (#[trigger] rows@[k])@ == hex_row(records@[k]@),
{
    let mut rows: Vec<String> = Vec::new();
    let mut k: usize = 0;
    while k < records.len()
        invariant
            k <= records@.len(),
            rows@.len() == k,
            forall|j: int| 0 <= j < k ==> (#[trigger] rows@[j])@ == hex_row(records@[j]@),
        decreases records@.len() - k,
    {
        rows.push(hex_record(&records[k]));
        k += 1;
    }
    rows
}

fn append_decimal(text: &mut String, n: usize)
    ensures
        final(text)@ == old(text)@ + decimal_text(n as nat),
    decreases n,
{
    if n >= 10 {
        append_decimal(text, n / 10);
    }
    text.append(digit_str((n % 10) as u8));
    assert(text@ =~= old(text)@ + decimal_text(n as nat));
}

/// Writes the header that goes with a batch of `chunk_count` records: it
/// declares the array and gives the number of records a name.
pub fn header(chunk_count: usize) -> (text: String)
    ensures
        text@ == header_text(chunk_count as nat),
{
    let mut text = String::from_str(
        "// This file was generated by podpacker, DO NOT EDIT\n\n#ifndef _CHUNKS_H\n#define _CHUNKS_H\n\nextern const UINT8 CHUNKS[][];\n#define CHUNK_COUNT ",
    );
    append_decimal(&mut text, chunk_count);
    text.append("\n\n\n#endif\n");
    text
}

/// Writes the array that holds the given rows, one row per record.
pub fn array_decl(hex_lvls: Vec<String>) -> (text: String)
    ensures
        text@ == array_decl_text(hex_lvls@),
{
    let mut inner = String::new();
    let mut k: usize = 0;
    assert(hex_lvls@.take(0) =~= Seq::<String>::empty());
    while k < hex_lvls.len()
        invariant
            k <= hex_lvls@.len(),
            inner@ == rows_text(hex_lvls@.take(k as int)),
        decreases hex_lvls@.len() - k,
    {
        inner.append("{ ");
        inner.append(hex_lvls[k].as_str());
        inner.append(" },\n");
        proof {
            let seen = hex_lvls@.take(k + 1);
            assert(seen.drop_last() =~= hex_lvls@.take(k as int));
            assert(seen.last() == hex_lvls@[k as int]);
        }
        k += 1;
    }
    assert(hex_lvls@.take(k as int) =~= hex_lvls@);
    let mut text = String::from_str(
        "// This file was auto-generated by podpacker. DO NOT EDIT.\n#include <types.h>\n\nconst UINT8 CHUNKS[][] = { ",
    );
    text.append(inner.as_str());
    text.append(" };");
    text
}

/// Lays the records of a batch end to end: 33 bytes for each, in order.
pub fn raw_bytes(records: &Vec<[u8; 33]>) -> (bytes: Vec<u8>)
    ensures
        bytes@ == raw_concat(records@),
{
    let mut bytes: Vec<u8> = Vec::new();
    let mut k: usize = 0;
    assert(records@.take(0) =~= Seq::<[u8; 33]>::empty());
    while k < records.len()
        invariant
            k <= records@.len(),
            bytes@ == raw_concat(records@.take(k as int)),
        decreases records@.len() - k,
    {
        let record = &records[k];
        let ghost before = bytes@;
        let mut j: usize = 0;
        while j < RECORD_BYTES
            invariant
                j <= RECORD_BYTES,
                bytes@ == before + record@.take(j as int),
            decreases RECORD_BYTES - j,
        {
            bytes.push(record[j]);
            assert(bytes@ =~= before + record@.take(j + 1));
            j += 1;
        }
        proof {
            let seen = records@.take(k + 1);
            assert(seen.drop_last() =~= records@.take(k as int));
            assert(seen.last() == records@[k as int]);
            assert(record@.take(33) =~= record@);
        }
        k += 1;
    }
    assert(records@.take(k as int) =~= records@);
    bytes
}

/// The raw form of a batch holds 33 bytes for each record, and byte `j` of
/// record `k` stands at place `33 * k + j`.
pub proof fn lemma_raw_concat(records: Seq<[u8; 33]>)
    ensures
        raw_concat(records).len() == 33 * records.len(),
        forall|k: int, j: int|
            0 <= k < records.len() && 0 <= j < 33 ==> raw_concat(records)[33 * k + j]
                == #[trigger] records[k]@[j],
    decreases records.len(),
{
    if records.len() > 0 {
        let rest = records.drop_last();
        lemma_raw_concat(rest);
        assert forall|k: int, j: int| 0 <= k < records.len() && 0 <= j < 33 implies raw_concat(
            records,
        )[33 * k + j] == #[trigger] records[k]@[j] by {
            if k < rest.len() {
                assert(rest[k]@[j] == records[k]@[j]);
            }
        }
    }
}

} // verus!
