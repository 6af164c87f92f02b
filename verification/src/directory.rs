//! Directory data as OS-9 hands it out, and how it is shown to the user.
//!
//! A disk directory (RBF, the random block file manager) is a sequence of
//! 32-byte entries. A compact-disc directory (CDFM, the compact disc file
//! manager) is a sequence of records of various lengths.

use vstd::prelude::*;
use vstd::slice::slice_subrange;
use vstd::string::*;
use vstd::utf8::{
    decode_utf8, encode_utf8, encode_utf8_decode_utf8, encode_utf8_valid_utf8,
    is_ascii_chars, is_ascii_chars_encode_utf8, valid_utf8,
};

use crate::frame::{read_be32, value32};
use crate::text::{decimal, hex8, lossy_text, padded, push_hex8, push_padded, text_from_bytes};

verus! {

/// The byte is a visible ASCII character.
pub open spec fn graphic(byte: u8) -> bool {
    0x21 <= byte <= 0x7e
}

/// All of a stretch of data is zero.
pub open spec fn blank(data: Seq<u8>, from: int, to: int) -> bool {
    forall|i: int| from <= i < to ==> data[i] == 0
}

/// The names by which a compact-disc directory refers to itself and to the one
/// above it.
pub open spec fn self_name(name: Seq<u8>) -> bool {
    name == seq![0u8] || name == seq![1u8]
}

/// The bytes can be the name of a file on a compact disc.
pub open spec fn plain_name(name: Seq<u8>) -> bool {
    &&& name.len() > 0
    &&& forall|i: int| 0 <= i < name.len() ==> graphic(#[trigger] name[i]) && name[i] != 0x2f
}

/// The name in the record at `start`.
pub open spec fn record_name(data: Seq<u8>, start: int) -> Seq<u8> {
    data.subrange(start + 27, start + 27 + data[start + 26])
}

/// A compact-disc directory record stands at `start`: big-endian sector at 0,
/// zeros at 4, byte size at 8, zeros at 18, name length at 26, name at 27.
pub open spec fn is_record(data: Seq<u8>, start: int) -> bool {
    &&& 0 <= start
    &&& start + 27 < data.len()
    &&& data[start + 26] <= 32
    &&& start + 27 + data[start + 26] <= data.len()
    &&& blank(data, start + 4, start + 8)
    &&& blank(data, start + 18, start + 26)
    &&& plain_name(record_name(data, start)) || self_name(record_name(data, start))
    &&& value32(data.subrange(start, start + 4)) != 0 || value32(
        data.subrange(start + 8, start + 12),
    ) != 0
}

/// A file of a compact disc: sector, size in bytes, name.
pub type CdfmEntry = (u32, u32, Seq<char>);

/// What the record at `start` says.
pub open spec fn record(data: Seq<u8>, start: int) -> CdfmEntry {
    (
        value32(data.subrange(start, start + 4)),
        value32(data.subrange(start + 8, start + 12)),
        if self_name(record_name(data, start)) {
            "."@
        } else {
            Seq::new(
                record_name(data, start).len(),
                |i: int| record_name(data, start)[i] as char,
            )
        },
    )
}

/// The records that stand at positions below `end`, in order.
pub open spec fn records_before(data: Seq<u8>, end: nat) -> Seq<CdfmEntry>
    decreases end,
{
    if end == 0 {
        Seq::empty()
    } else if is_record(data, end - 1) {
        records_before(data, (end - 1) as nat).push(record(data, end - 1))
    } else {
        records_before(data, (end - 1) as nat)
    }
}

/// All the records of a compact-disc directory.
pub open spec fn records(data: Seq<u8>) -> Seq<CdfmEntry> {
    records_before(data, data.len())
}

/// Where the first zero byte is, or `data.len()` if there is none.
pub open spec fn first_zero(data: Seq<u8>) -> nat
    decreases data.len(),
{
    if data.len() == 0 || data[0] == 0 {
        0
    } else {
        1 + first_zero(data.skip(1))
    }
}

/// The `index`-th entry of a disk directory.
pub open spec fn disk_entry(data: Seq<u8>, index: int) -> Seq<u8> {
    data.subrange(index * 32, index * 32 + 32)
}

/// The name in an entry of a disk directory; it ends at the first zero byte.
pub open spec fn disk_name(entry: Seq<u8>) -> Seq<u8> {
    entry.take(first_zero(entry.take(28)) as int)
}

/// The line that shows a file of a compact disc.
pub open spec fn record_line(entry: CdfmEntry) -> Seq<char> {
    padded(decimal(entry.0 as nat), 6) + seq![' '] + padded(decimal(entry.1 as nat), 9) + seq![' ']
        + entry.2
}

/// The line that shows an entry of a disk directory.
pub open spec fn disk_line(entry: Seq<u8>) -> Seq<char> {
    lossy_text(disk_name(entry)) + "\t0x"@ + hex8(value32(entry.subrange(28, 32)))
}

/// The lines for the first `count` entries of a disk directory. Unused entries
/// have an empty name and no line.
pub open spec fn disk_lines(data: Seq<u8>, count: nat) -> Seq<Seq<char>>
    decreases count,
{
    if count == 0 {
        Seq::empty()
    } else {
        let earlier = disk_lines(data, (count - 1) as nat);
        let entry = disk_entry(data, count - 1);
        if disk_name(entry).len() == 0 {
            earlier
        } else {
            earlier.push(disk_line(entry))
        }
    }
}

/// The lines that show a directory to the user.
pub open spec fn lines(data: Seq<u8>) -> Seq<Seq<char>> {
    if records(data).len() > 0 {
        seq!["Sector      Size Name"@, "------ --------- -----"@] + records(data).map_values(
            |entry: CdfmEntry| record_line(entry),
        )
    } else {
        disk_lines(data, data.len() / 32)
    }
}

/// A directory as it is shown to the user.
#[derive(Debug)]
pub struct Listing {
    /// What to print, line by line.
    pub lines: Vec<String>,
    /// Zero if the directory is empty. For a disk directory this is the number
    /// of entries; a compact-disc directory counts as one.
    pub entries: usize,
}

impl View for Listing {
    type V = (Seq<Seq<char>>, nat);

    open spec fn view(&self) -> (Seq<Seq<char>>, nat) {
        (self.lines.deep_view(), self.entries as nat)
    }
}

/// How a directory is shown: its lines, and the number of entries.
pub open spec fn listed(data: Seq<u8>) -> (Seq<Seq<char>>, nat) {
    (
        lines(data),
        if records(data).len() > 0 {
            1
        } else {
            lines(data).len()
        },
    )
}

/// Visible ASCII bytes, read as UTF-8, are the same characters.
proof fn lemma_plain_text(bytes: Seq<u8>)
    requires
        forall|i: int| 0 <= i < bytes.len() ==> graphic(#[trigger] bytes[i]),
    ensures
        valid_utf8(bytes),
        decode_utf8(bytes) == Seq::new(bytes.len(), |i: int| bytes[i] as char),
{
    let characters = Seq::new(bytes.len(), |i: int| bytes[i] as char);
    assert(is_ascii_chars(characters)) by {
        assert forall|i: int| 0 <= i < characters.len() implies 0 <= #[trigger] characters[i]
            as nat <= 127 by {
            assert(graphic(bytes[i]));
        }
    }
    is_ascii_chars_encode_utf8(characters);
    assert(encode_utf8(characters) =~= bytes) by {
        assert forall|i: int| 0 <= i < bytes.len() implies #[trigger] characters[i] as u8
            == bytes[i] by {
            assert(graphic(bytes[i]));
        }
    }
    encode_utf8_valid_utf8(characters);
    encode_utf8_decode_utf8(characters);
}

/// All of a stretch of data is zero.
fn is_blank(data: &[u8], from: usize, to: usize) -> (result: bool)
    requires
        from <= to <= data@.len(),
    ensures
        result == blank(data@, from as int, to as int),
{
    let mut index: usize = from;
    while index < to
        invariant
            from <= index <= to <= data@.len(),
            blank(data@, from as int, index as int),
        decreases to - index,
    {
        if data[index] != 0 {
            return false;
        }
        index = index + 1;
    }
    true
}

/// The bytes can be the name of a file on a compact disc.
fn is_plain_name(name: &[u8]) -> (result: bool)
    ensures
        result == plain_name(name@),
{
    if name.len() == 0 {
        return false;
    }
    let mut index: usize = 0;
    while index < name.len()
        invariant
            index <= name@.len(),
            forall|i: int| 0 <= i < index ==> graphic(#[trigger] name@[i]) && name@[i] != 0x2f,
        decreases name@.len() - index,
    {
        let byte: u8 = name[index];
        if byte < 0x21 || byte > 0x7e || byte == 0x2f {
            assert(!(graphic(name@[index as int]) && name@[index as int] != 0x2f));
            return false;
        }
        index = index + 1;
    }
    true
}

/// The record at `start`, if one stands there.
fn record_at(data: &[u8], start: usize) -> (result: Option<(u32, u32, String)>)
    requires
        start + 27 < data@.len(),
    ensures
        result is Some <==> is_record(data@, start as int),
        result matches Some(entry) ==> entry.deep_view() == record(data@, start as int),
{
    let length: usize = data[start + 26] as usize;
    if length > 32 || data.len() - start - 27 < length {
        return None;
    }
    if !is_blank(data, start + 4, start + 8) || !is_blank(data, start + 18, start + 26) {
        return None;
    }
    let name = slice_subrange(data, start + 27, start + 27 + length);
    assert(name@ == record_name(data@, start as int));
    let itself: bool = name.len() == 1 && (name[0] == 0 || name[0] == 1);
    assert(itself == self_name(name@)) by {
        if itself {
            assert(name@ =~= seq![0u8] || name@ =~= seq![1u8]);
        }
    }
    if !itself && !is_plain_name(name) {
        return None;
    }
    let sector: u32 = read_be32(slice_subrange(data, start, start + 4));
    let size: u32 = read_be32(slice_subrange(data, start + 8, start + 12));
    if sector == 0 && size == 0 {
        return None;
    }
    let text: String = if itself {
        ".".to_owned()
    } else {
        proof {
            lemma_plain_text(name@);
        }
        text_from_bytes(name)
    };
    Some((sector, size, text))
}

/// The files that a compact-disc directory names; none if the data is not such
/// a directory.
pub fn cdfm_entries(data: &[u8]) -> (entries: Vec<(u32, u32, String)>)
    ensures
        entries.deep_view() == records(data@),
{
    let mut entries: Vec<(u32, u32, String)> = Vec::new();
    assert(entries.deep_view() =~= records_before(data@, 0));
    let mut start: usize = 0;
    while start < data.len()
        invariant
            start <= data@.len(),
            entries.deep_view() == records_before(data@, start as nat),
        decreases data@.len() - start,
    {
        if data.len() - start > 27 {
            if let Some(entry) = record_at(data, start) {
                let ghost earlier = entries.deep_view();
                entries.push(entry);
                assert(entries.deep_view() =~= earlier.push(record(data@, start as int)));
            }
        }
        start = start + 1;
    }
    entries
}

/// Where the first zero byte is, or the length of the data if there is none.
fn find_zero(data: &[u8]) -> (index: usize)
    ensures
        index == first_zero(data@),
{
    let mut index: usize = 0;
    assert(data@.skip(0) =~= data@);
    while index < data.len()
        invariant
            index <= data@.len(),
            first_zero(data@) == index + first_zero(data@.skip(index as int)),
        decreases data@.len() - index,
    {
        if data[index] == 0 {
            return index;
        }
        assert(data@.skip(index as int).skip(1) =~= data@.skip(index + 1));
        index = index + 1;
    }
    index
}

/// A name is part of the data that it is found in.
proof fn lemma_first_zero_bound(data: Seq<u8>)
    ensures
        first_zero(data) <= data.len(),
    decreases data.len(),
{
    if data.len() > 0 && data[0] != 0 {
        lemma_first_zero_bound(data.skip(1));
    }
}

/// The name in an entry of a disk directory.
fn disk_name_of(entry: &[u8]) -> (name: &[u8])
    requires
        entry@.len() == 32,
    ensures
        name@ == disk_name(entry@),
        name@.len() == first_zero(entry@.take(28)),
{
    let room = slice_subrange(entry, 0, 28);
    assert(room@ =~= entry@.take(28));
    proof {
        lemma_first_zero_bound(entry@.take(28));
    }
    let name = slice_subrange(entry, 0, find_zero(room));
    assert(name@ =~= disk_name(entry@));
    name
}

/// The line that shows a file of a compact disc.
fn record_text(sector: u32, size: u32, name: &str) -> (line: String)
    ensures
        line@ == record_line((sector, size, name@)),
{
    let mut line: String = String::new();
    push_padded(&mut line, sector as u64, 6);
    line.push(' ');
    push_padded(&mut line, size as u64, 9);
    line.push(' ');
    line.append(name);
    assert(line@ =~= record_line((sector, size, name@)));
    line
}

/// The line that shows an entry of a disk directory.
fn disk_text(entry: &[u8]) -> (line: String)
    requires
        entry@.len() == 32,
    ensures
        line@ == disk_line(entry@),
{
    let mut line: String = text_from_bytes(disk_name_of(entry));
    line.append("\t0x");
    push_hex8(&mut line, read_be32(slice_subrange(entry, 28, 32)));
    line
}

/// The lines that show a compact-disc directory.
fn record_lines(entries: &Vec<(u32, u32, String)>) -> (lines: Vec<String>)
    ensures
        lines.deep_view() == seq!["Sector      Size Name"@, "------ --------- -----"@]
            + entries.deep_view().map_values(|entry: CdfmEntry| record_line(entry)),
{
    let ghost heading = seq!["Sector      Size Name"@, "------ --------- -----"@];
    let ghost body = entries.deep_view().map_values(|entry: CdfmEntry| record_line(entry));
    let mut lines: Vec<String> = Vec::new();
    lines.push("Sector      Size Name".to_owned());
    lines.push("------ --------- -----".to_owned());
    assert(lines.deep_view() =~= heading + body.take(0));
    let mut index: usize = 0;
    while index < entries.len()
        invariant
            index <= entries@.len(),
            body == entries.deep_view().map_values(|entry: CdfmEntry| record_line(entry)),
            lines.deep_view() == heading + body.take(index as int),
        decreases entries@.len() - index,
    {
        let ghost earlier = lines.deep_view();
        let entry = &entries[index];
        let line: String = record_text(entry.0, entry.1, entry.2.as_str());
        assert(entries.deep_view()[index as int] == entry.deep_view());
        lines.push(line);
        assert(lines.deep_view() =~= earlier.push(line@));
        assert(body.take(index + 1) =~= body.take(index as int).push(line@));
        index = index + 1;
    }
    assert(body.take(index as int) =~= body);
    lines
}

/// The line for an entry of a disk directory, if the entry is in use.
fn disk_entry_text(entry: &[u8]) -> (line: Option<String>)
    requires
        entry@.len() == 32,
    ensures
        line is Some <==> disk_name(entry@).len() > 0,
        line matches Some(text) ==> text@ == disk_line(entry@),
{
    if disk_name_of(entry).len() == 0 {
        None
    } else {
        Some(disk_text(entry))
    }
}

/// The lines that show a disk directory.
fn disk_listing(data: &[u8]) -> (lines: Vec<String>)
    ensures
        lines.deep_view() == disk_lines(data@, data@.len() / 32),
{
    let mut lines: Vec<String> = Vec::new();
    let count: usize = data.len() / 32;
    assert(lines.deep_view() =~= disk_lines(data@, 0));
    let mut index: usize = 0;
    while index < count
        invariant
            index <= count,
            count == data@.len() / 32,
            data@.len() <= usize::MAX,
            lines.deep_view() == disk_lines(data@, index as nat),
        decreases count - index,
    {
        let entry = slice_subrange(data, index * 32, index * 32 + 32);
        assert(entry@ == disk_entry(data@, index as int));
        let line = disk_entry_text(entry);
        let ghost earlier = lines.deep_view();
        if let Some(text) = line {
            lines.push(text);
            assert(lines.deep_view() =~= earlier.push(text@));
        }
        index = index + 1;
    }
    lines
}

/// How a directory is shown to the user.
pub fn directory_listing(data: &[u8]) -> (listing: Listing)
    ensures
        listing@ == listed(data@),
{
    let records = cdfm_entries(data);
    assert(records.deep_view().len() == records@.len());
    if records.len() > 0 {
        return Listing { lines: record_lines(&records), entries: 1 };
    }
    let lines: Vec<String> = disk_listing(data);
    assert(lines.deep_view().len() == lines@.len());
    let entries: usize = lines.len();
    Listing { lines, entries }
}

/// The names of the files among these; a directory's own entry is left out.
pub open spec fn file_names(entries: Seq<CdfmEntry>) -> Seq<Seq<char>>
    decreases entries.len(),
{
    if entries.len() == 0 {
        Seq::empty()
    } else if entries.last().2 == "."@ {
        file_names(entries.drop_last())
    } else {
        file_names(entries.drop_last()).push(entries.last().2)
    }
}

/// The names in the first `count` entries of a disk directory, of those that
/// have a name with a zero byte behind it.
pub open spec fn disk_names(data: Seq<u8>, count: nat) -> Seq<Seq<char>>
    decreases count,
{
    if count == 0 {
        Seq::empty()
    } else {
        let earlier = disk_names(data, (count - 1) as nat);
        let name = disk_name(disk_entry(data, count - 1));
        if 0 < name.len() < 28 {
            earlier.push(lossy_text(name))
        } else {
            earlier
        }
    }
}

/// The names of the files in a directory.
pub open spec fn names_in(data: Seq<u8>) -> Seq<Seq<char>> {
    if records(data).len() > 0 {
        file_names(records(data))
    } else {
        disk_names(data, data.len() / 32)
    }
}

/// The names in a disk directory.
pub(crate) fn disk_file_names(data: &[u8]) -> (names: Vec<String>)
    ensures
        names.deep_view() == disk_names(data@, data@.len() / 32),
{
    let mut names: Vec<String> = Vec::new();
    let count: usize = data.len() / 32;
    assert(names.deep_view() =~= disk_names(data@, 0));
    let mut index: usize = 0;
    while index < count
        invariant
            index <= count,
            count == data@.len() / 32,
            data@.len() <= usize::MAX,
            names.deep_view() == disk_names(data@, index as nat),
        decreases count - index,
    {
        let entry = slice_subrange(data, index * 32, index * 32 + 32);
        assert(entry@ == disk_entry(data@, index as int));
        let name = disk_name_of(entry);
        let ghost earlier = names.deep_view();
        if 0 < name.len() && name.len() < 28 {
            let text: String = text_from_bytes(name);
            names.push(text);
            assert(names.deep_view() =~= earlier.push(text@));
        }
        index = index + 1;
    }
    names
}

} // verus!
