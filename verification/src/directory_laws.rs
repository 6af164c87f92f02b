//! What is read out of directory data, in terms of how it is laid out.

use vstd::prelude::*;

use crate::directory::{
    disk_entry, disk_line, disk_lines, disk_name, disk_names, file_names, first_zero, is_record,
    listed, names_in, record, record_line, record_name, records, records_before, CdfmEntry,
};
use crate::frame::{be32, value32};
use crate::laws::law_numbers_round_trip;
use crate::text::{decimal, hex8, lossy_text, padded};
use crate::volume::with_sizes;

verus! {

/// An entry of a disk directory: the name, zeros up to 28 bytes, and the address
/// of the file descriptor with the most significant byte first.
pub open spec fn disk_record(name: Seq<u8>, descriptor: u32) -> Seq<u8> {
    name + Seq::new((28 - name.len()) as nat, |i: int| 0u8) + seq![
        (descriptor / 0x100_0000) as u8,
        (descriptor / 0x1_0000 % 0x100) as u8,
        (descriptor / 0x100 % 0x100) as u8,
        (descriptor % 0x100) as u8,
    ]
}

/// Where the name of an entry ends.
proof fn lemma_first_zero(name: Seq<u8>, rest: Seq<u8>)
    requires
        forall|i: int| 0 <= i < name.len() ==> #[trigger] name[i] != 0,
        rest.len() > 0 ==> rest[0] == 0,
    ensures
        first_zero(name + rest) == name.len(),
    decreases name.len(),
{
    let all = name + rest;
    if name.len() == 0 {
        assert(all =~= rest);
    } else {
        assert(all[0] == name[0]);
        assert(all.skip(1) =~= name.skip(1) + rest);
        assert forall|i: int| 0 <= i < name.len() - 1 implies #[trigger] name.skip(1)[i] != 0 by {
            assert(name.skip(1)[i] == name[i + 1]);
        }
        lemma_first_zero(name.skip(1), rest);
    }
}

/// The name and the descriptor of an entry are found in it.
proof fn lemma_disk_record(name: Seq<u8>, descriptor: u32)
    requires
        name.len() <= 28,
        forall|i: int| 0 <= i < name.len() ==> #[trigger] name[i] != 0,
    ensures
        disk_record(name, descriptor).len() == 32,
        disk_name(disk_record(name, descriptor)) == name,
        value32(disk_record(name, descriptor).subrange(28, 32)) == descriptor,
{
    let entry = disk_record(name, descriptor);
    let zeros = Seq::new((28 - name.len()) as nat, |i: int| 0u8);
    assert(entry.take(28) =~= name + zeros);
    lemma_first_zero(name, zeros);
    assert(entry.take(name.len() as int) =~= name);
    assert(entry.subrange(28, 32) =~= be32(descriptor));
    law_numbers_round_trip(descriptor);
}

/// Entries in front are not changed by what stands behind them.
proof fn lemma_disk_prefix(data: Seq<u8>, more: Seq<u8>, count: nat)
    requires
        32 * count <= data.len(),
    ensures
        disk_lines(data + more, count) == disk_lines(data, count),
        disk_names(data + more, count) == disk_names(data, count),
    decreases count,
{
    if count > 0 {
        lemma_disk_prefix(data, more, (count - 1) as nat);
        assert(disk_entry(data + more, count - 1) =~= disk_entry(data, count - 1));
    }
}

/// One more entry at the end.
proof fn lemma_disk_appended(data: Seq<u8>, count: nat, entry: Seq<u8>, rest: Seq<u8>)
    requires
        data.len() == 32 * count,
        entry.len() == 32,
        rest.len() < 32,
    ensures
        ({
            let all = data + entry;
            &&& data.len() / 32 == count
            &&& all.len() / 32 == count + 1
            &&& (all + rest).len() / 32 == count + 1
            &&& disk_lines(all, count + 1) == if disk_name(entry).len() == 0 {
                disk_lines(data, count)
            } else {
                disk_lines(data, count).push(disk_line(entry))
            }
            &&& disk_names(all, count + 1) == if 0 < disk_name(entry).len() < 28 {
                disk_names(data, count).push(lossy_text(disk_name(entry)))
            } else {
                disk_names(data, count)
            }
            &&& disk_lines(all + rest, count + 1) == disk_lines(all, count + 1)
            &&& disk_names(all + rest, count + 1) == disk_names(all, count + 1)
        }),
{
    let all = data + entry;
    lemma_disk_prefix(data, entry, count);
    lemma_disk_prefix(all, rest, count + 1);
    assert(disk_entry(all, count as int) =~= entry);
}

/// A disk directory is shown entry by entry, in order: one more entry with a name
/// is one more line, with its name and the address of its descriptor in eight
/// hexadecimal digits; one without a name is not shown. An incomplete entry at
/// the end is not shown either.
pub proof fn law_disk_entries_are_shown(
    data: Seq<u8>,
    count: nat,
    name: Seq<u8>,
    descriptor: u32,
    rest: Seq<u8>,
)
    requires
        data.len() == 32 * count,
        name.len() <= 28,
        forall|i: int| 0 <= i < name.len() ==> #[trigger] name[i] != 0,
        rest.len() < 32,
    ensures
        ({
            let all = data + disk_record(name, descriptor);
            &&& disk_lines(all, all.len() / 32) == if name.len() == 0 {
                disk_lines(data, data.len() / 32)
            } else {
                disk_lines(data, data.len() / 32).push(
                    lossy_text(name) + "\t0x"@ + hex8(descriptor),
                )
            }
            &&& disk_lines(all + rest, (all + rest).len() / 32) == disk_lines(all, all.len() / 32)
            &&& disk_lines(Seq::empty(), 0) == Seq::<Seq<char>>::empty()
        }),
{
    lemma_disk_record(name, descriptor);
    lemma_disk_appended(data, count, disk_record(name, descriptor), rest);
}

/// A disk directory is mounted entry by entry, in order: one more entry with a
/// name that ends with a zero byte is one more name.
pub proof fn law_disk_entries_are_mounted(
    data: Seq<u8>,
    count: nat,
    name: Seq<u8>,
    descriptor: u32,
    rest: Seq<u8>,
)
    requires
        data.len() == 32 * count,
        name.len() <= 28,
        forall|i: int| 0 <= i < name.len() ==> #[trigger] name[i] != 0,
        rest.len() < 32,
    ensures
        ({
            let all = data + disk_record(name, descriptor);
            &&& disk_names(all, all.len() / 32) == if name.len() == 0 || name.len() == 28 {
                disk_names(data, data.len() / 32)
            } else {
                disk_names(data, data.len() / 32).push(lossy_text(name))
            }
            &&& disk_names(all + rest, (all + rest).len() / 32) == disk_names(all, all.len() / 32)
            &&& disk_names(Seq::empty(), 0) == Seq::<Seq<char>>::empty()
        }),
{
    lemma_disk_record(name, descriptor);
    lemma_disk_appended(data, count, disk_record(name, descriptor), rest);
}

/// A record of a compact-disc directory stands at a place of the data: the sector
/// and the size as big-endian numbers at 0 and 8, zeros at 4 to 7 and at 18 to 25,
/// the length of the name at 26, and the name behind it. The name is one of
/// visible ASCII characters other than the slash, at most 32 of them, or the one
/// by which a directory refers to itself or to the one above it.
pub open spec fn disc_record_stands(
    data: Seq<u8>,
    place: int,
    sector: int,
    size: int,
    name: Seq<u8>,
) -> bool {
    &&& 0 <= place
    &&& place + 27 + name.len() <= data.len()
    &&& 1 <= name.len() <= 32
    &&& sector == data[place] * 0x100_0000 + data[place + 1] * 0x1_0000 + data[place + 2] * 0x100
        + data[place + 3]
    &&& forall|i: int| 4 <= i < 8 ==> #[trigger] data[place + i] == 0
    &&& size == data[place + 8] * 0x100_0000 + data[place + 9] * 0x1_0000 + data[place + 10]
        * 0x100 + data[place + 11]
    &&& forall|i: int| 18 <= i < 26 ==> #[trigger] data[place + i] == 0
    &&& data[place + 26] == name.len()
    &&& data.subrange(place + 27, place + 27 + name.len()) == name
    &&& name == seq![0u8] || name == seq![1u8] || forall|i: int|
        0 <= i < name.len() ==> 0x21 <= #[trigger] name[i] <= 0x7e && name[i] != 0x2f
    &&& sector != 0 || size != 0
}

/// What the user is told of such a record.
pub open spec fn told(entry: CdfmEntry, sector: int, size: int, name: Seq<u8>) -> bool {
    &&& entry.0 == sector
    &&& entry.1 == size
    &&& name == seq![0u8] || name == seq![1u8] ==> entry.2 == "."@
    &&& !(name == seq![0u8] || name == seq![1u8]) ==> {
        &&& entry.2.len() == name.len()
        &&& forall|i: int| 0 <= i < name.len() ==> #[trigger] entry.2[i] as int == name[i]
    }
}

/// A record stands at a place of the data, and the user is told of it.
pub open spec fn record_told(data: Seq<u8>, place: int, entry: CdfmEntry) -> bool {
    exists|sector: int, size: int, name: Seq<u8>| #[trigger]
        disc_record_stands(data, place, sector, size, name) && told(entry, sector, size, name)
}

/// What is found at a place is a record that stands there.
proof fn lemma_found_stands(data: Seq<u8>, place: int)
    requires
        is_record(data, place),
    ensures
        record_told(data, place, record(data, place)),
{
    let name = record_name(data, place);
    let (sector, size, _) = record(data, place);
    assert(data.subrange(place, place + 4)[0] == data[place]);
    assert(disc_record_stands(data, place, sector as int, size as int, name));
    assert(told(record(data, place), sector as int, size as int, name));
}

/// A record that stands at a place is found there.
proof fn lemma_standing_is_found(
    data: Seq<u8>,
    place: int,
    sector: int,
    size: int,
    name: Seq<u8>,
)
    requires
        disc_record_stands(data, place, sector, size, name),
    ensures
        is_record(data, place),
{
    assert(record_name(data, place) =~= name);
    assert forall|i: int| place + 4 <= i < place + 8 implies data[i] == 0 by {
        assert(data[place + (i - place)] == 0);
    }
    assert forall|i: int| place + 18 <= i < place + 26 implies data[i] == 0 by {
        assert(data[place + (i - place)] == 0);
    }
    assert(value32(data.subrange(place, place + 4)) == sector);
    assert(value32(data.subrange(place + 8, place + 12)) == size);
}

/// The files of a compact-disc directory are those of its records, wherever they
/// stand, in the order in which they stand: each record is one file, and each file
/// one record.
pub proof fn law_disc_records_are_found(data: Seq<u8>) -> (places: Seq<int>)
    ensures
        places.len() == records(data).len(),
        forall|i: int, j: int|
            #![trigger places[i], places[j]]
            0 <= i < j < places.len() ==> places[i] < places[j],
        forall|i: int|
            0 <= i < places.len() ==> record_told(data, #[trigger] places[i], records(data)[i]),
        forall|place: int, sector: int, size: int, name: Seq<u8>| #[trigger]
            disc_record_stands(data, place, sector, size, name) ==> places.contains(place),
{
    let places = lemma_records(data, data.len());
    assert forall|place: int, sector: int, size: int, name: Seq<u8>| #[trigger]
        disc_record_stands(data, place, sector, size, name) implies places.contains(place) by {
        lemma_standing_is_found(data, place, sector, size, name);
    }
    places
}

/// The same for the records below a place.
proof fn lemma_records(data: Seq<u8>, end: nat) -> (places: Seq<int>)
    ensures
        places.len() == records_before(data, end).len(),
        forall|i: int, j: int|
            #![trigger places[i], places[j]]
            0 <= i < j < places.len() ==> places[i] < places[j],
        forall|i: int| 0 <= i < places.len() ==> #[trigger] places[i] < end,
        forall|i: int|
            0 <= i < places.len() ==> record_told(
                data,
                #[trigger] places[i],
                records_before(data, end)[i],
            ),
        forall|place: int|
            place < end && #[trigger] is_record(data, place) ==> places.contains(place),
    decreases end,
{
    if end == 0 {
        Seq::empty()
    } else {
        let place = end - 1;
        let earlier = lemma_records(data, (end - 1) as nat);
        if is_record(data, place) {
            lemma_found_stands(data, place);
            let places = earlier.push(place);
            assert forall|at: int| at < end && #[trigger] is_record(data, at) implies
                places.contains(at) by {
                if at < place {
                    let k = earlier.index_of(at);
                    assert(places[k] == at);
                } else {
                    assert(places[earlier.len() as int] == place);
                }
            }
            places
        } else {
            earlier
        }
    }
}

/// A directory that holds a record is one of a compact disc: it is shown as a
/// table with a line for each file, and counts as one entry. Any other directory
/// is one of a disk, and has as many entries as lines.
pub proof fn law_directories_are_shown(data: Seq<u8>)
    ensures
        records(data).len() > 0 ==> {
            &&& listed(data).1 == 1
            &&& listed(data).0.len() == records(data).len() + 2
            &&& listed(data).0[0] == "Sector      Size Name"@
            &&& listed(data).0[1] == "------ --------- -----"@
            &&& forall|i: int|
                0 <= i < records(data).len() ==> #[trigger] listed(data).0[i + 2] == record_line(
                    records(data)[i],
                )
        },
        records(data).len() == 0 ==> {
            &&& listed(data).0 == disk_lines(data, data.len() / 32)
            &&& listed(data).1 == listed(data).0.len()
        },
{
}

/// The line of a file of a compact disc has its sector to the right of six columns
/// and its size to the right of nine, with a space between them, then a space and
/// the name.
pub proof fn law_disc_lines_are_a_table(entry: CdfmEntry)
    ensures
        ({
            let line = record_line(entry);
            let name = line.len() - entry.2.len();
            &&& line.skip(name) == entry.2
            &&& line[name - 1] == ' '
            &&& exists|sector: Seq<char>, size: Seq<char>|
                {
                    &&& line == #[trigger] (sector + seq![' '] + size) + seq![' '] + entry.2
                    &&& sector == padded(decimal(entry.0 as nat), 6)
                    &&& size == padded(decimal(entry.1 as nat), 9)
                }
        }),
{
    let sector = padded(decimal(entry.0 as nat), 6);
    let size = padded(decimal(entry.1 as nat), 9);
    let line = record_line(entry);
    assert(line =~= (sector + seq![' '] + size) + seq![' '] + entry.2);
    assert(line.skip(line.len() - entry.2.len()) =~= entry.2);
}

/// The names in a mounted compact-disc directory are those of its files, one after
/// the other; its entry for itself is no file.
pub proof fn law_disc_names_are_mounted(entries: Seq<CdfmEntry>, entry: CdfmEntry)
    ensures
        file_names(Seq::empty()) == Seq::<Seq<char>>::empty(),
        entry.2 == "."@ ==> file_names(entries.push(entry)) == file_names(entries),
        entry.2 != "."@ ==> file_names(entries.push(entry)) == file_names(entries).push(entry.2),
{
    assert(entries.push(entry).drop_last() =~= entries);
}

/// The names in a mounted directory.
pub proof fn law_directories_are_mounted(data: Seq<u8>)
    ensures
        records(data).len() > 0 ==> names_in(data) == file_names(records(data)),
        records(data).len() == 0 ==> names_in(data) == disk_names(data, data.len() / 32),
{
}

/// The size of a file of a compact disc is the one that its record tells, under
/// the path of the file; all other sizes stay.
pub proof fn law_disc_sizes_are_remembered(
    sizes: Map<Seq<char>, u64>,
    path: Seq<char>,
    entries: Seq<CdfmEntry>,
    entry: CdfmEntry,
)
    ensures
        with_sizes(sizes, path, Seq::empty()) == sizes,
        entry.2 == "."@ ==> with_sizes(sizes, path, entries.push(entry)) == with_sizes(
            sizes,
            path,
            entries,
        ),
        entry.2 != "."@ ==> with_sizes(sizes, path, entries.push(entry)) == with_sizes(
            sizes,
            path,
            entries,
        ).insert(path + "/"@ + entry.2, entry.1 as u64),
{
    assert(entries.push(entry).drop_last() =~= entries);
}

} // verus!
