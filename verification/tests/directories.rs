use cdi_serial::directory::{cdfm_entries, directory_listing};

fn record(sector: u32, size: u32, name: &[u8]) -> Vec<u8> {
    let mut record = sector.to_be_bytes().to_vec();
    record.extend_from_slice(&[0; 4]);
    record.extend_from_slice(&size.to_be_bytes());
    record.extend_from_slice(&[7; 6]);
    record.extend_from_slice(&[0; 8]);
    record.push(name.len() as u8);
    record.extend_from_slice(name);
    record
}

fn entry(name: &[u8], descriptor: u32) -> Vec<u8> {
    let mut entry = name.to_vec();
    entry.resize(28, 0);
    entry.extend_from_slice(&descriptor.to_be_bytes());
    entry
}

#[test]
fn compact_disc_records_are_found() {
    let data = [
        record(18, 2048, &[0]),
        record(18, 2048, &[1]),
        record(20, 1234, b"copyright"),
        vec![0xff; 5],
        record(0, 99, b"a.b"),
    ]
    .concat();
    assert_eq!(
        cdfm_entries(&data),
        vec![
            (18, 2048, ".".to_owned()),
            (18, 2048, ".".to_owned()),
            (20, 1234, "copyright".to_owned()),
            (0, 99, "a.b".to_owned()),
        ]
    );
}

#[test]
fn what_is_no_record_is_passed_over() {
    assert!(cdfm_entries(&[]).is_empty());
    assert!(cdfm_entries(&[0; 27]).is_empty());
    assert!(cdfm_entries(&record(1, 1, b"")).is_empty());
    assert!(cdfm_entries(&record(0, 0, b"name")).is_empty());
    assert!(cdfm_entries(&record(1, 1, b"a/b")).is_empty());
    assert!(cdfm_entries(&record(1, 1, b"a b")).is_empty());
    assert!(cdfm_entries(&record(1, 1, &[2])).is_empty());
    assert!(cdfm_entries(&record(1, 1, &[b'n'; 33])).is_empty());
    assert_eq!(cdfm_entries(&record(1, 1, &[b'n'; 32])).len(), 1);
    let mut damaged = record(1, 1, b"name");
    damaged[5] = 1;
    assert!(cdfm_entries(&damaged).is_empty());
    let mut damaged = record(1, 1, b"name");
    damaged[20] = 1;
    assert!(cdfm_entries(&damaged).is_empty());
    let whole = record(1, 1, b"name");
    assert!(cdfm_entries(&whole[..whole.len() - 1]).is_empty());
}

#[test]
fn disk_directories_are_shown_with_descriptors() {
    let data = [
        entry(b"settings", 0x10),
        entry(b"", 0x11),
        entry(&[b'n'; 28], 0xdead_beef),
        vec![1; 31],
    ]
    .concat();
    let listing = directory_listing(&data);
    assert_eq!(
        listing.lines,
        vec![
            "settings\t0x00000010".to_owned(),
            format!("{}\t0xDEADBEEF", "n".repeat(28)),
        ]
    );
    assert_eq!(listing.entries, 2);
}

#[test]
fn names_that_are_not_text_are_shown_anyway() {
    let listing = directory_listing(&entry(&[b'a', 0xff, 0xc3, 0xa9], 1));
    assert_eq!(listing.lines, vec!["a\u{fffd}é\t0x00000001"]);
}

#[test]
fn empty_directories_are_empty() {
    let listing = directory_listing(&[0; 64]);
    assert!(listing.lines.is_empty());
    assert_eq!(listing.entries, 0);
}

#[test]
fn compact_disc_directories_are_shown_as_a_table() {
    let listing = directory_listing(&record(1_234_567, 1_234_567_890, b"big"));
    assert_eq!(
        listing.lines,
        vec![
            "Sector      Size Name",
            "------ --------- -----",
            "1234567 1234567890 big",
        ]
    );
    assert_eq!(listing.entries, 1);
}
