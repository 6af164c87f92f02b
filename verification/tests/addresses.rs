use cdi_serial::console::{banner, greeting, parse_address, progress_bar};

#[test]
fn cdi_link_addresses_are_always_hexadecimal() {
    assert_eq!(parse_address("8000").unwrap(), 0x8000);
    assert_eq!(parse_address("0x8000").unwrap(), 0x8000);
    assert_eq!(parse_address("$8000").unwrap(), 0x8000);
}

#[test]
fn address_prefixes_make_no_difference() {
    for digits in ["0", "8000", "DFBE10", "dfbe10", "00000000ffffffff"] {
        let plain = parse_address(digits);
        for prefix in ["0x", "0X", "$"] {
            let text = format!("{prefix}{digits}");
            assert_eq!(parse_address(&text).is_ok(), plain.is_ok());
            assert_eq!(parse_address(&text).unwrap(), plain.clone().unwrap());
        }
    }
}

#[test]
fn every_address_can_be_written() {
    for address in [0, 1, 0x8000, 0x1234_abcd, u32::MAX] {
        assert_eq!(parse_address(&format!("{address:08X}")).unwrap(), address);
        assert_eq!(parse_address(&format!("{address:x}")).unwrap(), address);
    }
}

#[test]
fn addresses_are_unsigned_numbers_of_32_bits() {
    assert_eq!(parse_address("+8000").unwrap(), 0x8000);
    assert_eq!(parse_address("0x+8000").unwrap(), 0x8000);
    assert_eq!(parse_address("0000000012345678").unwrap(), 0x1234_5678);
    for text in [
        "", "0x", "$", "+", "-1", "++1", "100000000", "8000h", "0x$8000", "$0x8000", "80 00", "é",
    ] {
        assert_eq!(
            parse_address(text).unwrap_err(),
            format!("{text:?} is not a valid 32-bit address")
        );
    }
}

#[test]
fn address_errors_quote_the_text() {
    assert_eq!(
        parse_address("\"x\"\n").unwrap_err(),
        "\"\\\"x\\\"\\n\" is not a valid 32-bit address"
    );
}

#[test]
fn banners_escape_what_is_not_text() {
    assert_eq!(banner(b"CD-i Stub 0.5.1\r\n"), "CD-i Stub 0.5.1\r\n");
    assert_eq!(banner(&[0x00, 0x1b, b'A', b'\t', 0x7f, 0xff]), "\\x00\\x1BA\t\\x7F\\xFF");
    assert_eq!(banner(&[]), "");
}

#[test]
fn greetings_are_trimmed() {
    assert_eq!(greeting(b"\r\n  CD-i Stub \t 0.5\r\n"), "CD-i Stub \t 0.5");
    assert_eq!(greeting(b" \r\n\t"), "");
    assert_eq!(greeting(&[]), "");
    assert_eq!(greeting(&[0x0b, b' ']), "\\x0B");
}

#[test]
fn progress_is_shown_as_a_bar() {
    assert_eq!(
        progress_bar("Downloading", 0, 1000),
        format!("\rDownloading [{}]   0% (0/1000 bytes)", "-".repeat(30))
    );
    assert_eq!(
        progress_bar("Uploading", 512, 1024),
        format!("\rUploading [{}{}]  50% (512/1024 bytes)", "#".repeat(15), "-".repeat(15))
    );
    assert_eq!(
        progress_bar("Downloading", 2000, 1000),
        format!("\rDownloading [{}] 100% (1000/1000 bytes)", "#".repeat(30))
    );
    assert_eq!(
        progress_bar("Downloading", 0, 0),
        format!("\rDownloading [{}] 100% (0/0 bytes)", "#".repeat(30))
    );
    assert_eq!(
        progress_bar("x", 333, 1000),
        format!("\rx [{}{}]  33% (333/1000 bytes)", "#".repeat(9), "-".repeat(21))
    );
}
