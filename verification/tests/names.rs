use filesys::commands::{is_special_name, open_key, parse_mode, strip_quotes};
use filesys::fat32::FAT32;
use filesys::names::{dot_entry_name, format_name, parse_u32, stored_name, str_eq, to_upper};
use filesys::open_files::FileMode;

fn put_u16(image: &mut Vec<u8>, pos: usize, v: u16) {
    image[pos..pos + 2].copy_from_slice(&v.to_le_bytes());
}

fn put_u32(image: &mut Vec<u8>, pos: usize, v: u32) {
    image[pos..pos + 4].copy_from_slice(&v.to_le_bytes());
}

fn fresh_image() -> Vec<u8> {
    let mut image = vec![0u8; 1024 * 1024];
    put_u16(&mut image, 11, 512);
    image[13] = 1;
    put_u16(&mut image, 14, 32);
    image[16] = 2;
    put_u32(&mut image, 32, 2048);
    put_u32(&mut image, 36, 16);
    put_u32(&mut image, 44, 2);
    put_u16(&mut image, 510, 0xAA55);
    image
}

#[test]
fn names_are_upper_cased_and_padded() {
    assert_eq!(&stored_name("hello.txt"), b"HELLO   TXT");
    assert_eq!(&stored_name("a"), b"A          ");
    assert_eq!(&stored_name("Read.Me"), b"READ    ME ");
    assert_eq!(&stored_name(""), b"           ");
}

#[test]
fn base_and_extension_are_cut_to_their_fields() {
    assert_eq!(&stored_name("verylongname.text"), b"VERYLONGTEX");
    assert_eq!(&stored_name("12345678.123"), b"12345678123");
    assert_eq!(&stored_name("123456789"), b"12345678   ");
}

#[test]
fn names_are_parted_at_the_first_full_stop() {
    assert_eq!(&stored_name("a.b.c"), b"A       B.C");
    assert_eq!(&stored_name(".x"), b"        X  ");
    assert_eq!(&stored_name("x."), b"X          ");
}

#[test]
fn dot_and_dotdot_follow_the_rule_of_every_name() {
    assert_eq!(&stored_name("."), b"           ");
    assert_eq!(&stored_name(".."), b"        .  ");
    assert_eq!(&stored_name("..."), b"        .. ");
}

#[test]
fn dot_entries_have_names_of_their_own() {
    assert_eq!(&dot_entry_name(0), b"           ");
    assert_eq!(&dot_entry_name(1), b".          ");
    assert_eq!(&dot_entry_name(2), b"..         ");
}

#[test]
fn letters_beyond_ascii_are_not_put_in_upper_case() {
    assert_eq!(&stored_name("\u{e9}t\u{e9}"), &[0xC3, 0xA9, b'T', 0xC3, 0xA9, 0x20, 0x20, 0x20, 0x20, 0x20, 0x20]);
}

#[test]
fn bytes_that_are_no_ascii_letters_stay() {
    assert_eq!(&stored_name("a-b_1~"), b"A-B_1~     ");
    assert_eq!(&stored_name("é"), &[0xC3, 0xA9, 0x20, 0x20, 0x20, 0x20, 0x20, 0x20, 0x20, 0x20, 0x20]);
    assert_eq!(to_upper(b'a'), b'A');
    assert_eq!(to_upper(b'z'), b'Z');
    assert_eq!(to_upper(b'`'), b'`');
    assert_eq!(to_upper(b'{'), b'{');
    assert_eq!(to_upper(b'A'), b'A');
}

#[test]
fn format_filename_is_the_stored_name() {
    let image = fresh_image();
    let fs = FAT32::new(&image).unwrap();
    assert_eq!(fs.format_filename("hello.txt"), stored_name("hello.txt"));
    assert_eq!(&fs.format_filename("Foo"), b"FOO        ");
}

#[test]
fn shown_names_lose_trailing_spaces_and_nuls_only() {
    assert_eq!(format_name(b"FOO        "), "FOO");
    assert_eq!(format_name(b"HELLO   TXT"), "HELLO   TXT");
    assert_eq!(format_name(b"  X        "), "  X");
    assert_eq!(format_name(b"AB\0\0\0\0\0\0\0\0\0"), "AB");
    assert_eq!(format_name(b"AB \0 \0     "), "AB");
    assert_eq!(format_name(b"           "), "");
    assert_eq!(format_name(b".          "), ".");
    assert_eq!(format_name(b"..         "), "..");
}

#[test]
fn shown_names_replace_what_is_no_utf8() {
    assert_eq!(format_name(&[b'A', 0xFF, b'B', 0x20]), "A\u{FFFD}B");
    assert_eq!(format_name(&[0xC3, 0xA9, 0x20]), "é");
}

#[test]
fn open_key_is_the_shown_stored_name() {
    assert_eq!(open_key("hello.txt"), "HELLO   TXT");
    assert_eq!(open_key("f"), "F");
    assert_eq!(open_key("F"), "F");
}

#[test]
fn numbers_are_read_in_decimal() {
    assert_eq!(parse_u32("0"), Some(0));
    assert_eq!(parse_u32("26"), Some(26));
    assert_eq!(parse_u32("007"), Some(7));
    assert_eq!(parse_u32("+5"), Some(5));
    assert_eq!(parse_u32("4294967295"), Some(u32::MAX));
}

#[test]
fn what_is_no_number_is_refused() {
    assert_eq!(parse_u32(""), None);
    assert_eq!(parse_u32("+"), None);
    assert_eq!(parse_u32("-1"), None);
    assert_eq!(parse_u32("12a"), None);
    assert_eq!(parse_u32(" 1"), None);
    assert_eq!(parse_u32("1 "), None);
    assert_eq!(parse_u32("++1"), None);
    assert_eq!(parse_u32("4294967296"), None);
    assert_eq!(parse_u32("99999999999999999999999"), None);
}

#[test]
fn numbers_are_read_as_the_standard_library_reads_them() {
    for text in ["0", "1", "+1", "-0", "", "+", "12", "0012", "4294967295", "4294967296", "1e3", "٣"] {
        assert_eq!(parse_u32(text), text.parse::<u32>().ok(), "{}", text);
    }
}

#[test]
fn texts_are_compared_by_their_characters() {
    assert!(str_eq("abc", "abc"));
    assert!(str_eq("", ""));
    assert!(!str_eq("abc", "abd"));
    assert!(!str_eq("abc", "ab"));
    assert!(!str_eq("é", "e"));
}

#[test]
fn special_names_are_dot_and_dotdot() {
    assert!(is_special_name("."));
    assert!(is_special_name(".."));
    assert!(!is_special_name("..."));
    assert!(!is_special_name(""));
    assert!(!is_special_name("a"));
    assert!(!is_special_name(".a"));
    assert!(!is_special_name("a."));
}

#[test]
fn one_quotation_mark_is_taken_off_each_end() {
    assert_eq!(strip_quotes(b"\"HELLO\""), b"HELLO");
    assert_eq!(strip_quotes(b"HELLO"), b"HELLO");
    assert_eq!(strip_quotes(b"\"HELLO"), b"HELLO");
    assert_eq!(strip_quotes(b"HELLO\""), b"HELLO");
    assert_eq!(strip_quotes(b"\"\"a\"\""), b"\"a\"");
    assert_eq!(strip_quotes(b"\""), b"");
    assert_eq!(strip_quotes(b"\"\""), b"");
    assert_eq!(strip_quotes(b""), b"");
    assert_eq!(strip_quotes(b"a\"b"), b"a\"b");
}

#[test]
fn mode_flags_are_recognised() {
    assert_eq!(parse_mode("-r"), Some(FileMode::ReadOnly));
    assert_eq!(parse_mode("-w"), Some(FileMode::WriteOnly));
    assert_eq!(parse_mode("-rw"), Some(FileMode::ReadWrite));
    assert_eq!(parse_mode("-wr"), Some(FileMode::ReadWrite));
    assert_eq!(parse_mode("r"), None);
    assert_eq!(parse_mode("-x"), None);
    assert_eq!(parse_mode(""), None);
    assert_eq!(parse_mode("-R"), None);
}
