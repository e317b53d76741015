use kex::AddressFormatter;
use kex::ByteFormatter;
use kex::ByteFormatting;
use kex::ByteStyle;
use kex::CharFormatter;
use kex::Config;
use kex::Group;
use kex::Groupping;
use kex::Printer;
use kex::Separators;

fn plain_printer() -> Printer<AddressFormatter, ByteFormatter, CharFormatter> {
    let config = Config::new(
        Some(AddressFormatter::default()),
        ByteFormatter::default(),
        Some(CharFormatter::default()),
        false,
    );
    Printer::new(Vec::new(), 0, config)
}

#[test]
fn plain_mode_formats_groups_as_they_complete() {
    let mut printer = plain_printer();
    let bytes: Vec<u8> = (0u8..20).collect();
    // push in deliberately awkward chunks
    printer.push(&bytes[..3]);
    printer.push(&bytes[3..11]);
    printer.push(&bytes[11..]);
    let result = String::from_utf8(printer.finish()).unwrap();
    let expected = "00000000 00010203 04050607 08090a0b 0c0d0e0f |................|
00000010 10111213 ........ ........ ........ |....            |
00000014 \n";
    assert_eq!(result, expected);
}

#[test]
fn plain_mode_does_not_deduplicate() {
    let mut printer = plain_printer();
    for _ in 0..3 {
        printer.push(&[0xaau8; 16]);
    }
    let result = String::from_utf8(printer.finish()).unwrap();
    let expected = "00000000 aaaaaaaa aaaaaaaa aaaaaaaa aaaaaaaa |................|
00000010 aaaaaaaa aaaaaaaa aaaaaaaa aaaaaaaa |................|
00000020 aaaaaaaa aaaaaaaa aaaaaaaa aaaaaaaa |................|
\n";
    assert_eq!(result, expected);
}

#[test]
fn row_width_stays_constant_for_hex_rows() {
    // every emitted row renders the same number of byte-column characters,
    // real bytes and padding alike
    let fmt = ByteFormatter::new(
        ByteStyle::Hex,
        Groupping::RepeatingGroup(Group::new(4, " "), 4),
        "",
        false,
        Separators::new("", " "),
    );
    let full_row: Vec<u8> = (0u8..16).collect();
    let full_len = fmt.format(&full_row, 0).len() + fmt.format_padding(16).len();
    for k in 0..17usize {
        let mut col = fmt.format(&full_row[..k], 0);
        col.extend(fmt.format_padding(k));
        assert_eq!(col.len(), full_len);
    }
}

#[test]
fn group_boundaries_fall_on_multiples_of_group_size() {
    // the byte column of a full row splits at offsets 0, gs, 2*gs, ...:
    // rendering it group by group at those offsets reproduces the one-call
    // rendering exactly
    let fmt = ByteFormatter::new(
        ByteStyle::Hex,
        Groupping::RepeatingGroup(Group::new(4, "-"), 4),
        "",
        false,
        Separators::new("", " "),
    );
    let row: Vec<u8> = (0u8..16).collect();
    let whole = fmt.format(&row, 0);
    let mut pieces: Vec<u8> = Vec::new();
    let gs = fmt.groupping().max_group_size();
    let mut offset = 0usize;
    while offset < row.len() {
        assert_eq!(offset % gs, 0);
        pieces.extend(fmt.format(&row[offset..offset + gs], offset));
        offset += gs;
    }
    assert_eq!(pieces, whole);
}

#[test]
fn binary_and_decimal_styles_render_rows() {
    let fmt = ByteFormatter::new(
        ByteStyle::Bin,
        Groupping::RepeatingGroup(Group::new(2, " "), 2),
        " ",
        false,
        Separators::new("", " "),
    );
    assert_eq!(
        String::from_utf8(fmt.format(&[0x0f, 0xf0, 0x01, 0x80], 0)).unwrap(),
        "00001111 11110000 00000001 10000000"
    );

    let fmt = ByteFormatter::new(
        ByteStyle::Dec,
        Groupping::RepeatingGroup(Group::new(2, "|"), 2),
        ",",
        false,
        Separators::new("", " "),
    );
    assert_eq!(
        String::from_utf8(fmt.format(&[0, 7, 42, 255], 0)).unwrap(),
        "  0,  7| 42,255"
    );
}

#[test]
fn default_with_builds_a_default_printer() {
    let printer: Option<Printer<AddressFormatter, ByteFormatter, CharFormatter>> =
        Printer::default_with(Vec::new(), 0);
    let mut printer = printer.expect("the builtin defaults carry a usable layout");
    printer.push(&[0xdeu8, 0xad, 0xbe, 0xef]);
    let result = String::from_utf8(printer.finish()).unwrap();
    assert_eq!(
        result,
        "00000000 deadbeef ........ ........ ........ |....            |\n00000004 \n"
    );
}

#[test]
fn bytes_per_row_follows_the_groupping() {
    let fmt = ByteFormatter::new(
        ByteStyle::Hex,
        Groupping::RepeatingGroup(Group::new(8, "  "), 2),
        "",
        false,
        Separators::new("", " "),
    );
    assert_eq!(fmt.bytes_per_row(), 16);
}

#[test]
fn little_endian_printer_end_to_end() {
    let byte = ByteFormatter::new(
        ByteStyle::Hex,
        Groupping::RepeatingGroup(Group::new(4, " "), 2),
        "",
        true,
        Separators::new("", " "),
    );
    let config = Config::new(
        Some(AddressFormatter::default()),
        byte,
        None::<CharFormatter>,
        false,
    );
    let mut printer = Printer::new(Vec::new(), 0, config);
    // push unaligned chunks; groups must still come out whole and reversed
    printer.push(&[0xde, 0xad]);
    printer.push(&[0xbe, 0xef, 0x01, 0x02]);
    printer.push(&[0x03, 0x04]);
    let result = String::from_utf8(printer.finish()).unwrap();
    let expected = "00000000 efbeadde 04030201 \n\n";
    assert_eq!(result, expected);
}
