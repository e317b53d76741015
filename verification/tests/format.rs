use kex::AddressFormatting;
use kex::AddressFormatter;
use kex::AddressStyle;
use kex::ByteFormatter;
use kex::ByteFormatting;
use kex::ByteStyle;
use kex::CharFormatter;
use kex::CharFormatting;
use kex::Group;
use kex::Groupping;
use kex::Separators;

fn run_case(fmt: &ByteFormatter, parts: Vec<Vec<u8>>, expected: &str) {
    let mut out: Vec<u8> = Vec::new();
    let mut num = 0usize;
    for part in parts.iter() {
        out.extend(fmt.format(&part, num));
        num += part.len();
    }

    out.extend(fmt.format_padding(num));

    let out = String::from_utf8(out).expect("Formatting error");

    assert_eq!(out, expected);
}

#[test]
fn byte_fmt_test_unordered() {
    let fmt = ByteFormatter::new(
        ByteStyle::Hex,
        Groupping::RepeatingGroup(Group::new(4, ""), 1),
        "",
        false,
        Separators::new("", " "),
    );
    run_case(&fmt, vec![vec![0xfeu8, 0xed, 0xfa], vec![0xce]], "feedface");

    let fmt = ByteFormatter::new(
        ByteStyle::Hex,
        Groupping::RepeatingGroup(Group::new(4, " "), 2),
        "",
        false,
        Separators::new("", " "),
    );
    run_case(
        &fmt,
        vec![vec![0xfeu8, 0xed, 0xfa], vec![0xce]],
        "feedface ........",
    );
    run_case(
        &fmt,
        vec![vec![0xfeu8], vec![0xed, 0xfa, 0xce]],
        "feedface ........",
    );
    run_case(
        &fmt,
        vec![vec![0xfeu8], vec![0xed], vec![0xfa, 0xce]],
        "feedface ........",
    );
    run_case(
        &fmt,
        vec![vec![0xfeu8, 0xed, 0xfa], vec![0xce, 0xca]],
        "feedface ca......",
    );
    run_case(
        &fmt,
        vec![vec![0xfeu8], vec![0xed, 0xfa, 0xce, 0xca]],
        "feedface ca......",
    );
}

#[test]
fn byte_fmt_test_little_endian() {
    let fmt = ByteFormatter::new(
        ByteStyle::Hex,
        Groupping::RepeatingGroup(Group::new(4, "-"), 4),
        "",
        true,
        Separators::new("", " "),
    );
    run_case(
        &fmt,
        vec![vec![
            0xfeu8, 0xed, 0xfa, 0xce, 0xfe, 0xed, 0xfa, 0xce, 0xfe, 0xed, 0xfa, 0xce, 0xfe, 0xed,
            0xfa, 0xce,
        ]],
        "cefaedfe-cefaedfe-cefaedfe-cefaedfe",
    );
    run_case(
        &fmt,
        vec![vec![0xfeu8, 0xed, 0xfa, 0xce, 0xfe, 0xed, 0xfa, 0xce]],
        "cefaedfe-cefaedfe-........-........",
    );
    run_case(
        &fmt,
        vec![vec![0xfeu8, 0xed, 0xfa, 0xce, 0xfe, 0xed, 0xfa, 0xce, 0xfe, 0xed]],
        "cefaedfe-cefaedfe-edfe....-........",
    );
}

#[test]
fn byte_test_little_endian() {
    // a group-sized portion arrives as one piece and is rendered reversed
    let fmt = ByteFormatter::new(
        ByteStyle::Hex,
        Groupping::RepeatingGroup(Group::new(4, " "), 2),
        "",
        true,
        Separators::new("", " "),
    );
    run_case(
        &fmt,
        vec![vec![0xdeu8, 0xad, 0xbe, 0xef], vec![0x01, 0x02, 0x03, 0x04]],
        "efbeadde 04030201",
    );
}

#[test]
fn byte_styles_render_single_bytes_exactly() {
    assert_eq!(ByteStyle::Hex.fmt_hex(0xa5), b"a5");
    assert_eq!(ByteStyle::Hex.fmt_hex(0x0f), b"0f");
    assert_eq!(ByteStyle::Bin.fmt_bin(0b1010_0101), b"10100101");
    assert_eq!(ByteStyle::Bin.fmt_bin(1), b"00000001");
    assert_eq!(ByteStyle::Dec.fmt_dec(7), b"  7");
    assert_eq!(ByteStyle::Dec.fmt_dec(42), b" 42");
    assert_eq!(ByteStyle::Dec.fmt_dec(255), b"255");
    assert_eq!(ByteStyle::Oct.fmt_oct(8), b"010");
    assert_eq!(ByteStyle::Oct.fmt_oct(255), b"377");
    assert_eq!(ByteStyle::Ascii.format_byte(b'x'), b"x");
    assert_eq!(ByteStyle::Ascii.format_byte(0x07), b".");
    assert_eq!(ByteStyle::Ascii.format_byte(0x80), b".");
    assert_eq!(ByteStyle::CaretAscii.format_byte(0x00), b"^@");
    assert_eq!(ByteStyle::CaretAscii.format_byte(0x01), b"^A");
    assert_eq!(ByteStyle::CaretAscii.format_byte(b'?'), b"^?");
    assert_eq!(ByteStyle::CaretAscii.format_byte(b'y'), b" y");
    assert_eq!(ByteStyle::CaretAscii.format_byte(0x90), b" .");
}

#[test]
fn address_styles_render_exactly() {
    assert_eq!(AddressStyle::Hex(8).format(0x21aa0), b"00021aa0");
    assert_eq!(AddressStyle::Hex(4).format(0x123456), b"123456");
    assert_eq!(AddressStyle::Dec(8).format(1234), b"    1234");
    assert_eq!(AddressStyle::Oct(8).format(0o7556577), b"07556577");
    assert_eq!(
        AddressStyle::Bin(16).format(0b0001001011010101),
        b"0001001011010101"
    );
    assert_eq!(AddressStyle::Hex(8).format(0), b"00000000");
    assert_eq!(AddressStyle::Dec(3).format(0), b"  0");
}

#[test]
fn address_formatter_uses_its_style() {
    let fmt = AddressFormatter::new(AddressStyle::Hex(4), Separators::new("", " "));
    assert_eq!(fmt.format(0xbeef), b"beef");
    let seps = fmt.separators();
    assert_eq!(seps.trailing, b"");
    assert_eq!(seps.leading, b" ");
}

#[test]
fn char_formatter_substitutes_unprintable_bytes() {
    let fmt = CharFormatter::new(".", Separators::new("|", "|"));
    assert_eq!(fmt.format(b"Simple printing"), b"Simple printing");
    assert_eq!(fmt.format(&[0x00u8, 0x1f, 0x20, 0x7e, 0x7f, 0xff]), b".. ~..".as_ref());
    assert_eq!(fmt.format_padding(4), b"    ");
}

#[test]
fn groupping_queries() {
    let gr = Groupping::RepeatingGroup(Group::new(4, " "), 4);
    assert_eq!(gr.bytes_per_row(), 16);
    assert_eq!(gr.max_group_size(), 4);
    assert_eq!(gr.number_of_groups(), 4);
    assert_eq!(gr.separator(), b" ");
    assert!(gr.is_aligned_at(0));
    assert!(gr.is_aligned_at(8));
    assert!(!gr.is_aligned_at(9));
    assert!(gr.is_aligned_with(4, 8));
    assert!(!gr.is_aligned_with(4, 7));
    assert_eq!(gr.group_of_byte(0), 0);
    assert_eq!(gr.group_of_byte(7), 1);
    assert_eq!(gr.bytes_left_in_group_after(5), 3);
    assert_eq!(gr.byte_number_in_group(7), 3);

    let wide = Groupping::RowWide(5);
    assert_eq!(wide.bytes_per_row(), 5);
    assert_eq!(wide.max_group_size(), 5);
    assert_eq!(wide.number_of_groups(), 1);
    assert_eq!(wide.separator(), b"");
}

#[test]
fn degenerate_groupping_falls_back_to_defaults() {
    // a zero-sized group falls back to the documented default size
    let gr = Groupping::RepeatingGroup(Group::new(0, " "), 2);
    assert_eq!(gr.max_group_size(), kex::DEFAULT_GROUP_SIZE);
    assert!(gr.is_wf());
    // a zero group count cannot be normalized by the group itself; the
    // byte formatter falls back to the default layout
    let fmt = ByteFormatter::new(
        ByteStyle::Hex,
        Groupping::RepeatingGroup(Group::new(4, " "), 0),
        "",
        false,
        Separators::new("", " "),
    );
    assert_eq!(fmt.groupping().bytes_per_row(), kex::DEFAULT_BYTES_PER_ROW);
    assert!(!Groupping::RowWide(0).is_wf());
}
