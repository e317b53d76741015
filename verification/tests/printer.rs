use std::cmp::min;

use kex::ByteFormatter;
use kex::CharFormatter;
use kex::Config;
use kex::Printer;

#[test]
fn simple() {
    let result = vec![];
    let mut printer = Printer::default_fmt_with(result, 0);

    let bytes1 = &[222u8, 173, 190, 239];
    let bytes2 = &[0xfeu8, 0xed, 0xfa];
    let title = b"Simple printing";

    for _ in 0..10 {
        let _ = printer.push(bytes1);
    }

    let _ = printer.push(title);

    for _ in 0..11 {
        let _ = printer.push(bytes2);
    }

    let result = printer.finish();
    let result_str = String::from_utf8(result).expect("Invalid characters in result");

    let expected = "00000000 deadbeef deadbeef deadbeef deadbeef |................|
*
00000020 deadbeef deadbeef 53696d70 6c652070 |........Simple p|
00000030 72696e74 696e67fe edfafeed fafeedfa |rinting.........|
00000040 feedfafe edfafeed fafeedfa feedfafe |................|
00000050 edfafeed fafeedfa ........ ........ |........        |
00000058 \n";

    assert_eq!(result_str, expected);
}

fn duplications_data() -> Vec<u8> {
    let rows: [&[u8; 16]; 7] = [
        b"abcdefghijklmnop",
        b"abcdefghi1klmnop",
        b"abcdefghijklmnop",
        b"abcdefghijklmnop",
        b"abcdefghijklmnog",
        b"abcdefghi56lmnop",
        b"abcdefghijklmnop",
    ];
    let mut data = Vec::new();
    for row in rows.iter() {
        data.extend_from_slice(&row[..]);
    }
    // seven more rows identical to the last one
    for _ in 0..7 {
        data.extend_from_slice(&rows[6][..]);
    }
    assert_eq!(data.len(), 0xe0);
    data
}

fn string_with(bytes: &[u8], read_len_pattern: Vec<usize>) -> String {
    let result = vec![];
    let mut printer = Printer::default_fmt_with(result, 0);

    let mut tmp = bytes;

    let mut pat_idx = 0;
    while tmp.len() != 0 {
        let to_read = min(read_len_pattern[pat_idx], tmp.len());

        printer.push(&tmp[..to_read]);

        tmp = &tmp[to_read..];

        pat_idx += 1;
        pat_idx %= read_len_pattern.len();
    }

    let result = printer.finish();
    String::from_utf8(result).expect("Invalid characters in result")
}

#[test]
fn duplications() {
    let data = duplications_data();
    let result = string_with(&data, vec![100]);
    let expected = "00000000 61626364 65666768 696a6b6c 6d6e6f70 |abcdefghijklmnop|
00000010 61626364 65666768 69316b6c 6d6e6f70 |abcdefghi1klmnop|
00000020 61626364 65666768 696a6b6c 6d6e6f70 |abcdefghijklmnop|
*
00000040 61626364 65666768 696a6b6c 6d6e6f67 |abcdefghijklmnog|
00000050 61626364 65666768 6935366c 6d6e6f70 |abcdefghi56lmnop|
00000060 61626364 65666768 696a6b6c 6d6e6f70 |abcdefghijklmnop|
*
000000e0 \n";

    assert_eq!(result, expected);
}

fn lorem_like_data() -> Vec<u8> {
    let mut data = Vec::new();
    let text = b"Lorem ipsum dolor sit amet, consectetur adipiscing elit, sed do \
eiusmod tempor incididunt ut labore et dolore magna aliqua. ";
    for _ in 0..9 {
        data.extend_from_slice(&text[..]);
    }
    for i in 0..157usize {
        data.push((i * 7 + 3) as u8);
    }
    data
}

fn stable_reading_with(test_data: &[u8]) {
    let patterns = vec![
        vec![1],
        vec![1, 2, 1],
        vec![5],
        vec![4],
        vec![4, 7],
        vec![4, 1],
        vec![18, 1, 16, 7, 4, 5, 3],
        vec![2000],
        vec![444],
    ];

    let mut last_result: Option<String> = None;

    for pat in patterns {
        let result = string_with(test_data, pat);
        if let Some(last_result) = last_result {
            assert_eq!(result, last_result);
        }

        last_result = Some(result);
    }
}

#[test]
fn stable_reading() {
    stable_reading_with(&lorem_like_data());
    stable_reading_with(&duplications_data());
}

#[test]
fn finish_after_explicit_tail_flush() {
    let mut printer = Printer::default_fmt_with(vec![], 0);
    let _ = printer.push(&[1u8, 2, 3]);
    printer.print_last_line();
    let first = {
        let mut p2 = Printer::default_fmt_with(vec![], 0);
        let _ = p2.push(&[1u8, 2, 3]);
        p2.finish()
    };
    // a second flush must not duplicate or corrupt the trailing output
    printer.print_last_line();
    printer.print_last_line();
    let result = printer.finish();
    assert_eq!(result, first);
}

#[test]
fn partial_duplicate_tail_keeps_wildcard() {
    // a pending partial row that so far duplicates the previous row is
    // flushed at its offset and still closed as a suppressed duplicate
    let mut printer = Printer::default_fmt_with(vec![], 0);
    let row = b"abcdefghijklmnop";
    printer.push(row);
    printer.push(&row[..8]);
    let result = String::from_utf8(printer.finish()).unwrap();
    let expected = "00000000 61626364 65666768 696a6b6c 6d6e6f70 |abcdefghijklmnop|
00000010 61626364 65666768*
00000018 \n";
    assert_eq!(result, expected);
}

#[test]
fn optional_columns_can_be_omitted() {
    let config: Config<kex::AddressFormatter, ByteFormatter, CharFormatter> =
        Config::new(None, ByteFormatter::default(), None, true);
    let mut printer = Printer::new(Vec::new(), 0, config);
    printer.push(&[0xde, 0xad, 0xbe, 0xef]);
    let result = String::from_utf8(printer.finish()).unwrap();
    assert_eq!(result, "deadbeef ........ ........ ........ \n\n");
}

#[test]
fn empty_stream_dedup_writes_closing_address_line() {
    let printer = Printer::default_fmt_with(vec![], 0);
    let result = printer.finish();
    assert_eq!(String::from_utf8(result).unwrap(), "00000000 \n");
}

#[test]
fn start_address_offsets_every_address() {
    let mut printer = Printer::default_fmt_with(vec![], 0x100);
    let _ = printer.push(&[0u8; 16]);
    let result = String::from_utf8(printer.finish()).unwrap();
    assert_eq!(
        result,
        "00000100 00000000 00000000 00000000 00000000 |................|\n00000110 \n"
    );
}
