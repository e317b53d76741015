use kex::writers::Callbacks;
use kex::writers::GrouppedWriter;
use kex::writers::TextWriter;
use kex::writers::WriteResult;
use kex::writers::WriterEvent;
use kex::AddressStyle;
use kex::ByteOrder;
use kex::ByteStyle;
use kex::CharFormatter;
use kex::CharFormatting;
use kex::Group;
use kex::Groupping;
use kex::Separators;

#[test]
fn from_arg_str_address_styles() {
    assert!(matches!(
        AddressStyle::from_arg_str("h8".to_string()),
        Ok(AddressStyle::Hex(8))
    ));
    assert!(matches!(
        AddressStyle::from_arg_str("b16".to_string()),
        Ok(AddressStyle::Bin(16))
    ));
    assert!(matches!(
        AddressStyle::from_arg_str("d".to_string()),
        Ok(AddressStyle::Dec(8))
    ));
    assert!(matches!(
        AddressStyle::from_arg_str("o12".to_string()),
        Ok(AddressStyle::Oct(12))
    ));
    assert!(AddressStyle::from_arg_str("x8".to_string()).is_err());
    assert!(AddressStyle::from_arg_str("h8x".to_string()).is_err());
    assert!(
        AddressStyle::from_arg_str("h99999999999999999999999999999999".to_string()).is_err()
    );
}

#[test]
fn from_arg_str_byte_styles() {
    assert!(matches!(ByteStyle::from_arg_str("h".to_string()), Ok(ByteStyle::Hex)));
    assert!(matches!(ByteStyle::from_arg_str("b".to_string()), Ok(ByteStyle::Bin)));
    assert!(matches!(ByteStyle::from_arg_str("d".to_string()), Ok(ByteStyle::Dec)));
    assert!(matches!(ByteStyle::from_arg_str("o".to_string()), Ok(ByteStyle::Oct)));
    assert!(matches!(ByteStyle::from_arg_str("c".to_string()), Ok(ByteStyle::Ascii)));
    assert!(matches!(
        ByteStyle::from_arg_str("C".to_string()),
        Ok(ByteStyle::CaretAscii)
    ));
    // characters after the first are ignored
    assert!(matches!(
        ByteStyle::from_arg_str("hex".to_string()),
        Ok(ByteStyle::Hex)
    ));
    assert!(ByteStyle::from_arg_str("z".to_string()).is_err());
}

#[test]
fn from_arg_str_groupping() {
    let g = Groupping::from_arg_str("2/4".to_string()).unwrap();
    assert_eq!(g.max_group_size(), 2);
    assert_eq!(g.number_of_groups(), 4);
    assert_eq!(g.separator(), b"  ");

    let g = Groupping::from_arg_str("8".to_string()).unwrap();
    assert!(matches!(g, Groupping::RowWide(8)));

    // empty segments fall back to the documented defaults
    let g = Groupping::from_arg_str("/".to_string()).unwrap();
    assert_eq!(g.max_group_size(), 8);
    assert_eq!(g.number_of_groups(), 2);

    let g = Groupping::from_arg_str("4/".to_string()).unwrap();
    assert_eq!(g.max_group_size(), 4);
    assert_eq!(g.number_of_groups(), 2);

    // anything after a second delimiter is ignored
    let g = Groupping::from_arg_str("4/2/9".to_string()).unwrap();
    assert_eq!(g.max_group_size(), 4);
    assert_eq!(g.number_of_groups(), 2);

    assert!(Groupping::from_arg_str("".to_string()).is_err());
    assert!(Groupping::from_arg_str("x/2".to_string()).is_err());
    assert!(Groupping::from_arg_str("4/x".to_string()).is_err());
}

#[test]
fn groupped_writer_relaxed_passes_bytes_through() {
    let gr = Groupping::RepeatingGroup(Group::new(4, " "), 2);
    let mut writer = GrouppedWriter::new(gr, ByteOrder::Relaxed);
    let mut callbacks = Callbacks::new();

    let consumed = writer.write(&[1, 2, 3], &mut callbacks);
    assert_eq!(consumed, 3);
    let events = callbacks.events();
    assert_eq!(events.len(), 2);
    assert!(matches!(events[0], WriterEvent::StartRow));
    match &events[1] {
        WriterEvent::Data(WriteResult::ReadyAt(bytes, pos)) => {
            assert_eq!(bytes, &vec![1, 2, 3]);
            assert_eq!(*pos, 0);
        }
        _ => panic!("expected an immediate portion"),
    }

    // the rest of the row arrives in one push and closes the row
    let consumed = writer.write(&[4, 5, 6, 7, 8, 9], &mut callbacks);
    assert_eq!(consumed, 5);
    let events = callbacks.events();
    assert_eq!(events.len(), 4);
    match &events[2] {
        WriterEvent::Data(WriteResult::ReadyAt(bytes, pos)) => {
            assert_eq!(bytes, &vec![4, 5, 6, 7, 8]);
            assert_eq!(*pos, 3);
        }
        _ => panic!("expected an immediate portion"),
    }
    assert!(matches!(events[3], WriterEvent::FinishRow));
}

#[test]
fn groupped_writer_strict_buffers_groups() {
    let gr = Groupping::RepeatingGroup(Group::new(4, " "), 2);
    let mut writer = GrouppedWriter::new(gr, ByteOrder::Strict);
    let mut callbacks = Callbacks::new();

    // two bytes only get staged
    let consumed = writer.write(&[0xde, 0xad], &mut callbacks);
    assert_eq!(consumed, 2);
    {
        let events = callbacks.events();
        assert_eq!(events.len(), 2);
        assert!(matches!(events[0], WriterEvent::StartRow));
        assert!(matches!(events[1], WriterEvent::Data(WriteResult::Stored(2))));
    }

    // the next two complete the group: the whole accumulated group flushes
    let consumed = writer.write(&[0xbe, 0xef, 0x01], &mut callbacks);
    assert_eq!(consumed, 2);
    {
        let events = callbacks.events();
        assert_eq!(events.len(), 3);
        match &events[2] {
            WriterEvent::Data(WriteResult::ReadyAt(bytes, pos)) => {
                assert_eq!(bytes, &vec![0xde, 0xad, 0xbe, 0xef]);
                assert_eq!(*pos, 0);
            }
            _ => panic!("expected a flushed group"),
        }
    }

    // the rest of the row in one push: a full group flush, then the row end
    let consumed = writer.write(&[1, 2, 3, 4], &mut callbacks);
    assert_eq!(consumed, 4);
    let events = callbacks.events();
    match &events[events.len() - 2] {
        WriterEvent::Data(WriteResult::ReadyAt(bytes, pos)) => {
            assert_eq!(bytes, &vec![1, 2, 3, 4]);
            assert_eq!(*pos, 4);
        }
        _ => panic!("expected a flushed group"),
    }
    match &events[events.len() - 1] {
        WriterEvent::FinishRow => {}
        _ => panic!("expected the row to close"),
    }
}

#[test]
fn text_writer_buffers_one_row() {
    let fmt = CharFormatter::new(".", Separators::new("|", "|"));
    let mut writer = TextWriter::new(fmt, 8);
    assert!(!writer.has_data());
    assert_eq!(writer.write(b"Hi"), 2);
    assert_eq!(writer.write(&[0x00u8]), 1);
    assert!(writer.has_data());
    let row = writer.take_result();
    assert_eq!(row, b"Hi.     ");
    assert!(!writer.has_data());
    let row = writer.take_result();
    assert_eq!(row, b"        ");
}
