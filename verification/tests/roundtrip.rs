//! Round-trip tests: writing a value and reading it back yields an equal
//! value, and the read cursor lands exactly on the written bit length.

use demo_schema::cursor::{c_pos, c_stream_from_bytes, c_writer_new, c_written_len};
use demo_schema::datatable::{
    ClassId, DataTablePacket, ParseSendTable, SendTableName, ServerClass, ServerClassName,
};
use demo_schema::sendprop::{
    RawSendPropDefinition, SendPropFlag, SendPropFlags, SendPropIdentifier, SendPropType,
};
use demo_schema::state::ParserState;
use demo_schema::voice::{ParseSoundsMessage, VoiceInitMessage};
use demo_schema::bits::BitData;

fn float_prop(table: &str, name: &str) -> RawSendPropDefinition {
    RawSendPropDefinition {
        prop_type: SendPropType::Float,
        name: name.to_owned(),
        identifier: SendPropIdentifier::new(table, name),
        flags: SendPropFlags::default().with(SendPropFlag::ChangesOften),
        table_name: None,
        low_value: Some(0.0f32.to_bits()),
        high_value: Some(128.0f32.to_bits()),
        bit_count: Some(10),
        element_count: None,
        array_property: None,
        original_bit_count: Some(10),
    }
}

fn array_prop(table: &str) -> RawSendPropDefinition {
    RawSendPropDefinition {
        prop_type: SendPropType::Array,
        name: "prop2".to_owned(),
        identifier: SendPropIdentifier::new(table, "prop2"),
        flags: SendPropFlags::default(),
        table_name: None,
        low_value: None,
        high_value: None,
        bit_count: None,
        element_count: Some(10),
        array_property: Some(Box::new(RawSendPropDefinition {
            prop_type: SendPropType::Int,
            name: "prop3".to_owned(),
            identifier: SendPropIdentifier::new(table, "prop3"),
            flags: SendPropFlags::default()
                .with(SendPropFlag::InsideArray)
                .with(SendPropFlag::NoScale),
            table_name: None,
            low_value: Some((i32::MIN as f32).to_bits()),
            high_value: Some((i32::MAX as f32).to_bits()),
            bit_count: Some(32),
            element_count: None,
            array_property: None,
            original_bit_count: Some(32),
        })),
        original_bit_count: None,
    }
}

fn exclude_prop(table: &str, target: &str) -> RawSendPropDefinition {
    RawSendPropDefinition {
        prop_type: SendPropType::DataTable,
        name: "prop1".to_owned(),
        identifier: SendPropIdentifier::new(table, "prop1"),
        flags: SendPropFlags::default().with(SendPropFlag::Exclude),
        table_name: Some(SendTableName(target.to_owned())),
        low_value: None,
        high_value: None,
        bit_count: None,
        element_count: None,
        array_property: None,
        original_bit_count: None,
    }
}

pub fn table1() -> ParseSendTable {
    ParseSendTable {
        name: SendTableName("table1".to_owned()),
        props: vec![float_prop("table1", "prop1"), array_prop("table1"), exclude_prop(
            "table1", "table2",
        )],
        needs_decoder: true,
    }
}

pub fn table2() -> ParseSendTable {
    ParseSendTable {
        name: SendTableName("table2".to_owned()),
        props: vec![float_prop("table2", "prop1")],
        needs_decoder: true,
    }
}

fn write_table(table: &ParseSendTable) -> (Vec<u8>, usize) {
    let mut data: Vec<u8> = Vec::new();
    let bits;
    {
        let mut w = c_writer_new(&mut data);
        table.write(&mut w);
        bits = c_written_len(&w);
    }
    (data, bits)
}

fn assert_same_prop(a: &RawSendPropDefinition, b: &RawSendPropDefinition) {
    assert_eq!(a.prop_type, b.prop_type);
    assert_eq!(a.name, b.name);
    assert_eq!(a.identifier, b.identifier);
    assert_eq!(a.flags, b.flags);
    assert_eq!(a.low_value, b.low_value);
    assert_eq!(a.high_value, b.high_value);
    assert_eq!(a.bit_count, b.bit_count);
    assert_eq!(a.element_count, b.element_count);
    assert_eq!(a.original_bit_count, b.original_bit_count);
    match (&a.array_property, &b.array_property) {
        (Some(x), Some(y)) => assert_same_prop(x, y),
        (None, None) => {}
        _ => panic!("array element presence differs"),
    }
    match (&a.table_name, &b.table_name) {
        (Some(x), Some(y)) => assert!(*x == *y),
        (None, None) => {}
        _ => panic!("table reference presence differs"),
    }
}

fn assert_same_table(a: &ParseSendTable, b: &ParseSendTable) {
    assert!(a.name == b.name);
    assert_eq!(a.needs_decoder, b.needs_decoder);
    assert_eq!(a.props.len(), b.props.len());
    for (x, y) in a.props.iter().zip(b.props.iter()) {
        assert_same_prop(x, y);
    }
}

#[test]
fn test_voice_init_roundtrip() {
    for msg in [
        VoiceInitMessage { codec: "foo".to_owned(), quality: 0, sampling_rate: 0 },
        VoiceInitMessage { codec: "foo".to_owned(), quality: 255, sampling_rate: 12 },
    ] {
        let mut data: Vec<u8> = Vec::new();
        let bits;
        {
            let mut w = c_writer_new(&mut data);
            msg.write(&mut w);
            bits = c_written_len(&w);
        }
        let mut rd = c_stream_from_bytes(data);
        let back = VoiceInitMessage::parse(&mut rd).expect("decodes");
        assert_eq!(back, msg);
        assert_eq!(c_pos(&rd), bits);
    }
}

#[test]
fn test_parse_send_table_roundtrip() {
    let state = ParserState::new(Vec::new());
    let empty = ParseSendTable {
        name: SendTableName("foo".to_owned()),
        props: vec![],
        needs_decoder: true,
    };
    for table in [empty, table1()] {
        let (data, bits) = write_table(&table);
        let mut rd = c_stream_from_bytes(data);
        let back = ParseSendTable::parse(&mut rd, &state).expect("decodes");
        assert_same_table(&back, &table);
        assert_eq!(c_pos(&rd), bits);
        // re-encoding the decoded value reproduces the exact wire image
        let (data1, bits1) = write_table(&table);
        let (data2, bits2) = write_table(&back);
        assert_eq!(data1, data2);
        assert_eq!(bits1, bits2);
    }
}

#[test]
fn test_data_table_packet_roundtrip() {
    let state = ParserState::new(Vec::new());
    let empty = DataTablePacket { tick: 123, tables: vec![], server_classes: vec![] };
    let full = DataTablePacket {
        tick: 1,
        tables: vec![table1(), table2()],
        server_classes: vec![
            ServerClass {
                id: ClassId(0),
                name: ServerClassName("class1".to_owned()),
                data_table: SendTableName("table1".to_owned()),
            },
            ServerClass {
                id: ClassId(1),
                name: ServerClassName("class2".to_owned()),
                data_table: SendTableName("table2".to_owned()),
            },
        ],
    };
    for packet in [empty, full] {
        let mut data: Vec<u8> = Vec::new();
        let bits;
        {
            let mut w = c_writer_new(&mut data);
            packet.write(&mut w);
            bits = c_written_len(&w);
        }
        let mut rd = c_stream_from_bytes(data.clone());
        let back = DataTablePacket::parse(&mut rd, &state).expect("decodes");
        assert_eq!(c_pos(&rd), bits);
        assert_eq!(back.tick, packet.tick);
        assert_eq!(back.tables.len(), packet.tables.len());
        for (x, y) in back.tables.iter().zip(packet.tables.iter()) {
            assert_same_table(x, y);
        }
        assert_eq!(back.server_classes.len(), packet.server_classes.len());
        for (x, y) in back.server_classes.iter().zip(packet.server_classes.iter()) {
            assert_eq!(x.id, y.id);
            assert!(x.name == y.name);
            assert!(x.data_table == y.data_table);
        }
        // bit-exact: re-encoding the decoded packet reproduces the image
        let mut data2: Vec<u8> = Vec::new();
        {
            let mut w = c_writer_new(&mut data2);
            back.write(&mut w);
        }
        assert_eq!(data, data2);
    }
}

#[test]
fn test_parse_sounds_roundtrip() {
    let payload: Vec<bool> = (0..48).map(|i| [1u8, 2, 3, 4, 5, 6][i / 8] >> (i % 8) & 1 == 1)
        .collect();
    for msg in [
        ParseSoundsMessage {
            reliable: false,
            num: 0,
            length: payload.len() as u16,
            data: BitData(payload.clone()),
        },
        ParseSoundsMessage {
            reliable: true,
            num: 1,
            length: payload.len() as u16,
            data: BitData(payload.clone()),
        },
    ] {
        let mut data: Vec<u8> = Vec::new();
        let bits;
        {
            let mut w = c_writer_new(&mut data);
            msg.write(&mut w);
            bits = c_written_len(&w);
        }
        let mut rd = c_stream_from_bytes(data);
        let back = ParseSoundsMessage::parse(&mut rd).expect("decodes");
        assert_eq!(back, msg);
        assert_eq!(c_pos(&rd), bits);
    }
}
