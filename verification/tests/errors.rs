//! Error-path and boundary tests: malformed array pairing, unknown type
//! tags and discriminants, and the data-remaining guard of the
//! length-delimited packet body.

use demo_schema::cursor::c_stream_from_bytes;
use demo_schema::datatable::DataTablePacket;
use demo_schema::error::{MalformedSendPropDefinitionError, ParseError};
use demo_schema::packet::Packet;
use demo_schema::state::ParserState;
use bitbuffer::{BitWriteStream, LittleEndian};

fn write_entry_header(w: &mut BitWriteStream<LittleEndian>, code: u8, name: &str, flags: u16) {
    w.write_int(code, 5).unwrap();
    w.write_string(name, None).unwrap();
    w.write_int(flags, 16).unwrap();
}

fn scalar_tail(w: &mut BitWriteStream<LittleEndian>) {
    w.write_int(0u32, 32).unwrap();
    w.write_int(0u32, 32).unwrap();
    w.write_int(8u8, 7).unwrap();
}

#[test]
fn unclaimed_array_element_is_rejected() {
    // needs-decoder, name, two entries: an inside-array element, then an
    // entry that is not array-typed.
    let mut data: Vec<u8> = Vec::new();
    {
        let mut w = BitWriteStream::new(&mut data, LittleEndian);
        w.write_bool(true).unwrap();
        w.write_string("t", None).unwrap();
        w.write_int(2u16, 10).unwrap();
        write_entry_header(&mut w, 0, "elem", 0x100);
        scalar_tail(&mut w);
        write_entry_header(&mut w, 0, "not_array", 0);
        scalar_tail(&mut w);
    }
    let state = ParserState::new(Vec::new());
    let mut rd = c_stream_from_bytes(data);
    let err = demo_schema::datatable::ParseSendTable::parse(&mut rd, &state).unwrap_err();
    assert_eq!(
        err,
        ParseError::Malformed(MalformedSendPropDefinitionError::UntypedArray)
    );
}

#[test]
fn changes_often_array_element_is_rejected() {
    let mut data: Vec<u8> = Vec::new();
    {
        let mut w = BitWriteStream::new(&mut data, LittleEndian);
        w.write_bool(true).unwrap();
        w.write_string("t", None).unwrap();
        w.write_int(1u16, 10).unwrap();
        // inside-array and changes-often at once
        write_entry_header(&mut w, 0, "elem", 0x100 | 0x400);
        scalar_tail(&mut w);
    }
    let state = ParserState::new(Vec::new());
    let mut rd = c_stream_from_bytes(data);
    let err = demo_schema::datatable::ParseSendTable::parse(&mut rd, &state).unwrap_err();
    assert_eq!(
        err,
        ParseError::Malformed(MalformedSendPropDefinitionError::ArrayChangesOften)
    );
}

#[test]
fn dangling_array_element_is_rejected() {
    let mut data: Vec<u8> = Vec::new();
    {
        let mut w = BitWriteStream::new(&mut data, LittleEndian);
        w.write_bool(true).unwrap();
        w.write_string("t", None).unwrap();
        w.write_int(1u16, 10).unwrap();
        write_entry_header(&mut w, 0, "elem", 0x100);
        scalar_tail(&mut w);
    }
    let state = ParserState::new(Vec::new());
    let mut rd = c_stream_from_bytes(data);
    let err = demo_schema::datatable::ParseSendTable::parse(&mut rd, &state).unwrap_err();
    assert_eq!(
        err,
        ParseError::Malformed(MalformedSendPropDefinitionError::UnpairedArrayElement)
    );
}

#[test]
fn unknown_type_tag_is_rejected() {
    let mut data: Vec<u8> = Vec::new();
    {
        let mut w = BitWriteStream::new(&mut data, LittleEndian);
        w.write_bool(true).unwrap();
        w.write_string("t", None).unwrap();
        w.write_int(1u16, 10).unwrap();
        w.write_int(9u8, 5).unwrap();
    }
    let state = ParserState::new(Vec::new());
    let mut rd = c_stream_from_bytes(data);
    let err = demo_schema::datatable::ParseSendTable::parse(&mut rd, &state).unwrap_err();
    assert_eq!(
        err,
        ParseError::Malformed(MalformedSendPropDefinitionError::InvalidPropType(9))
    );
}

#[test]
fn oversized_declared_length_reports_remaining_bits() {
    // tick, a declared length of four bytes, but a body of only 17 bits
    // (clear continuation flag, zero classes): 15 unread bits remain.
    let mut data: Vec<u8> = Vec::new();
    {
        let mut w = BitWriteStream::new(&mut data, LittleEndian);
        w.write_int(7u32, 32).unwrap();
        w.write_int(4u32, 32).unwrap();
        w.write_bool(false).unwrap();
        w.write_int(0u16, 16).unwrap();
        w.write_int(0u16, 15).unwrap();
    }
    let state = ParserState::new(Vec::new());
    let mut rd = c_stream_from_bytes(data);
    let err = DataTablePacket::parse(&mut rd, &state).unwrap_err();
    assert_eq!(err, ParseError::DataRemaining(15));
}

#[test]
fn seven_padding_bits_are_tolerated() {
    // the same body under a declared length of three bytes: 7 bits of slack.
    let mut data: Vec<u8> = Vec::new();
    {
        let mut w = BitWriteStream::new(&mut data, LittleEndian);
        w.write_int(7u32, 32).unwrap();
        w.write_int(3u32, 32).unwrap();
        w.write_bool(false).unwrap();
        w.write_int(0u16, 16).unwrap();
        w.write_int(0u8, 7).unwrap();
    }
    let state = ParserState::new(Vec::new());
    let mut rd = c_stream_from_bytes(data);
    let packet = DataTablePacket::parse(&mut rd, &state).expect("tolerated");
    assert_eq!(packet.tick, 7);
    assert!(packet.tables.is_empty());
    assert!(packet.server_classes.is_empty());
}

#[test]
fn unsupported_packet_discriminant_is_rejected() {
    let state = ParserState::new(Vec::new());
    let mut rd = c_stream_from_bytes(vec![9u8]);
    let err = Packet::parse(&mut rd, &state).unwrap_err();
    assert_eq!(err, ParseError::UnsupportedPacketType(9));
}

#[test]
fn sync_tick_packet_dispatches() {
    let mut data: Vec<u8> = Vec::new();
    {
        let mut w = BitWriteStream::new(&mut data, LittleEndian);
        w.write_int(3u8, 8).unwrap();
        w.write_int(99u32, 32).unwrap();
    }
    let state = ParserState::new(Vec::new());
    let mut rd = c_stream_from_bytes(data);
    match Packet::parse(&mut rd, &state).expect("decodes") {
        Packet::SyncTick(p) => assert_eq!(p.tick, 99),
        _ => panic!("wrong packet kind"),
    }
}

#[test]
fn data_tables_packet_dispatches() {
    let mut data: Vec<u8> = Vec::new();
    {
        let mut w = BitWriteStream::new(&mut data, LittleEndian);
        w.write_int(6u8, 8).unwrap();
        w.write_int(11u32, 32).unwrap();
        w.write_int(3u32, 32).unwrap();
        w.write_bool(false).unwrap();
        w.write_int(0u16, 16).unwrap();
        w.write_int(0u8, 7).unwrap();
    }
    let state = ParserState::new(Vec::new());
    let mut rd = c_stream_from_bytes(data);
    match Packet::parse(&mut rd, &state).expect("decodes") {
        Packet::DataTables(p) => assert_eq!(p.tick, 11),
        _ => panic!("wrong packet kind"),
    }
}

#[test]
fn message_packet_dispatches_with_payload() {
    let mut data: Vec<u8> = Vec::new();
    {
        let mut w = BitWriteStream::new(&mut data, LittleEndian);
        w.write_int(2u8, 8).unwrap();
        w.write_int(77u32, 32).unwrap();
        w.write_int(5u32, 32).unwrap();
        w.write_int(0b10110u8, 5).unwrap();
    }
    let state = ParserState::new(Vec::new());
    let mut rd = c_stream_from_bytes(data);
    match Packet::parse(&mut rd, &state).expect("decodes") {
        Packet::Message(m) => {
            assert_eq!(m.tick, 77);
            assert_eq!(m.data.0, vec![false, true, true, false, true]);
        }
        _ => panic!("wrong packet kind"),
    }
}
