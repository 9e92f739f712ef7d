//! The packet dispatcher: an eight-bit discriminant routes to the matching
//! packet codec, sharing one cursor and one parser state.
//!
//! Only the data-table packet's payload belongs to this library's core; the
//! other packet kinds carry their tick and, where the format delimits one, a
//! counted opaque payload, so that the dispatcher can route and reproduce
//! every packet kind bit-exactly.

use vstd::prelude::*;

verus! {

use vstd::arithmetic::power2::pow2;
use crate::bits::le_bits;
use crate::bits::str_bits;
use crate::bits::str_ok;
use crate::bits::bits_at;
use crate::bits::BitData;
use crate::bits::lemma_le_bits_len;
use crate::bits::lemma_le_bits_inj;
use crate::bits::lemma_bits_at_split;
use crate::cursor::Reader;
use crate::cursor::Writer;
use crate::cursor::rbits;
use crate::cursor::rpos;
use crate::cursor::wbits;
use crate::cursor::c_read_int;
use crate::cursor::read_bit_vec;
use crate::cursor::flush_bits;
use crate::datatable::DataTablePacket;
use crate::error::ParseError;
use crate::state::ParserState;

/// The eight-bit packet discriminant; valid values one through eight map
/// one-to-one to packet kinds.
#[derive(Debug, Clone, Copy, PartialEq, Eq, Hash, Structural)]
pub enum PacketType {
    Sigon,
    Message,
    SyncTick,
    ConsoleCmd,
    UserCmd,
    DataTables,
    Stop,
    StringTables,
}

/// The wire value of a packet kind.
pub open spec fn packet_code(t: PacketType) -> nat {
    match t {
        PacketType::Sigon => 1,
        PacketType::Message => 2,
        PacketType::SyncTick => 3,
        PacketType::ConsoleCmd => 4,
        PacketType::UserCmd => 5,
        PacketType::DataTables => 6,
        PacketType::Stop => 7,
        PacketType::StringTables => 8,
    }
}

/// The packet kind a wire value names, if any.
pub open spec fn packet_of_code(c: nat) -> Option<PacketType> {
    if c == 1 {
        Some(PacketType::Sigon)
    } else if c == 2 {
        Some(PacketType::Message)
    } else if c == 3 {
        Some(PacketType::SyncTick)
    } else if c == 4 {
        Some(PacketType::ConsoleCmd)
    } else if c == 5 {
        Some(PacketType::UserCmd)
    } else if c == 6 {
        Some(PacketType::DataTables)
    } else if c == 7 {
        Some(PacketType::Stop)
    } else if c == 8 {
        Some(PacketType::StringTables)
    } else {
        None
    }
}

impl PacketType {
    /// The kind a wire value names, or the unsupported-packet-type error.
    pub fn from_code(c: u8) -> (r: Result<PacketType, ParseError>)
        ensures
            match packet_of_code(c as nat) {
                Some(t) => r == Ok::<PacketType, ParseError>(t),
                None => r == Err::<PacketType, ParseError>(ParseError::UnsupportedPacketType(c)),
            },
    {
        match c {
            1 => Ok(PacketType::Sigon),
            2 => Ok(PacketType::Message),
            3 => Ok(PacketType::SyncTick),
            4 => Ok(PacketType::ConsoleCmd),
            5 => Ok(PacketType::UserCmd),
            6 => Ok(PacketType::DataTables),
            7 => Ok(PacketType::Stop),
            8 => Ok(PacketType::StringTables),
            _ => Err(ParseError::UnsupportedPacketType(c)),
        }
    }

    /// The wire value of this kind.
    pub fn code(self) -> (r: u8)
        ensures
            r == packet_code(self),
    {
        match self {
            PacketType::Sigon => 1,
            PacketType::Message => 2,
            PacketType::SyncTick => 3,
            PacketType::ConsoleCmd => 4,
            PacketType::UserCmd => 5,
            PacketType::DataTables => 6,
            PacketType::Stop => 7,
            PacketType::StringTables => 8,
        }
    }
}

/// The wire form of a counted opaque payload: a 32-bit bit count, then that
/// many bits.
pub open spec fn enc_blob(d: Seq<bool>) -> Seq<bool> {
    le_bits(d.len(), 32) + d
}

/// A placed tick-and-payload packet body: the premise under which such a
/// packet decodes to exactly the placed values.
pub open spec fn tick_blob_at(b: Seq<bool>, pos: int, tick: u32, payload: Seq<bool>) -> bool {
    &&& payload.len() < pow2(32)
    &&& b.len() <= usize::MAX
    &&& bits_at(b, pos, le_bits(tick as nat, 32) + enc_blob(payload))
}

/// A placed tick, sequence-number and payload body.
pub open spec fn tick_seq_blob_at(
    b: Seq<bool>,
    pos: int,
    tick: u32,
    sequence: u32,
    payload: Seq<bool>,
) -> bool {
    &&& payload.len() < pow2(32)
    &&& b.len() <= usize::MAX
    &&& bits_at(
        b,
        pos,
        le_bits(tick as nat, 32) + le_bits(sequence as nat, 32) + enc_blob(payload),
    )
}

/// Decomposes a placed tick-and-payload body.
proof fn lemma_tick_blob_positions(b: Seq<bool>, pos: int, tick: u32, payload: Seq<bool>)
    requires
        tick_blob_at(b, pos, tick, payload),
    ensures
        le_bits(tick as nat, 32) == b.subrange(pos, pos + 32),
        bits_at(b, pos + 32, enc_blob(payload)),
        (tick as nat) < pow2(32),
{
    lemma_le_bits_len(tick as nat, 32);
    lemma_bits_at_split(b, pos, le_bits(tick as nat, 32), enc_blob(payload));
    assert(le_bits(tick as nat, 32) =~= b.subrange(pos, pos + 32));
    assert(pow2(32) == 0x100000000) by {
        vstd::arithmetic::power2::lemma2_to64();
    }
}

/// Decomposes a placed tick, sequence-number and payload body.
proof fn lemma_tick_seq_blob_positions(
    b: Seq<bool>,
    pos: int,
    tick: u32,
    sequence: u32,
    payload: Seq<bool>,
)
    requires
        tick_seq_blob_at(b, pos, tick, sequence, payload),
    ensures
        le_bits(tick as nat, 32) == b.subrange(pos, pos + 32),
        le_bits(sequence as nat, 32) == b.subrange(pos + 32, pos + 64),
        bits_at(b, pos + 64, enc_blob(payload)),
        (tick as nat) < pow2(32),
        (sequence as nat) < pow2(32),
{
    lemma_le_bits_len(tick as nat, 32);
    lemma_le_bits_len(sequence as nat, 32);
    assert(le_bits(tick as nat, 32) + le_bits(sequence as nat, 32) + enc_blob(payload) =~= le_bits(
        tick as nat,
        32,
    ) + (le_bits(sequence as nat, 32) + enc_blob(payload)));
    lemma_bits_at_split(b, pos, le_bits(tick as nat, 32), le_bits(sequence as nat, 32) + enc_blob(
        payload,
    ));
    lemma_bits_at_split(b, pos + 32, le_bits(sequence as nat, 32), enc_blob(payload));
    assert(le_bits(tick as nat, 32) =~= b.subrange(pos, pos + 32));
    assert(le_bits(sequence as nat, 32) =~= b.subrange(pos + 32, pos + 64));
    assert(pow2(32) == 0x100000000) by {
        vstd::arithmetic::power2::lemma2_to64();
    }
}

/// Read a counted opaque payload.
pub fn read_blob(s: &mut Reader<'_>) -> (r: Result<BitData, ParseError>)
    ensures
        rbits(*final(s)) == rbits(*old(s)),
        rpos(*old(s)) <= rpos(*final(s)),
        rpos(*old(s)) <= rbits(*old(s)).len() ==> rpos(*final(s)) <= rbits(*final(s)).len(),
        forall|d: Seq<bool>|
            d.len() < pow2(32) && rbits(*old(s)).len() <= usize::MAX && bits_at(
                rbits(*old(s)),
                rpos(*old(s)) as int,
                #[trigger] enc_blob(d),
            ) ==> {
                &&& r is Ok
                &&& r->Ok_0@ == d
                &&& rpos(*final(s)) == rpos(*old(s)) + 32 + d.len()
            },
{
    let ghost b = rbits(*old(s));
    let ghost p0 = rpos(*old(s)) as int;
    let count = match c_read_int(s, 32) {
        Ok(v) => v,
        Err(e) => {
            proof {
                assert forall|d: Seq<bool>|
                    d.len() < pow2(32) && b.len() <= usize::MAX && bits_at(
                        b,
                        p0,
                        #[trigger] enc_blob(d),
                    ) implies false by {
                    lemma_le_bits_len(d.len(), 32);
                    lemma_bits_at_split(b, p0, le_bits(d.len(), 32), d);
                }
            }
            return Err(ParseError::Codec(e));
        },
    };
    if (count as u64) > (usize::MAX as u64) {
        proof {
            assert forall|d: Seq<bool>|
                d.len() < pow2(32) && b.len() <= usize::MAX && bits_at(
                    b,
                    p0,
                    #[trigger] enc_blob(d),
                ) implies false by {
                lemma_le_bits_len(d.len(), 32);
                lemma_bits_at_split(b, p0, le_bits(d.len(), 32), d);
                assert(le_bits(count as nat, 32) == b.subrange(p0, p0 + 32));
                assert(le_bits(d.len(), 32) =~= b.subrange(p0, p0 + 32));
                lemma_le_bits_inj(count as nat, d.len(), 32);
            }
        }
        return Err(ParseError::Codec(crate::cursor::CodecError::OutOfData));
    }
    let bits = match read_bit_vec(s, count as usize) {
        Ok(v) => v,
        Err(e) => {
            proof {
                assert forall|d: Seq<bool>|
                    d.len() < pow2(32) && b.len() <= usize::MAX && bits_at(
                        b,
                        p0,
                        #[trigger] enc_blob(d),
                    ) implies false by {
                    lemma_le_bits_len(d.len(), 32);
                    lemma_bits_at_split(b, p0, le_bits(d.len(), 32), d);
                    assert(le_bits(count as nat, 32) == b.subrange(p0, p0 + 32));
                    assert(le_bits(d.len(), 32) =~= b.subrange(p0, p0 + 32));
                    lemma_le_bits_inj(count as nat, d.len(), 32);
                }
            }
            return Err(ParseError::Codec(e));
        },
    };
    let r = BitData(bits);
    proof {
        assert forall|d: Seq<bool>|
            d.len() < pow2(32) && b.len() <= usize::MAX && bits_at(b, p0, #[trigger] enc_blob(d))
                implies r@ == d && rpos(*s) == p0 + 32 + d.len() by {
            lemma_le_bits_len(d.len(), 32);
            lemma_bits_at_split(b, p0, le_bits(d.len(), 32), d);
            assert(le_bits(count as nat, 32) == b.subrange(p0, p0 + 32));
            assert(le_bits(d.len(), 32) =~= b.subrange(p0, p0 + 32));
            lemma_le_bits_inj(count as nat, d.len(), 32);
            assert(r@ =~= d);
        }
    }
    Ok(r)
}

/// Append a counted opaque payload.
pub fn push_blob(out: &mut Vec<bool>, data: &BitData)
    requires
        data@.len() < pow2(32),
    ensures
        final(out)@ =~= old(out)@ + enc_blob(data@),
{
    crate::bits::push_le_bits(out, data.0.len() as u32, 32);
    let ghost mid = out@;
    let mut i: usize = 0;
    proof {
        assert(out@ =~= mid + data@.take(0));
    }
    while i < data.0.len()
        invariant
            i <= data@.len(),
            out@ =~= mid + data@.take(i as int),
        decreases data@.len() - i,
    {
        out.push(data.0[i]);
        proof {
            assert(data@.take(i + 1) =~= data@.take(i as int).push(data@[i as int]));
        }
        i = i + 1;
    }
    proof {
        assert(data@.take(data@.len() as int) =~= data@);
        assert(pow2(32) == 0x100000000) by {
            vstd::arithmetic::power2::lemma2_to64();
        }
        assert(((data@.len() as usize) as u32) as nat == data@.len());
        assert(out@ =~= old(out)@ + enc_blob(data@));
    }
}

/// A message-bearing packet: its tick and the counted message stream, which
/// an external collaborator decodes message by message.
#[derive(Debug, Clone, PartialEq, Eq)]
pub struct MessagePacket {
    pub tick: u32,
    pub data: BitData,
}

/// A synchronisation packet: just its tick.
#[derive(Debug, Clone, Copy, PartialEq, Eq, Structural)]
pub struct SyncTickPacket {
    pub tick: u32,
}

/// A console-command packet: its tick and the command text.
#[derive(Debug, Clone, PartialEq, Eq)]
pub struct ConsoleCmdPacket {
    pub tick: u32,
    pub command: String,
}

/// A user-command packet: tick, sequence number, and the counted opaque
/// command payload an external collaborator decodes.
#[derive(Debug, Clone, PartialEq, Eq)]
pub struct UserCmdPacket {
    pub tick: u32,
    pub sequence_number: u32,
    pub data: BitData,
}

/// A string-table payload packet: its tick and the counted table contents,
/// which an external collaborator decodes.
#[derive(Debug, Clone, PartialEq, Eq)]
pub struct StringTablePacket {
    pub tick: u32,
    pub data: BitData,
}

/// The end-of-demo packet; it carries nothing.
#[derive(Debug, Clone, Copy, PartialEq, Eq, Structural)]
pub struct StopPacket {}

/// One demo packet of any kind.
#[derive(Debug)]
pub enum Packet {
    Sigon(MessagePacket),
    Message(MessagePacket),
    SyncTick(SyncTickPacket),
    ConsoleCmd(ConsoleCmdPacket),
    UserCmd(UserCmdPacket),
    DataTables(DataTablePacket),
    Stop(StopPacket),
    StringTables(StringTablePacket),
}

impl Packet {
    /// The kind of this packet.
    pub fn packet_type(&self) -> (r: PacketType)
        ensures
            r == packet_type_of(self),
    {
        match self {
            Packet::Sigon(_) => PacketType::Sigon,
            Packet::Message(_) => PacketType::Message,
            Packet::SyncTick(_) => PacketType::SyncTick,
            Packet::ConsoleCmd(_) => PacketType::ConsoleCmd,
            Packet::UserCmd(_) => PacketType::UserCmd,
            Packet::DataTables(_) => PacketType::DataTables,
            Packet::Stop(_) => PacketType::Stop,
            Packet::StringTables(_) => PacketType::StringTables,
        }
    }

    /// Dispatch on the eight-bit discriminant and decode the matching
    /// packet kind against the shared cursor and parser state.
    ///
    /// The routing is one-to-one: a discriminant outside one through eight
    /// fails with the unsupported-packet-type error carrying that value,
    /// every success is the variant the placed discriminant names, and for
    /// each kind a placed well-formed payload decodes to exactly the value
    /// that kind's own codec decodes.
    pub fn parse(stream: &mut Reader<'_>, state: &ParserState) -> (r: Result<Packet, ParseError>)
        ensures
            rbits(*final(stream)) == rbits(*old(stream)),
            rpos(*old(stream)) <= rpos(*final(stream)),
            forall|d: u8|
                #[trigger] disc_at(rbits(*old(stream)), rpos(*old(stream)) as int, d)
                    && packet_of_code(d as nat) is None ==> r == Err::<Packet, ParseError>(
                    ParseError::UnsupportedPacketType(d),
                ),
            forall|d: u8|
                #[trigger] disc_at(rbits(*old(stream)), rpos(*old(stream)) as int, d) && r is Ok
                    ==> packet_of_code(d as nat) == Some(packet_type_of(&r->Ok_0)),
            forall|d: u8|
                #[trigger] disc_at(rbits(*old(stream)), rpos(*old(stream)) as int, d) && d == 7
                    ==> r is Ok && r->Ok_0 is Stop && rpos(*final(stream)) == rpos(*old(stream))
                    + 8,
            forall|d: u8, tick: u32|
                #![trigger disc_at(rbits(*old(stream)), rpos(*old(stream)) as int, d), le_bits(tick as nat, 32)]
                disc_at(rbits(*old(stream)), rpos(*old(stream)) as int, d) && d == 3 && rpos(
                    *old(stream),
                ) + 40 <= rbits(*old(stream)).len() && le_bits(tick as nat, 32) == rbits(
                    *old(stream),
                ).subrange(rpos(*old(stream)) + 8 as int, rpos(*old(stream)) + 40 as int) ==> {
                    &&& r is Ok
                    &&& r->Ok_0 matches Packet::SyncTick(st) && st.tick == tick
                    &&& rpos(*final(stream)) == rpos(*old(stream)) + 40
                },
            forall|d: u8, tick: u32, cmd: Seq<char>|
                #![trigger disc_at(rbits(*old(stream)), rpos(*old(stream)) as int, d), str_bits(cmd), le_bits(tick as nat, 32)]
                disc_at(rbits(*old(stream)), rpos(*old(stream)) as int, d) && d == 4 && str_ok(
                    cmd,
                ) && bits_at(
                    rbits(*old(stream)),
                    rpos(*old(stream)) + 8 as int,
                    le_bits(tick as nat, 32) + str_bits(cmd),
                ) ==> {
                    &&& r is Ok
                    &&& r->Ok_0 matches Packet::ConsoleCmd(c) && c.tick == tick && c.command@
                        == cmd
                    &&& rpos(*final(stream)) == rpos(*old(stream)) + 40 + str_bits(cmd).len()
                },
            forall|d: u8, tick: u32, payload: Seq<bool>|
                #![trigger disc_at(rbits(*old(stream)), rpos(*old(stream)) as int, d), tick_blob_at(rbits(*old(stream)), rpos(*old(stream)) + 8 as int, tick, payload)]
                disc_at(rbits(*old(stream)), rpos(*old(stream)) as int, d) && (d == 1 || d == 2
                    || d == 8) && tick_blob_at(
                    rbits(*old(stream)),
                    rpos(*old(stream)) + 8 as int,
                    tick,
                    payload,
                ) ==> {
                    &&& r is Ok
                    &&& (d == 1 ==> (r->Ok_0 matches Packet::Sigon(m) && m.tick == tick
                        && m.data@ == payload))
                    &&& (d == 2 ==> (r->Ok_0 matches Packet::Message(m) && m.tick == tick
                        && m.data@ == payload))
                    &&& (d == 8 ==> (r->Ok_0 matches Packet::StringTables(m) && m.tick == tick
                        && m.data@ == payload))
                    &&& rpos(*final(stream)) == rpos(*old(stream)) + 72 + payload.len()
                },
            forall|d: u8, tick: u32, sequence: u32, payload: Seq<bool>|
                #![trigger disc_at(rbits(*old(stream)), rpos(*old(stream)) as int, d), tick_seq_blob_at(rbits(*old(stream)), rpos(*old(stream)) + 8 as int, tick, sequence, payload)]
                disc_at(rbits(*old(stream)), rpos(*old(stream)) as int, d) && d == 5
                    && tick_seq_blob_at(
                    rbits(*old(stream)),
                    rpos(*old(stream)) + 8 as int,
                    tick,
                    sequence,
                    payload,
                ) ==> {
                    &&& r is Ok
                    &&& r->Ok_0 matches Packet::UserCmd(u) && u.tick == tick && u.sequence_number
                        == sequence && u.data@ == payload
                    &&& rpos(*final(stream)) == rpos(*old(stream)) + 104 + payload.len()
                },
            forall|d: u8, pm: crate::datatable::PacketModel, len2: nat|
                #![trigger disc_at(rbits(*old(stream)), rpos(*old(stream)) as int, d), crate::datatable::packet_at(rbits(*old(stream)), rpos(*old(stream)) + 8 as int, pm, len2)]
                disc_at(rbits(*old(stream)), rpos(*old(stream)) as int, d) && d == 6
                    && crate::datatable::packet_at(
                    rbits(*old(stream)),
                    rpos(*old(stream)) + 8 as int,
                    pm,
                    len2,
                ) ==> if 8 * len2 - crate::datatable::body_core(pm).len() <= 7 {
                    &&& r is Ok
                    &&& r->Ok_0 matches Packet::DataTables(dp) && dp@ == pm
                    &&& rpos(*final(stream)) == rpos(*old(stream)) + 72 + 8 * len2
                } else {
                    r == Err::<Packet, ParseError>(ParseError::DataRemaining(
                        (8 * len2 - crate::datatable::body_core(pm).len()) as usize,
                    ))
                },
    {
        let ghost b = rbits(*old(stream));
        let ghost p0 = rpos(*old(stream)) as int;
        let code_word = match c_read_int(stream, 8) {
            Ok(v) => v,
            Err(e) => {
                proof {
                    assert forall|d: u8| #[trigger] disc_at(b, p0, d) implies false by {}
                }
                return Err(ParseError::Codec(e));
            },
        };
        let code = code_word as u8;
        proof {
            assert forall|d: u8| #[trigger] disc_at(b, p0, d) implies d == code by {
                lemma_le_bits_len(d as nat, 8);
                assert(pow2(8) == 256) by {
                    vstd::arithmetic::power2::lemma2_to64();
                }
                lemma_le_bits_inj(code_word as nat, d as nat, 8);
            }
        }
        let packet_type = match PacketType::from_code(code) {
            Ok(t) => t,
            Err(e) => {
                return Err(e);
            },
        };
        match packet_type {
            PacketType::Sigon => {
                let m = match MessagePacket::parse(stream) {
                    Ok(v) => v,
                    Err(e) => {
                        return Err(e);
                    },
                };
                Ok(Packet::Sigon(m))
            },
            PacketType::Message => {
                let m = match MessagePacket::parse(stream) {
                    Ok(v) => v,
                    Err(e) => {
                        return Err(e);
                    },
                };
                Ok(Packet::Message(m))
            },
            PacketType::SyncTick => {
                let m = match SyncTickPacket::parse(stream) {
                    Ok(v) => v,
                    Err(e) => {
                        return Err(e);
                    },
                };
                let r = Packet::SyncTick(m);
                proof {
                    assert forall|d: u8, tick: u32|
                        disc_at(b, p0, d) && d == 3 && p0 + 40 <= b.len() && le_bits(
                            tick as nat,
                            32,
                        ) == b.subrange(p0 + 8, p0 + 40) implies m.tick == tick by {
                        assert((tick as nat) < pow2(32) && (m.tick as nat) < pow2(32)) by {
                            vstd::arithmetic::power2::lemma2_to64();
                        }
                        lemma_le_bits_inj(m.tick as nat, tick as nat, 32);
                    }
                }
                Ok(r)
            },
            PacketType::ConsoleCmd => {
                let m = match ConsoleCmdPacket::parse(stream) {
                    Ok(v) => v,
                    Err(e) => {
                        return Err(e);
                    },
                };
                Ok(Packet::ConsoleCmd(m))
            },
            PacketType::UserCmd => {
                let m = match UserCmdPacket::parse(stream) {
                    Ok(v) => v,
                    Err(e) => {
                        return Err(e);
                    },
                };
                Ok(Packet::UserCmd(m))
            },
            PacketType::DataTables => {
                let m = match DataTablePacket::parse(stream, state) {
                    Ok(v) => v,
                    Err(e) => {
                        return Err(e);
                    },
                };
                Ok(Packet::DataTables(m))
            },
            PacketType::Stop => Ok(Packet::Stop(StopPacket {})),
            PacketType::StringTables => {
                let m = match StringTablePacket::parse(stream) {
                    Ok(v) => v,
                    Err(e) => {
                        return Err(e);
                    },
                };
                Ok(Packet::StringTables(m))
            },
        }
    }
}

/// The eight-bit discriminant `d` placed at the cursor.
pub open spec fn disc_at(b: Seq<bool>, pos: int, d: u8) -> bool {
    &&& 0 <= pos
    &&& pos + 8 <= b.len()
    &&& le_bits(d as nat, 8) == b.subrange(pos, pos + 8)
}

/// The kind of a packet value.
pub open spec fn packet_type_of(p: &Packet) -> PacketType {
    match p {
        Packet::Sigon(_) => PacketType::Sigon,
        Packet::Message(_) => PacketType::Message,
        Packet::SyncTick(_) => PacketType::SyncTick,
        Packet::ConsoleCmd(_) => PacketType::ConsoleCmd,
        Packet::UserCmd(_) => PacketType::UserCmd,
        Packet::DataTables(_) => PacketType::DataTables,
        Packet::Stop(_) => PacketType::Stop,
        Packet::StringTables(_) => PacketType::StringTables,
    }
}

impl MessagePacket {
    /// Decode a message packet: tick, then the counted message stream.  A
    /// placed tick-and-payload body decodes to exactly the placed values.
    pub fn parse(stream: &mut Reader<'_>) -> (r: Result<MessagePacket, ParseError>)
        ensures
            rbits(*final(stream)) == rbits(*old(stream)),
            rpos(*old(stream)) <= rpos(*final(stream)),
            forall|tick: u32, payload: Seq<bool>|
                #[trigger] tick_blob_at(
                    rbits(*old(stream)),
                    rpos(*old(stream)) as int,
                    tick,
                    payload,
                ) ==> {
                    &&& r is Ok
                    &&& r->Ok_0.tick == tick
                    &&& r->Ok_0.data@ == payload
                    &&& rpos(*final(stream)) == rpos(*old(stream)) + 64 + payload.len()
                },
    {
        let ghost b = rbits(*old(stream));
        let ghost p0 = rpos(*old(stream)) as int;
        let tick_word = match c_read_int(stream, 32) {
            Ok(v) => v,
            Err(e) => {
                proof {
                    assert forall|tick: u32, payload: Seq<bool>|
                        #[trigger] tick_blob_at(b, p0, tick, payload) implies false by {
                        lemma_tick_blob_positions(b, p0, tick, payload);
                    }
                }
                return Err(ParseError::Codec(e));
            },
        };
        let data = match read_blob(stream) {
            Ok(v) => v,
            Err(e) => {
                proof {
                    assert forall|tick: u32, payload: Seq<bool>|
                        #[trigger] tick_blob_at(b, p0, tick, payload) implies false by {
                        lemma_tick_blob_positions(b, p0, tick, payload);
                    }
                }
                return Err(e);
            },
        };
        let r = MessagePacket { tick: tick_word, data };
        proof {
            assert forall|tick: u32, payload: Seq<bool>|
                #[trigger] tick_blob_at(b, p0, tick, payload) implies r.tick == tick && r.data@
                == payload && rpos(*stream) == p0 + 64 + payload.len() by {
                lemma_tick_blob_positions(b, p0, tick, payload);
                lemma_le_bits_inj(tick_word as nat, tick as nat, 32);
            }
        }
        Ok(r)
    }

    /// Encode a message packet.
    pub fn write(&self, stream: &mut Writer<'_>)
        requires
            self.data@.len() < pow2(32),
        ensures
            wbits(*final(stream)) =~= wbits(*old(stream)) + le_bits(self.tick as nat, 32)
                + enc_blob(self.data@),
    {
        let mut bits: Vec<bool> = Vec::new();
        proof {
            assert((self.tick as nat) < pow2(32)) by {
                vstd::arithmetic::power2::lemma2_to64();
            }
        }
        crate::bits::push_le_bits(&mut bits, self.tick, 32);
        push_blob(&mut bits, &self.data);
        flush_bits(stream, &bits);
    }
}

impl SyncTickPacket {
    /// Decode a synchronisation packet: just its tick.
    pub fn parse(stream: &mut Reader<'_>) -> (r: Result<SyncTickPacket, ParseError>)
        ensures
            rbits(*final(stream)) == rbits(*old(stream)),
            rpos(*old(stream)) <= rpos(*final(stream)),
            rpos(*old(stream)) + 32 <= rbits(*old(stream)).len() ==> {
                &&& r is Ok
                &&& le_bits(r->Ok_0.tick as nat, 32) == rbits(*old(stream)).subrange(
                    rpos(*old(stream)) as int,
                    rpos(*old(stream)) + 32 as int,
                )
                &&& rpos(*final(stream)) == rpos(*old(stream)) + 32
            },
    {
        let tick = match c_read_int(stream, 32) {
            Ok(v) => v,
            Err(e) => {
                return Err(ParseError::Codec(e));
            },
        };
        Ok(SyncTickPacket { tick })
    }

    /// Encode a synchronisation packet.
    pub fn write(&self, stream: &mut Writer<'_>)
        ensures
            wbits(*final(stream)) =~= wbits(*old(stream)) + le_bits(self.tick as nat, 32),
    {
        let mut bits: Vec<bool> = Vec::new();
        proof {
            assert((self.tick as nat) < pow2(32)) by {
                vstd::arithmetic::power2::lemma2_to64();
            }
        }
        crate::bits::push_le_bits(&mut bits, self.tick, 32);
        flush_bits(stream, &bits);
    }
}

impl ConsoleCmdPacket {
    /// Decode a console-command packet: tick, then the command text.
    pub fn parse(stream: &mut Reader<'_>) -> (r: Result<ConsoleCmdPacket, ParseError>)
        ensures
            rbits(*final(stream)) == rbits(*old(stream)),
            rpos(*old(stream)) <= rpos(*final(stream)),
            forall|tick: u32, cmd: Seq<char>|
                str_ok(cmd) && #[trigger] bits_at(
                    rbits(*old(stream)),
                    rpos(*old(stream)) as int,
                    le_bits(tick as nat, 32) + str_bits(cmd),
                ) ==> {
                    &&& r is Ok
                    &&& r->Ok_0.tick == tick
                    &&& r->Ok_0.command@ == cmd
                    &&& rpos(*final(stream)) == rpos(*old(stream)) + 32 + str_bits(cmd).len()
                },
    {
        let ghost b = rbits(*old(stream));
        let ghost p0 = rpos(*old(stream)) as int;
        let tick_word = match c_read_int(stream, 32) {
            Ok(v) => v,
            Err(e) => {
                proof {
                    assert forall|tick: u32, cmd: Seq<char>|
                        str_ok(cmd) && #[trigger] bits_at(
                            b,
                            p0,
                            le_bits(tick as nat, 32) + str_bits(cmd),
                        ) implies false by {
                        lemma_le_bits_len(tick as nat, 32);
                        lemma_bits_at_split(b, p0, le_bits(tick as nat, 32), str_bits(cmd));
                    }
                }
                return Err(ParseError::Codec(e));
            },
        };
        let command = match crate::cursor::c_read_string(stream) {
            Ok(v) => v,
            Err(e) => {
                proof {
                    assert forall|tick: u32, cmd: Seq<char>|
                        str_ok(cmd) && #[trigger] bits_at(
                            b,
                            p0,
                            le_bits(tick as nat, 32) + str_bits(cmd),
                        ) implies false by {
                        lemma_le_bits_len(tick as nat, 32);
                        lemma_bits_at_split(b, p0, le_bits(tick as nat, 32), str_bits(cmd));
                    }
                }
                return Err(ParseError::Codec(e));
            },
        };
        let r = ConsoleCmdPacket { tick: tick_word, command };
        proof {
            assert forall|tick: u32, cmd: Seq<char>|
                str_ok(cmd) && #[trigger] bits_at(b, p0, le_bits(tick as nat, 32) + str_bits(cmd))
                    implies r.tick == tick && r.command@ == cmd && rpos(*stream) == p0 + 32
                + str_bits(cmd).len() by {
                lemma_le_bits_len(tick as nat, 32);
                lemma_bits_at_split(b, p0, le_bits(tick as nat, 32), str_bits(cmd));
                assert(le_bits(tick_word as nat, 32) == b.subrange(p0, p0 + 32));
                assert(le_bits(tick as nat, 32) =~= b.subrange(p0, p0 + 32));
                assert((tick as nat) < pow2(32) && (tick_word as nat) < pow2(32)) by {
                    vstd::arithmetic::power2::lemma2_to64();
                }
                lemma_le_bits_inj(tick_word as nat, tick as nat, 32);
            }
        }
        Ok(r)
    }

    /// Encode a console-command packet.
    pub fn write(&self, stream: &mut Writer<'_>)
        ensures
            wbits(*final(stream)) =~= wbits(*old(stream)) + le_bits(self.tick as nat, 32)
                + str_bits(self.command@),
    {
        let mut bits: Vec<bool> = Vec::new();
        proof {
            assert((self.tick as nat) < pow2(32)) by {
                vstd::arithmetic::power2::lemma2_to64();
            }
        }
        crate::bits::push_le_bits(&mut bits, self.tick, 32);
        crate::bits::push_str(&mut bits, self.command.as_str());
        flush_bits(stream, &bits);
    }
}

impl UserCmdPacket {
    /// Decode a user-command packet: tick, sequence number, counted
    /// payload.  A placed body decodes to exactly the placed values.
    pub fn parse(stream: &mut Reader<'_>) -> (r: Result<UserCmdPacket, ParseError>)
        ensures
            rbits(*final(stream)) == rbits(*old(stream)),
            rpos(*old(stream)) <= rpos(*final(stream)),
            forall|tick: u32, sequence: u32, payload: Seq<bool>|
                #[trigger] tick_seq_blob_at(
                    rbits(*old(stream)),
                    rpos(*old(stream)) as int,
                    tick,
                    sequence,
                    payload,
                ) ==> {
                    &&& r is Ok
                    &&& r->Ok_0.tick == tick
                    &&& r->Ok_0.sequence_number == sequence
                    &&& r->Ok_0.data@ == payload
                    &&& rpos(*final(stream)) == rpos(*old(stream)) + 96 + payload.len()
                },
    {
        let ghost b = rbits(*old(stream));
        let ghost p0 = rpos(*old(stream)) as int;
        let tick_word = match c_read_int(stream, 32) {
            Ok(v) => v,
            Err(e) => {
                proof {
                    assert forall|tick: u32, sequence: u32, payload: Seq<bool>|
                        #[trigger] tick_seq_blob_at(b, p0, tick, sequence, payload)
                            implies false by {
                        lemma_tick_seq_blob_positions(b, p0, tick, sequence, payload);
                    }
                }
                return Err(ParseError::Codec(e));
            },
        };
        let seq_word = match c_read_int(stream, 32) {
            Ok(v) => v,
            Err(e) => {
                proof {
                    assert forall|tick: u32, sequence: u32, payload: Seq<bool>|
                        #[trigger] tick_seq_blob_at(b, p0, tick, sequence, payload)
                            implies false by {
                        lemma_tick_seq_blob_positions(b, p0, tick, sequence, payload);
                    }
                }
                return Err(ParseError::Codec(e));
            },
        };
        let data = match read_blob(stream) {
            Ok(v) => v,
            Err(e) => {
                proof {
                    assert forall|tick: u32, sequence: u32, payload: Seq<bool>|
                        #[trigger] tick_seq_blob_at(b, p0, tick, sequence, payload)
                            implies false by {
                        lemma_tick_seq_blob_positions(b, p0, tick, sequence, payload);
                    }
                }
                return Err(e);
            },
        };
        let r = UserCmdPacket { tick: tick_word, sequence_number: seq_word, data };
        proof {
            assert forall|tick: u32, sequence: u32, payload: Seq<bool>|
                #[trigger] tick_seq_blob_at(b, p0, tick, sequence, payload) implies r.tick == tick
                && r.sequence_number == sequence && r.data@ == payload && rpos(*stream) == p0 + 96
                + payload.len() by {
                lemma_tick_seq_blob_positions(b, p0, tick, sequence, payload);
                lemma_le_bits_inj(tick_word as nat, tick as nat, 32);
                lemma_le_bits_inj(seq_word as nat, sequence as nat, 32);
            }
        }
        Ok(r)
    }

    /// Encode a user-command packet: the exact inverse of
    /// [`UserCmdPacket::parse`].
    pub fn write(&self, stream: &mut Writer<'_>)
        requires
            self.data@.len() < pow2(32),
        ensures
            wbits(*final(stream)) =~= wbits(*old(stream)) + le_bits(self.tick as nat, 32)
                + le_bits(self.sequence_number as nat, 32) + enc_blob(self.data@),
    {
        let mut bits: Vec<bool> = Vec::new();
        proof {
            assert((self.tick as nat) < pow2(32) && (self.sequence_number as nat) < pow2(32)) by {
                vstd::arithmetic::power2::lemma2_to64();
            }
        }
        crate::bits::push_le_bits(&mut bits, self.tick, 32);
        crate::bits::push_le_bits(&mut bits, self.sequence_number, 32);
        push_blob(&mut bits, &self.data);
        flush_bits(stream, &bits);
    }
}

impl StringTablePacket {
    /// Decode a string-table packet: tick, then the counted table contents.
    /// A placed tick-and-payload body decodes to exactly the placed values.
    pub fn parse(stream: &mut Reader<'_>) -> (r: Result<StringTablePacket, ParseError>)
        ensures
            rbits(*final(stream)) == rbits(*old(stream)),
            rpos(*old(stream)) <= rpos(*final(stream)),
            forall|tick: u32, payload: Seq<bool>|
                #[trigger] tick_blob_at(
                    rbits(*old(stream)),
                    rpos(*old(stream)) as int,
                    tick,
                    payload,
                ) ==> {
                    &&& r is Ok
                    &&& r->Ok_0.tick == tick
                    &&& r->Ok_0.data@ == payload
                    &&& rpos(*final(stream)) == rpos(*old(stream)) + 64 + payload.len()
                },
    {
        let ghost b = rbits(*old(stream));
        let ghost p0 = rpos(*old(stream)) as int;
        let tick_word = match c_read_int(stream, 32) {
            Ok(v) => v,
            Err(e) => {
                proof {
                    assert forall|tick: u32, payload: Seq<bool>|
                        #[trigger] tick_blob_at(b, p0, tick, payload) implies false by {
                        lemma_tick_blob_positions(b, p0, tick, payload);
                    }
                }
                return Err(ParseError::Codec(e));
            },
        };
        let data = match read_blob(stream) {
            Ok(v) => v,
            Err(e) => {
                proof {
                    assert forall|tick: u32, payload: Seq<bool>|
                        #[trigger] tick_blob_at(b, p0, tick, payload) implies false by {
                        lemma_tick_blob_positions(b, p0, tick, payload);
                    }
                }
                return Err(e);
            },
        };
        let r = StringTablePacket { tick: tick_word, data };
        proof {
            assert forall|tick: u32, payload: Seq<bool>|
                #[trigger] tick_blob_at(b, p0, tick, payload) implies r.tick == tick && r.data@
                == payload && rpos(*stream) == p0 + 64 + payload.len() by {
                lemma_tick_blob_positions(b, p0, tick, payload);
                lemma_le_bits_inj(tick_word as nat, tick as nat, 32);
            }
        }
        Ok(r)
    }

    /// Encode a string-table packet: the exact inverse of
    /// [`StringTablePacket::parse`].
    pub fn write(&self, stream: &mut Writer<'_>)
        requires
            self.data@.len() < pow2(32),
        ensures
            wbits(*final(stream)) =~= wbits(*old(stream)) + le_bits(self.tick as nat, 32)
                + enc_blob(self.data@),
    {
        let mut bits: Vec<bool> = Vec::new();
        proof {
            assert((self.tick as nat) < pow2(32)) by {
                vstd::arithmetic::power2::lemma2_to64();
            }
        }
        crate::bits::push_le_bits(&mut bits, self.tick, 32);
        push_blob(&mut bits, &self.data);
        flush_bits(stream, &bits);
    }
}

} // verus!
