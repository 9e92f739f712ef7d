//! Voice and sound message codecs: the small, self-contained messages whose
//! wire forms exercise conditional fields and embedded bit payloads.

use vstd::prelude::*;

verus! {

use vstd::arithmetic::power2::pow2;
use crate::bits::le_bits;
use crate::bits::str_bits;
use crate::bits::str_ok;
use crate::bits::bits_at;
use crate::bits::BitData;
use crate::bits::lemma_le_bits_len;
use crate::bits::lemma_le_bits_inj;
use crate::bits::lemma_bytes_bits_len;
use crate::bits::lemma_bits_at_split;
use crate::cursor::Reader;
use crate::cursor::Writer;
use crate::cursor::rbits;
use crate::cursor::rpos;
use crate::cursor::wbits;
use crate::cursor::c_read_int;
use crate::cursor::c_read_string;
use crate::cursor::read_bit_vec;
use crate::cursor::flush_bits;
use crate::error::ParseError;

/// A voice-codec initialisation message.  When the quality byte is not the
/// sentinel 255 the sampling rate is not on the wire: it is implied by the
/// codec name.
#[derive(Debug, Clone, PartialEq, Eq)]
pub struct VoiceInitMessage {
    pub codec: String,
    pub quality: u8,
    pub sampling_rate: u16,
}

/// The mathematical value of a voice-init message.
#[verifier::ext_equal]
pub ghost struct VoiceInitModel {
    pub codec: Seq<char>,
    pub quality: u8,
    pub sampling_rate: u16,
}

impl View for VoiceInitMessage {
    type V = VoiceInitModel;

    open spec fn view(&self) -> VoiceInitModel {
        VoiceInitModel {
            codec: self.codec@,
            quality: self.quality,
            sampling_rate: self.sampling_rate,
        }
    }
}

/// The sampling rate implied by a codec name when none is on the wire.
pub open spec fn implied_rate(codec: Seq<char>) -> u16 {
    if codec == "vaudio_celt"@ {
        11025
    } else {
        0
    }
}

/// The wire form: codec name, quality byte, and the sampling rate only
/// under the sentinel quality.
pub open spec fn enc_voice_init(v: VoiceInitModel) -> Seq<bool> {
    str_bits(v.codec) + le_bits(v.quality as nat, 8) + if v.quality == 255 {
        le_bits(v.sampling_rate as nat, 16)
    } else {
        Seq::empty()
    }
}

/// A message the wire can carry back unchanged: its codec name survives the
/// wire and an off-wire sampling rate is the implied one.
pub open spec fn voice_init_encodable(v: VoiceInitModel) -> bool {
    &&& str_ok(v.codec)
    &&& v.quality != 255 ==> v.sampling_rate == implied_rate(v.codec)
}

impl VoiceInitMessage {
    /// Decode a voice-init message.  When the wire form of an encodable
    /// message lies at the cursor, exactly that message comes back and
    /// exactly its bits are consumed.
    pub fn parse(stream: &mut Reader<'_>) -> (r: Result<VoiceInitMessage, ParseError>)
        ensures
            rbits(*final(stream)) == rbits(*old(stream)),
            rpos(*final(stream)) <= rbits(*final(stream)).len(),
            rpos(*old(stream)) <= rpos(*final(stream)),
            forall|v: VoiceInitModel|
                voice_init_encodable(v) && bits_at(
                    rbits(*old(stream)),
                    rpos(*old(stream)) as int,
                    #[trigger] enc_voice_init(v),
                ) ==> {
                    &&& r is Ok
                    &&& r->Ok_0@ == v
                    &&& rpos(*final(stream)) == rpos(*old(stream)) + enc_voice_init(v).len()
                },
    {
        let ghost b = rbits(*old(stream));
        let ghost p0 = rpos(*old(stream)) as int;
        let codec = match c_read_string(stream) {
            Ok(v) => v,
            Err(e) => {
                proof {
                    assert forall|v: VoiceInitModel|
                        voice_init_encodable(v) && bits_at(b, p0, #[trigger] enc_voice_init(v))
                            implies false by {
                        lemma_voice_positions(b, p0, v);
                    }
                }
                return Err(ParseError::Codec(e));
            },
        };
        let ghost p1 = rpos(*stream) as int;
        let quality_word = match c_read_int(stream, 8) {
            Ok(v) => v,
            Err(e) => {
                proof {
                    assert forall|v: VoiceInitModel|
                        voice_init_encodable(v) && bits_at(b, p0, #[trigger] enc_voice_init(v))
                            implies false by {
                        lemma_voice_positions(b, p0, v);
                    }
                }
                return Err(ParseError::Codec(e));
            },
        };
        let quality = quality_word as u8;
        let ghost p2 = rpos(*stream) as int;
        if quality == 255 {
            let rate_word = match c_read_int(stream, 16) {
                Ok(v) => v,
                Err(e) => {
                    proof {
                        assert forall|v: VoiceInitModel|
                            voice_init_encodable(v) && bits_at(b, p0, #[trigger] enc_voice_init(v))
                                implies false by {
                            lemma_voice_positions(b, p0, v);
                            lemma_le_bits_inj(quality_word as nat, v.quality as nat, 8);
                        }
                    }
                    return Err(ParseError::Codec(e));
                },
            };
            let r = VoiceInitMessage { codec, quality, sampling_rate: rate_word as u16 };
            proof {
                assert forall|v: VoiceInitModel|
                    voice_init_encodable(v) && bits_at(b, p0, #[trigger] enc_voice_init(v))
                        implies r@ =~~= v && rpos(*stream) == p0 + enc_voice_init(v).len() by {
                    lemma_voice_positions(b, p0, v);
                    lemma_le_bits_inj(quality_word as nat, v.quality as nat, 8);
                    lemma_le_bits_len(v.sampling_rate as nat, 16);
                    assert((v.sampling_rate as nat) < pow2(16) && pow2(16) == 65536) by {
                        vstd::arithmetic::power2::lemma2_to64();
                    }
                    lemma_le_bits_inj(rate_word as nat, v.sampling_rate as nat, 16);
                }
            }
            return Ok(r);
        }
        let sampling_rate: u16 = if codec == "vaudio_celt".to_owned() {
            11025
        } else {
            0
        };
        let r = VoiceInitMessage { codec, quality, sampling_rate };
        proof {
            assert forall|v: VoiceInitModel|
                voice_init_encodable(v) && bits_at(b, p0, #[trigger] enc_voice_init(v))
                    implies r@ =~~= v && rpos(*stream) == p0 + enc_voice_init(v).len() by {
                lemma_voice_positions(b, p0, v);
                lemma_le_bits_inj(quality_word as nat, v.quality as nat, 8);
            }
        }
        Ok(r)
    }

    /// Encode a voice-init message: the exact inverse of
    /// [`VoiceInitMessage::parse`].
    pub fn write(&self, stream: &mut Writer<'_>)
        requires
            voice_init_encodable(self@),
        ensures
            wbits(*final(stream)) =~= wbits(*old(stream)) + enc_voice_init(self@),
    {
        let mut bits: Vec<bool> = Vec::new();
        crate::bits::push_str(&mut bits, self.codec.as_str());
        proof {
            assert((self.quality as nat) < pow2(8) && (self.sampling_rate as nat) < pow2(16)) by {
                vstd::arithmetic::power2::lemma2_to64();
            }
        }
        crate::bits::push_le_bits(&mut bits, self.quality as u32, 8);
        if self.quality == 255 {
            crate::bits::push_le_bits(&mut bits, self.sampling_rate as u32, 16);
        }
        flush_bits(stream, &bits);
        proof {
            assert(bits@ =~= enc_voice_init(self@));
        }
    }
}

/// Decomposes a placed voice-init message.
proof fn lemma_voice_positions(b: Seq<bool>, p0: int, v: VoiceInitModel)
    requires
        bits_at(b, p0, enc_voice_init(v)),
    ensures
        str_bits(v.codec).len() >= 8,
        bits_at(b, p0, str_bits(v.codec)),
        le_bits(v.quality as nat, 8) == b.subrange(
            p0 + str_bits(v.codec).len(),
            p0 + str_bits(v.codec).len() + 8,
        ),
        v.quality == 255 ==> le_bits(v.sampling_rate as nat, 16) == b.subrange(
            p0 + str_bits(v.codec).len() + 8,
            p0 + str_bits(v.codec).len() + 24,
        ),
        enc_voice_init(v).len() == str_bits(v.codec).len() + 8 + if v.quality == 255 {
            16int
        } else {
            0int
        },
        (v.quality as nat) < pow2(8),
{
    let e1 = str_bits(v.codec);
    let e2 = le_bits(v.quality as nat, 8);
    let e3: Seq<bool> = if v.quality == 255 {
        le_bits(v.sampling_rate as nat, 16)
    } else {
        Seq::empty()
    };
    lemma_le_bits_len(v.quality as nat, 8);
    lemma_le_bits_len(v.sampling_rate as nat, 16);
    lemma_bytes_bits_len(vstd::utf8::encode_utf8(v.codec) + seq![0u8]);
    assert(enc_voice_init(v) =~= e1 + (e2 + e3));
    lemma_bits_at_split(b, p0, e1, e2 + e3);
    lemma_bits_at_split(b, p0 + e1.len(), e2, e3);
    assert(e2 =~= b.subrange(p0 + e1.len(), p0 + e1.len() + 8));
    if v.quality == 255 {
        assert(e3 =~= b.subrange(p0 + e1.len() + 8, p0 + e1.len() + 24));
    }
    assert(pow2(8) == 256) by {
        vstd::arithmetic::power2::lemma2_to64();
    }
}

/// A voice-data message: speaker, proximity flag and a bit-counted opaque
/// payload.
#[derive(Debug, Clone, PartialEq, Eq)]
pub struct VoiceDataMessage {
    pub client: u8,
    pub proximity: u8,
    pub length: u16,
    pub data: BitData,
}

/// The mathematical value of a voice-data message.
#[verifier::ext_equal]
pub ghost struct VoiceDataModel {
    pub client: u8,
    pub proximity: u8,
    pub length: u16,
    pub data: Seq<bool>,
}

impl View for VoiceDataMessage {
    type V = VoiceDataModel;

    open spec fn view(&self) -> VoiceDataModel {
        VoiceDataModel {
            client: self.client,
            proximity: self.proximity,
            length: self.length,
            data: self.data@,
        }
    }
}

/// The wire form: client, proximity, bit count, payload bits.
pub open spec fn enc_voice_data(v: VoiceDataModel) -> Seq<bool> {
    le_bits(v.client as nat, 8) + le_bits(v.proximity as nat, 8) + le_bits(v.length as nat, 16)
        + v.data
}

/// A message whose payload matches its declared bit count.
pub open spec fn voice_data_encodable(v: VoiceDataModel) -> bool {
    v.data.len() == v.length
}

impl VoiceDataMessage {
    /// Decode a voice-data message; the exact wire image of an encodable
    /// message decodes to exactly that message.
    pub fn parse(stream: &mut Reader<'_>) -> (r: Result<VoiceDataMessage, ParseError>)
        ensures
            rbits(*final(stream)) == rbits(*old(stream)),
            rpos(*final(stream)) <= rbits(*final(stream)).len(),
            rpos(*old(stream)) <= rpos(*final(stream)),
            forall|v: VoiceDataModel|
                voice_data_encodable(v) && bits_at(
                    rbits(*old(stream)),
                    rpos(*old(stream)) as int,
                    #[trigger] enc_voice_data(v),
                ) ==> {
                    &&& r is Ok
                    &&& r->Ok_0@ == v
                    &&& rpos(*final(stream)) == rpos(*old(stream)) + enc_voice_data(v).len()
                },
    {
        let ghost b = rbits(*old(stream));
        let ghost p0 = rpos(*old(stream)) as int;
        let client_word = match c_read_int(stream, 8) {
            Ok(v) => v,
            Err(e) => {
                proof {
                    assert forall|v: VoiceDataModel|
                        voice_data_encodable(v) && bits_at(b, p0, #[trigger] enc_voice_data(v))
                            implies false by {
                        lemma_voice_data_positions(b, p0, v);
                    }
                }
                return Err(ParseError::Codec(e));
            },
        };
        let client = client_word as u8;
        let proximity_word = match c_read_int(stream, 8) {
            Ok(v) => v,
            Err(e) => {
                proof {
                    assert forall|v: VoiceDataModel|
                        voice_data_encodable(v) && bits_at(b, p0, #[trigger] enc_voice_data(v))
                            implies false by {
                        lemma_voice_data_positions(b, p0, v);
                    }
                }
                return Err(ParseError::Codec(e));
            },
        };
        let proximity = proximity_word as u8;
        let length_word = match c_read_int(stream, 16) {
            Ok(v) => v,
            Err(e) => {
                proof {
                    assert forall|v: VoiceDataModel|
                        voice_data_encodable(v) && bits_at(b, p0, #[trigger] enc_voice_data(v))
                            implies false by {
                        lemma_voice_data_positions(b, p0, v);
                    }
                }
                return Err(ParseError::Codec(e));
            },
        };
        let length = length_word as u16;
        let ghost p3 = rpos(*stream) as int;
        let data = match read_bit_vec(stream, length as usize) {
            Ok(v) => BitData(v),
            Err(e) => {
                proof {
                    assert forall|v: VoiceDataModel|
                        voice_data_encodable(v) && bits_at(b, p0, #[trigger] enc_voice_data(v))
                            implies false by {
                        lemma_voice_data_positions(b, p0, v);
                        lemma_le_bits_inj(length_word as nat, v.length as nat, 16);
                    }
                }
                return Err(ParseError::Codec(e));
            },
        };
        let r = VoiceDataMessage { client, proximity, length, data };
        proof {
            assert forall|v: VoiceDataModel|
                voice_data_encodable(v) && bits_at(b, p0, #[trigger] enc_voice_data(v))
                    implies r@ =~~= v && rpos(*stream) == p0 + enc_voice_data(v).len() by {
                lemma_voice_data_positions(b, p0, v);
                lemma_le_bits_inj(client_word as nat, v.client as nat, 8);
                lemma_le_bits_inj(proximity_word as nat, v.proximity as nat, 8);
                lemma_le_bits_inj(length_word as nat, v.length as nat, 16);
            }
        }
        Ok(r)
    }

    /// Encode a voice-data message: the exact inverse of
    /// [`VoiceDataMessage::parse`].
    pub fn write(&self, stream: &mut Writer<'_>)
        requires
            voice_data_encodable(self@),
        ensures
            wbits(*final(stream)) =~= wbits(*old(stream)) + enc_voice_data(self@),
    {
        let mut bits: Vec<bool> = Vec::new();
        proof {
            assert((self.client as nat) < pow2(8) && (self.proximity as nat) < pow2(8) && (
            self.length as nat) < pow2(16)) by {
                vstd::arithmetic::power2::lemma2_to64();
            }
        }
        crate::bits::push_le_bits(&mut bits, self.client as u32, 8);
        crate::bits::push_le_bits(&mut bits, self.proximity as u32, 8);
        crate::bits::push_le_bits(&mut bits, self.length as u32, 16);
        let mut payload = self.data.0.clone();
        bits.append(&mut payload);
        flush_bits(stream, &bits);
        proof {
            assert(bits@ =~= enc_voice_data(self@));
        }
    }
}

/// Any placed voice-data message pins its three header fields.
proof fn lemma_voice_data_positions(b: Seq<bool>, p0: int, v: VoiceDataModel)
    requires
        bits_at(b, p0, enc_voice_data(v)),
    ensures
        le_bits(v.client as nat, 8) == b.subrange(p0, p0 + 8),
        le_bits(v.proximity as nat, 8) == b.subrange(p0 + 8, p0 + 16),
        le_bits(v.length as nat, 16) == b.subrange(p0 + 16, p0 + 32),
        bits_at(b, p0 + 32, v.data),
        enc_voice_data(v).len() == 32 + v.data.len(),
        (v.client as nat) < pow2(8),
        (v.proximity as nat) < pow2(8),
        (v.length as nat) < pow2(16),
{
    let e1 = le_bits(v.client as nat, 8);
    let e2 = le_bits(v.proximity as nat, 8);
    let e3 = le_bits(v.length as nat, 16);
    lemma_le_bits_len(v.client as nat, 8);
    lemma_le_bits_len(v.proximity as nat, 8);
    lemma_le_bits_len(v.length as nat, 16);
    assert(enc_voice_data(v) =~= e1 + (e2 + (e3 + v.data)));
    lemma_bits_at_split(b, p0, e1, e2 + (e3 + v.data));
    lemma_bits_at_split(b, p0 + 8, e2, e3 + v.data);
    lemma_bits_at_split(b, p0 + 16, e3, v.data);
    assert(e1 =~= b.subrange(p0, p0 + 8));
    assert(e2 =~= b.subrange(p0 + 8, p0 + 16));
    assert(e3 =~= b.subrange(p0 + 16, p0 + 32));
    assert(pow2(8) == 256 && pow2(16) == 65536) by {
        vstd::arithmetic::power2::lemma2_to64();
    }
}

/// A sound-parse message: a reliability flag that changes the layout — a
/// reliable message has one implied sound and an eight-bit length, an
/// unreliable one carries its count and a sixteen-bit length — then the
/// counted opaque sound payload.
#[derive(Debug, Clone, PartialEq, Eq)]
pub struct ParseSoundsMessage {
    pub reliable: bool,
    pub num: u8,
    pub length: u16,
    pub data: BitData,
}

/// The mathematical value of a sound-parse message.
#[verifier::ext_equal]
pub ghost struct ParseSoundsModel {
    pub reliable: bool,
    pub num: u8,
    pub length: u16,
    pub data: Seq<bool>,
}

impl View for ParseSoundsMessage {
    type V = ParseSoundsModel;

    open spec fn view(&self) -> ParseSoundsModel {
        ParseSoundsModel {
            reliable: self.reliable,
            num: self.num,
            length: self.length,
            data: self.data@,
        }
    }
}

/// The wire form of a sound-parse message.
pub open spec fn enc_parse_sounds(v: ParseSoundsModel) -> Seq<bool> {
    seq![v.reliable] + (if v.reliable {
        le_bits(v.length as nat, 8)
    } else {
        le_bits(v.num as nat, 8) + le_bits(v.length as nat, 16)
    }) + v.data
}

/// A message the wire can carry back unchanged: the payload matches the
/// declared bit count, and a reliable message has one sound and a length
/// that fits its eight-bit field.
pub open spec fn parse_sounds_encodable(v: ParseSoundsModel) -> bool {
    &&& v.data.len() == v.length
    &&& v.reliable ==> v.num == 1 && v.length < 256
}

impl ParseSoundsMessage {
    /// Decode a sound-parse message; the exact wire image of an encodable
    /// message decodes to exactly that message.
    pub fn parse(stream: &mut Reader<'_>) -> (r: Result<ParseSoundsMessage, ParseError>)
        ensures
            rbits(*final(stream)) == rbits(*old(stream)),
            rpos(*old(stream)) <= rpos(*final(stream)),
            forall|v: ParseSoundsModel|
                parse_sounds_encodable(v) && bits_at(
                    rbits(*old(stream)),
                    rpos(*old(stream)) as int,
                    #[trigger] enc_parse_sounds(v),
                ) ==> {
                    &&& r is Ok
                    &&& r->Ok_0@ == v
                    &&& rpos(*final(stream)) == rpos(*old(stream)) + enc_parse_sounds(v).len()
                },
    {
        let ghost b = rbits(*old(stream));
        let ghost p0 = rpos(*old(stream)) as int;
        let reliable = match crate::cursor::c_read_bool(stream) {
            Ok(v) => v,
            Err(e) => {
                proof {
                    assert forall|v: ParseSoundsModel|
                        parse_sounds_encodable(v) && bits_at(b, p0, #[trigger] enc_parse_sounds(v))
                            implies false by {
                        lemma_sounds_positions(b, p0, v);
                    }
                }
                return Err(ParseError::Codec(e));
            },
        };
        if reliable {
            let length_word = match c_read_int(stream, 8) {
                Ok(v) => v,
                Err(e) => {
                    proof {
                        assert forall|v: ParseSoundsModel|
                            parse_sounds_encodable(v) && bits_at(
                                b,
                                p0,
                                #[trigger] enc_parse_sounds(v),
                            ) implies false by {
                            lemma_sounds_positions(b, p0, v);
                        }
                    }
                    return Err(ParseError::Codec(e));
                },
            };
            let length = length_word as u16;
            let data = match read_bit_vec(stream, length as usize) {
                Ok(v) => BitData(v),
                Err(e) => {
                    proof {
                        assert forall|v: ParseSoundsModel|
                            parse_sounds_encodable(v) && bits_at(
                                b,
                                p0,
                                #[trigger] enc_parse_sounds(v),
                            ) implies false by {
                            lemma_sounds_positions(b, p0, v);
                            lemma_le_bits_inj(length_word as nat, v.length as nat, 8);
                        }
                    }
                    return Err(ParseError::Codec(e));
                },
            };
            let r = ParseSoundsMessage { reliable, num: 1, length, data };
            proof {
                assert forall|v: ParseSoundsModel|
                    parse_sounds_encodable(v) && bits_at(b, p0, #[trigger] enc_parse_sounds(v))
                        implies r@ =~~= v && rpos(*stream) == p0 + enc_parse_sounds(v).len() by {
                    lemma_sounds_positions(b, p0, v);
                    lemma_le_bits_inj(length_word as nat, v.length as nat, 8);
                }
            }
            return Ok(r);
        }
        let num_word = match c_read_int(stream, 8) {
            Ok(v) => v,
            Err(e) => {
                proof {
                    assert forall|v: ParseSoundsModel|
                        parse_sounds_encodable(v) && bits_at(b, p0, #[trigger] enc_parse_sounds(v))
                            implies false by {
                        lemma_sounds_positions(b, p0, v);
                    }
                }
                return Err(ParseError::Codec(e));
            },
        };
        let length_word = match c_read_int(stream, 16) {
            Ok(v) => v,
            Err(e) => {
                proof {
                    assert forall|v: ParseSoundsModel|
                        parse_sounds_encodable(v) && bits_at(b, p0, #[trigger] enc_parse_sounds(v))
                            implies false by {
                        lemma_sounds_positions(b, p0, v);
                    }
                }
                return Err(ParseError::Codec(e));
            },
        };
        let length = length_word as u16;
        let data = match read_bit_vec(stream, length as usize) {
            Ok(v) => BitData(v),
            Err(e) => {
                proof {
                    assert forall|v: ParseSoundsModel|
                        parse_sounds_encodable(v) && bits_at(b, p0, #[trigger] enc_parse_sounds(v))
                            implies false by {
                        lemma_sounds_positions(b, p0, v);
                        lemma_le_bits_inj(length_word as nat, v.length as nat, 16);
                    }
                }
                return Err(ParseError::Codec(e));
            },
        };
        let r = ParseSoundsMessage { reliable, num: num_word as u8, length, data };
        proof {
            assert forall|v: ParseSoundsModel|
                parse_sounds_encodable(v) && bits_at(b, p0, #[trigger] enc_parse_sounds(v))
                    implies r@ =~~= v && rpos(*stream) == p0 + enc_parse_sounds(v).len() by {
                lemma_sounds_positions(b, p0, v);
                lemma_le_bits_inj(num_word as nat, v.num as nat, 8);
                lemma_le_bits_inj(length_word as nat, v.length as nat, 16);
            }
        }
        Ok(r)
    }

    /// Encode a sound-parse message: the exact inverse of
    /// [`ParseSoundsMessage::parse`].
    pub fn write(&self, stream: &mut Writer<'_>)
        requires
            parse_sounds_encodable(self@),
        ensures
            wbits(*final(stream)) =~= wbits(*old(stream)) + enc_parse_sounds(self@),
    {
        let mut bits: Vec<bool> = Vec::new();
        bits.push(self.reliable);
        proof {
            assert((self.num as nat) < pow2(8) && (self.length as nat) < pow2(16) && (
            self.length as nat) < pow2(16)) by {
                vstd::arithmetic::power2::lemma2_to64();
            }
            if self.reliable {
                assert((self.length as nat) < pow2(8)) by {
                    vstd::arithmetic::power2::lemma2_to64();
                }
            }
        }
        if self.reliable {
            crate::bits::push_le_bits(&mut bits, self.length as u32, 8);
        } else {
            crate::bits::push_le_bits(&mut bits, self.num as u32, 8);
            crate::bits::push_le_bits(&mut bits, self.length as u32, 16);
        }
        let mut j: usize = 0;
        let ghost mid = bits@;
        proof {
            assert(bits@ =~= mid + self.data@.take(0));
        }
        while j < self.data.0.len()
            invariant
                j <= self.data@.len(),
                bits@ =~= mid + self.data@.take(j as int),
            decreases self.data@.len() - j,
        {
            bits.push(self.data.0[j]);
            proof {
                assert(self.data@.take(j + 1) =~= self.data@.take(j as int).push(
                    self.data@[j as int],
                ));
            }
            j = j + 1;
        }
        proof {
            assert(self.data@.take(self.data@.len() as int) =~= self.data@);
        }
        flush_bits(stream, &bits);
        proof {
            assert(bits@ =~= enc_parse_sounds(self@));
        }
    }
}

/// Decomposes a placed sound-parse message.
proof fn lemma_sounds_positions(b: Seq<bool>, p0: int, v: ParseSoundsModel)
    requires
        bits_at(b, p0, enc_parse_sounds(v)),
    ensures
        0 <= p0 && p0 + 1 <= b.len(),
        b[p0] == v.reliable,
        v.reliable ==> le_bits(v.length as nat, 8) == b.subrange(p0 + 1, p0 + 9) && bits_at(
            b,
            p0 + 9,
            v.data,
        ) && enc_parse_sounds(v).len() == 9 + v.data.len(),
        !v.reliable ==> le_bits(v.num as nat, 8) == b.subrange(p0 + 1, p0 + 9) && le_bits(
            v.length as nat,
            16,
        ) == b.subrange(p0 + 9, p0 + 25) && bits_at(b, p0 + 25, v.data) && enc_parse_sounds(
            v,
        ).len() == 25 + v.data.len(),
        (v.num as nat) < pow2(8),
        (v.length as nat) < pow2(16),
        pow2(8) == 256,
{
    let e1 = seq![v.reliable];
    lemma_le_bits_len(v.num as nat, 8);
    lemma_le_bits_len(v.length as nat, 8);
    lemma_le_bits_len(v.length as nat, 16);
    if v.reliable {
        let e2 = le_bits(v.length as nat, 8);
        assert(enc_parse_sounds(v) =~= e1 + (e2 + v.data));
        lemma_bits_at_split(b, p0, e1, e2 + v.data);
        lemma_bits_at_split(b, p0 + 1, e2, v.data);
        assert(b.subrange(p0, p0 + 1) =~= e1);
        assert(b[p0] == e1[0]);
        assert(e2 =~= b.subrange(p0 + 1, p0 + 9));
    } else {
        let e2 = le_bits(v.num as nat, 8);
        let e3 = le_bits(v.length as nat, 16);
        assert(enc_parse_sounds(v) =~= e1 + (e2 + (e3 + v.data)));
        lemma_bits_at_split(b, p0, e1, e2 + (e3 + v.data));
        lemma_bits_at_split(b, p0 + 1, e2, e3 + v.data);
        lemma_bits_at_split(b, p0 + 9, e3, v.data);
        assert(b.subrange(p0, p0 + 1) =~= e1);
        assert(b[p0] == e1[0]);
        assert(e2 =~= b.subrange(p0 + 1, p0 + 9));
        assert(e3 =~= b.subrange(p0 + 9, p0 + 25));
    }
    assert(pow2(8) == 256 && pow2(16) == 65536) by {
        vstd::arithmetic::power2::lemma2_to64();
    }
}

} // verus!
