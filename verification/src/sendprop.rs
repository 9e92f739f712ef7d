//! Networked-property schema entries and their bit-exact wire form.
//!
//! One schema entry is a five-bit type tag, a zero-terminated name, sixteen
//! flag bits, and a tail that depends on the tag: a referenced table name for
//! table references and exclusion directives, a ten-bit element count for
//! arrays, or the numeric encoding parameters (two 32-bit range words and a
//! seven-bit width) for leaf values.

use vstd::prelude::*;

verus! {

use vstd::arithmetic::power2::pow2;
use crate::bits::le_bits;
use crate::bits::str_bits;
use crate::bits::str_ok;
use crate::bits::bits_at;
use crate::bits::lemma_le_bits_len;
use crate::bits::lemma_le_bits_inj;
use crate::bits::lemma_bytes_bits_len;
use crate::bits::lemma_bits_at_split;
use crate::bits::push_le_bits;
use crate::bits::push_str;
use crate::cursor::Reader;
use crate::cursor::rbits;
use crate::cursor::rpos;
use crate::cursor::c_read_int;
use crate::cursor::c_read_string;
use crate::error::MalformedSendPropDefinitionError;
use crate::error::ParseError;

/// The declared kind of one schema entry.
#[derive(Debug, Clone, Copy, PartialEq, Eq, Structural)]
pub enum SendPropType {
    Int,
    Float,
    Vector,
    VectorXY,
    Str,
    Array,
    DataTable,
}

/// The five-bit wire tag of a property kind.
pub open spec fn type_code(t: SendPropType) -> nat {
    match t {
        SendPropType::Int => 0,
        SendPropType::Float => 1,
        SendPropType::Vector => 2,
        SendPropType::VectorXY => 3,
        SendPropType::Str => 4,
        SendPropType::Array => 5,
        SendPropType::DataTable => 6,
    }
}

/// The property kind a five-bit tag names, if any.
pub open spec fn type_of_code(c: nat) -> Option<SendPropType> {
    if c == 0 {
        Some(SendPropType::Int)
    } else if c == 1 {
        Some(SendPropType::Float)
    } else if c == 2 {
        Some(SendPropType::Vector)
    } else if c == 3 {
        Some(SendPropType::VectorXY)
    } else if c == 4 {
        Some(SendPropType::Str)
    } else if c == 5 {
        Some(SendPropType::Array)
    } else if c == 6 {
        Some(SendPropType::DataTable)
    } else {
        None
    }
}

impl SendPropType {
    /// The wire tag of this kind.
    pub fn code(self) -> (r: u32)
        ensures
            r == type_code(self),
    {
        match self {
            SendPropType::Int => 0,
            SendPropType::Float => 1,
            SendPropType::Vector => 2,
            SendPropType::VectorXY => 3,
            SendPropType::Str => 4,
            SendPropType::Array => 5,
            SendPropType::DataTable => 6,
        }
    }

    /// The kind named by a wire tag.
    pub fn from_code(c: u32) -> (r: Option<SendPropType>)
        ensures
            r == type_of_code(c as nat),
    {
        if c == 0 {
            Some(SendPropType::Int)
        } else if c == 1 {
            Some(SendPropType::Float)
        } else if c == 2 {
            Some(SendPropType::Vector)
        } else if c == 3 {
            Some(SendPropType::VectorXY)
        } else if c == 4 {
            Some(SendPropType::Str)
        } else if c == 5 {
            Some(SendPropType::Array)
        } else if c == 6 {
            Some(SendPropType::DataTable)
        } else {
            None
        }
    }
}

/// Tags round-trip through their kind.
pub proof fn lemma_type_code_of(t: SendPropType)
    ensures
        type_of_code(type_code(t)) == Some(t),
        type_code(t) < 32,
{
}

/// One flag bit of a schema entry.
#[derive(Debug, Clone, Copy, PartialEq, Eq, Structural)]
pub enum SendPropFlag {
    Unsigned,
    Coord,
    NoScale,
    RoundDown,
    RoundUp,
    Normal,
    Exclude,
    Xyze,
    InsideArray,
    ProxyAlwaysYes,
    ChangesOften,
    VectorElements,
    Collapsible,
    CoordMp,
    CoordMpLowPrecision,
    CoordMpIntegral,
}

/// The bit a flag occupies in the sixteen-bit flag word.
pub open spec fn flag_mask(f: SendPropFlag) -> u16 {
    match f {
        SendPropFlag::Unsigned => 0x1,
        SendPropFlag::Coord => 0x2,
        SendPropFlag::NoScale => 0x4,
        SendPropFlag::RoundDown => 0x8,
        SendPropFlag::RoundUp => 0x10,
        SendPropFlag::Normal => 0x20,
        SendPropFlag::Exclude => 0x40,
        SendPropFlag::Xyze => 0x80,
        SendPropFlag::InsideArray => 0x100,
        SendPropFlag::ProxyAlwaysYes => 0x200,
        SendPropFlag::ChangesOften => 0x400,
        SendPropFlag::VectorElements => 0x800,
        SendPropFlag::Collapsible => 0x1000,
        SendPropFlag::CoordMp => 0x2000,
        SendPropFlag::CoordMpLowPrecision => 0x4000,
        SendPropFlag::CoordMpIntegral => 0x8000,
    }
}

/// Whether the flag word `bits` has flag `f` set.
pub open spec fn has_flag(bits: u16, f: SendPropFlag) -> bool {
    bits & flag_mask(f) != 0
}

/// The sixteen-bit flag word of one schema entry.
#[derive(Debug, Clone, Copy, PartialEq, Eq, Structural)]
pub struct SendPropFlags(pub u16);

impl Default for SendPropFlags {
    /// No flag set.
    fn default() -> (r: Self)
        ensures
            r.0 == 0,
    {
        SendPropFlags(0)
    }
}

impl SendPropFlags {
    /// The raw flag word.
    pub fn bits(self) -> (r: u16)
        ensures
            r == self.0,
    {
        self.0
    }

    /// Whether flag `f` is set.
    pub fn contains(self, f: SendPropFlag) -> (r: bool)
        ensures
            r == has_flag(self.0, f),
    {
        let m: u16 = match f {
            SendPropFlag::Unsigned => 0x1,
            SendPropFlag::Coord => 0x2,
            SendPropFlag::NoScale => 0x4,
            SendPropFlag::RoundDown => 0x8,
            SendPropFlag::RoundUp => 0x10,
            SendPropFlag::Normal => 0x20,
            SendPropFlag::Exclude => 0x40,
            SendPropFlag::Xyze => 0x80,
            SendPropFlag::InsideArray => 0x100,
            SendPropFlag::ProxyAlwaysYes => 0x200,
            SendPropFlag::ChangesOften => 0x400,
            SendPropFlag::VectorElements => 0x800,
            SendPropFlag::Collapsible => 0x1000,
            SendPropFlag::CoordMp => 0x2000,
            SendPropFlag::CoordMpLowPrecision => 0x4000,
            SendPropFlag::CoordMpIntegral => 0x8000,
        };
        self.0 & m != 0
    }

    /// This flag word with flag `f` also set.
    pub fn with(self, f: SendPropFlag) -> (r: Self)
        ensures
            r.0 == self.0 | flag_mask(f),
    {
        let m: u16 = match f {
            SendPropFlag::Unsigned => 0x1,
            SendPropFlag::Coord => 0x2,
            SendPropFlag::NoScale => 0x4,
            SendPropFlag::RoundDown => 0x8,
            SendPropFlag::RoundUp => 0x10,
            SendPropFlag::Normal => 0x20,
            SendPropFlag::Exclude => 0x40,
            SendPropFlag::Xyze => 0x80,
            SendPropFlag::InsideArray => 0x100,
            SendPropFlag::ProxyAlwaysYes => 0x200,
            SendPropFlag::ChangesOften => 0x400,
            SendPropFlag::VectorElements => 0x800,
            SendPropFlag::Collapsible => 0x1000,
            SendPropFlag::CoordMp => 0x2000,
            SendPropFlag::CoordMpLowPrecision => 0x4000,
            SendPropFlag::CoordMpIntegral => 0x8000,
        };
        SendPropFlags(self.0 | m)
    }
}

/// The mathematical value of an identifier: the owning table's name paired
/// with the property's name.
#[verifier::ext_equal]
pub ghost struct IdentModel {
    pub table: Seq<char>,
    pub prop: Seq<char>,
}

/// Stable identity of a property: the owning table name and the property
/// name.  This pair is the sole key used for cross-table exclusion matching
/// and is identical across process runs.
#[derive(Debug, Clone)]
pub struct SendPropIdentifier {
    pub table: String,
    pub prop: String,
}

impl View for SendPropIdentifier {
    type V = IdentModel;

    open spec fn view(&self) -> IdentModel {
        IdentModel { table: self.table@, prop: self.prop@ }
    }
}

impl SendPropIdentifier {
    /// The identifier of property `prop` of table `table`.
    pub fn new(table: &str, prop: &str) -> (r: Self)
        ensures
            r@ == (IdentModel { table: table@, prop: prop@ }),
    {
        SendPropIdentifier { table: table.to_owned(), prop: prop.to_owned() }
    }
}

impl PartialEq for SendPropIdentifier {
    fn eq(&self, other: &Self) -> (r: bool) {
        self.table == other.table && self.prop == other.prop
    }
}

impl vstd::std_specs::cmp::PartialEqSpecImpl for SendPropIdentifier {
    open spec fn obeys_eq_spec() -> bool {
        true
    }

    open spec fn eq_spec(&self, other: &Self) -> bool {
        self@ == other@
    }
}

/// The mathematical value of one schema entry as authored.
#[verifier::ext_equal]
pub ghost struct RawPropModel {
    pub prop_type: SendPropType,
    pub name: Seq<char>,
    pub identifier: IdentModel,
    pub flags: u16,
    pub table_name: Option<Seq<char>>,
    pub low_value: Option<u32>,
    pub high_value: Option<u32>,
    pub bit_count: Option<u32>,
    pub element_count: Option<u32>,
    pub array_property: Option<Box<RawPropModel>>,
    pub original_bit_count: Option<u32>,
}

/// One schema entry as authored: type tag, name, identifier, flag set,
/// optional table reference, numeric encoding parameters, optional element
/// count, and — only on an array owner — the owned array-element entry that
/// preceded it on the wire.  The two range words hold the raw 32-bit images
/// of the authored bounds.
#[derive(Debug)]
pub struct RawSendPropDefinition {
    pub prop_type: SendPropType,
    pub name: String,
    pub identifier: SendPropIdentifier,
    pub flags: SendPropFlags,
    pub table_name: Option<crate::datatable::SendTableName>,
    pub low_value: Option<u32>,
    pub high_value: Option<u32>,
    pub bit_count: Option<u32>,
    pub element_count: Option<u32>,
    pub array_property: Option<Box<RawSendPropDefinition>>,
    pub original_bit_count: Option<u32>,
}

/// The mathematical value of a schema entry.
pub open spec fn raw_prop_model(p: RawSendPropDefinition) -> RawPropModel
    decreases p,
{
    RawPropModel {
        prop_type: p.prop_type,
        name: p.name@,
        identifier: p.identifier@,
        flags: p.flags.0,
        table_name: match p.table_name {
            Some(t) => Some(t@),
            None => None,
        },
        low_value: p.low_value,
        high_value: p.high_value,
        bit_count: p.bit_count,
        element_count: p.element_count,
        array_property: match p.array_property {
            Some(c) => Some(Box::new(raw_prop_model(*c))),
            None => None,
        },
        original_bit_count: p.original_bit_count,
    }
}

impl View for RawSendPropDefinition {
    type V = RawPropModel;

    open spec fn view(&self) -> RawPropModel {
        raw_prop_model(*self)
    }
}

/// The wire tail of one entry, following the tag, name and flags.
pub open spec fn enc_prop_tail(p: RawPropModel) -> Seq<bool> {
    if p.prop_type == SendPropType::DataTable || has_flag(p.flags, SendPropFlag::Exclude) {
        match p.table_name {
            Some(t) => str_bits(t),
            None => Seq::empty(),
        }
    } else if p.prop_type == SendPropType::Array {
        match p.element_count {
            Some(c) => le_bits(c as nat, 10),
            None => Seq::empty(),
        }
    } else {
        match (p.low_value, p.high_value, p.bit_count) {
            (Some(l), Some(h), Some(b)) => le_bits(l as nat, 32) + le_bits(h as nat, 32) + le_bits(
                b as nat,
                7,
            ),
            _ => Seq::empty(),
        }
    }
}

/// The complete wire form of one entry.  The owned array element, if any, is
/// not part of it: the element travels as the entry just before its owner.
pub open spec fn enc_prop(p: RawPropModel) -> Seq<bool> {
    le_bits(type_code(p.prop_type), 5) + str_bits(p.name) + le_bits(p.flags as nat, 16)
        + enc_prop_tail(p)
}

/// A single entry that the wire can carry back unchanged when read for table
/// `table`: its name survives the wire, its identifier is derived from
/// `table` and its name, and exactly the fields of its tail branch are
/// present.  Says nothing about array pairing, which is a property of the
/// surrounding entry list.
pub open spec fn prop_encodable(p: RawPropModel, table: Seq<char>) -> bool {
    &&& str_ok(p.name)
    &&& p.identifier == (IdentModel { table: table, prop: p.name })
    &&& if p.prop_type == SendPropType::DataTable || has_flag(p.flags, SendPropFlag::Exclude) {
        &&& p.table_name matches Some(t) && str_ok(t)
        &&& p.low_value is None
        &&& p.high_value is None
        &&& p.bit_count is None
        &&& p.element_count is None
        &&& p.original_bit_count is None
    } else if p.prop_type == SendPropType::Array {
        &&& p.element_count matches Some(c) && c < 1024
        &&& p.table_name is None
        &&& p.low_value is None
        &&& p.high_value is None
        &&& p.bit_count is None
        &&& p.original_bit_count is None
    } else {
        &&& p.low_value is Some
        &&& p.high_value is Some
        &&& p.bit_count matches Some(b) && b < 128
        &&& p.original_bit_count == p.bit_count
        &&& p.table_name is None
        &&& p.element_count is None
    }
}

/// Decomposes a placed entry: where each of its four wire segments lies,
/// and how long the whole entry is.
pub proof fn lemma_prop_enc_positions(b: Seq<bool>, p0: int, q: RawPropModel)
    requires
        bits_at(b, p0, enc_prop(q)),
    ensures
        le_bits(type_code(q.prop_type), 5).len() == 5,
        str_bits(q.name).len() >= 8,
        le_bits(q.flags as nat, 16).len() == 16,
        le_bits(type_code(q.prop_type), 5) == b.subrange(p0, p0 + 5),
        bits_at(b, p0 + 5, str_bits(q.name)),
        le_bits(q.flags as nat, 16) == b.subrange(
            p0 + 5 + str_bits(q.name).len(),
            p0 + 21 + str_bits(q.name).len(),
        ),
        bits_at(b, p0 + 21 + str_bits(q.name).len(), enc_prop_tail(q)),
        enc_prop(q).len() == 21 + str_bits(q.name).len() + enc_prop_tail(q).len(),
        type_code(q.prop_type) < pow2(5),
        (q.flags as nat) < pow2(16),
{
    let e1 = le_bits(type_code(q.prop_type), 5);
    let e2 = str_bits(q.name);
    let e3 = le_bits(q.flags as nat, 16);
    let e4 = enc_prop_tail(q);
    lemma_le_bits_len(type_code(q.prop_type), 5);
    lemma_le_bits_len(q.flags as nat, 16);
    crate::bits::lemma_bytes_bits_len(
        vstd::utf8::encode_utf8(q.name) + seq![0u8],
    );
    assert(enc_prop(q) =~= e1 + (e2 + (e3 + e4)));
    lemma_bits_at_split(b, p0, e1, e2 + (e3 + e4));
    lemma_bits_at_split(b, p0 + 5, e2, e3 + e4);
    lemma_bits_at_split(b, p0 + 5 + e2.len(), e3, e4);
    assert(e1 =~= b.subrange(p0, p0 + 5));
    assert(e3 =~= b.subrange(p0 + 5 + e2.len(), p0 + 21 + e2.len()));
    lemma_type_code_of(q.prop_type);
    assert(pow2(5) == 32 && pow2(16) == 65536) by {
        vstd::arithmetic::power2::lemma2_to64();
    }
}

/// Read one schema entry for table `owner` from the cursor.
///
/// When the wire form of an entry `q` readable for `owner` lies at the
/// cursor, exactly `q` (with no owned array element) comes back and exactly
/// its bits are consumed.
pub fn read_raw_prop(s: &mut Reader<'_>, owner: &str) -> (r: Result<
    RawSendPropDefinition,
    ParseError,
>)
    ensures
        rbits(*final(s)) == rbits(*old(s)),
        rpos(*final(s)) <= rbits(*final(s)).len(),
        rpos(*old(s)) <= rpos(*final(s)),
        r is Ok ==> r->Ok_0@.array_property is None,
        forall|q: RawPropModel|
            prop_encodable(q, owner@) && q.array_property is None && bits_at(
                rbits(*old(s)),
                rpos(*old(s)) as int,
                #[trigger] enc_prop(q),
            ) ==> {
                &&& r is Ok
                &&& r->Ok_0@ == q
                &&& rpos(*final(s)) == rpos(*old(s)) + enc_prop(q).len()
            },
{
    let ghost b = rbits(*old(s));
    let ghost p0 = rpos(*old(s)) as int;
    let code = match c_read_int(s, 5) {
        Ok(v) => v,
        Err(e) => {
            proof {
                assert forall|q: RawPropModel|
                    prop_encodable(q, owner@) && q.array_property is None && bits_at(
                        b,
                        p0,
                        #[trigger] enc_prop(q),
                    ) implies false by {
                    lemma_prop_enc_positions(b, p0, q);
                }
            }
            return Err(ParseError::Codec(e));
        },
    };
    let ghost p1 = rpos(*s) as int;
    let prop_type = match SendPropType::from_code(code) {
        Some(t) => t,
        None => {
            proof {
                assert forall|q: RawPropModel|
                    prop_encodable(q, owner@) && q.array_property is None && bits_at(
                        b,
                        p0,
                        #[trigger] enc_prop(q),
                    ) implies false by {
                    lemma_prop_enc_positions(b, p0, q);
                    lemma_le_bits_inj(code as nat, type_code(q.prop_type), 5);
                }
            }
            return Err(ParseError::Malformed(MalformedSendPropDefinitionError::InvalidPropType(
                code,
            )));
        },
    };
    let name = match c_read_string(s) {
        Ok(v) => v,
        Err(e) => {
            proof {
                assert forall|q: RawPropModel|
                    prop_encodable(q, owner@) && q.array_property is None && bits_at(
                        b,
                        p0,
                        #[trigger] enc_prop(q),
                    ) implies false by {
                    lemma_prop_enc_positions(b, p0, q);
                }
            }
            return Err(ParseError::Codec(e));
        },
    };
    let ghost p2 = rpos(*s) as int;
    let flags_word = match c_read_int(s, 16) {
        Ok(v) => v,
        Err(e) => {
            proof {
                assert forall|q: RawPropModel|
                    prop_encodable(q, owner@) && q.array_property is None && bits_at(
                        b,
                        p0,
                        #[trigger] enc_prop(q),
                    ) implies false by {
                    lemma_prop_enc_positions(b, p0, q);
                }
            }
            return Err(ParseError::Codec(e));
        },
    };
    let ghost p3 = rpos(*s) as int;
    let flags = SendPropFlags(flags_word as u16);
    let identifier = SendPropIdentifier::new(owner, name.as_str());

    if matches!(prop_type, SendPropType::DataTable) || flags.contains(SendPropFlag::Exclude) {
        let table_name = match c_read_string(s) {
            Ok(v) => v,
            Err(e) => {
                proof {
                    assert forall|q: RawPropModel|
                        prop_encodable(q, owner@) && q.array_property is None && bits_at(
                            b,
                            p0,
                            #[trigger] enc_prop(q),
                        ) implies false by {
                        lemma_prop_enc_positions(b, p0, q);
                        lemma_prop_read_header(b, p0, q, code as nat, flags_word as nat, name@);
                    }
                }
                return Err(ParseError::Codec(e));
            },
        };
        let r = RawSendPropDefinition {
            prop_type,
            name,
            identifier,
            flags,
            table_name: Some(crate::datatable::SendTableName(table_name)),
            low_value: None,
            high_value: None,
            bit_count: None,
            element_count: None,
            array_property: None,
            original_bit_count: None,
        };
        proof {
            assert forall|q: RawPropModel|
                prop_encodable(q, owner@) && q.array_property is None && bits_at(
                    b,
                    p0,
                    #[trigger] enc_prop(q),
                ) implies r@ =~~= q && rpos(*s) == p0 + enc_prop(q).len() by {
                lemma_prop_enc_positions(b, p0, q);
                lemma_prop_read_header(b, p0, q, code as nat, flags_word as nat, name@);
            }
        }
        return Ok(r);
    }
    if matches!(prop_type, SendPropType::Array) {
        let element_count = match c_read_int(s, 10) {
            Ok(v) => v,
            Err(e) => {
                proof {
                    assert forall|q: RawPropModel|
                        prop_encodable(q, owner@) && q.array_property is None && bits_at(
                            b,
                            p0,
                            #[trigger] enc_prop(q),
                        ) implies false by {
                        lemma_prop_enc_positions(b, p0, q);
                        lemma_prop_read_header(b, p0, q, code as nat, flags_word as nat, name@);
                        lemma_le_bits_len(q.element_count->Some_0 as nat, 10);
                    }
                }
                return Err(ParseError::Codec(e));
            },
        };
        let r = RawSendPropDefinition {
            prop_type,
            name,
            identifier,
            flags,
            table_name: None,
            low_value: None,
            high_value: None,
            bit_count: None,
            element_count: Some(element_count),
            array_property: None,
            original_bit_count: None,
        };
        proof {
            assert forall|q: RawPropModel|
                prop_encodable(q, owner@) && q.array_property is None && bits_at(
                    b,
                    p0,
                    #[trigger] enc_prop(q),
                ) implies r@ =~~= q && rpos(*s) == p0 + enc_prop(q).len() by {
                lemma_prop_enc_positions(b, p0, q);
                lemma_prop_read_header(b, p0, q, code as nat, flags_word as nat, name@);
                let c = q.element_count->Some_0;
                lemma_le_bits_len(c as nat, 10);
                lemma_le_bits_len(element_count as nat, 10);
                assert(le_bits(element_count as nat, 10) == b.subrange(p3, p3 + 10));
                assert(enc_prop_tail(q) =~= le_bits(c as nat, 10));
                assert(le_bits(c as nat, 10) =~= b.subrange(p3, p3 + 10));
                assert((c as nat) < pow2(10) && 1024 == pow2(10)) by {
                    vstd::arithmetic::power2::lemma2_to64();
                }
                lemma_le_bits_inj(element_count as nat, c as nat, 10);
            }
        }
        return Ok(r);
    }
    let low_value = match c_read_int(s, 32) {
        Ok(v) => v,
        Err(e) => {
            proof {
                assert forall|q: RawPropModel|
                    prop_encodable(q, owner@) && q.array_property is None && bits_at(
                        b,
                        p0,
                        #[trigger] enc_prop(q),
                    ) implies false by {
                    lemma_prop_enc_positions(b, p0, q);
                    lemma_prop_read_header(b, p0, q, code as nat, flags_word as nat, name@);
                    lemma_le_bits_len(q.low_value->Some_0 as nat, 32);
                    lemma_le_bits_len(q.high_value->Some_0 as nat, 32);
                    lemma_le_bits_len(q.bit_count->Some_0 as nat, 7);
                    assert(enc_prop_tail(q).len() == 71);
                }
            }
            return Err(ParseError::Codec(e));
        },
    };
    let ghost p4 = rpos(*s) as int;
    let high_value = match c_read_int(s, 32) {
        Ok(v) => v,
        Err(e) => {
            proof {
                assert forall|q: RawPropModel|
                    prop_encodable(q, owner@) && q.array_property is None && bits_at(
                        b,
                        p0,
                        #[trigger] enc_prop(q),
                    ) implies false by {
                    lemma_prop_enc_positions(b, p0, q);
                    lemma_prop_read_header(b, p0, q, code as nat, flags_word as nat, name@);
                    lemma_le_bits_len(q.low_value->Some_0 as nat, 32);
                    lemma_le_bits_len(q.high_value->Some_0 as nat, 32);
                    lemma_le_bits_len(q.bit_count->Some_0 as nat, 7);
                    assert(enc_prop_tail(q).len() == 71);
                }
            }
            return Err(ParseError::Codec(e));
        },
    };
    let ghost p5 = rpos(*s) as int;
    let bit_count = match c_read_int(s, 7) {
        Ok(v) => v,
        Err(e) => {
            proof {
                assert forall|q: RawPropModel|
                    prop_encodable(q, owner@) && q.array_property is None && bits_at(
                        b,
                        p0,
                        #[trigger] enc_prop(q),
                    ) implies false by {
                    lemma_prop_enc_positions(b, p0, q);
                    lemma_prop_read_header(b, p0, q, code as nat, flags_word as nat, name@);
                    lemma_le_bits_len(q.low_value->Some_0 as nat, 32);
                    lemma_le_bits_len(q.high_value->Some_0 as nat, 32);
                    lemma_le_bits_len(q.bit_count->Some_0 as nat, 7);
                    assert(enc_prop_tail(q).len() == 71);
                }
            }
            return Err(ParseError::Codec(e));
        },
    };
    let r = RawSendPropDefinition {
        prop_type,
        name,
        identifier,
        flags,
        table_name: None,
        low_value: Some(low_value),
        high_value: Some(high_value),
        bit_count: Some(bit_count),
        element_count: None,
        array_property: None,
        original_bit_count: Some(bit_count),
    };
    proof {
        assert forall|q: RawPropModel|
            prop_encodable(q, owner@) && q.array_property is None && bits_at(
                b,
                p0,
                #[trigger] enc_prop(q),
            ) implies r@ =~~= q && rpos(*s) == p0 + enc_prop(q).len() by {
            lemma_prop_enc_positions(b, p0, q);
            lemma_prop_read_header(b, p0, q, code as nat, flags_word as nat, name@);
            let l = q.low_value->Some_0;
            let h = q.high_value->Some_0;
            let bc = q.bit_count->Some_0;
            let tail = enc_prop_tail(q);
            assert(tail =~= le_bits(l as nat, 32) + (le_bits(h as nat, 32) + le_bits(
                bc as nat,
                7,
            )));
            lemma_le_bits_len(l as nat, 32);
            lemma_le_bits_len(h as nat, 32);
            lemma_le_bits_len(bc as nat, 7);
            lemma_bits_at_split(b, p3, le_bits(l as nat, 32), le_bits(h as nat, 32) + le_bits(
                bc as nat,
                7,
            ));
            lemma_bits_at_split(b, p4, le_bits(h as nat, 32), le_bits(bc as nat, 7));
            proof_u32_fits(low_value);
            proof_u32_fits(l);
            proof_u32_fits(high_value);
            proof_u32_fits(h);
            assert((bc as nat) < pow2(7) && (bit_count as nat) < pow2(7)) by {
                vstd::arithmetic::power2::lemma2_to64();
            }
            lemma_le_bits_len(low_value as nat, 32);
            assert(le_bits(low_value as nat, 32) == b.subrange(p3, p3 + 32));
            assert(le_bits(l as nat, 32) =~= b.subrange(p3, p3 + 32));
            lemma_le_bits_inj(low_value as nat, l as nat, 32);
            lemma_le_bits_len(high_value as nat, 32);
            assert(le_bits(high_value as nat, 32) == b.subrange(p4, p4 + 32));
            assert(le_bits(h as nat, 32) =~= b.subrange(p4, p4 + 32));
            lemma_le_bits_inj(high_value as nat, h as nat, 32);
            lemma_le_bits_len(bit_count as nat, 7);
            assert(le_bits(bit_count as nat, 7) == b.subrange(p5, p5 + 7));
            assert(le_bits(bc as nat, 7) =~= b.subrange(p5, p5 + 7));
            lemma_le_bits_inj(bit_count as nat, bc as nat, 7);
        }
    }
    Ok(r)
}

/// Any `u32` fits in 32 bits.
proof fn proof_u32_fits(v: u32)
    ensures
        (v as nat) < pow2(32),
{
    vstd::arithmetic::power2::lemma2_to64();
}

/// Relates the tag, name and flag word that a run of the reader produced to
/// the fields of an entry placed where the run started.
proof fn lemma_prop_read_header(
    b: Seq<bool>,
    p0: int,
    q: RawPropModel,
    code: nat,
    flags_word: nat,
    name: Seq<char>,
)
    requires
        bits_at(b, p0, enc_prop(q)),
        str_ok(q.name),
        code < pow2(5),
        flags_word < pow2(16),
        le_bits(code, 5) == b.subrange(p0, p0 + 5),
        name == q.name,
        le_bits(flags_word, 16) == b.subrange(
            p0 + 5 + str_bits(q.name).len(),
            p0 + 21 + str_bits(q.name).len(),
        ),
    ensures
        code == type_code(q.prop_type),
        type_of_code(code) == Some(q.prop_type),
        flags_word == q.flags,
        bits_at(b, p0 + 21 + str_bits(q.name).len(), enc_prop_tail(q)),
{
    lemma_prop_enc_positions(b, p0, q);
    lemma_le_bits_inj(code, type_code(q.prop_type), 5);
    lemma_le_bits_inj(flags_word, q.flags as nat, 16);
    lemma_type_code_of(q.prop_type);
}

/// Append the wire form of one schema entry (tag, name, flags, tail).  The
/// owned array element, if any, is not written here: the surrounding list
/// writer emits it as the entry just before this one.
pub fn write_raw_prop(out: &mut Vec<bool>, p: &RawSendPropDefinition)
    requires
        prop_encodable(raw_prop_model(*p), p.identifier@.table),
    ensures
        final(out)@ =~= old(out)@ + enc_prop(raw_prop_model(*p)),
{
    let ghost q = raw_prop_model(*p);
    proof {
        lemma_type_code_of(p.prop_type);
        assert(pow2(5) == 32) by {
            vstd::arithmetic::power2::lemma2_to64();
        }
    }
    push_le_bits(out, p.prop_type.code(), 5);
    push_str(out, self_name_str(p));
    proof {
        assert((p.flags.0 as nat) < pow2(16)) by {
            vstd::arithmetic::power2::lemma2_to64();
        }
    }
    push_le_bits(out, p.flags.bits() as u32, 16);
    if matches!(p.prop_type, SendPropType::DataTable) || p.flags.contains(SendPropFlag::Exclude) {
        match &p.table_name {
            Some(t) => {
                push_str(out, t.as_str());
            },
            None => {
                proof {
                    assert(false);
                }
            },
        }
    } else if matches!(p.prop_type, SendPropType::Array) {
        match &p.element_count {
            Some(c) => {
                proof {
                    assert((*c as nat) < pow2(10)) by {
                        vstd::arithmetic::power2::lemma2_to64();
                    }
                }
                push_le_bits(out, *c, 10);
            },
            None => {
                proof {
                    assert(false);
                }
            },
        }
    } else {
        match (&p.low_value, &p.high_value, &p.bit_count) {
            (Some(l), Some(h), Some(bc)) => {
                proof {
                    proof_u32_fits(*l);
                    proof_u32_fits(*h);
                    assert((*bc as nat) < pow2(7)) by {
                        vstd::arithmetic::power2::lemma2_to64();
                    }
                }
                push_le_bits(out, *l, 32);
                push_le_bits(out, *h, 32);
                push_le_bits(out, *bc, 7);
            },
            _ => {
                proof {
                    assert(false);
                }
            },
        }
    }
}

/// The entry's name as a borrowed string slice.
fn self_name_str(p: &RawSendPropDefinition) -> (r: &str)
    ensures
        r@ == p.name@,
{
    p.name.as_str()
}

/// The mathematical value of a fully resolved property.
#[verifier::ext_equal]
pub ghost struct PropDefModel {
    pub prop_type: SendPropType,
    pub name: Seq<char>,
    pub identifier: IdentModel,
    pub flags: u16,
    pub low_value: Option<u32>,
    pub high_value: Option<u32>,
    pub bit_count: Option<u32>,
    pub element_count: Option<u32>,
    pub array_property: Option<Box<PropDefModel>>,
}

/// A fully resolved property: the same content as a raw definition, but
/// guaranteed well-formed for its declared type.
#[derive(Debug)]
pub struct SendPropDefinition {
    pub prop_type: SendPropType,
    pub name: String,
    pub identifier: SendPropIdentifier,
    pub flags: SendPropFlags,
    pub low_value: Option<u32>,
    pub high_value: Option<u32>,
    pub bit_count: Option<u32>,
    pub element_count: Option<u32>,
    pub array_property: Option<Box<SendPropDefinition>>,
}

/// The mathematical value of a resolved property.
pub open spec fn prop_def_model(p: SendPropDefinition) -> PropDefModel
    decreases p,
{
    PropDefModel {
        prop_type: p.prop_type,
        name: p.name@,
        identifier: p.identifier@,
        flags: p.flags.0,
        low_value: p.low_value,
        high_value: p.high_value,
        bit_count: p.bit_count,
        element_count: p.element_count,
        array_property: match p.array_property {
            Some(c) => Some(Box::new(prop_def_model(*c))),
            None => None,
        },
    }
}

impl View for SendPropDefinition {
    type V = PropDefModel;

    open spec fn view(&self) -> PropDefModel {
        prop_def_model(*self)
    }
}

/// Whether a raw entry is well-formed for its declared type: a table
/// reference is no leaf, an array owns an element and has a count, and a
/// scalar leaf carries a usable bit width.
pub open spec fn resolvable(p: RawPropModel) -> bool
    decreases p,
{
    if p.prop_type == SendPropType::DataTable {
        false
    } else if p.prop_type == SendPropType::Array {
        &&& p.element_count is Some
        &&& match p.array_property {
            Some(c) => resolvable(*c),
            None => false,
        }
    } else {
        p.bit_count matches Some(b) && 1 <= b <= 32
    }
}

/// The resolved form of a resolvable raw entry.
pub open spec fn resolve_model(p: RawPropModel) -> PropDefModel
    decreases p,
{
    PropDefModel {
        prop_type: p.prop_type,
        name: p.name,
        identifier: p.identifier,
        flags: p.flags,
        low_value: p.low_value,
        high_value: p.high_value,
        bit_count: p.bit_count,
        element_count: p.element_count,
        array_property: if p.prop_type == SendPropType::Array {
            match p.array_property {
                Some(c) => Some(Box::new(resolve_model(*c))),
                None => None,
            }
        } else {
            None
        },
    }
}

impl SendPropIdentifier {
    /// A copy of this identifier with the same mathematical value.
    pub fn duplicate(&self) -> (r: Self)
        ensures
            r@ == self@,
    {
        SendPropIdentifier { table: self.table.clone(), prop: self.prop.clone() }
    }
}

impl SendPropDefinition {
    /// Resolve one raw entry, failing exactly when it is ill-formed for its
    /// declared type.
    pub fn try_from_raw(raw: &RawSendPropDefinition) -> (r: Result<SendPropDefinition, ParseError>)
        ensures
            r is Ok <==> resolvable(raw@),
            r is Ok ==> r->Ok_0@ == resolve_model(raw@),
        decreases *raw,
    {
        if matches!(raw.prop_type, SendPropType::DataTable) {
            return Err(ParseError::Malformed(MalformedSendPropDefinitionError::InvalidDefinition));
        }
        if matches!(raw.prop_type, SendPropType::Array) {
            if raw.element_count.is_none() {
                return Err(ParseError::Malformed(
                    MalformedSendPropDefinitionError::InvalidDefinition,
                ));
            }
            match &raw.array_property {
                Some(c) => {
                    let child = Self::try_from_raw(c)?;
                    let r = SendPropDefinition {
                        prop_type: raw.prop_type,
                        name: raw.name.clone(),
                        identifier: raw.identifier.duplicate(),
                        flags: raw.flags,
                        low_value: raw.low_value,
                        high_value: raw.high_value,
                        bit_count: raw.bit_count,
                        element_count: raw.element_count,
                        array_property: Some(Box::new(child)),
                    };
                    proof {
                        assert(r@ =~~= resolve_model(raw@));
                    }
                    Ok(r)
                },
                None => Err(ParseError::Malformed(
                    MalformedSendPropDefinitionError::InvalidDefinition,
                )),
            }
        } else {
            match &raw.bit_count {
                Some(b) => {
                    if *b < 1 || *b > 32 {
                        return Err(ParseError::Malformed(
                            MalformedSendPropDefinitionError::InvalidDefinition,
                        ));
                    }
                    let r = SendPropDefinition {
                        prop_type: raw.prop_type,
                        name: raw.name.clone(),
                        identifier: raw.identifier.duplicate(),
                        flags: raw.flags,
                        low_value: raw.low_value,
                        high_value: raw.high_value,
                        bit_count: raw.bit_count,
                        element_count: raw.element_count,
                        array_property: None,
                    };
                    proof {
                        assert(r@ =~~= resolve_model(raw@));
                    }
                    Ok(r)
                },
                None => Err(ParseError::Malformed(
                    MalformedSendPropDefinitionError::InvalidDefinition,
                )),
            }
        }
    }

    /// Whether this property is flagged as changing often.
    pub fn changes_often(&self) -> (r: bool)
        ensures
            r == has_flag(self@.flags, SendPropFlag::ChangesOften),
    {
        self.flags.contains(SendPropFlag::ChangesOften)
    }
}

impl RawSendPropDefinition {
    /// Whether this entry is an exclusion directive.
    pub fn is_exclude(&self) -> (r: bool)
        ensures
            r == has_flag(self@.flags, SendPropFlag::Exclude),
    {
        self.flags.contains(SendPropFlag::Exclude)
    }

    /// The table an exclusion directive removes a property from, if this
    /// entry is one.
    pub fn get_exclude_table(&self) -> (r: Option<&crate::datatable::SendTableName>)
        ensures
            r is Some <==> (has_flag(self@.flags, SendPropFlag::Exclude) && self@.table_name
                is Some),
            r is Some ==> self@.table_name == Some(r->Some_0@),
    {
        if self.flags.contains(SendPropFlag::Exclude) {
            self.table_name.as_ref()
        } else {
            None
        }
    }

    /// This entry owning `element` as its array element.
    pub fn with_array_property(self, element: RawSendPropDefinition) -> (r: Self)
        ensures
            r@ == crate::datatable::with_child_model(self@, element@),
    {
        let r = RawSendPropDefinition { array_property: Some(Box::new(element)), ..self };
        proof {
            assert(r@ =~~= crate::datatable::with_child_model(self@, element@));
        }
        r
    }
}

} // verus!
