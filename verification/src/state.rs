//! Long-lived per-parse state: resolved schemas, the server-class list,
//! baselines, string-table metadata and demo metadata.
//!
//! Each DataTables packet replaces the schema tables and the server-class
//! list wholesale — the last decoded packet wins, with no merge into prior
//! tables — while string-table metadata is append-only and baselines are
//! inserted incrementally.

use vstd::prelude::*;

verus! {

use std::collections::HashMap;
use vstd::string::StringSliceAdditionalSpecFns;
use crate::datatable::SendTable;
use crate::datatable::ServerClass;
use crate::message::GameEventDefinition;
use crate::message::Message;
use crate::message::MessageType;
use crate::message::StringTableEntry;
use crate::message::StringTableMeta;
use crate::message::entry_text;
use crate::sendprop::SendPropIdentifier;
use crate::handler::MessageHandler;

/// One resolved property value inside a baseline snapshot.
#[derive(Debug, Clone)]
pub enum SendPropValue {
    Int(i64),
    Text(String),
    Raw(Vec<u8>),
}

/// One property instance of a baseline: its identity and decoded value.
#[derive(Debug, Clone)]
pub struct SendProp {
    pub identifier: SendPropIdentifier,
    pub value: SendPropValue,
}

/// Demo metadata from the session handshake.  The tick interval carries the
/// raw 32-bit image of the authored floating-point value.
#[derive(Debug, Clone)]
pub struct DemoMeta {
    pub version: u16,
    pub game: String,
    pub interval_per_tick: u32,
}

/// A deferred per-class baseline: raw bytes parsed lazily, memoized on
/// first use.
#[derive(Debug, Clone)]
pub struct StaticBaseline {
    pub class_id: u32,
    pub raw: Vec<u8>,
    pub parsed: Option<Vec<SendProp>>,
}

impl StaticBaseline {
    /// A fresh, not yet parsed baseline for the class.
    pub fn new(class_id: u32, raw: Vec<u8>) -> (r: Self)
        ensures
            r.class_id == class_id,
            r.raw@ == raw@,
            r.parsed is None,
    {
        StaticBaseline { class_id, raw, parsed: None }
    }
}

/// The first table of the given name in a table list, if any.
pub open spec fn st_find(s: Seq<SendTable>, n: Seq<char>) -> Option<SendTable>
    decreases s.len(),
{
    if s.len() == 0 {
        None
    } else if s[0].name@ == n {
        Some(s[0])
    } else {
        st_find(s.drop_first(), n)
    }
}

/// The last table of the given name in a table list, if any: the one that
/// wins when a packet repeats a name.
pub open spec fn st_find_last(s: Seq<SendTable>, n: Seq<char>) -> Option<SendTable>
    decreases s.len(),
{
    if s.len() == 0 {
        None
    } else if s.last().name@ == n {
        Some(s.last())
    } else {
        st_find_last(s.drop_last(), n)
    }
}

/// No two tables in the list share a name.
pub open spec fn st_unique(s: Seq<SendTable>) -> bool {
    forall|i: int, j: int| 0 <= i < j < s.len() ==> (#[trigger] s[i]).name@ != (#[trigger] s[j]).name@
}

/// The value of the decimal digits of `bytes`, or `None` when `bytes` is
/// empty, holds a non-digit, or overflows 32 bits.
pub open spec fn dec_value(bytes: Seq<u8>, acc: nat) -> Option<nat>
    decreases bytes.len(),
{
    if bytes.len() == 0 {
        Some(acc)
    } else if 48 <= bytes[0] <= 57 {
        let v = acc * 10 + (bytes[0] - 48);
        if v > u32::MAX {
            None
        } else {
            dec_value(bytes.drop_first(), v as nat)
        }
    } else {
        None
    }
}

/// The class id named by a baseline entry's text: decimal digits, allowing
/// one leading plus sign.
pub open spec fn dec_parse(bytes: Seq<u8>) -> Option<u32> {
    if bytes.len() == 0 {
        None
    } else {
        let digits = if bytes[0] == 43 {
            bytes.drop_first()
        } else {
            bytes
        };
        if digits.len() == 0 {
            None
        } else {
            match dec_value(digits, 0) {
                Some(v) => Some(v as u32),
                None => None,
            }
        }
    }
}

/// Parse an unsigned decimal number from the UTF-8 bytes of a string.
pub fn parse_dec_u32(s: &str) -> (r: Option<u32>)
    ensures
        r == dec_parse(s.spec_bytes()),
{
    let bs = s.as_bytes();
    if bs.len() == 0 {
        return None;
    }
    let ghost whole = bs@;
    let start: usize = if bs[0] == 43 {
        1
    } else {
        0
    };
    if start == 1 && bs.len() == 1 {
        return None;
    }
    let ghost digits = whole.skip(start as int);
    let mut acc: u32 = 0;
    let mut i: usize = start;
    proof {
        if start == 1 {
            assert(whole.drop_first() =~= whole.skip(1));
        } else {
            assert(whole.skip(0) =~= whole);
        }
    }
    while i < bs.len()
        invariant
            start <= i <= whole.len(),
            start <= 1,
            whole == bs@,
            whole == s.spec_bytes(),
            bs@.len() > start,
            digits == whole.skip(start as int),
            start == 1 ==> whole[0] == 43 && whole.drop_first() == digits,
            start == 0 ==> whole[0] != 43 && whole == digits,
            dec_value(digits, 0) == dec_value(whole.skip(i as int), acc as nat),
        decreases whole.len() - i,
    {
        let b = bs[i];
        proof {
            assert(whole.skip(i as int)[0] == whole[i as int]);
            assert(whole.skip(i as int).drop_first() =~= whole.skip(i + 1));
        }
        if b < 48 || b > 57 {
            proof {
                assert(dec_value(whole.skip(i as int), acc as nat) is None);
            }
            return None;
        }
        if acc > (u32::MAX - (b - 48) as u32) / 10 {
            proof {
                assert((acc as nat) * 10 + (b - 48) > u32::MAX) by (nonlinear_arith)
                    requires
                        acc > (u32::MAX - (b - 48) as u32) / 10,
                        48 <= b <= 57,
                        u32::MAX == 0xffff_ffff,
                ;
                assert(dec_value(whole.skip(i as int), acc as nat) is None);
            }
            return None;
        }
        proof {
            assert((acc as nat) * 10 + (b - 48) <= u32::MAX) by (nonlinear_arith)
                requires
                    acc <= (u32::MAX - (b - 48) as u32) / 10,
                    48 <= b <= 57,
                    u32::MAX == 0xffff_ffff,
            ;
        }
        acc = acc * 10 + (b - 48) as u32;
        i = i + 1;
    }
    proof {
        assert(whole.skip(whole.len() as int).len() == 0);
    }
    Some(acc)
}

/// Which message types the core's own bookkeeping consumes.
pub open spec fn core_handles(t: MessageType) -> bool {
    t == MessageType::ServerInfo || t == MessageType::GameEventList || t
        == MessageType::CreateStringTable || t == MessageType::UpdateStringTable
}

/// The per-parse mutable aggregate of cross-packet context, and itself the
/// protocol-bookkeeping message handler.
pub struct ParserState {
    /// Deferred per-class baselines, keyed by class id.
    pub static_baselines: HashMap<u32, StaticBaseline>,
    /// Game-event definitions, replaced wholesale by the event-list message.
    pub event_definitions: Vec<GameEventDefinition>,
    /// Metadata of every announced string table, in announcement order.
    pub string_tables: Vec<StringTableMeta>,
    /// The server class of each live entity, keyed by entity id.
    pub entity_classes: HashMap<u32, ServerClass>,
    /// Resolved schema tables, keyed by unique name.
    pub send_tables: Vec<SendTable>,
    /// The current server-class list; replaced wholesale per packet.
    pub server_classes: Vec<ServerClass>,
    /// Two generations of per-entity instance baselines, keyed by entity id.
    pub instance_baselines: [HashMap<u32, Vec<SendProp>>; 2],
    /// Demo metadata, set once from the session handshake.
    pub demo_meta: DemoMeta,
    /// The message types an attached consumer declared interest in.
    pub analyser_handles: Vec<MessageType>,
}

impl ParserState {
    /// A fresh state with no schemas, classes, baselines or metadata, for a
    /// consumer interested in the given message types.
    pub fn new(analyser_handles: Vec<MessageType>) -> (r: Self)
        ensures
            r.static_baselines@ == Map::<u32, StaticBaseline>::empty(),
            r.event_definitions@.len() == 0,
            r.string_tables@.len() == 0,
            r.entity_classes@ == Map::<u32, ServerClass>::empty(),
            r.send_tables@.len() == 0,
            r.server_classes@.len() == 0,
            r.demo_meta.version == 0,
            r.demo_meta.game@ == Seq::<char>::empty(),
            r.demo_meta.interval_per_tick == 0,
            r.instance_baselines@[0]@ == Map::<u32, Vec<SendProp>>::empty(),
            r.instance_baselines@[1]@ == Map::<u32, Vec<SendProp>>::empty(),
            r.analyser_handles@ == analyser_handles@,
            st_unique(r.send_tables@),
    {
        ParserState {
            static_baselines: HashMap::new(),
            event_definitions: Vec::new(),
            string_tables: Vec::new(),
            entity_classes: HashMap::new(),
            send_tables: Vec::new(),
            server_classes: Vec::new(),
            instance_baselines: [HashMap::new(), HashMap::new()],
            demo_meta: DemoMeta { version: 0, game: String::new(), interval_per_tick: 0 },
            analyser_handles,
        }
    }

    /// Replace the schema and class state from one decoded DataTables
    /// packet, wholesale: the stored tables become exactly the packet's
    /// tables (last entry of a repeated name winning), with no merge into
    /// previously stored tables, and the class list is replaced as a whole.
    pub fn handle_data_table(&mut self, send_tables: Vec<SendTable>, server_classes: Vec<
        ServerClass,
    >)
        ensures
            st_unique(final(self).send_tables@),
            final(self).server_classes@ == server_classes@,
            forall|n: Seq<char>|
                #[trigger] st_find(final(self).send_tables@, n) == st_find_last(send_tables@, n),
            final(self).static_baselines == old(self).static_baselines,
            final(self).event_definitions == old(self).event_definitions,
            final(self).string_tables == old(self).string_tables,
            final(self).entity_classes == old(self).entity_classes,
            final(self).instance_baselines == old(self).instance_baselines,
            final(self).demo_meta == old(self).demo_meta,
            final(self).analyser_handles == old(self).analyser_handles,
    {
        let ghost news = send_tables@;
        self.send_tables = Vec::new();
        let mut incoming = send_tables;
        let ghost mut j: int = 0;
        proof {
            assert(news.take(0).len() == 0);
            assert forall|n: Seq<char>|
                #[trigger] st_find(self.send_tables@, n) == st_find_last(news.take(0), n) by {}
        }
        while incoming.len() > 0
            invariant
                0 <= j <= news.len(),
                j + incoming@.len() == news.len(),
                news == send_tables@,
                incoming@ == news.skip(j),
                st_unique(self.send_tables@),
                self.server_classes == old(self).server_classes,
                self.static_baselines == old(self).static_baselines,
                self.event_definitions == old(self).event_definitions,
                self.string_tables == old(self).string_tables,
                self.entity_classes == old(self).entity_classes,
                self.instance_baselines == old(self).instance_baselines,
                self.demo_meta == old(self).demo_meta,
                self.analyser_handles == old(self).analyser_handles,
                forall|n: Seq<char>|
                    #[trigger] st_find(self.send_tables@, n) == st_find_last(news.take(j), n),
            decreases incoming@.len(),
        {
            let table = incoming.remove(0);
            proof {
                assert(news.skip(j).remove(0) =~= news.skip(j).drop_first());
                assert(news.skip(j).drop_first() =~= news.skip(j + 1));
                assert(incoming@ =~= news.skip(j + 1));
                assert(table == news.skip(j)[0]);
                assert(news.skip(j)[0] == news[j]);
            }
            self.upsert_table(table);
            proof {
                assert forall|n: Seq<char>|
                    #[trigger] st_find(self.send_tables@, n) == st_find_last(news.take(j + 1), n) by {
                    lemma_st_find_last_snoc(news, j, n);
                }
                j = j + 1;
            }
        }
        proof {
            assert(news.take(news.len() as int) =~= news);
        }
        self.server_classes = server_classes;
    }

    /// Insert or replace the table of the given name.
    fn upsert_table(&mut self, table: SendTable)
        requires
            st_unique(old(self).send_tables@),
        ensures
            st_unique(final(self).send_tables@),
            forall|n: Seq<char>|
                #[trigger] st_find(final(self).send_tables@, n) == if n == table.name@ {
                    Some(table)
                } else {
                    st_find(old(self).send_tables@, n)
                },
            final(self).server_classes == old(self).server_classes,
            final(self).static_baselines == old(self).static_baselines,
            final(self).event_definitions == old(self).event_definitions,
            final(self).string_tables == old(self).string_tables,
            final(self).entity_classes == old(self).entity_classes,
            final(self).instance_baselines == old(self).instance_baselines,
            final(self).demo_meta == old(self).demo_meta,
            final(self).analyser_handles == old(self).analyser_handles,
    {
        let ghost s0 = self.send_tables@;
        let mut i: usize = 0;
        while i < self.send_tables.len()
            invariant
                i <= s0.len(),
                *self == *old(self),
                self.send_tables@ == s0,
                st_unique(s0),
                forall|k: int| 0 <= k < i ==> (#[trigger] s0[k]).name@ != table.name@,
            decreases s0.len() - i,
        {
            if self.send_tables[i].name == table.name {
                self.send_tables.set(i, table);
                proof {
                    let s1 = self.send_tables@;
                    assert(s1 =~= s0.update(i as int, table));
                    assert(st_unique(s1)) by {
                        assert forall|a: int, b2: int| 0 <= a < b2 < s1.len() implies (
                        #[trigger] s1[a]).name@ != (#[trigger] s1[b2]).name@ by {
                            assert(s0[a].name@ != s0[b2].name@);
                        }
                    }
                    assert forall|n: Seq<char>|
                        #[trigger] st_find(s1, n) == if n == table.name@ {
                            Some(table)
                        } else {
                            st_find(s0, n)
                        } by {
                        lemma_st_find_update(s0, i as int, table, n);
                    }
                }
                return ;
            }
            i = i + 1;
        }
        self.send_tables.push(table);
        proof {
            let s1 = self.send_tables@;
            assert(s1 =~= s0.push(table));
            assert(st_unique(s1)) by {
                assert forall|a: int, b2: int| 0 <= a < b2 < s1.len() implies (#[trigger] s1[a]).name@
                    != (#[trigger] s1[b2]).name@ by {
                    if b2 < s0.len() {
                        assert(s0[a].name@ != s0[b2].name@);
                    } else {
                        assert(s1[b2] == table);
                        assert(s0[a].name@ != table.name@);
                    }
                }
            }
            assert forall|n: Seq<char>|
                #[trigger] st_find(s1, n) == if n == table.name@ {
                    Some(table)
                } else {
                    st_find(s0, n)
                } by {
                lemma_st_find_push(s0, table, n);
            }
        }
    }

    /// Record one announced string table's metadata; the list is
    /// append-only.
    pub fn handle_string_table_meta(&mut self, table: StringTableMeta)
        ensures
            final(self).string_tables@ == old(self).string_tables@.push(table),
            final(self).send_tables == old(self).send_tables,
            final(self).server_classes == old(self).server_classes,
            final(self).static_baselines == old(self).static_baselines,
            final(self).event_definitions == old(self).event_definitions,
            final(self).entity_classes == old(self).entity_classes,
            final(self).instance_baselines == old(self).instance_baselines,
            final(self).demo_meta == old(self).demo_meta,
            final(self).analyser_handles == old(self).analyser_handles,
    {
        self.string_tables.push(table);
    }

    /// Whether the decode loop should fully decode messages of this type:
    /// the core itself needs them, or the attached consumer declared
    /// interest.
    pub fn should_parse_message(&self, message_type: MessageType) -> (r: bool)
        ensures
            r == (core_handles(message_type) || self.analyser_handles@.contains(message_type)),
    {
        if Self::does_handle(message_type) {
            return true;
        }
        let mut i: usize = 0;
        while i < self.analyser_handles.len()
            invariant
                i <= self.analyser_handles@.len(),
                forall|k: int| 0 <= k < i ==> self.analyser_handles@[k] != message_type,
            decreases self.analyser_handles@.len() - i,
        {
            if self.analyser_handles[i] == message_type {
                return true;
            }
            i = i + 1;
        }
        false
    }
}

/// Extending the list by one more table changes the last-match lookup only
/// for that table's name.
proof fn lemma_st_find_last_snoc(news: Seq<SendTable>, j: int, n: Seq<char>)
    requires
        0 <= j < news.len(),
    ensures
        st_find_last(news.take(j + 1), n) == if n == news[j].name@ {
            Some(news[j])
        } else {
            st_find_last(news.take(j), n)
        },
{
    let t = news.take(j + 1);
    assert(t.drop_last() =~= news.take(j));
    assert(t.last() == news[j]);
}

/// Updating the unique-named entry of a name changes the first-match lookup
/// only for that name.
proof fn lemma_st_find_update(s: Seq<SendTable>, i: int, table: SendTable, n: Seq<char>)
    requires
        st_unique(s),
        0 <= i < s.len(),
        s[i].name@ == table.name@,
    ensures
        st_find(s.update(i, table), n) == if n == table.name@ {
            Some(table)
        } else {
            st_find(s, n)
        },
    decreases s.len(),
{
    let s1 = s.update(i, table);
    if i == 0 {
        assert(s1[0] == table);
        if n != table.name@ {
            assert(s1.drop_first() =~= s.drop_first());
        }
    } else {
        assert(s1[0] == s[0]);
        assert(s1.drop_first() =~= s.drop_first().update(i - 1, table));
        assert(st_unique(s.drop_first()));
        lemma_st_find_update(s.drop_first(), i - 1, table, n);
        if s[0].name@ == n {
            assert(s[i].name@ != s[0].name@);
        }
    }
}

/// Appending a table of a fresh name changes the first-match lookup only
/// for that name.
proof fn lemma_st_find_push(s: Seq<SendTable>, table: SendTable, n: Seq<char>)
    requires
        forall|k: int| 0 <= k < s.len() ==> (#[trigger] s[k]).name@ != table.name@,
    ensures
        st_find(s.push(table), n) == if n == table.name@ {
            Some(table)
        } else {
            st_find(s, n)
        },
    decreases s.len(),
{
    let s1 = s.push(table);
    if s.len() == 0 {
        assert(s1[0] == table);
        assert(s1.drop_first() =~= Seq::<SendTable>::empty());
        assert(st_find(s1.drop_first(), n) is None);
    } else {
        assert(s1[0] == s[0]);
        assert(s[0].name@ != table.name@);
        assert(s1.drop_first() =~= s.drop_first().push(table));
        assert forall|k: int| 0 <= k < s.drop_first().len() implies (
        #[trigger] s.drop_first()[k]).name@ != table.name@ by {
            assert(s.drop_first()[k] == s[k + 1]);
        }
        lemma_st_find_push(s.drop_first(), table, n);
    }
}

/// A byte-for-byte copy of a buffer.
pub fn copy_bytes(v: &Vec<u8>) -> (r: Vec<u8>)
    ensures
        r@ == v@,
{
    let mut out: Vec<u8> = Vec::new();
    let mut i: usize = 0;
    while i < v.len()
        invariant
            i <= v@.len(),
            out@ =~= v@.take(i as int),
        decreases v@.len() - i,
    {
        out.push(v[i]);
        proof {
            assert(v@.take(i + 1) =~= v@.take(i as int).push(v@[i as int]));
        }
        i = i + 1;
    }
    proof {
        assert(v@.take(v@.len() as int) =~= v@);
    }
    out
}

impl MessageHandler for ParserState {
    type Output = ParserState;

    /// The core's own bookkeeping consumes the handshake, the event list
    /// and string-table announcements.
    open spec fn handles_spec(message_type: MessageType) -> bool {
        core_handles(message_type)
    }

    /// A baseline entry always carries its raw payload.
    open spec fn entry_pre(&self, table: &String, index: usize, entry: &StringTableEntry) -> bool {
        table@ == "instancebaseline"@ ==> entry.extra_data is Some
    }

    /// The handshake sets the demo metadata; the event list replaces the
    /// event definitions; every other message leaves the state unchanged.
    open spec fn message_post(pre: Self, post: Self, message: Message, tick: u32) -> bool {
        match message {
            Message::ServerInfo(m) => post == (ParserState {
                demo_meta: DemoMeta {
                    version: m.version,
                    game: m.game,
                    interval_per_tick: m.interval_per_tick,
                },
                ..pre
            }),
            Message::GameEventList(m) => post == (ParserState { event_definitions: m.event_list, ..pre }),
            _ => post == pre,
        }
    }

    /// A baseline entry whose text names a class id stores that class's raw
    /// baseline, unparsed; anything else leaves the state unchanged.
    open spec fn entry_post(
        pre: Self,
        post: Self,
        table: &String,
        index: usize,
        entry: &StringTableEntry,
    ) -> bool {
        if table@ == "instancebaseline"@ {
            match entry.extra_data {
                Some(extra) => match dec_parse(vstd::utf8::encode_utf8(entry_text(entry))) {
                    Some(cid) => {
                        &&& post.static_baselines@.contains_key(cid)
                        &&& post.static_baselines@[cid].class_id == cid
                        &&& post.static_baselines@[cid].raw@ == extra.data@
                        &&& post.static_baselines@[cid].parsed is None
                        &&& forall|k: u32|
                            k != cid ==> (#[trigger] post.static_baselines@.contains_key(k))
                                == pre.static_baselines@.contains_key(k) && (
                            pre.static_baselines@.contains_key(k)
                                ==> post.static_baselines@[k] == pre.static_baselines@[k])
                        &&& post.send_tables == pre.send_tables
                        &&& post.server_classes == pre.server_classes
                        &&& post.string_tables == pre.string_tables
                        &&& post.event_definitions == pre.event_definitions
                        &&& post.demo_meta == pre.demo_meta
                    },
                    None => post == pre,
                },
                None => true,
            }
        } else {
            post == pre
        }
    }

    /// At end of stream the state itself is the protocol handler's output.
    open spec fn output_spec(self, state: ParserState, output: ParserState) -> bool {
        output == self
    }

    fn does_handle(message_type: MessageType) -> (r: bool) {
        match message_type {
            MessageType::ServerInfo
            | MessageType::GameEventList
            | MessageType::CreateStringTable
            | MessageType::UpdateStringTable => true,
            _ => false,
        }
    }

    fn handle_message(&mut self, message: Message, _tick: u32) {
        match message {
            Message::ServerInfo(m) => {
                self.demo_meta = DemoMeta {
                    version: m.version,
                    game: m.game,
                    interval_per_tick: m.interval_per_tick,
                };
            },
            Message::GameEventList(m) => {
                self.event_definitions = m.event_list;
            },
            _ => {},
        }
    }

    fn handle_string_entry(&mut self, table: &String, _index: usize, entry: &StringTableEntry) {
        if *table == "instancebaseline".to_owned() {
            match &entry.extra_data {
                Some(extra) => {
                    match parse_dec_u32(entry.text()) {
                        Some(class_id) => {
                            let baseline = StaticBaseline::new(class_id, copy_bytes(&extra.data));
                            self.static_baselines.insert(class_id, baseline);
                        },
                        None => {},
                    }
                },
                None => {},
            }
        }
    }

    fn get_output(self, _state: ParserState) -> (r: ParserState) {
        self
    }
}

} // verus!
