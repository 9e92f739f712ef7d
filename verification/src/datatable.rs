//! Schema tables, the server-class list, and the data-table packet codec.
//!
//! A table's wire form expands each array owner into two consecutive
//! entries — the owned element (flagged "inside array") first, then the
//! owner — and the reader folds such a pair back into one owner that holds
//! its element.  The packet body is length-delimited in whole bytes; up to
//! seven trailing bits of padding are tolerated, more is a decode error.

use vstd::prelude::*;

verus! {

use vstd::arithmetic::power2::pow2;
use crate::bits::le_bits;
use crate::bits::str_bits;
use crate::bits::str_ok;
use crate::bits::bits_at;
use crate::bits::lemma_le_bits_len;
use crate::bits::lemma_le_bits_inj;
use crate::bits::lemma_bytes_bits_len;
use crate::bits::lemma_bits_at_split;
use crate::sendprop::SendPropType;
use crate::sendprop::SendPropFlag;
use crate::sendprop::has_flag;
use crate::sendprop::RawPropModel;
use crate::sendprop::RawSendPropDefinition;
use crate::sendprop::raw_prop_model;
use crate::sendprop::enc_prop;
use crate::sendprop::prop_encodable;
use crate::error::ParseError;
use crate::error::MalformedSendPropDefinitionError;
use crate::cursor::Reader;
use crate::cursor::rbits;
use crate::cursor::rpos;
use crate::cursor::wbits;

/// Small integer identity of a server class, unique within one packet's
/// class list.
#[derive(Debug, Clone, Copy, PartialEq, Eq, Hash, PartialOrd, Ord, Structural)]
pub struct ClassId(pub u16);

impl From<u16> for ClassId {
    fn from(v: u16) -> (r: Self) {
        ClassId(v)
    }
}

impl vstd::std_specs::convert::FromSpecImpl<u16> for ClassId {
    open spec fn obeys_from_spec() -> bool {
        true
    }

    open spec fn from_spec(v: u16) -> Self {
        ClassId(v)
    }
}

/// Interned name of a server class.
#[derive(Debug, Clone, Hash)]
pub struct ServerClassName(pub String);

impl ServerClassName {
    /// The name as a borrowed string slice.
    pub fn as_str(&self) -> (r: &str)
        ensures
            r@ == self@,
    {
        self.0.as_str()
    }
}

impl View for ServerClassName {
    type V = Seq<char>;

    open spec fn view(&self) -> Seq<char> {
        self.0@
    }
}

impl PartialEq for ServerClassName {
    fn eq(&self, other: &Self) -> (r: bool) {
        self.0 == other.0
    }
}

impl vstd::std_specs::cmp::PartialEqSpecImpl for ServerClassName {
    open spec fn obeys_eq_spec() -> bool {
        true
    }

    open spec fn eq_spec(&self, other: &Self) -> bool {
        self@ == other@
    }
}

/// Interned name of a schema table; the key under which resolved tables are
/// stored.
#[derive(Debug, Clone, Hash)]
pub struct SendTableName(pub String);

impl SendTableName {
    /// The name as a borrowed string slice.
    pub fn as_str(&self) -> (r: &str)
        ensures
            r@ == self@,
    {
        self.0.as_str()
    }
}

impl View for SendTableName {
    type V = Seq<char>;

    open spec fn view(&self) -> Seq<char> {
        self.0@
    }
}

impl PartialEq for SendTableName {
    fn eq(&self, other: &Self) -> (r: bool) {
        self.0 == other.0
    }
}

impl vstd::std_specs::cmp::PartialEqSpecImpl for SendTableName {
    open spec fn obeys_eq_spec() -> bool {
        true
    }

    open spec fn eq_spec(&self, other: &Self) -> bool {
        self@ == other@
    }
}

/// The mathematical value of one server-class record.
#[verifier::ext_equal]
pub ghost struct ClassModel {
    pub id: u16,
    pub name: Seq<char>,
    pub data_table: Seq<char>,
}

/// One server class: identity, name, and the name of the schema table that
/// describes its networked properties.
#[derive(Debug, Clone)]
pub struct ServerClass {
    pub id: ClassId,
    pub name: ServerClassName,
    pub data_table: SendTableName,
}

impl View for ServerClass {
    type V = ClassModel;

    open spec fn view(&self) -> ClassModel {
        ClassModel { id: self.id.0, name: self.name@, data_table: self.data_table@ }
    }
}

/// The mathematical value of one schema table as parsed.
#[verifier::ext_equal]
pub ghost struct TableModel {
    pub name: Seq<char>,
    pub props: Seq<RawPropModel>,
    pub needs_decoder: bool,
}

/// One schema table as parsed: name, ordered raw property list (array
/// owners already holding their elements), and the needs-decoder flag.
#[derive(Debug)]
pub struct ParseSendTable {
    pub name: SendTableName,
    pub props: Vec<RawSendPropDefinition>,
    pub needs_decoder: bool,
}

/// The entry models of a list of entries.
pub open spec fn props_views(s: Seq<RawSendPropDefinition>) -> Seq<RawPropModel> {
    s.map_values(|p: RawSendPropDefinition| raw_prop_model(p))
}

impl View for ParseSendTable {
    type V = TableModel;

    open spec fn view(&self) -> TableModel {
        TableModel {
            name: self.name@,
            props: props_views(self.props@),
            needs_decoder: self.needs_decoder,
        }
    }
}

/// `p` without its owned array element.
pub open spec fn strip_model(p: RawPropModel) -> RawPropModel {
    RawPropModel { array_property: None, ..p }
}

/// `p` owning `c` as its array element.
pub open spec fn with_child_model(p: RawPropModel, c: RawPropModel) -> RawPropModel {
    RawPropModel { array_property: Some(Box::new(c)), ..p }
}

/// The wire entries one authored entry becomes: an array owner travels as
/// its element followed by the owner itself.
pub open spec fn expand_one(p: RawPropModel) -> Seq<RawPropModel> {
    match p.array_property {
        Some(c) => seq![*c, strip_model(p)],
        None => seq![p],
    }
}

/// The wire entry list of an authored entry list.
pub open spec fn expand_props(props: Seq<RawPropModel>) -> Seq<RawPropModel>
    decreases props.len(),
{
    if props.len() == 0 {
        Seq::empty()
    } else {
        expand_one(props[0]) + expand_props(props.drop_first())
    }
}

/// State of the reader's single pending-element slot while it scans wire
/// entries: the entries accepted so far and the held element, if any.
#[verifier::ext_equal]
pub ghost struct ScanState {
    pub acc: Seq<RawPropModel>,
    pub pending: Option<RawPropModel>,
}

/// One step of the pairing scan; an error names the exact
/// malformed-definition failure the reader raises.
pub open spec fn scan_step(st: ScanState, q: RawPropModel) -> Result<
    ScanState,
    MalformedSendPropDefinitionError,
> {
    if has_flag(q.flags, SendPropFlag::InsideArray) {
        if st.pending is Some || has_flag(q.flags, SendPropFlag::ChangesOften) {
            Err(MalformedSendPropDefinitionError::ArrayChangesOften)
        } else {
            Ok(ScanState { acc: st.acc, pending: Some(q) })
        }
    } else {
        match st.pending {
            Some(e) => if q.prop_type != SendPropType::Array {
                Err(MalformedSendPropDefinitionError::UntypedArray)
            } else {
                Ok(ScanState { acc: st.acc.push(with_child_model(q, e)), pending: None })
            },
            None => if q.prop_type == SendPropType::Array {
                Err(MalformedSendPropDefinitionError::UntypedArray)
            } else {
                Ok(ScanState { acc: st.acc.push(q), pending: None })
            },
        }
    }
}

/// The pairing scan over a prefix of the wire entry list; the first
/// violation's error, if any, is the whole scan's error.
pub open spec fn scan_props(s: Seq<RawPropModel>) -> Result<
    ScanState,
    MalformedSendPropDefinitionError,
>
    decreases s.len(),
{
    if s.len() == 0 {
        Ok(ScanState { acc: Seq::empty(), pending: None })
    } else {
        match scan_props(s.drop_last()) {
            Err(code) => Err(code),
            Ok(st) => scan_step(st, s.last()),
        }
    }
}

/// An authored entry the wire can carry back unchanged as part of table
/// `table`: it is encodable itself, and if it owns an array element the two
/// travel as a well-formed element/owner pair.
pub open spec fn pairable(p: RawPropModel, table: Seq<char>) -> bool {
    match p.array_property {
        Some(c) => {
            &&& p.prop_type == SendPropType::Array
            &&& !has_flag(p.flags, SendPropFlag::InsideArray)
            &&& prop_encodable(strip_model(p), table)
            &&& has_flag(c.flags, SendPropFlag::InsideArray)
            &&& !has_flag(c.flags, SendPropFlag::ChangesOften)
            &&& c.array_property is None
            &&& prop_encodable(*c, table)
        },
        None => {
            &&& !has_flag(p.flags, SendPropFlag::InsideArray)
            &&& p.prop_type != SendPropType::Array
            &&& prop_encodable(p, table)
        },
    }
}

/// A table the wire can carry back unchanged.
pub open spec fn table_encodable(t: TableModel) -> bool {
    &&& str_ok(t.name)
    &&& expand_props(t.props).len() < 1024
    &&& forall|i: int| 0 <= i < t.props.len() ==> pairable(#[trigger] t.props[i], t.name)
}

/// The concatenated wire form of a run of entries.
pub open spec fn enc_props_cat(s: Seq<RawPropModel>) -> Seq<bool>
    decreases s.len(),
{
    if s.len() == 0 {
        Seq::empty()
    } else {
        enc_prop(s[0]) + enc_props_cat(s.drop_first())
    }
}

/// The complete wire form of a table: needs-decoder bit, name, ten-bit wire
/// entry count, then the expanded entries.
pub open spec fn enc_table(t: TableModel) -> Seq<bool> {
    seq![t.needs_decoder] + str_bits(t.name) + le_bits(expand_props(t.props).len(), 10)
        + enc_props_cat(expand_props(t.props))
}

/// Expansion distributes over concatenation.
pub proof fn lemma_expand_concat(a: Seq<RawPropModel>, b: Seq<RawPropModel>)
    ensures
        expand_props(a + b) =~= expand_props(a) + expand_props(b),
    decreases a.len(),
{
    if a.len() == 0 {
        assert(a + b =~= b);
    } else {
        assert((a + b).drop_first() =~= a.drop_first() + b);
        assert((a + b)[0] == a[0]);
        lemma_expand_concat(a.drop_first(), b);
    }
}

/// Entry-list encodings concatenate.
pub proof fn lemma_cat_concat(a: Seq<RawPropModel>, b: Seq<RawPropModel>)
    ensures
        enc_props_cat(a + b) =~= enc_props_cat(a) + enc_props_cat(b),
    decreases a.len(),
{
    if a.len() == 0 {
        assert(a + b =~= b);
    } else {
        assert((a + b).drop_first() =~= a.drop_first() + b);
        assert((a + b)[0] == a[0]);
        lemma_cat_concat(a.drop_first(), b);
    }
}

/// The encoding of a single entry.
pub proof fn lemma_cat_single(a: RawPropModel)
    ensures
        enc_props_cat(seq![a]) =~= enc_prop(a),
{
    assert(seq![a][0] == a);
    assert(seq![a].drop_first() =~= Seq::<RawPropModel>::empty());
    assert(enc_props_cat(seq![a]) =~= enc_prop(a) + enc_props_cat(seq![a].drop_first()));
}

/// The encoding of an element/owner pair.
pub proof fn lemma_cat_pair(a: RawPropModel, c: RawPropModel)
    ensures
        enc_props_cat(seq![a, c]) =~= enc_prop(a) + enc_prop(c),
{
    assert(seq![a, c][0] == a);
    assert(seq![a, c].drop_first() =~= seq![c]);
    lemma_cat_single(c);
    assert(enc_props_cat(seq![a, c]) =~= enc_prop(a) + enc_props_cat(seq![a, c].drop_first()));
}

/// The encoding of one more entry extends the encoding of the prefix.
pub proof fn lemma_cat_take_snoc(s: Seq<RawPropModel>, i: int)
    requires
        0 <= i < s.len(),
    ensures
        enc_props_cat(s.take(i + 1)) =~= enc_props_cat(s.take(i)) + enc_prop(s[i]),
{
    assert(s.take(i + 1) =~= s.take(i) + seq![s[i]]);
    lemma_cat_concat(s.take(i), seq![s[i]]);
    assert(seq![s[i]].drop_first() =~= Seq::<RawPropModel>::empty());
    assert(seq![s[i]][0] == s[i]);
    assert(enc_props_cat(seq![s[i]]) =~= enc_prop(s[i]) + enc_props_cat(seq![s[i]].drop_first()));
    assert(enc_props_cat(seq![s[i]]) =~= enc_prop(s[i]));
}

/// A placed entry-list encoding places the `i`-th entry after the prefix.
pub proof fn lemma_cat_at(bits: Seq<bool>, pos: int, s: Seq<RawPropModel>, i: int)
    requires
        bits_at(bits, pos, enc_props_cat(s)),
        0 <= i < s.len(),
    ensures
        bits_at(bits, pos + enc_props_cat(s.take(i)).len(), enc_prop(s[i])),
{
    assert(s =~= s.take(i + 1) + s.skip(i + 1));
    lemma_cat_concat(s.take(i + 1), s.skip(i + 1));
    lemma_bits_at_split(bits, pos, enc_props_cat(s.take(i + 1)), enc_props_cat(s.skip(i + 1)));
    lemma_cat_take_snoc(s, i);
    lemma_bits_at_split(bits, pos, enc_props_cat(s.take(i)), enc_prop(s[i]));
}

/// A scan error in a prefix is the error of every longer prefix.
pub proof fn lemma_scan_err_extends(s: Seq<RawPropModel>, j: int)
    requires
        0 <= j <= s.len(),
        scan_props(s.take(j)) is Err,
    ensures
        scan_props(s) == scan_props(s.take(j)),
    decreases s.len() - j,
{
    if j == s.len() {
        assert(s.take(j) =~= s);
    } else {
        let t = s.take(j + 1);
        assert(t.drop_last() =~= s.take(j));
        lemma_scan_err_extends(s, j + 1);
    }
}

/// Every wire entry of an encodable table is itself encodable and carries no
/// owned element.
pub proof fn lemma_expand_elem(props: Seq<RawPropModel>, table: Seq<char>, i: int)
    requires
        forall|k: int| 0 <= k < props.len() ==> pairable(#[trigger] props[k], table),
        0 <= i < expand_props(props).len(),
    ensures
        prop_encodable(expand_props(props)[i], table),
        expand_props(props)[i].array_property is None,
    decreases props.len(),
{
    if props.len() > 0 {
        let e0 = expand_one(props[0]);
        assert(pairable(props[0], table));
        if i < e0.len() {
            assert(expand_props(props)[i] == e0[i]);
        } else {
            assert(forall|k: int|
                0 <= k < props.drop_first().len() ==> pairable(
                    #[trigger] props.drop_first()[k],
                    table,
                ));
            lemma_expand_elem(props.drop_first(), table, i - e0.len());
            assert(expand_props(props)[i] == expand_props(props.drop_first())[i - e0.len()]);
        }
    }
}

/// The pairing scan inverts expansion: scanning the wire entries of an
/// encodable table accepts exactly the authored entries and holds nothing.
pub proof fn lemma_scan_expand(props: Seq<RawPropModel>, table: Seq<char>)
    requires
        forall|k: int| 0 <= k < props.len() ==> pairable(#[trigger] props[k], table),
    ensures
        scan_props(expand_props(props)) == Ok::<ScanState, MalformedSendPropDefinitionError>(
            ScanState { acc: props, pending: None },
        ),
    decreases props.len(),
{
    if props.len() == 0 {
        assert(expand_props(props).len() == 0);
        assert(scan_props(expand_props(props)) == Ok::<
            ScanState,
            MalformedSendPropDefinitionError,
        >(ScanState { acc: Seq::<RawPropModel>::empty(), pending: None }));
        assert(Seq::<RawPropModel>::empty() =~= props);
    } else {
        let dl = props.drop_last();
        let p = props.last();
        assert(forall|k: int| 0 <= k < dl.len() ==> pairable(#[trigger] dl[k], table));
        lemma_scan_expand(dl, table);
        assert(props =~= dl + seq![p]);
        lemma_expand_concat(dl, seq![p]);
        assert(seq![p].drop_first() =~= Seq::<RawPropModel>::empty());
        assert(seq![p][0] == p);
        assert(expand_props(seq![p]) =~= expand_one(p) + expand_props(seq![p].drop_first()));
        assert(expand_props(seq![p]) =~= expand_one(p));
        let x = expand_props(dl);
        assert(pairable(p, table));
        match p.array_property {
            Some(c) => {
                let whole = x + seq![*c, strip_model(p)];
                assert(expand_props(props) =~= whole);
                assert(whole.drop_last() =~= x + seq![*c]);
                assert(whole.last() == strip_model(p));
                assert((x + seq![*c]).drop_last() =~= x);
                assert((x + seq![*c]).last() == *c);
                assert(scan_props(x + seq![*c]) == scan_step(
                    ScanState { acc: dl, pending: None },
                    *c,
                ));
                assert(scan_props(whole) == scan_step(
                    ScanState { acc: dl, pending: Some(*c) },
                    strip_model(p),
                ));
                assert(with_child_model(strip_model(p), *c) =~~= p);
                assert(dl.push(p) =~= props);
            },
            None => {
                let whole = x + seq![p];
                assert(expand_props(props) =~= whole);
                assert(whole.drop_last() =~= x);
                assert(whole.last() == p);
                assert(scan_props(whole) == scan_step(ScanState { acc: dl, pending: None }, p));
                assert(dl.push(p) =~= props);
            },
        }
    }
}

/// Post-flatten cache of one table: its name, flag, raw entries, and the
/// fully resolved flattened property list.
#[derive(Debug)]
pub struct SendTable {
    pub name: SendTableName,
    pub needs_decoder: bool,
    pub raw_props: Vec<RawSendPropDefinition>,
    pub flattened_props: Vec<crate::sendprop::SendPropDefinition>,
}

/// The model of an optional held entry.
pub open spec fn opt_prop_view(o: Option<RawSendPropDefinition>) -> Option<RawPropModel> {
    match o {
        Some(p) => Some(raw_prop_model(p)),
        None => None,
    }
}

/// Appending an entry appends its model.
pub proof fn lemma_views_push(s: Seq<RawSendPropDefinition>, x: RawSendPropDefinition)
    ensures
        props_views(s.push(x)) =~= props_views(s).push(raw_prop_model(x)),
{
}

/// An encodable table placed in a bit sequence: the premise of the reader's
/// round-trip guarantee.
pub open spec fn table_at(b: Seq<bool>, p0: int, t: TableModel) -> bool {
    table_encodable(t) && bits_at(b, p0, enc_table(t))
}

/// A wire entry the reader can reproduce: encodable for its table, with no
/// owned element yet (pairing happens after decoding).
pub open spec fn wire_entry_ok(p: RawPropModel, table: Seq<char>) -> bool {
    prop_encodable(p, table) && p.array_property is None
}

/// The wire form of a table given directly as its wire entry list, before
/// any pairing: needs-decoder bit, name, ten-bit entry count, entries.
pub open spec fn enc_table_wire(nd: bool, name: Seq<char>, entries: Seq<RawPropModel>) -> Seq<
    bool,
> {
    seq![nd] + str_bits(name) + le_bits(entries.len(), 10) + enc_props_cat(entries)
}

/// A placed wire entry list, each entry individually well-formed: the
/// premise under which the reader's outcome — including each
/// malformed-pairing error — is fully determined by the pairing scan.
pub open spec fn table_wire_at(
    b: Seq<bool>,
    p0: int,
    nd: bool,
    name: Seq<char>,
    entries: Seq<RawPropModel>,
) -> bool {
    &&& str_ok(name)
    &&& entries.len() < 1024
    &&& (forall|i: int| 0 <= i < entries.len() ==> wire_entry_ok(#[trigger] entries[i], name))
    &&& bits_at(b, p0, enc_table_wire(nd, name, entries))
}

/// An encodable table's wire image is the wire image of its expanded entry
/// list, whose pairing scan reassembles exactly the table.
pub proof fn lemma_table_at_wire(b: Seq<bool>, p0: int, t: TableModel)
    requires
        table_at(b, p0, t),
    ensures
        table_wire_at(b, p0, t.needs_decoder, t.name, expand_props(t.props)),
        scan_props(expand_props(t.props)) == Ok::<ScanState, MalformedSendPropDefinitionError>(
            ScanState { acc: t.props, pending: None },
        ),
        enc_table_wire(t.needs_decoder, t.name, expand_props(t.props)) == enc_table(t),
{
    assert forall|i: int| 0 <= i < expand_props(t.props).len() implies wire_entry_ok(
        #[trigger] expand_props(t.props)[i],
        t.name,
    ) by {
        lemma_expand_elem(t.props, t.name, i);
    }
    lemma_scan_expand(t.props, t.name);
}

/// Decomposes a placed wire table: where its flag, name, count and entries
/// lie.
pub proof fn lemma_table_wire_positions(
    b: Seq<bool>,
    p0: int,
    nd: bool,
    name: Seq<char>,
    entries: Seq<RawPropModel>,
)
    requires
        bits_at(b, p0, enc_table_wire(nd, name, entries)),
    ensures
        str_bits(name).len() >= 8,
        0 <= p0 && p0 + 1 <= b.len(),
        b[p0] == nd,
        bits_at(b, p0 + 1, str_bits(name)),
        le_bits(entries.len(), 10) == b.subrange(
            p0 + 1 + str_bits(name).len(),
            p0 + 11 + str_bits(name).len(),
        ),
        bits_at(b, p0 + 11 + str_bits(name).len(), enc_props_cat(entries)),
        enc_table_wire(nd, name, entries).len() == 11 + str_bits(name).len() + enc_props_cat(
            entries,
        ).len(),
{
    let e1 = seq![nd];
    let e2 = str_bits(name);
    let e3 = le_bits(entries.len(), 10);
    let e4 = enc_props_cat(entries);
    lemma_le_bits_len(entries.len(), 10);
    lemma_bytes_bits_len(vstd::utf8::encode_utf8(name) + seq![0u8]);
    assert(enc_table_wire(nd, name, entries) =~= e1 + (e2 + (e3 + e4)));
    lemma_bits_at_split(b, p0, e1, e2 + (e3 + e4));
    lemma_bits_at_split(b, p0 + 1, e2, e3 + e4);
    lemma_bits_at_split(b, p0 + 1 + e2.len(), e3, e4);
    assert(b.subrange(p0, p0 + 1) =~= e1);
    assert(b[p0] == e1[0]);
    assert(e3 =~= b.subrange(p0 + 1 + e2.len(), p0 + 11 + e2.len()));
}

/// The scan of one more wire entry steps the scan of the prefix.
pub proof fn lemma_scan_take_step(s: Seq<RawPropModel>, i: int)
    requires
        0 <= i < s.len(),
        scan_props(s.take(i)) is Ok,
    ensures
        scan_props(s.take(i + 1)) == scan_step(scan_props(s.take(i))->Ok_0, s[i]),
{
    let t = s.take(i + 1);
    assert(t.drop_last() =~= s.take(i));
    assert(t.last() == s[i]);
}

impl ParseSendTable {
    /// Decode one schema table: needs-decoder flag, name, ten-bit entry
    /// count, then that many entries, folding each element/owner pair into
    /// one owner through the single pending-element slot.
    ///
    /// The contract covers every placed wire entry list, well-formed or
    /// not: the outcome is exactly what the pairing scan says — the
    /// reassembled table on a clean scan, the unpaired-element error when
    /// an element is still held at the end of the list, and the exact
    /// malformed-definition error at the first pairing violation (a second
    /// or changes-often "inside array" entry, or an array mismatch).
    pub fn parse(stream: &mut Reader<'_>, _state: &crate::state::ParserState) -> (r: Result<
        ParseSendTable,
        ParseError,
    >)
        ensures
            rbits(*final(stream)) == rbits(*old(stream)),
            rpos(*final(stream)) <= rbits(*final(stream)).len(),
            rpos(*old(stream)) <= rpos(*final(stream)),
            forall|nd: bool, tname: Seq<char>, entries: Seq<RawPropModel>|
                #[trigger] table_wire_at(
                    rbits(*old(stream)),
                    rpos(*old(stream)) as int,
                    nd,
                    tname,
                    entries,
                ) ==> match scan_props(entries) {
                    Ok(st) => if st.pending is Some {
                        r == Err::<ParseSendTable, ParseError>(ParseError::Malformed(
                            MalformedSendPropDefinitionError::UnpairedArrayElement,
                        ))
                    } else {
                        &&& r is Ok
                        &&& r->Ok_0@ == (TableModel {
                            name: tname,
                            props: st.acc,
                            needs_decoder: nd,
                        })
                        &&& rpos(*final(stream)) == rpos(*old(stream)) + enc_table_wire(
                            nd,
                            tname,
                            entries,
                        ).len()
                    },
                    Err(code) => r == Err::<ParseSendTable, ParseError>(ParseError::Malformed(
                        code,
                    )),
                },
    {
        let ghost b = rbits(*old(stream));
        let ghost p0 = rpos(*old(stream)) as int;
        let needs_decoder = match crate::cursor::c_read_bool(stream) {
            Ok(v) => v,
            Err(e) => {
                proof {
                    assert forall|nd: bool, tname: Seq<char>, entries: Seq<RawPropModel>|
                        #[trigger] table_wire_at(b, p0, nd, tname, entries) implies false by {
                        lemma_table_wire_positions(b, p0, nd, tname, entries);
                    }
                }
                return Err(ParseError::Codec(e));
            },
        };
        let name_string = match crate::cursor::c_read_string(stream) {
            Ok(v) => v,
            Err(e) => {
                proof {
                    assert forall|nd: bool, tname: Seq<char>, entries: Seq<RawPropModel>|
                        #[trigger] table_wire_at(b, p0, nd, tname, entries) implies false by {
                        lemma_table_wire_positions(b, p0, nd, tname, entries);
                    }
                }
                return Err(ParseError::Codec(e));
            },
        };
        let name = SendTableName(name_string);
        let prop_count = match crate::cursor::c_read_int(stream, 10) {
            Ok(v) => v,
            Err(e) => {
                proof {
                    assert forall|nd: bool, tname: Seq<char>, entries: Seq<RawPropModel>|
                        #[trigger] table_wire_at(b, p0, nd, tname, entries) implies false by {
                        lemma_table_wire_positions(b, p0, nd, tname, entries);
                    }
                }
                return Err(ParseError::Codec(e));
            },
        };
        let mut props: Vec<RawSendPropDefinition> = Vec::new();
        let mut pending: Option<RawSendPropDefinition> = None;
        let mut i: u32 = 0;
        proof {
            assert forall|nd: bool, tname: Seq<char>, entries: Seq<RawPropModel>|
                #[trigger] table_wire_at(b, p0, nd, tname, entries) implies {
                &&& name@ == tname
                &&& needs_decoder == nd
                &&& prop_count as nat == entries.len()
                &&& rpos(*stream) == p0 + 11 + str_bits(tname).len() + enc_props_cat(
                    entries.take(0),
                ).len()
                &&& scan_props(entries.take(0)) == Ok::<
                    ScanState,
                    MalformedSendPropDefinitionError,
                >(ScanState { acc: props_views(props@), pending: opt_prop_view(pending) })
            } by {
                lemma_table_wire_positions(b, p0, nd, tname, entries);
                assert(pow2(10) == 1024) by {
                    vstd::arithmetic::power2::lemma2_to64();
                }
                lemma_le_bits_inj(prop_count as nat, entries.len(), 10);
                assert(entries.take(0) =~= Seq::<RawPropModel>::empty());
                assert(props_views(props@) =~= Seq::<RawPropModel>::empty());
            }
        }
        while i < prop_count
            invariant
                b == rbits(*old(stream)),
                p0 == rpos(*old(stream)) as int,
                rbits(*stream) == b,
                rpos(*old(stream)) <= rpos(*stream),
                rpos(*stream) <= b.len(),
                i <= prop_count,
                forall|nd: bool, tname: Seq<char>, entries: Seq<RawPropModel>|
                    #[trigger] table_wire_at(b, p0, nd, tname, entries) ==> {
                        &&& name@ == tname
                        &&& needs_decoder == nd
                        &&& prop_count as nat == entries.len()
                        &&& rpos(*stream) == p0 + 11 + str_bits(tname).len() + enc_props_cat(
                            entries.take(i as int),
                        ).len()
                        &&& scan_props(entries.take(i as int)) == Ok::<
                            ScanState,
                            MalformedSendPropDefinitionError,
                        >(ScanState { acc: props_views(props@), pending: opt_prop_view(pending) })
                    },
            decreases prop_count - i,
        {
            let ghost props0 = props@;
            let prop = match crate::sendprop::read_raw_prop(stream, name.as_str()) {
                Ok(p) => p,
                Err(e) => {
                    proof {
                        assert forall|nd: bool, tname: Seq<char>, entries: Seq<RawPropModel>|
                            #[trigger] table_wire_at(b, p0, nd, tname, entries) implies false by {
                            lemma_table_wire_positions(b, p0, nd, tname, entries);
                            assert(wire_entry_ok(entries[i as int], tname));
                            lemma_cat_at(b, p0 + 11 + str_bits(tname).len(), entries, i as int);
                        }
                    }
                    return Err(e);
                },
            };
            if prop.flags.contains(SendPropFlag::InsideArray) {
                if pending.is_some() || prop.flags.contains(SendPropFlag::ChangesOften) {
                    proof {
                        assert forall|nd: bool, tname: Seq<char>, entries: Seq<RawPropModel>|
                            #[trigger] table_wire_at(b, p0, nd, tname, entries)
                            implies scan_props(entries) == Err::<
                            ScanState,
                            MalformedSendPropDefinitionError,
                        >(MalformedSendPropDefinitionError::ArrayChangesOften) by {
                            lemma_table_wire_positions(b, p0, nd, tname, entries);
                            assert(wire_entry_ok(entries[i as int], tname));
                            lemma_cat_at(b, p0 + 11 + str_bits(tname).len(), entries, i as int);
                            lemma_scan_take_step(entries, i as int);
                            lemma_scan_err_extends(entries, i + 1);
                        }
                    }
                    return Err(ParseError::Malformed(
                        MalformedSendPropDefinitionError::ArrayChangesOften,
                    ));
                }
                pending = Some(prop);
            } else {
                let held = pending;
                pending = None;
                match held {
                    Some(element) => {
                        if !matches!(prop.prop_type, SendPropType::Array) {
                            proof {
                                assert forall|
                                    nd: bool,
                                    tname: Seq<char>,
                                    entries: Seq<RawPropModel>,
                                |
                                    #[trigger] table_wire_at(b, p0, nd, tname, entries)
                                    implies scan_props(entries) == Err::<
                                    ScanState,
                                    MalformedSendPropDefinitionError,
                                >(MalformedSendPropDefinitionError::UntypedArray) by {
                                    lemma_table_wire_positions(b, p0, nd, tname, entries);
                                    assert(wire_entry_ok(entries[i as int], tname));
                                    lemma_cat_at(b, p0 + 11 + str_bits(tname).len(), entries,
                                        i as int);
                                    lemma_scan_take_step(entries, i as int);
                                    lemma_scan_err_extends(entries, i + 1);
                                }
                            }
                            return Err(ParseError::Malformed(
                                MalformedSendPropDefinitionError::UntypedArray,
                            ));
                        }
                        props.push(prop.with_array_property(element));
                    },
                    None => {
                        if matches!(prop.prop_type, SendPropType::Array) {
                            proof {
                                assert forall|
                                    nd: bool,
                                    tname: Seq<char>,
                                    entries: Seq<RawPropModel>,
                                |
                                    #[trigger] table_wire_at(b, p0, nd, tname, entries)
                                    implies scan_props(entries) == Err::<
                                    ScanState,
                                    MalformedSendPropDefinitionError,
                                >(MalformedSendPropDefinitionError::UntypedArray) by {
                                    lemma_table_wire_positions(b, p0, nd, tname, entries);
                                    assert(wire_entry_ok(entries[i as int], tname));
                                    lemma_cat_at(b, p0 + 11 + str_bits(tname).len(), entries,
                                        i as int);
                                    lemma_scan_take_step(entries, i as int);
                                    lemma_scan_err_extends(entries, i + 1);
                                }
                            }
                            return Err(ParseError::Malformed(
                                MalformedSendPropDefinitionError::UntypedArray,
                            ));
                        }
                        props.push(prop);
                    },
                }
            }
            proof {
                assert forall|nd: bool, tname: Seq<char>, entries: Seq<RawPropModel>|
                    #[trigger] table_wire_at(b, p0, nd, tname, entries) implies {
                    &&& rpos(*stream) == p0 + 11 + str_bits(tname).len() + enc_props_cat(
                        entries.take(i + 1),
                    ).len()
                    &&& scan_props(entries.take(i + 1)) == Ok::<
                        ScanState,
                        MalformedSendPropDefinitionError,
                    >(ScanState { acc: props_views(props@), pending: opt_prop_view(pending) })
                } by {
                    lemma_table_wire_positions(b, p0, nd, tname, entries);
                    assert(wire_entry_ok(entries[i as int], tname));
                    lemma_cat_at(b, p0 + 11 + str_bits(tname).len(), entries, i as int);
                    lemma_scan_take_step(entries, i as int);
                    lemma_cat_take_snoc(entries, i as int);
                    if props@.len() > props0.len() {
                        let pushed = props@.last();
                        assert(props@ =~= props0.push(pushed));
                        lemma_views_push(props0, pushed);
                    }
                }
            }
            i = i + 1;
        }
        if pending.is_some() {
            proof {
                assert forall|nd: bool, tname: Seq<char>, entries: Seq<RawPropModel>|
                    #[trigger] table_wire_at(b, p0, nd, tname, entries) implies scan_props(entries)
                    == Ok::<ScanState, MalformedSendPropDefinitionError>(
                    ScanState { acc: props_views(props@), pending: opt_prop_view(pending) },
                ) && opt_prop_view(pending) is Some by {
                    assert(entries.take(i as int) =~= entries);
                }
            }
            return Err(ParseError::Malformed(
                MalformedSendPropDefinitionError::UnpairedArrayElement,
            ));
        }
        let result = ParseSendTable { name, props, needs_decoder };
        proof {
            assert forall|nd: bool, tname: Seq<char>, entries: Seq<RawPropModel>|
                #[trigger] table_wire_at(b, p0, nd, tname, entries) implies scan_props(entries)
                == Ok::<ScanState, MalformedSendPropDefinitionError>(
                ScanState { acc: props_views(props@), pending: None },
            ) && result@ == (TableModel {
                name: tname,
                props: props_views(props@),
                needs_decoder: nd,
            }) && rpos(*stream) == p0 + enc_table_wire(nd, tname, entries).len() by {
                lemma_table_wire_positions(b, p0, nd, tname, entries);
                assert(entries.take(i as int) =~= entries);
                assert(result@ =~~= (TableModel {
                    name: tname,
                    props: props_views(props@),
                    needs_decoder: nd,
                }));
            }
        }
        Ok(result)
    }

    /// Append this table's complete wire form.
    pub fn push_encoding(&self, out: &mut Vec<bool>)
        requires
            table_encodable(self@),
        ensures
            final(out)@ =~= old(out)@ + enc_table(self@),
    {
        let ghost base = out@;
        let ghost views = props_views(self.props@);
        let ghost ex = expand_props(views);
        out.push(self.needs_decoder);
        crate::bits::push_str(out, self.name.as_str());
        let mut count: u32 = 0;
        let mut i: usize = 0;
        proof {
            assert(views.take(0) =~= Seq::<RawPropModel>::empty());
        }
        while i < self.props.len()
            invariant
                table_encodable(self@),
                views == props_views(self.props@),
                ex == expand_props(views),
                i <= self.props@.len(),
                count as nat == expand_props(views.take(i as int)).len(),
                count as nat <= ex.len(),
            decreases self.props@.len() - i,
        {
            proof {
                assert(views.take(i + 1) =~= views.take(i as int) + seq![views[i as int]]);
                lemma_expand_concat(views.take(i as int), seq![views[i as int]]);
                assert(seq![views[i as int]].drop_first() =~= Seq::<RawPropModel>::empty());
                assert(seq![views[i as int]][0] == views[i as int]);
                assert(expand_props(seq![views[i as int]]) =~= expand_one(views[i as int])
                    + expand_props(seq![views[i as int]].drop_first()));
                assert(expand_props(seq![views[i as int]]) =~= expand_one(views[i as int]));
                assert(views =~= views.take(i + 1) + views.skip(i + 1));
                lemma_expand_concat(views.take(i + 1), views.skip(i + 1));
            }
            if self.props[i].array_property.is_some() {
                count = count + 2;
            } else {
                count = count + 1;
            }
            i = i + 1;
        }
        proof {
            assert(views.take(self.props@.len() as int) =~= views);
            assert(pow2(10) == 1024) by {
                vstd::arithmetic::power2::lemma2_to64();
            }
        }
        crate::bits::push_le_bits(out, count, 10);
        let ghost mid = out@;
        let mut j: usize = 0;
        proof {
            assert(views.take(0) =~= Seq::<RawPropModel>::empty());
            assert(out@ =~= mid + enc_props_cat(expand_props(views.take(0))));
        }
        while j < self.props.len()
            invariant
                table_encodable(self@),
                views == props_views(self.props@),
                j <= self.props@.len(),
                out@ =~= mid + enc_props_cat(expand_props(views.take(j as int))),
            decreases self.props@.len() - j,
        {
            let ghost q = views[j as int];
            proof {
                assert(pairable(q, self@.name));
            }
            match &self.props[j].array_property {
                Some(el) => {
                    crate::sendprop::write_raw_prop(out, el);
                },
                None => {},
            }
            proof {
                lemma_prop_strip(q, self@.name);
            }
            crate::sendprop::write_raw_prop(out, &self.props[j]);
            proof {
                assert(views.take(j + 1) =~= views.take(j as int) + seq![q]);
                lemma_expand_concat(views.take(j as int), seq![q]);
                assert(seq![q].drop_first() =~= Seq::<RawPropModel>::empty());
                assert(seq![q][0] == q);
                assert(expand_props(seq![q]) =~= expand_one(q) + expand_props(
                    seq![q].drop_first(),
                ));
                assert(expand_props(seq![q]) =~= expand_one(q));
                lemma_cat_concat(expand_props(views.take(j as int)), expand_one(q));
                match q.array_property {
                    Some(c) => {
                        assert(expand_one(q) =~= seq![*c, strip_model(q)]);
                        lemma_cat_pair(*c, strip_model(q));
                    },
                    None => {
                        assert(expand_one(q) =~= seq![q]);
                        lemma_cat_single(q);
                    },
                }
            }
            j = j + 1;
        }
        proof {
            assert(views.take(self.props@.len() as int) =~= views);
            assert(out@ =~= base + enc_table(self@));
        }
    }

    /// Encode this table through the write cursor: the exact inverse of
    /// [`ParseSendTable::parse`].
    pub fn write(&self, stream: &mut crate::cursor::Writer<'_>)
        requires
            table_encodable(self@),
        ensures
            wbits(*final(stream)) =~= wbits(*old(stream)) + enc_table(self@),
    {
        let mut bits: Vec<bool> = Vec::new();
        self.push_encoding(&mut bits);
        crate::cursor::flush_bits(stream, &bits);
    }
}


/// Stripping the owned element changes neither an entry's wire form nor its
/// encodability: neither reads the element slot.
pub proof fn lemma_prop_strip(q: RawPropModel, table: Seq<char>)
    ensures
        enc_prop(strip_model(q)) == enc_prop(q),
        prop_encodable(strip_model(q), table) == prop_encodable(q, table),
{
}

/// The mathematical value of one data-table packet.
#[verifier::ext_equal]
pub ghost struct PacketModel {
    pub tick: u32,
    pub tables: Seq<TableModel>,
    pub classes: Seq<ClassModel>,
}

/// One data-table packet: tick, the schema tables it declares, and the
/// server-class list.  The last decoded packet's contents replace all prior
/// schema state wholesale.
#[derive(Debug)]
pub struct DataTablePacket {
    pub tick: u32,
    pub tables: Vec<ParseSendTable>,
    pub server_classes: Vec<ServerClass>,
}

/// The table models of a list of tables.
pub open spec fn tables_views(s: Seq<ParseSendTable>) -> Seq<TableModel> {
    s.map_values(|t: ParseSendTable| t@)
}

/// The class models of a list of classes.
pub open spec fn classes_views(s: Seq<ServerClass>) -> Seq<ClassModel> {
    s.map_values(|c: ServerClass| c@)
}

impl View for DataTablePacket {
    type V = PacketModel;

    open spec fn view(&self) -> PacketModel {
        PacketModel {
            tick: self.tick,
            tables: tables_views(self.tables@),
            classes: classes_views(self.server_classes@),
        }
    }
}

/// The fixed-layout wire form of one server-class record.
pub open spec fn enc_class(c: ClassModel) -> Seq<bool> {
    le_bits(c.id as nat, 16) + str_bits(c.name) + str_bits(c.data_table)
}

/// A record whose two names survive the wire.
pub open spec fn class_encodable(c: ClassModel) -> bool {
    str_ok(c.name) && str_ok(c.data_table)
}

/// The concatenated wire form of the class list.
pub open spec fn enc_classes_cat(s: Seq<ClassModel>) -> Seq<bool>
    decreases s.len(),
{
    if s.len() == 0 {
        Seq::empty()
    } else {
        enc_class(s[0]) + enc_classes_cat(s.drop_first())
    }
}

/// The concatenated wire form of the table list: each table is announced by
/// a set continuation bit.
pub open spec fn enc_tables_cat(s: Seq<TableModel>) -> Seq<bool>
    decreases s.len(),
{
    if s.len() == 0 {
        Seq::empty()
    } else {
        seq![true] + enc_table(s[0]) + enc_tables_cat(s.drop_first())
    }
}

/// The raw body of a packet, before padding: flag-announced tables, the
/// clear terminator bit, the sixteen-bit class count, then the records.
pub open spec fn body_core(p: PacketModel) -> Seq<bool> {
    enc_tables_cat(p.tables) + seq![false] + le_bits(p.classes.len(), 16) + enc_classes_cat(
        p.classes,
    )
}

/// Bits of zero padding that align `n` bits to a whole byte.
pub open spec fn pad_of(n: nat) -> nat {
    ((8 - n % 8) % 8) as nat
}

/// The declared byte length of a packet's padded body.
pub open spec fn byte_len_of(p: PacketModel) -> nat {
    (body_core(p).len() + pad_of(body_core(p).len())) / 8
}

/// A packet the wire can carry back unchanged.
pub open spec fn packet_encodable(p: PacketModel) -> bool {
    &&& forall|i: int| 0 <= i < p.tables.len() ==> table_encodable(#[trigger] p.tables[i])
    &&& forall|i: int| 0 <= i < p.classes.len() ==> class_encodable(#[trigger] p.classes[i])
    &&& p.classes.len() < 65536
    &&& byte_len_of(p) < pow2(32)
}

/// The complete wire form of a packet: tick, declared byte length, then the
/// body padded with zero bits to that many whole bytes.
pub open spec fn enc_packet(p: PacketModel) -> Seq<bool> {
    le_bits(p.tick as nat, 32) + le_bits(byte_len_of(p), 32) + body_core(p) + crate::bits::zero_bits(
        pad_of(body_core(p).len()),
    )
}

/// An encodable packet placed with a declared byte length `len2` that covers
/// its body: the premise of the reader's guarantees.  The declared length of
/// a well-formed wire image leaves at most seven bits of slack; a larger
/// declared length is exactly what the data-remaining error reports.
pub open spec fn packet_at(b: Seq<bool>, pos: int, p: PacketModel, len2: nat) -> bool {
    &&& packet_encodable(p)
    &&& len2 < pow2(32)
    &&& b.len() <= usize::MAX
    &&& bits_at(b, pos, le_bits(p.tick as nat, 32) + le_bits(len2, 32))
    &&& pos + 64 + 8 * len2 <= b.len()
    &&& body_core(p).len() <= 8 * len2
    &&& bits_at(b, pos + 64, body_core(p))
}

/// Class-list encodings concatenate.
pub proof fn lemma_ccat_concat(a: Seq<ClassModel>, b: Seq<ClassModel>)
    ensures
        enc_classes_cat(a + b) =~= enc_classes_cat(a) + enc_classes_cat(b),
    decreases a.len(),
{
    if a.len() == 0 {
        assert(a + b =~= b);
    } else {
        assert((a + b).drop_first() =~= a.drop_first() + b);
        assert((a + b)[0] == a[0]);
        lemma_ccat_concat(a.drop_first(), b);
    }
}

/// The encoding of one more record extends the encoding of the prefix.
pub proof fn lemma_ccat_take_snoc(s: Seq<ClassModel>, i: int)
    requires
        0 <= i < s.len(),
    ensures
        enc_classes_cat(s.take(i + 1)) =~= enc_classes_cat(s.take(i)) + enc_class(s[i]),
{
    assert(s.take(i + 1) =~= s.take(i) + seq![s[i]]);
    lemma_ccat_concat(s.take(i), seq![s[i]]);
    assert(seq![s[i]][0] == s[i]);
    assert(seq![s[i]].drop_first() =~= Seq::<ClassModel>::empty());
    assert(enc_classes_cat(seq![s[i]]) =~= enc_class(s[i]) + enc_classes_cat(
        seq![s[i]].drop_first(),
    ));
}

/// A placed class-list encoding places the `i`-th record after the prefix.
pub proof fn lemma_ccat_at(bits: Seq<bool>, pos: int, s: Seq<ClassModel>, i: int)
    requires
        bits_at(bits, pos, enc_classes_cat(s)),
        0 <= i < s.len(),
    ensures
        bits_at(bits, pos + enc_classes_cat(s.take(i)).len(), enc_class(s[i])),
{
    assert(s =~= s.take(i + 1) + s.skip(i + 1));
    lemma_ccat_concat(s.take(i + 1), s.skip(i + 1));
    lemma_bits_at_split(bits, pos, enc_classes_cat(s.take(i + 1)), enc_classes_cat(s.skip(i + 1)));
    lemma_ccat_take_snoc(s, i);
    lemma_bits_at_split(bits, pos, enc_classes_cat(s.take(i)), enc_class(s[i]));
}

/// Table-list encodings concatenate.
pub proof fn lemma_tcat_concat(a: Seq<TableModel>, b: Seq<TableModel>)
    ensures
        enc_tables_cat(a + b) =~= enc_tables_cat(a) + enc_tables_cat(b),
    decreases a.len(),
{
    if a.len() == 0 {
        assert(a + b =~= b);
    } else {
        assert((a + b).drop_first() =~= a.drop_first() + b);
        assert((a + b)[0] == a[0]);
        lemma_tcat_concat(a.drop_first(), b);
    }
}

/// The encoding of one more table extends the encoding of the prefix.
pub proof fn lemma_tcat_take_snoc(s: Seq<TableModel>, i: int)
    requires
        0 <= i < s.len(),
    ensures
        enc_tables_cat(s.take(i + 1)) =~= enc_tables_cat(s.take(i)) + seq![true] + enc_table(s[i]),
{
    assert(s.take(i + 1) =~= s.take(i) + seq![s[i]]);
    lemma_tcat_concat(s.take(i), seq![s[i]]);
    assert(seq![s[i]][0] == s[i]);
    assert(seq![s[i]].drop_first() =~= Seq::<TableModel>::empty());
    assert(enc_tables_cat(seq![s[i]]) =~= seq![true] + enc_table(s[i]) + enc_tables_cat(
        seq![s[i]].drop_first(),
    ));
}

/// Decomposes a placed packet body: where the table run, the terminator bit,
/// the class count and the records lie.
pub proof fn lemma_body_positions(b2: Seq<bool>, p: PacketModel)
    requires
        bits_at(b2, 0, body_core(p)),
    ensures
        bits_at(b2, 0, enc_tables_cat(p.tables)),
        enc_tables_cat(p.tables).len() < b2.len(),
        b2[enc_tables_cat(p.tables).len() as int] == false,
        le_bits(p.classes.len(), 16) == b2.subrange(
            enc_tables_cat(p.tables).len() + 1 as int,
            enc_tables_cat(p.tables).len() + 17 as int,
        ),
        bits_at(b2, enc_tables_cat(p.tables).len() + 17 as int, enc_classes_cat(p.classes)),
        body_core(p).len() == enc_tables_cat(p.tables).len() + 17 + enc_classes_cat(
            p.classes,
        ).len(),
{
    let e1 = enc_tables_cat(p.tables);
    let e2 = seq![false];
    let e3 = le_bits(p.classes.len(), 16);
    let e4 = enc_classes_cat(p.classes);
    lemma_le_bits_len(p.classes.len(), 16);
    assert(body_core(p) =~= e1 + (e2 + (e3 + e4)));
    lemma_bits_at_split(b2, 0, e1, e2 + (e3 + e4));
    lemma_bits_at_split(b2, e1.len() as int, e2, e3 + e4);
    lemma_bits_at_split(b2, e1.len() + 1 as int, e3, e4);
    assert(b2.subrange(e1.len() as int, e1.len() + 1 as int) =~= e2);
    assert(b2[e1.len() as int] == e2[0]);
    assert(e3 =~= b2.subrange(e1.len() + 1 as int, e1.len() + 17 as int));
}

/// A placed table run whose prefix is consumed announces its next table with
/// a set bit, and the terminator of a fully consumed run is clear.
pub proof fn lemma_tcat_next(b2: Seq<bool>, s: Seq<TableModel>, j: int)
    requires
        bits_at(b2, 0, enc_tables_cat(s)),
        0 <= j < s.len(),
    ensures
        enc_tables_cat(s.take(j)).len() + 1 + enc_table(s[j]).len() <= enc_tables_cat(s).len(),
        b2[enc_tables_cat(s.take(j)).len() as int] == true,
        bits_at(b2, enc_tables_cat(s.take(j)).len() + 1 as int, enc_table(s[j])),
{
    assert(s =~= s.take(j + 1) + s.skip(j + 1));
    lemma_tcat_concat(s.take(j + 1), s.skip(j + 1));
    lemma_bits_at_split(
        b2,
        0,
        enc_tables_cat(s.take(j + 1)),
        enc_tables_cat(s.skip(j + 1)),
    );
    lemma_tcat_take_snoc(s, j);
    let pre = enc_tables_cat(s.take(j));
    assert(enc_tables_cat(s.take(j + 1)) =~= pre + (seq![true] + enc_table(s[j])));
    lemma_bits_at_split(b2, 0, pre, seq![true] + enc_table(s[j]));
    lemma_bits_at_split(b2, pre.len() as int, seq![true], enc_table(s[j]));
    assert(b2.subrange(pre.len() as int, pre.len() + 1 as int) =~= seq![true]);
    assert(b2[pre.len() as int] == seq![true][0]);
}

/// Read one fixed-layout server-class record.
///
/// When the wire form of an encodable record lies at the cursor, exactly
/// that record comes back and exactly its bits are consumed.
pub fn read_server_class(s: &mut Reader<'_>) -> (r: Result<ServerClass, ParseError>)
    ensures
        rbits(*final(s)) == rbits(*old(s)),
        rpos(*final(s)) <= rbits(*final(s)).len(),
        rpos(*old(s)) <= rpos(*final(s)),
        forall|c: ClassModel|
            class_encodable(c) && bits_at(
                rbits(*old(s)),
                rpos(*old(s)) as int,
                #[trigger] enc_class(c),
            ) ==> {
                &&& r is Ok
                &&& r->Ok_0@ == c
                &&& rpos(*final(s)) == rpos(*old(s)) + enc_class(c).len()
            },
{
    let ghost b = rbits(*old(s));
    let ghost p0 = rpos(*old(s)) as int;
    let id_word = match crate::cursor::c_read_int(s, 16) {
        Ok(v) => v,
        Err(e) => {
            proof {
                assert forall|c: ClassModel|
                    class_encodable(c) && bits_at(b, p0, #[trigger] enc_class(c))
                        implies false by {
                    lemma_class_positions(b, p0, c);
                }
            }
            return Err(ParseError::Codec(e));
        },
    };
    let ghost p1 = rpos(*s) as int;
    let name = match crate::cursor::c_read_string(s) {
        Ok(v) => v,
        Err(e) => {
            proof {
                assert forall|c: ClassModel|
                    class_encodable(c) && bits_at(b, p0, #[trigger] enc_class(c))
                        implies false by {
                    lemma_class_positions(b, p0, c);
                }
            }
            return Err(ParseError::Codec(e));
        },
    };
    let ghost p2 = rpos(*s) as int;
    let data_table = match crate::cursor::c_read_string(s) {
        Ok(v) => v,
        Err(e) => {
            proof {
                assert forall|c: ClassModel|
                    class_encodable(c) && bits_at(b, p0, #[trigger] enc_class(c))
                        implies false by {
                    lemma_class_positions(b, p0, c);
                }
            }
            return Err(ParseError::Codec(e));
        },
    };
    let r = ServerClass {
        id: ClassId(id_word as u16),
        name: ServerClassName(name),
        data_table: SendTableName(data_table),
    };
    proof {
        assert forall|c: ClassModel|
            class_encodable(c) && bits_at(b, p0, #[trigger] enc_class(c)) implies r@ =~~= c && rpos(
            *s,
        ) == p0 + enc_class(c).len() by {
            lemma_class_positions(b, p0, c);
            assert(pow2(16) == 65536) by {
                vstd::arithmetic::power2::lemma2_to64();
            }
            lemma_le_bits_inj(id_word as nat, c.id as nat, 16);
        }
    }
    Ok(r)
}

/// Decomposes a placed class record.
pub proof fn lemma_class_positions(b: Seq<bool>, p0: int, c: ClassModel)
    requires
        bits_at(b, p0, enc_class(c)),
    ensures
        str_bits(c.name).len() >= 8,
        str_bits(c.data_table).len() >= 8,
        le_bits(c.id as nat, 16) == b.subrange(p0, p0 + 16),
        bits_at(b, p0 + 16, str_bits(c.name)),
        bits_at(b, p0 + 16 + str_bits(c.name).len(), str_bits(c.data_table)),
        enc_class(c).len() == 16 + str_bits(c.name).len() + str_bits(c.data_table).len(),
        (c.id as nat) < pow2(16),
{
    let e1 = le_bits(c.id as nat, 16);
    let e2 = str_bits(c.name);
    let e3 = str_bits(c.data_table);
    lemma_le_bits_len(c.id as nat, 16);
    lemma_bytes_bits_len(vstd::utf8::encode_utf8(c.name) + seq![0u8]);
    lemma_bytes_bits_len(vstd::utf8::encode_utf8(c.data_table) + seq![0u8]);
    assert(enc_class(c) =~= e1 + (e2 + e3));
    lemma_bits_at_split(b, p0, e1, e2 + e3);
    lemma_bits_at_split(b, p0 + 16, e2, e3);
    assert(e1 =~= b.subrange(p0, p0 + 16));
    assert(pow2(16) == 65536) by {
        vstd::arithmetic::power2::lemma2_to64();
    }
}

/// A well-formed wire image satisfies the reader's premise with its own
/// declared byte length, whose slack is only alignment padding.
#[verifier::rlimit(100)]
pub proof fn lemma_enc_packet_at(b: Seq<bool>, pos: int, p: PacketModel)
    requires
        packet_encodable(p),
        b.len() <= usize::MAX,
        bits_at(b, pos, enc_packet(p)),
    ensures
        packet_at(b, pos, p, byte_len_of(p)),
        8 * byte_len_of(p) - body_core(p).len() <= 7,
{
    let core = body_core(p);
    let pad = pad_of(core.len());
    let e1 = le_bits(p.tick as nat, 32);
    let e2 = le_bits(byte_len_of(p), 32);
    let e4 = crate::bits::zero_bits(pad);
    lemma_le_bits_len(p.tick as nat, 32);
    lemma_le_bits_len(byte_len_of(p), 32);
    assert(8 * byte_len_of(p) == core.len() + pad) by {
        assert((core.len() + pad) % 8 == 0) by {
            assert(pad == ((8 - core.len() % 8) % 8) as nat);
        }
        vstd::arithmetic::div_mod::lemma_fundamental_div_mod((core.len() + pad) as int, 8);
    }
    assert(enc_packet(p) =~= (e1 + e2) + (core + e4));
    lemma_bits_at_split(b, pos, e1 + e2, core + e4);
    lemma_bits_at_split(b, pos + 64, core, e4);
}

/// One step of reading the table run of a placed packet body: what the
/// continuation bit at the current prefix says, and where the next table
/// lies.
pub proof fn lemma_tables_step(b2: Seq<bool>, p: PacketModel, j: int)
    requires
        bits_at(b2, 0, body_core(p)),
        packet_encodable(p),
        0 <= j <= p.tables.len(),
    ensures
        enc_tables_cat(p.tables.take(j)).len() <= enc_tables_cat(p.tables).len(),
        enc_tables_cat(p.tables).len() < b2.len(),
        j < p.tables.len() ==> {
            &&& b2[enc_tables_cat(p.tables.take(j)).len() as int] == true
            &&& table_at(b2, enc_tables_cat(p.tables.take(j)).len() + 1 as int, p.tables[j])
            &&& enc_tables_cat(p.tables.take(j + 1)) =~= enc_tables_cat(p.tables.take(j))
                + seq![true] + enc_table(p.tables[j])
        },
        j == p.tables.len() ==> {
            &&& p.tables.take(j) =~= p.tables
            &&& b2[enc_tables_cat(p.tables).len() as int] == false
        },
{
    lemma_body_positions(b2, p);
    assert(p.tables =~= p.tables.take(j) + p.tables.skip(j));
    lemma_tcat_concat(p.tables.take(j), p.tables.skip(j));
    if j < p.tables.len() {
        lemma_tcat_next(b2, p.tables, j);
        lemma_tcat_take_snoc(p.tables, j);
        assert(table_encodable(p.tables[j]));
    } else {
        assert(p.tables.take(j) =~= p.tables);
    }
}

impl DataTablePacket {
    /// Decode one data-table packet: tick, declared byte length, then a
    /// length-delimited body of tables and server classes read through an
    /// isolated sub-cursor.
    ///
    /// When an encodable packet lies at the cursor under a declared length
    /// whose slack is at most the seven bits of alignment padding, exactly
    /// that packet comes back and the cursor stops right after the delimited
    /// region.  A declared length with more slack fails with the
    /// data-remaining error carrying the exact leftover bit count.
    #[verifier::rlimit(100)]
    pub fn parse(stream: &mut Reader<'_>, state: &crate::state::ParserState) -> (r: Result<
        DataTablePacket,
        ParseError,
    >)
        ensures
            rbits(*final(stream)) == rbits(*old(stream)),
            rpos(*final(stream)) <= rbits(*final(stream)).len(),
            rpos(*old(stream)) <= rpos(*final(stream)),
            forall|p: PacketModel, len2: nat|
                #[trigger] packet_at(rbits(*old(stream)), rpos(*old(stream)) as int, p, len2)
                    ==> if 8 * len2 - body_core(p).len() <= 7 {
                    &&& r is Ok
                    &&& r->Ok_0@ == p
                    &&& rpos(*final(stream)) == rpos(*old(stream)) + 64 + 8 * len2
                } else {
                    r == Err::<DataTablePacket, ParseError>(ParseError::DataRemaining(
                        (8 * len2 - body_core(p).len()) as usize,
                    ))
                },
    {
        let ghost b = rbits(*old(stream));
        let ghost p0 = rpos(*old(stream)) as int;
        let tick = match crate::cursor::c_read_int(stream, 32) {
            Ok(v) => v,
            Err(e) => {
                proof {
                    assert forall|p: PacketModel, len2: nat|
                        #[trigger] packet_at(b, p0, p, len2) implies false by {
                        lemma_packet_head(b, p0, p, len2);
                    }
                }
                return Err(ParseError::Codec(e));
            },
        };
        let len_field = match crate::cursor::c_read_int(stream, 32) {
            Ok(v) => v,
            Err(e) => {
                proof {
                    assert forall|p: PacketModel, len2: nat|
                        #[trigger] packet_at(b, p0, p, len2) implies false by {
                        lemma_packet_head(b, p0, p, len2);
                    }
                }
                return Err(ParseError::Codec(e));
            },
        };
        let ghost p2 = rpos(*stream) as int;
        if (len_field as u64) > (usize::MAX as u64) / 8 {
            proof {
                assert forall|p: PacketModel, len2: nat|
                    #[trigger] packet_at(b, p0, p, len2) implies false by {
                    lemma_packet_head(b, p0, p, len2);
                    assert(pow2(32) > len2) by {
                        vstd::arithmetic::power2::lemma2_to64();
                    }
                    lemma_le_bits_inj(len_field as nat, len2, 32);
                    assert(8 * len2 <= b.len());
                    assert(8 * (len_field as nat) <= usize::MAX);
                    vstd::arithmetic::div_mod::lemma_fundamental_div_mod(usize::MAX as int, 8);
                }
            }
            return Err(ParseError::Codec(crate::cursor::CodecError::OutOfData));
        }
        proof {
            vstd::arithmetic::div_mod::lemma_fundamental_div_mod(usize::MAX as int, 8);
        }
        let n_bits: usize = (len_field as usize) * 8;
        let mut packet_data = match crate::cursor::c_read_bits(stream, n_bits) {
            Ok(v) => v,
            Err(e) => {
                proof {
                    assert forall|p: PacketModel, len2: nat|
                        #[trigger] packet_at(b, p0, p, len2) implies false by {
                        lemma_packet_head(b, p0, p, len2);
                        assert(pow2(32) > len2) by {
                            vstd::arithmetic::power2::lemma2_to64();
                        }
                        lemma_le_bits_inj(len_field as nat, len2, 32);
                    }
                }
                return Err(ParseError::Codec(e));
            },
        };
        let ghost b2 = rbits(packet_data);
        let ghost outer_after = rpos(*stream) as int;
        let mut tables: Vec<ParseSendTable> = Vec::new();
        proof {
            assert forall|p: PacketModel, len2: nat|
                #[trigger] packet_at(b, p0, p, len2) implies {
                &&& len_field as nat == len2
                &&& b2.len() == 8 * len2
                &&& bits_at(b2, 0, body_core(p))
                &&& outer_after == p0 + 64 + 8 * len2
                &&& tables_views(tables@) =~= p.tables.take(0)
                &&& rpos(packet_data) == enc_tables_cat(p.tables.take(0)).len()
            } by {
                lemma_packet_head(b, p0, p, len2);
                assert(pow2(32) > len2) by {
                    vstd::arithmetic::power2::lemma2_to64();
                }
                lemma_le_bits_inj(len_field as nat, len2, 32);
                crate::bits::lemma_bits_at_sub(b, p0 + 64, p0 + 64 + 8 * len2 as int, p0 + 64,
                    body_core(p));
                assert(tables_views(tables@) =~= Seq::<TableModel>::empty());
                assert(p.tables.take(0) =~= Seq::<TableModel>::empty());
                assert(enc_tables_cat(p.tables.take(0)).len() == 0);
            }
        }
        loop
            invariant_except_break
                forall|p: PacketModel, len2: nat|
                    #[trigger] packet_at(b, p0, p, len2) ==> {
                        &&& len_field as nat == len2
                        &&& b2.len() == 8 * len2
                        &&& bits_at(b2, 0, body_core(p))
                        &&& rpos(*stream) == p0 + 64 + 8 * len2
                        &&& tables@.len() <= p.tables.len()
                        &&& tables_views(tables@) == p.tables.take(tables@.len() as int)
                        &&& rpos(packet_data) == enc_tables_cat(
                            p.tables.take(tables@.len() as int),
                        ).len()
                    },
            invariant
                b == rbits(*old(stream)),
                p0 == rpos(*old(stream)) as int,
                rbits(*stream) == b,
                rpos(*old(stream)) <= rpos(*stream),
                rpos(*stream) <= b.len(),
                rbits(packet_data) == b2,
                rpos(packet_data) <= b2.len(),
            ensures
                rbits(packet_data) == b2,
                rpos(packet_data) <= b2.len(),
                rbits(*stream) == b,
                rpos(*old(stream)) <= rpos(*stream),
                rpos(*stream) <= b.len(),
                forall|p: PacketModel, len2: nat|
                    #[trigger] packet_at(b, p0, p, len2) ==> {
                        &&& len_field as nat == len2
                        &&& b2.len() == 8 * len2
                        &&& bits_at(b2, 0, body_core(p))
                        &&& rpos(*stream) == p0 + 64 + 8 * len2
                        &&& tables_views(tables@) == p.tables
                        &&& rpos(packet_data) == enc_tables_cat(p.tables).len() + 1
                    },
            decreases b2.len() - rpos(packet_data),
        {
            let ghost tables0 = tables@;
            let ghost pd_pos0 = rpos(packet_data) as int;
            let cont = match crate::cursor::c_read_bool(&mut packet_data) {
                Ok(v) => v,
                Err(e) => {
                    proof {
                        assert forall|p: PacketModel, len2: nat|
                            #[trigger] packet_at(b, p0, p, len2) implies false by {
                            lemma_tables_step(b2, p, tables0.len() as int);
                        }
                    }
                    return Err(ParseError::Codec(e));
                },
            };
            if !cont {
                proof {
                    assert forall|p: PacketModel, len2: nat|
                        #[trigger] packet_at(b, p0, p, len2) implies {
                        &&& tables_views(tables@) == p.tables
                        &&& rpos(packet_data) == enc_tables_cat(p.tables).len() + 1
                    } by {
                        lemma_tables_step(b2, p, tables0.len() as int);
                    }
                }
                break;
            }
            let table = match ParseSendTable::parse(&mut packet_data, state) {
                Ok(t) => t,
                Err(e) => {
                    proof {
                        assert forall|p: PacketModel, len2: nat|
                            #[trigger] packet_at(b, p0, p, len2) implies false by {
                            let j = tables0.len() as int;
                            lemma_tables_step(b2, p, j);
                            if j < p.tables.len() {
                                lemma_table_at_wire(b2, pd_pos0 + 1, p.tables[j]);
                            } else {
                                assert(cont == b2[pd_pos0]);
                            }
                        }
                    }
                    return Err(e);
                },
            };
            tables.push(table);
            proof {
                assert forall|p: PacketModel, len2: nat|
                    #[trigger] packet_at(b, p0, p, len2) implies {
                    &&& tables@.len() <= p.tables.len()
                    &&& tables_views(tables@) == p.tables.take(tables@.len() as int)
                    &&& rpos(packet_data) == enc_tables_cat(
                        p.tables.take(tables@.len() as int),
                    ).len()
                } by {
                    let j = tables0.len() as int;
                    lemma_tables_step(b2, p, j);
                    assert(pd_pos0 == enc_tables_cat(p.tables.take(j)).len());
                    if j < p.tables.len() {
                        let t = p.tables[j];
                        lemma_table_at_wire(b2, pd_pos0 + 1, t);
                        assert(t =~~= (TableModel {
                            name: t.name,
                            props: scan_props(expand_props(t.props))->Ok_0.acc,
                            needs_decoder: t.needs_decoder,
                        }));
                        assert(table@ == t);
                        assert(tables@ =~= tables0.push(table));
                        assert(tables_views(tables@) =~= tables_views(tables0).push(table@));
                        assert(p.tables.take(j + 1) =~= p.tables.take(j).push(p.tables[j]));
                        assert(rpos(packet_data) == pd_pos0 + 1 + enc_table(t).len());
                        assert(enc_tables_cat(p.tables.take(j + 1)).len() == enc_tables_cat(
                            p.tables.take(j),
                        ).len() + 1 + enc_table(t).len());
                    } else {
                        assert(cont == b2[pd_pos0]);
                        assert(false);
                    }
                }
            }
        }
        let class_count = match crate::cursor::c_read_int(&mut packet_data, 16) {
            Ok(v) => v,
            Err(e) => {
                proof {
                    assert forall|p: PacketModel, len2: nat|
                        #[trigger] packet_at(b, p0, p, len2) implies false by {
                        lemma_body_positions(b2, p);
                    }
                }
                return Err(ParseError::Codec(e));
            },
        };
        let mut server_classes: Vec<ServerClass> = Vec::new();
        let mut i: u32 = 0;
        proof {
            assert forall|p: PacketModel, len2: nat|
                #[trigger] packet_at(b, p0, p, len2) implies {
                &&& class_count as nat == p.classes.len()
                &&& classes_views(server_classes@) =~= p.classes.take(0)
                &&& rpos(packet_data) == enc_tables_cat(p.tables).len() + 17 + enc_classes_cat(
                    p.classes.take(0),
                ).len()
            } by {
                lemma_body_positions(b2, p);
                assert(pow2(16) == 65536) by {
                    vstd::arithmetic::power2::lemma2_to64();
                }
                lemma_le_bits_inj(class_count as nat, p.classes.len(), 16);
                assert(classes_views(server_classes@) =~= Seq::<ClassModel>::empty());
                assert(p.classes.take(0) =~= Seq::<ClassModel>::empty());
                assert(enc_classes_cat(p.classes.take(0)).len() == 0);
            }
        }
        while i < class_count
            invariant
                b == rbits(*old(stream)),
                p0 == rpos(*old(stream)) as int,
                rbits(*stream) == b,
                rpos(*old(stream)) <= rpos(*stream),
                rpos(*stream) <= b.len(),
                rbits(packet_data) == b2,
                rpos(packet_data) <= b2.len(),
                i <= class_count,
                i as nat == server_classes@.len(),
                forall|p: PacketModel, len2: nat|
                    #[trigger] packet_at(b, p0, p, len2) ==> {
                        &&& len_field as nat == len2
                        &&& b2.len() == 8 * len2
                        &&& bits_at(b2, 0, body_core(p))
                        &&& rpos(*stream) == p0 + 64 + 8 * len2
                        &&& class_count as nat == p.classes.len()
                        &&& i <= p.classes.len()
                        &&& classes_views(server_classes@) == p.classes.take(i as int)
                        &&& rpos(packet_data) == enc_tables_cat(p.tables).len() + 17
                            + enc_classes_cat(p.classes.take(i as int)).len()
                    },
            decreases class_count - i,
        {
            let ghost classes0 = server_classes@;
            let sc = match read_server_class(&mut packet_data) {
                Ok(v) => v,
                Err(e) => {
                    proof {
                        assert forall|p: PacketModel, len2: nat|
                            #[trigger] packet_at(b, p0, p, len2) implies false by {
                            lemma_body_positions(b2, p);
                            lemma_ccat_at(b2, enc_tables_cat(p.tables).len() + 17 as int, p.classes,
                                i as int);
                        }
                    }
                    return Err(e);
                },
            };
            server_classes.push(sc);
            proof {
                assert forall|p: PacketModel, len2: nat|
                    #[trigger] packet_at(b, p0, p, len2) implies {
                    &&& i + 1 <= p.classes.len()
                    &&& classes_views(server_classes@) == p.classes.take(i + 1)
                    &&& rpos(packet_data) == enc_tables_cat(p.tables).len() + 17 + enc_classes_cat(
                        p.classes.take(i + 1),
                    ).len()
                } by {
                    lemma_body_positions(b2, p);
                    lemma_ccat_at(b2, enc_tables_cat(p.tables).len() + 17 as int, p.classes,
                        i as int);
                    lemma_ccat_take_snoc(p.classes, i as int);
                    assert(server_classes@ =~= classes0.push(sc));
                    assert(classes_views(server_classes@) =~= classes_views(classes0).push(sc@));
                    assert(p.classes.take(i + 1) =~= p.classes.take(i as int).push(
                        p.classes[i as int],
                    ));
                }
            }
            i = i + 1;
        }
        let left = crate::cursor::c_bits_left(&packet_data);
        if left > 7 {
            proof {
                assert forall|p: PacketModel, len2: nat|
                    #[trigger] packet_at(b, p0, p, len2) implies !(8 * len2 - body_core(p).len()
                    <= 7) && left == 8 * len2 - body_core(p).len() by {
                    lemma_body_positions(b2, p);
                    assert(p.classes.take(class_count as int) =~= p.classes);
                }
            }
            return Err(ParseError::DataRemaining(left));
        }
        let result = DataTablePacket { tick, tables, server_classes };
        proof {
            assert forall|p: PacketModel, len2: nat|
                #[trigger] packet_at(b, p0, p, len2) implies 8 * len2 - body_core(p).len() <= 7
                && result@ == p && rpos(*stream) == rpos(*old(stream)) + 64 + 8 * len2 by {
                lemma_body_positions(b2, p);
                lemma_packet_head(b, p0, p, len2);
                assert(pow2(32) > p.tick as nat) by {
                    vstd::arithmetic::power2::lemma2_to64();
                }
                lemma_le_bits_inj(tick as nat, p.tick as nat, 32);
                assert(p.classes.take(class_count as int) =~= p.classes);
                assert(result@ =~~= p);
            }
        }
        Ok(result)
    }

    /// Encode this packet through the write cursor: the exact inverse of
    /// [`DataTablePacket::parse`], with the body zero-padded to a whole
    /// number of bytes and its measured byte length written in the length
    /// field.
    #[verifier::rlimit(100)]
    pub fn write(&self, stream: &mut crate::cursor::Writer<'_>)
        requires
            packet_encodable(self@),
        ensures
            wbits(*final(stream)) =~= wbits(*old(stream)) + enc_packet(self@),
    {
        let ghost views = tables_views(self.tables@);
        let ghost cviews = classes_views(self.server_classes@);
        let mut body: Vec<bool> = Vec::new();
        let mut j: usize = 0;
        proof {
            assert(views.take(0) =~= Seq::<TableModel>::empty());
            assert(body@ =~= enc_tables_cat(views.take(0)));
        }
        while j < self.tables.len()
            invariant
                packet_encodable(self@),
                views == tables_views(self.tables@),
                j <= self.tables@.len(),
                body@ =~= enc_tables_cat(views.take(j as int)),
            decreases self.tables@.len() - j,
        {
            proof {
                assert(self.tables@[j as int]@ == self@.tables[j as int]);
                assert(table_encodable(self@.tables[j as int]));
            }
            body.push(true);
            self.tables[j].push_encoding(&mut body);
            proof {
                lemma_tcat_take_snoc(views, j as int);
            }
            j = j + 1;
        }
        proof {
            assert(views.take(self.tables@.len() as int) =~= views);
        }
        body.push(false);
        proof {
            assert(pow2(16) == 65536) by {
                vstd::arithmetic::power2::lemma2_to64();
            }
        }
        crate::bits::push_le_bits(&mut body, self.server_classes.len() as u32, 16);
        let mut k: usize = 0;
        let ghost mid = body@;
        proof {
            assert(cviews.take(0) =~= Seq::<ClassModel>::empty());
            assert(body@ =~= mid + enc_classes_cat(cviews.take(0)));
        }
        while k < self.server_classes.len()
            invariant
                packet_encodable(self@),
                cviews == classes_views(self.server_classes@),
                k <= self.server_classes@.len(),
                body@ =~= mid + enc_classes_cat(cviews.take(k as int)),
            decreases self.server_classes@.len() - k,
        {
            let ghost c = cviews[k as int];
            proof {
                assert(class_encodable(c));
                assert(pow2(16) == 65536) by {
                    vstd::arithmetic::power2::lemma2_to64();
                }
            }
            crate::bits::push_le_bits(&mut body, self.server_classes[k].id.0 as u32, 16);
            crate::bits::push_str(&mut body, self.server_classes[k].name.as_str());
            crate::bits::push_str(&mut body, self.server_classes[k].data_table.as_str());
            proof {
                lemma_ccat_take_snoc(cviews, k as int);
                assert(enc_class(c) =~= le_bits(c.id as nat, 16) + str_bits(c.name) + str_bits(
                    c.data_table,
                ));
            }
            k = k + 1;
        }
        proof {
            assert(cviews.take(self.server_classes@.len() as int) =~= cviews);
            assert(body@ =~= body_core(self@));
        }
        let ghost core_len = body@.len() as nat;
        let pad_bits: usize = (8 - (body.len() % 8)) % 8;
        let mut padded: usize = 0;
        while padded < pad_bits
            invariant
                pad_bits as nat == pad_of(core_len),
                padded <= pad_bits,
                core_len == body_core(self@).len(),
                body@ =~= body_core(self@) + crate::bits::zero_bits(padded as nat),
            decreases pad_bits - padded,
        {
            body.push(false);
            padded = padded + 1;
            proof {
                assert(body@ =~= body_core(self@) + crate::bits::zero_bits(padded as nat));
            }
        }
        proof {
            assert(padded as nat == pad_of(core_len));
            assert(body@.len() == core_len + pad_of(core_len));
            assert(8 * byte_len_of(self@) == body@.len()) by {
                assert((core_len + pad_of(core_len)) % 8 == 0);
                vstd::arithmetic::div_mod::lemma_fundamental_div_mod(body@.len() as int, 8);
            }
            assert(byte_len_of(self@) < pow2(32));
            assert(pow2(32) == 0x100000000) by {
                vstd::arithmetic::power2::lemma2_to64();
            }
        }
        let byte_len: usize = body.len() / 8;
        let mut head: Vec<bool> = Vec::new();
        proof {
            assert((self.tick as nat) < pow2(32)) by {
                vstd::arithmetic::power2::lemma2_to64();
            }
        }
        crate::bits::push_le_bits(&mut head, self.tick, 32);
        crate::bits::push_le_bits(&mut head, byte_len as u32, 32);
        crate::cursor::flush_bits(stream, &head);
        crate::cursor::flush_bits(stream, &body);
        proof {
            assert(wbits(*stream) =~= wbits(*old(stream)) + enc_packet(self@));
        }
    }
}

/// Decomposes a placed packet head: where the tick and length fields lie.
pub proof fn lemma_packet_head(b: Seq<bool>, p0: int, p: PacketModel, len2: nat)
    requires
        packet_at(b, p0, p, len2),
    ensures
        le_bits(p.tick as nat, 32) == b.subrange(p0, p0 + 32),
        le_bits(len2, 32) == b.subrange(p0 + 32, p0 + 64),
        0 <= p0 && p0 + 64 + 8 * len2 <= b.len(),
        body_core(p).len() <= 8 * len2,
        bits_at(b, p0 + 64, body_core(p)),
        b.len() <= usize::MAX,
{
    let e1 = le_bits(p.tick as nat, 32);
    let e2 = le_bits(len2, 32);
    lemma_le_bits_len(p.tick as nat, 32);
    lemma_le_bits_len(len2, 32);
    lemma_bits_at_split(b, p0, e1, e2);
    assert(e1 =~= b.subrange(p0, p0 + 32));
    assert(e2 =~= b.subrange(p0 + 32, p0 + 64));
}

} // verus!
