//! The property-flattening engine.
//!
//! Flattening resolves one table's raw, graph-shaped property definitions —
//! together with all sibling tables, looked up by name — into one ordered,
//! fully resolved property list.  It runs in two phases: an exclude-set
//! computation that follows table references recursively, and a recursive
//! collection pass with two-tier buffering, where a collapsible reference
//! splices its entries into the current level and any other reference forms
//! its own block appended after it.  A final pass stable-partitions the list
//! so that every "changes often" property precedes all others.
//!
//! Both passes carry an explicit recursion budget: a reference chain in an
//! acyclic table set visits each sibling at most once, so a budget of one
//! per sibling table never runs out on well-formed input, while a cyclic
//! reference graph fails cleanly instead of recursing forever.

use vstd::prelude::*;

verus! {

use crate::sendprop::SendPropType;
use crate::sendprop::SendPropFlag;
use crate::sendprop::has_flag;
use crate::sendprop::RawPropModel;
use crate::sendprop::RawSendPropDefinition;
use crate::sendprop::SendPropDefinition;
use crate::sendprop::PropDefModel;
use crate::sendprop::SendPropIdentifier;
use crate::sendprop::IdentModel;
use crate::sendprop::resolvable;
use crate::sendprop::resolve_model;
use crate::datatable::ParseSendTable;
use crate::datatable::SendTableName;
use crate::datatable::TableModel;
use crate::datatable::tables_views;
use crate::datatable::props_views;
use crate::error::MalformedSendPropDefinitionError;
use crate::error::ParseError;

/// The identifier models of a list of identifiers.
pub open spec fn ident_views(s: Seq<SendPropIdentifier>) -> Seq<IdentModel> {
    s.map_values(|x: SendPropIdentifier| x@)
}

/// The property models of a list of resolved properties.
pub open spec fn def_views(s: Seq<SendPropDefinition>) -> Seq<PropDefModel> {
    s.map_values(|x: SendPropDefinition| crate::sendprop::prop_def_model(x))
}

/// Whether an entry is an exclusion directive.
pub open spec fn is_exclude_m(p: RawPropModel) -> bool {
    has_flag(p.flags, SendPropFlag::Exclude)
}

/// The first table of the given name, if any.
pub open spec fn find_table_spec(tables: Seq<TableModel>, name: Seq<char>) -> Option<TableModel>
    decreases tables.len(),
{
    if tables.len() == 0 {
        None
    } else if tables[0].name == name {
        Some(tables[0])
    } else {
        find_table_spec(tables.drop_first(), name)
    }
}

/// The sibling table an entry refers to, if it is a table reference whose
/// target exists.
pub open spec fn ref_table_spec(p: RawPropModel, tables: Seq<TableModel>) -> Option<TableModel> {
    if p.prop_type == SendPropType::DataTable {
        match p.table_name {
            Some(n) => find_table_spec(tables, n),
            None => None,
        }
    } else {
        None
    }
}

/// Phase one over a run of entries: each exclusion directive contributes the
/// identifier it names; each table reference recursively contributes the
/// referenced table's own exclude set.  `None` is exhaustion of the
/// recursion budget.
pub open spec fn spec_excludes_props(
    props: Seq<RawPropModel>,
    tables: Seq<TableModel>,
    fuel: nat,
) -> Option<Seq<IdentModel>>
    decreases fuel, props.len(), 0int,
{
    if props.len() == 0 {
        Some(Seq::empty())
    } else {
        let p = props[0];
        let head: Option<Seq<IdentModel>> = if is_exclude_m(p) && p.table_name is Some {
            Some(seq![IdentModel { table: p.table_name->Some_0, prop: p.name }])
        } else {
            match ref_table_spec(p, tables) {
                Some(sub) => if fuel == 0 {
                    None
                } else {
                    spec_excludes_props(sub.props, tables, (fuel - 1) as nat)
                },
                None => Some(Seq::empty()),
            }
        };
        match (head, spec_excludes_props(props.drop_first(), tables, fuel)) {
            (Some(h), Some(r)) => Some(h + r),
            _ => None,
        }
    }
}

/// Phase two over a run of entries: what the run adds to the current level's
/// local buffer and what it appends to the outer accumulator.  Exclusion
/// directives and excluded identifiers are skipped; a collapsible reference
/// splices into the same buffers; any other reference flattens the target
/// into its own block on the outer accumulator; a leaf resolves into the
/// local buffer.  `None` is a malformed leaf or budget exhaustion.
pub open spec fn spec_iter_props(
    props: Seq<RawPropModel>,
    tables: Seq<TableModel>,
    excludes: Seq<IdentModel>,
    fuel: nat,
) -> Option<(Seq<PropDefModel>, Seq<PropDefModel>)>
    decreases fuel, props.len(), 0int,
{
    if props.len() == 0 {
        Some((Seq::empty(), Seq::empty()))
    } else {
        let p = props[0];
        let head: Option<(Seq<PropDefModel>, Seq<PropDefModel>)> = if is_exclude_m(p)
            || excludes.contains(p.identifier) {
            Some((Seq::empty(), Seq::empty()))
        } else {
            match ref_table_spec(p, tables) {
                Some(sub) => if fuel == 0 {
                    None
                } else if has_flag(p.flags, SendPropFlag::Collapsible) {
                    spec_iter_props(sub.props, tables, excludes, (fuel - 1) as nat)
                } else {
                    match spec_all_props(sub, tables, excludes, (fuel - 1) as nat) {
                        Some(block) => Some((Seq::empty(), block)),
                        None => None,
                    }
                },
                None => if resolvable(p) {
                    Some((seq![resolve_model(p)], Seq::empty()))
                } else {
                    None
                },
            }
        };
        match (head, spec_iter_props(props.drop_first(), tables, excludes, fuel)) {
            (Some(h), Some(r)) => Some((h.0 + r.0, h.1 + r.1)),
            _ => None,
        }
    }
}

/// One table fully flattened against an exclude set: its outer blocks
/// followed by its local buffer.
pub open spec fn spec_all_props(
    t: TableModel,
    tables: Seq<TableModel>,
    excludes: Seq<IdentModel>,
    fuel: nat,
) -> Option<Seq<PropDefModel>>
    decreases fuel, t.props.len(), 1int,
{
    match spec_iter_props(t.props, tables, excludes, fuel) {
        Some(pair) => Some(pair.1 + pair.0),
        None => None,
    }
}

/// Whether a resolved property changes often.
pub open spec fn co_m(p: PropDefModel) -> bool {
    has_flag(p.flags, SendPropFlag::ChangesOften)
}

/// The final ordering pass: a stable partition that moves every
/// "changes often" property to the front, each side keeping its relative
/// order.
pub open spec fn partition_co(s: Seq<PropDefModel>) -> Seq<PropDefModel> {
    s.filter(|p: PropDefModel| co_m(p)) + s.filter(|p: PropDefModel| !co_m(p))
}

/// The flattening engine as a mathematical function of one table and its
/// sibling set; `None` is a malformed leaf or a cyclic reference graph.
pub open spec fn spec_flatten(t: TableModel, tables: Seq<TableModel>) -> Option<
    Seq<PropDefModel>,
> {
    match spec_excludes_props(t.props, tables, tables.len()) {
        Some(ex) => match spec_all_props(t, tables, ex, tables.len()) {
            Some(flat) => Some(partition_co(flat)),
            None => None,
        },
        None => None,
    }
}

/// Look a table up by name: the first sibling with that name.
pub fn find_table<'a>(tables: &'a [ParseSendTable], name: &SendTableName) -> (r: Option<
    &'a ParseSendTable,
>)
    ensures
        match find_table_spec(tables_views(tables@), name@) {
            Some(tm) => r is Some && r->Some_0@ == tm,
            None => r is None,
        },
{
    let ghost views = tables_views(tables@);
    let mut i: usize = 0;
    proof {
        assert(views.skip(0) =~= views);
    }
    while i < tables.len()
        invariant
            i <= tables@.len(),
            views == tables_views(tables@),
            find_table_spec(views, name@) == find_table_spec(views.skip(i as int), name@),
        decreases tables@.len() - i,
    {
        if tables[i].name == *name {
            proof {
                assert(views.skip(i as int)[0] == tables@[i as int]@);
            }
            return Some(&tables[i]);
        }
        proof {
            assert(views.skip(i as int)[0] == tables@[i as int]@);
            assert(views.skip(i as int).drop_first() =~= views.skip(i + 1));
        }
        i = i + 1;
    }
    proof {
        assert(views.skip(views.len() as int).len() == 0);
    }
    None
}

/// Whether the identifier occurs in the exclude list.
pub fn contains_ident(excludes: &Vec<SendPropIdentifier>, id: &SendPropIdentifier) -> (r: bool)
    ensures
        r == ident_views(excludes@).contains(id@),
{
    let mut i: usize = 0;
    while i < excludes.len()
        invariant
            i <= excludes@.len(),
            forall|k: int| 0 <= k < i ==> ident_views(excludes@)[k] != id@,
        decreases excludes@.len() - i,
    {
        if &excludes[i] == id {
            proof {
                assert(ident_views(excludes@)[i as int] == id@);
            }
            return true;
        }
        i = i + 1;
    }
    proof {
        assert(forall|k: int| 0 <= k < ident_views(excludes@).len()
            ==> ident_views(excludes@)[k] != id@);
    }
    false
}

impl RawSendPropDefinition {
    /// The sibling table this entry refers to, if it is a table reference
    /// whose target exists.
    pub fn get_data_table<'a>(&self, tables: &'a [ParseSendTable]) -> (r: Option<
        &'a ParseSendTable,
    >)
        ensures
            match ref_table_spec(self@, tables_views(tables@)) {
                Some(tm) => r is Some && r->Some_0@ == tm,
                None => r is None,
            },
    {
        if matches!(self.prop_type, SendPropType::DataTable) {
            match &self.table_name {
                Some(n) => find_table(tables, n),
                None => None,
            }
        } else {
            None
        }
    }
}

impl ParseSendTable {
    /// Phase one: this table's exclude set, following table references
    /// recursively with the given recursion budget.
    pub fn get_excludes(&self, tables: &[ParseSendTable], fuel: usize) -> (r: Result<
        Vec<SendPropIdentifier>,
        ParseError,
    >)
        ensures
            match spec_excludes_props(self@.props, tables_views(tables@), fuel as nat) {
                Some(ex) => r is Ok && ident_views(r->Ok_0@) == ex,
                None => r is Err,
            },
    {
        let mut out: Vec<SendPropIdentifier> = Vec::new();
        proof {
            assert(ident_views(out@) =~= Seq::<IdentModel>::empty());
        }
        match excludes_of(&self.props, tables, fuel, &mut out) {
            Ok(u) => {
                proof {
                    assert(self@.props == props_views(self.props@));
                }
                Ok(out)
            },
            Err(e) => Err(e),
        }
    }
}

/// Phase one over one entry list, appending into `out`.
fn excludes_of(
    props: &Vec<RawSendPropDefinition>,
    tables: &[ParseSendTable],
    fuel: usize,
    out: &mut Vec<SendPropIdentifier>,
) -> (r: Result<(), ParseError>)
    ensures
        match spec_excludes_props(props_views(props@), tables_views(tables@), fuel as nat) {
            Some(ex) => r is Ok && ident_views(final(out)@) == ident_views(old(out)@) + ex,
            None => r is Err,
        },
    decreases fuel, 1int,
{
    let ghost views = props_views(props@);
    let ghost tviews = tables_views(tables@);
    let ghost base = ident_views(old(out)@);
    let mut i: usize = 0;
    proof {
        assert(views.skip(0) =~= views);
        assert(ident_views(out@) =~= base + Seq::<IdentModel>::empty());
    }
    while i < props.len()
        invariant
            i <= props@.len(),
            views == props_views(props@),
            tviews == tables_views(tables@),
            fuel <= usize::MAX,
            match spec_excludes_props(views.skip(i as int), tviews, fuel as nat) {
                Some(ex2) => spec_excludes_props(views, tviews, fuel as nat) matches Some(full)
                    && ident_views(out@) + ex2 == base + full,
                None => spec_excludes_props(views, tviews, fuel as nat) is None,
            },
        decreases props@.len() - i,
    {
        let ghost out0 = ident_views(out@);
        let ghost p = views[i as int];
        proof {
            assert(views.skip(i as int)[0] == p);
            assert(views.skip(i as int).drop_first() =~= views.skip(i + 1));
        }
        let prop = &props[i];
        match prop.get_exclude_table() {
            Some(extab) => {
                let ident = SendPropIdentifier::new(extab.as_str(), prop.name.as_str());
                out.push(ident);
                proof {
                    assert(ident_views(out@) =~= out0.push(
                        IdentModel { table: p.table_name->Some_0, prop: p.name },
                    ));
                    assert(out0.push(IdentModel { table: p.table_name->Some_0, prop: p.name })
                        =~= out0 + seq![IdentModel { table: p.table_name->Some_0, prop: p.name }]);
                }
            },
            None => {
                match prop.get_data_table(tables) {
                    Some(sub) => {
                        if fuel == 0 {
                            return Err(ParseError::Malformed(
                                MalformedSendPropDefinitionError::InvalidDefinition,
                            ));
                        }
                        let res = excludes_of(&sub.props, tables, fuel - 1, out);
                        match res {
                            Ok(u) => {
                                proof {
                                    assert(sub@.props == props_views(sub.props@));
                                }
                            },
                            Err(e) => {
                                return Err(e);
                            },
                        }
                    },
                    None => {
                        proof {
                            assert(ident_views(out@) =~= out0 + Seq::<IdentModel>::empty());
                        }
                    },
                }
            },
        }
        i = i + 1;
    }
    proof {
        assert(views.skip(views.len() as int).len() == 0);
    }
    Ok(())
}

impl ParseSendTable {
    /// Phase two, current level: walk this table's entries in order against
    /// the exclude set, resolving leaves into `local` and appending each
    /// non-collapsible reference's block to `props`.
    pub fn get_all_props_iterator_props(
        &self,
        tables: &[ParseSendTable],
        excludes: &Vec<SendPropIdentifier>,
        fuel: usize,
        local: &mut Vec<SendPropDefinition>,
        props: &mut Vec<SendPropDefinition>,
    ) -> (r: Result<(), ParseError>)
        ensures
            match spec_iter_props(
                self@.props,
                tables_views(tables@),
                ident_views(excludes@),
                fuel as nat,
            ) {
                Some(pair) => {
                    &&& r is Ok
                    &&& def_views(final(local)@) == def_views(old(local)@) + pair.0
                    &&& def_views(final(props)@) == def_views(old(props)@) + pair.1
                },
                None => r is Err,
            },
        decreases fuel, 0int,
    {
        let ghost views = props_views(self.props@);
        let ghost tviews = tables_views(tables@);
        let ghost exviews = ident_views(excludes@);
        let ghost lbase = def_views(old(local)@);
        let ghost obase = def_views(old(props)@);
        let mut i: usize = 0;
        proof {
            assert(self@.props == views);
            assert(views.skip(0) =~= views);
            assert(def_views(local@) =~= lbase + Seq::<PropDefModel>::empty());
            assert(def_views(props@) =~= obase + Seq::<PropDefModel>::empty());
        }
        while i < self.props.len()
            invariant
                i <= self.props@.len(),
                views == props_views(self.props@),
                tviews == tables_views(tables@),
                exviews == ident_views(excludes@),
                fuel <= usize::MAX,
                match spec_iter_props(views.skip(i as int), tviews, exviews, fuel as nat) {
                    Some(rest) => spec_iter_props(views, tviews, exviews, fuel as nat) matches Some(
                        full,
                    ) && def_views(local@) + rest.0 == lbase + full.0 && def_views(props@) + rest.1
                        == obase + full.1,
                    None => spec_iter_props(views, tviews, exviews, fuel as nat) is None,
                },
            decreases self.props@.len() - i,
        {
            let ghost l0 = def_views(local@);
            let ghost o0 = def_views(props@);
            let ghost p = views[i as int];
            proof {
                assert(views.skip(i as int)[0] == p);
                assert(views.skip(i as int).drop_first() =~= views.skip(i + 1));
            }
            let prop = &self.props[i];
            if prop.is_exclude() {
                proof {
                    assert(def_views(local@) =~= l0 + Seq::<PropDefModel>::empty());
                    assert(def_views(props@) =~= o0 + Seq::<PropDefModel>::empty());
                }
            } else if contains_ident(excludes, &prop.identifier) {
                proof {
                    assert(def_views(local@) =~= l0 + Seq::<PropDefModel>::empty());
                    assert(def_views(props@) =~= o0 + Seq::<PropDefModel>::empty());
                }
            } else {
                match prop.get_data_table(tables) {
                    Some(sub) => {
                        if fuel == 0 {
                            return Err(ParseError::Malformed(
                                MalformedSendPropDefinitionError::InvalidDefinition,
                            ));
                        }
                        if prop.flags.contains(SendPropFlag::Collapsible) {
                            let res = sub.get_all_props_iterator_props(
                                tables,
                                excludes,
                                fuel - 1,
                                local,
                                props,
                            );
                            match res {
                                Ok(u) => {},
                                Err(e) => {
                                    return Err(e);
                                },
                            }
                        } else {
                            let res = sub.get_all_props(tables, excludes, fuel - 1, props);
                            match res {
                                Ok(u) => {
                                    proof {
                                        assert(def_views(local@) =~= l0 + Seq::<
                                            PropDefModel,
                                        >::empty());
                                    }
                                },
                                Err(e) => {
                                    return Err(e);
                                },
                            }
                        }
                    },
                    None => {
                        let def = match SendPropDefinition::try_from_raw(prop) {
                            Ok(d) => d,
                            Err(e) => {
                                return Err(e);
                            },
                        };
                        local.push(def);
                        proof {
                            assert(def_views(local@) =~= l0.push(resolve_model(p)));
                            assert(l0.push(resolve_model(p)) =~= l0 + seq![resolve_model(p)]);
                            assert(def_views(props@) =~= o0 + Seq::<PropDefModel>::empty());
                        }
                    },
                }
            }
            i = i + 1;
        }
        proof {
            assert(views.skip(views.len() as int).len() == 0);
        }
        Ok(())
    }

    /// Phase two, one whole table: collect into a fresh local buffer, then
    /// append that buffer after the outer blocks it produced.
    pub fn get_all_props(
        &self,
        tables: &[ParseSendTable],
        excludes: &Vec<SendPropIdentifier>,
        fuel: usize,
        props: &mut Vec<SendPropDefinition>,
    ) -> (r: Result<(), ParseError>)
        ensures
            match spec_all_props(
                self@,
                tables_views(tables@),
                ident_views(excludes@),
                fuel as nat,
            ) {
                Some(block) => {
                    &&& r is Ok
                    &&& def_views(final(props)@) == def_views(old(props)@) + block
                },
                None => r is Err,
            },
        decreases fuel, 1int,
    {
        let mut local: Vec<SendPropDefinition> = Vec::new();
        proof {
            assert(def_views(local@) =~= Seq::<PropDefModel>::empty());
        }
        let res = self.get_all_props_iterator_props(tables, excludes, fuel, &mut local, props);
        match res {
            Ok(u) => {},
            Err(e) => {
                return Err(e);
            },
        }
        let ghost mid = def_views(props@);
        let ghost ladd = def_views(local@);
        props.append(&mut local);
        proof {
            assert(def_views(props@) =~= mid + ladd);
            match spec_iter_props(self@.props, tables_views(tables@), ident_views(excludes@),
                fuel as nat) {
                Some(pair) => {
                    assert(def_views(props@) =~= def_views(old(props)@) + (pair.1 + pair.0));
                },
                None => {},
            }
        }
        Ok(())
    }

    /// The flattening engine: this table's full networked-property schema,
    /// resolved against all sibling tables.
    ///
    /// The result is a pure function of the inputs — stated by the contract
    /// below — so repeated invocations on identical table sets yield
    /// identical output.
    pub fn flatten_props(&self, tables: &[ParseSendTable]) -> (r: Result<
        Vec<SendPropDefinition>,
        ParseError,
    >)
        ensures
            match spec_flatten(self@, tables_views(tables@)) {
                Some(out) => r is Ok && def_views(r->Ok_0@) == out,
                None => r is Err,
            },
    {
        let fuel = tables.len();
        let excludes = match self.get_excludes(tables, fuel) {
            Ok(v) => v,
            Err(e) => {
                return Err(e);
            },
        };
        let mut flat: Vec<SendPropDefinition> = Vec::new();
        proof {
            assert(def_views(flat@) =~= Seq::<PropDefModel>::empty());
        }
        let res = self.get_all_props(tables, &excludes, fuel, &mut flat);
        match res {
            Ok(u) => {},
            Err(e) => {
                return Err(e);
            },
        }
        let ghost flat0 = def_views(flat@);
        proof {
            match spec_all_props(self@, tables_views(tables@), ident_views(excludes@),
                fuel as nat) {
                Some(block) => {
                    assert(flat0 =~= Seq::<PropDefModel>::empty() + block);
                    assert(flat0 =~= block);
                },
                None => {},
            }
        }
        let mut co_front: Vec<SendPropDefinition> = Vec::new();
        let mut others: Vec<SendPropDefinition> = Vec::new();
        let ghost total = flat0.len() as int;
        proof {
            reveal(Seq::filter);
            assert(flat0.take(0).filter(|p: PropDefModel| co_m(p)) =~= Seq::<
                PropDefModel,
            >::empty());
            assert(flat0.take(0).filter(|p: PropDefModel| !co_m(p)) =~= Seq::<
                PropDefModel,
            >::empty());
            assert(def_views(co_front@) =~= Seq::<PropDefModel>::empty());
            assert(def_views(others@) =~= Seq::<PropDefModel>::empty());
        }
        while flat.len() > 0
            invariant
                def_views(flat@) == flat0.skip(total - flat@.len()),
                flat@.len() <= total,
                0 <= total - flat@.len() <= flat0.len(),
                total == flat0.len(),
                def_views(co_front@) == flat0.take(total - flat@.len()).filter(
                    |p: PropDefModel| co_m(p),
                ),
                def_views(others@) == flat0.take(total - flat@.len()).filter(
                    |p: PropDefModel| !co_m(p),
                ),
            decreases flat@.len(),
        {
            let ghost k = total - flat@.len();
            let ghost co0 = def_views(co_front@);
            let ghost ot0 = def_views(others@);
            let d = flat.remove(0);
            proof {
                assert(def_views(flat@) =~= flat0.skip(k + 1)) by {
                    assert(flat0.skip(k).drop_first() =~= flat0.skip(k + 1));
                }
                assert(crate::sendprop::prop_def_model(d) == flat0.skip(k)[0]);
                assert(flat0.skip(k)[0] == flat0[k]);
            }
            if d.changes_often() {
                co_front.push(d);
            } else {
                others.push(d);
            }
            proof {
                reveal(Seq::filter);
                assert(flat0.take(k + 1).drop_last() =~= flat0.take(k));
                assert(flat0.take(k + 1).last() == flat0[k]);
                if co_m(flat0[k]) {
                    assert(def_views(co_front@) =~= co0.push(flat0[k]));
                    assert(flat0.take(k + 1).filter(|p: PropDefModel| co_m(p)) =~= flat0.take(
                        k,
                    ).filter(|p: PropDefModel| co_m(p)).push(flat0[k]));
                    assert(flat0.take(k + 1).filter(|p: PropDefModel| !co_m(p)) =~= flat0.take(
                        k,
                    ).filter(|p: PropDefModel| !co_m(p)));
                } else {
                    assert(def_views(others@) =~= ot0.push(flat0[k]));
                    assert(flat0.take(k + 1).filter(|p: PropDefModel| !co_m(p)) =~= flat0.take(
                        k,
                    ).filter(|p: PropDefModel| !co_m(p)).push(flat0[k]));
                    assert(flat0.take(k + 1).filter(|p: PropDefModel| co_m(p)) =~= flat0.take(
                        k,
                    ).filter(|p: PropDefModel| co_m(p)));
                }
            }
        }
        let ghost cofinal = def_views(co_front@);
        let ghost otfinal = def_views(others@);
        co_front.append(&mut others);
        proof {
            assert(flat0.take(total) =~= flat0);
            assert(def_views(co_front@) =~= cofinal + otfinal);
            assert(def_views(co_front@) =~= partition_co(flat0));
        }
        Ok(co_front)
    }
}

/// Ordering law: in any flattened list every "changes often" property
/// precedes every other property, and — because the final pass is the
/// filter-built stable partition stated here — each side keeps the relative
/// order it had before the pass.
pub proof fn lemma_flatten_ordering(t: TableModel, tables: Seq<TableModel>)
    requires
        spec_flatten(t, tables) is Some,
    ensures
        ({
            let ex = spec_excludes_props(t.props, tables, tables.len())->Some_0;
            let flat = spec_all_props(t, tables, ex, tables.len())->Some_0;
            let out = spec_flatten(t, tables)->Some_0;
            &&& out == flat.filter(|p: PropDefModel| co_m(p)) + flat.filter(
                |p: PropDefModel| !co_m(p),
            )
            &&& forall|i: int, j: int|
                0 <= i < j < out.len() && !co_m(#[trigger] out[i]) ==> !co_m(#[trigger] out[j])
        }),
{
    let ex = spec_excludes_props(t.props, tables, tables.len())->Some_0;
    let flat = spec_all_props(t, tables, ex, tables.len())->Some_0;
    let out = spec_flatten(t, tables)->Some_0;
    let f1 = flat.filter(|p: PropDefModel| co_m(p));
    let f2 = flat.filter(|p: PropDefModel| !co_m(p));
    assert forall|i: int, j: int|
        0 <= i < j < out.len() && !co_m(#[trigger] out[i]) implies !co_m(#[trigger] out[j]) by {
        if i < f1.len() {
            flat.lemma_filter_pred(|p: PropDefModel| co_m(p), i);
            assert(co_m(out[i]));
        } else {
            flat.lemma_filter_pred(|p: PropDefModel| !co_m(p), j - f1.len());
        }
    }
}

/// Exclusion law, collection pass, current level: an identifier in the
/// exclude set appears in neither buffer the pass produces.
pub proof fn lemma_iter_excluded(
    props: Seq<RawPropModel>,
    tables: Seq<TableModel>,
    excludes: Seq<IdentModel>,
    fuel: nat,
    id: IdentModel,
)
    requires
        spec_iter_props(props, tables, excludes, fuel) is Some,
        excludes.contains(id),
    ensures
        ({
            let pair = spec_iter_props(props, tables, excludes, fuel)->Some_0;
            &&& forall|k: int| 0 <= k < pair.0.len() ==> (#[trigger] pair.0[k]).identifier != id
            &&& forall|k: int| 0 <= k < pair.1.len() ==> (#[trigger] pair.1[k]).identifier != id
        }),
    decreases fuel, props.len(), 0int,
{
    if props.len() > 0 {
        let p = props[0];
        let pair = spec_iter_props(props, tables, excludes, fuel)->Some_0;
        lemma_iter_excluded(props.drop_first(), tables, excludes, fuel, id);
        let rest = spec_iter_props(props.drop_first(), tables, excludes, fuel)->Some_0;
        if !(is_exclude_m(p) || excludes.contains(p.identifier)) {
            match ref_table_spec(p, tables) {
                Some(sub) => {
                    if has_flag(p.flags, SendPropFlag::Collapsible) {
                        lemma_iter_excluded(sub.props, tables, excludes, (fuel - 1) as nat, id);
                    } else {
                        lemma_all_excluded(sub, tables, excludes, (fuel - 1) as nat, id);
                    }
                },
                None => {
                    assert(resolve_model(p).identifier == p.identifier);
                    assert(p.identifier != id);
                },
            }
        }
    }
}

/// Exclusion law, collection pass, one whole table: an identifier in the
/// exclude set never appears in the table's flattened block.
pub proof fn lemma_all_excluded(
    t: TableModel,
    tables: Seq<TableModel>,
    excludes: Seq<IdentModel>,
    fuel: nat,
    id: IdentModel,
)
    requires
        spec_all_props(t, tables, excludes, fuel) is Some,
        excludes.contains(id),
    ensures
        ({
            let block = spec_all_props(t, tables, excludes, fuel)->Some_0;
            forall|k: int| 0 <= k < block.len() ==> (#[trigger] block[k]).identifier != id
        }),
    decreases fuel, t.props.len(), 1int,
{
    lemma_iter_excluded(t.props, tables, excludes, fuel, id);
}

/// Exclusion law: a property excluded at any depth — its identifier appears
/// in the table's recursively computed exclude set — never appears in the
/// table's final flattened list.
pub proof fn lemma_flatten_excluded(t: TableModel, tables: Seq<TableModel>, id: IdentModel)
    requires
        spec_flatten(t, tables) is Some,
        spec_excludes_props(t.props, tables, tables.len())->Some_0.contains(id),
    ensures
        ({
            let out = spec_flatten(t, tables)->Some_0;
            forall|k: int| 0 <= k < out.len() ==> (#[trigger] out[k]).identifier != id
        }),
{
    let ex = spec_excludes_props(t.props, tables, tables.len())->Some_0;
    let flat = spec_all_props(t, tables, ex, tables.len())->Some_0;
    let out = spec_flatten(t, tables)->Some_0;
    lemma_all_excluded(t, tables, ex, tables.len(), id);
    let f1 = flat.filter(|p: PropDefModel| co_m(p));
    let f2 = flat.filter(|p: PropDefModel| !co_m(p));
    assert forall|k: int| 0 <= k < out.len() implies (#[trigger] out[k]).identifier != id by {
        if k < f1.len() {
            lemma_filter_elem_of(flat, |p: PropDefModel| co_m(p), k);
        } else {
            lemma_filter_elem_of(flat, |p: PropDefModel| !co_m(p), k - f1.len());
        }
    }
}

/// Every element of a filtered sequence is an element of the original.
pub proof fn lemma_filter_elem_of(s: Seq<PropDefModel>, pred: spec_fn(PropDefModel) -> bool, i: int)
    requires
        0 <= i < s.filter(pred).len(),
    ensures
        exists|j: int| 0 <= j < s.len() && s[j] == s.filter(pred)[i],
    decreases s.len(),
{
    reveal(Seq::filter);
    if s.len() > 0 {
        let dl = s.drop_last();
        if pred(s.last()) && i == s.filter(pred).len() - 1 {
            assert(s[s.len() - 1] == s.filter(pred)[i]);
        } else {
            lemma_filter_elem_of(dl, pred, i);
            let j = choose|j: int| 0 <= j < dl.len() && dl[j] == dl.filter(pred)[i];
            assert(s[j] == s.filter(pred)[i]);
        }
    }
}

/// Array-pairing law for flattening: a resolvable, non-excluded array owner
/// — the fold of a correctly paired element/owner wire pair — contributes
/// exactly one entry to the current level's local buffer, an array-typed
/// resolved property that still owns its element; the element contributes
/// no entry of its own.
pub proof fn lemma_paired_array_one_entry(
    p: RawPropModel,
    tables: Seq<TableModel>,
    excludes: Seq<IdentModel>,
    fuel: nat,
)
    requires
        p.prop_type == SendPropType::Array,
        p.array_property is Some,
        resolvable(p),
        !is_exclude_m(p),
        !excludes.contains(p.identifier),
    ensures
        spec_iter_props(seq![p], tables, excludes, fuel) == Some((
            seq![resolve_model(p)],
            Seq::<PropDefModel>::empty(),
        )),
        resolve_model(p).prop_type == SendPropType::Array,
        resolve_model(p).array_property is Some,
{
    assert(seq![p][0] == p);
    assert(seq![p].drop_first() =~= Seq::<RawPropModel>::empty());
    assert(ref_table_spec(p, tables) is None);
    assert(spec_iter_props(seq![p].drop_first(), tables, excludes, fuel) == Some((
        Seq::<PropDefModel>::empty(),
        Seq::<PropDefModel>::empty(),
    )));
    assert(spec_iter_props(seq![p], tables, excludes, fuel) == Some((
        seq![resolve_model(p)] + Seq::<PropDefModel>::empty(),
        Seq::<PropDefModel>::empty() + Seq::<PropDefModel>::empty(),
    )));
    assert(seq![resolve_model(p)] + Seq::<PropDefModel>::empty() =~= seq![resolve_model(p)]);
    assert(Seq::<PropDefModel>::empty() + Seq::<PropDefModel>::empty() =~= Seq::<
        PropDefModel,
    >::empty());
}

} // verus!
