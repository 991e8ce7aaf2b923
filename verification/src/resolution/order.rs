//! Program order of definitions, relative to the position of a visibility operation.

use vstd::prelude::*;
use super::Resolver;
use crate::graph::Graph;
use std::collections::HashSet;
use crate::graph::{member_lookup, member_of};
use crate::ids::{DeclarationId, DefinitionId, StringId, UriId};
use crate::model::{Ancestor, DeclarationKind, DefinitionKind, Visibility};
use crate::offset::Offset;
use crate::text::{chars_of, lemma_text_lt_irrefl, lemma_text_lt_total, lemma_text_lt_trans, text_le, text_less, text_lt};

verus! {

broadcast use vstd::std_specs::hash::group_hash_axioms;

/// The order key of a definition seen from a visibility operation: definitions of other
/// documents first, then by document URI, start and end offset, and identifier.
pub type OrderKeyView = (bool, Seq<char>, u32, u32, u64);

/// Strict order on order keys.
pub open spec fn key_lt(a: OrderKeyView, b: OrderKeyView) -> bool {
    if a.0 != b.0 {
        !a.0 && b.0
    } else if a.1 != b.1 {
        text_lt(a.1, b.1)
    } else if a.2 != b.2 {
        a.2 < b.2
    } else if a.3 != b.3 {
        a.3 < b.3
    } else {
        a.4 < b.4
    }
}

proof fn lemma_key_order(a: OrderKeyView, b: OrderKeyView, c: OrderKeyView)
    ensures
        !key_lt(a, a),
        a != b ==> key_lt(a, b) || key_lt(b, a),
        key_lt(a, b) ==> !key_lt(b, a),
        key_lt(a, b) && key_lt(b, c) ==> key_lt(a, c),
{
    lemma_text_lt_irrefl(a.1);
    lemma_text_lt_total(a.1, b.1);
    lemma_text_lt_total(b.1, c.1);
    lemma_text_lt_total(a.1, c.1);
    if text_lt(a.1, b.1) && text_lt(b.1, c.1) {
        lemma_text_lt_trans(a.1, b.1, c.1);
    }
}

/// Whether definition `d` of `g` is a candidate for what holds just before position `offset`
/// of document `uri_id`: it exists, its document exists, and within that same document it
/// starts before `offset`.
pub open spec fn before_position(g: &Graph, d: DefinitionId, uri_id: UriId, offset: Offset) -> bool {
    &&& g.defs().contains_key(d.value)
    &&& g.docs().contains_key(g.defs()[d.value].uri_id.value)
    &&& g.defs()[d.value].uri_id == uri_id ==> g.defs()[d.value].offset.start_spec() < offset.start_spec()
}

/// The order key of definition `d` seen from document `uri_id`.
pub open spec fn order_key(g: &Graph, uri_id: UriId, d: DefinitionId) -> OrderKeyView {
    let def = g.defs()[d.value];
    (def.uri_id == uri_id, g.docs()[def.uri_id.value].uri@, def.offset.start_spec(), def.offset.end_spec(), d.value)
}

/// The order of definitions seen from document `uri_id`.
pub open spec fn order_le(g: Graph, uri_id: UriId) -> spec_fn(DefinitionId, DefinitionId) -> bool {
    |a: DefinitionId, b: DefinitionId| a == b || key_lt(order_key(&g, uri_id, a), order_key(&g, uri_id, b))
}

proof fn lemma_order_le_total(g: Graph, uri_id: UriId)
    ensures
        vstd::relations::total_ordering(order_le(g, uri_id)),
{
    let leq = order_le(g, uri_id);
    assert forall|a: DefinitionId, b: DefinitionId| #[trigger] leq(a, b) && leq(b, a) implies a == b by {
        lemma_key_order(order_key(&g, uri_id, a), order_key(&g, uri_id, b), order_key(&g, uri_id, a));
    }
    assert forall|a: DefinitionId, b: DefinitionId, c: DefinitionId| #[trigger] leq(a, b) && #[trigger] leq(b, c) implies leq(a, c) by {
        lemma_key_order(order_key(&g, uri_id, a), order_key(&g, uri_id, b), order_key(&g, uri_id, c));
    }
    assert forall|a: DefinitionId, b: DefinitionId| #[trigger] leq(a, b) || leq(b, a) by {
        lemma_key_order(order_key(&g, uri_id, a), order_key(&g, uri_id, b), order_key(&g, uri_id, a));
        if a.value == b.value {
            assert(a == b);
        }
    }
    assert(vstd::relations::reflexive(leq));
    assert(vstd::relations::antisymmetric(leq));
    assert(vstd::relations::transitive(leq));
    assert(vstd::relations::strongly_connected(leq));
}

/// The definitions of method declaration `method_id` that come before position `offset` of
/// document `uri_id`: those of other documents first, then by URI, position and identifier.
/// `None` when the declaration does not exist.
pub open spec fn definitions_before(g: &Graph, method_id: DeclarationId, uri_id: UriId, offset: Offset) -> Option<Seq<DefinitionId>> {
    if g.decls().contains_key(method_id.value) {
        Some(g.decls()[method_id.value].definitions@.filter(|d: DefinitionId| before_position(g, d, uri_id, offset))
            .sort_by(order_le(*g, uri_id)))
    } else {
        None
    }
}

/// An order key, computed.
pub(crate) struct OrderKey {
    pub(crate) same_uri: bool,
    pub(crate) uri: Vec<char>,
    pub(crate) start: u32,
    pub(crate) end: u32,
    pub(crate) id: u64,
}

impl OrderKey {
    pub(crate) open spec fn view(&self) -> OrderKeyView {
        (self.same_uri, self.uri@, self.start, self.end, self.id)
    }
}

fn key_less(a: &OrderKey, b: &OrderKey) -> (r: bool)
    ensures
        r == key_lt(a.view(), b.view()),
{
    if a.same_uri != b.same_uri {
        return !a.same_uri && b.same_uri;
    }
    if text_less(&a.uri, &b.uri) {
        proof {
            lemma_text_lt_irrefl(a.uri@);
        }
        return true;
    }
    if text_less(&b.uri, &a.uri) {
        proof {
            lemma_text_lt_total(a.uri@, b.uri@);
        }
        return false;
    }
    proof {
        lemma_text_lt_total(a.uri@, b.uri@);
    }
    if a.start != b.start {
        return a.start < b.start;
    }
    if a.end != b.end {
        return a.end < b.end;
    }
    a.id < b.id
}

/// Non-strict order on order keys.
pub open spec fn key_le(a: OrderKeyView, b: OrderKeyView) -> bool {
    a == b || key_lt(a, b)
}

/// Inserts `d` with key `k` into `ids`/`keys`, sorted by key, after the entries with keys not
/// greater than `k`.
pub(crate) fn insert_sorted(ids: &mut Vec<DefinitionId>, keys: &mut Vec<OrderKey>, d: DefinitionId, k: OrderKey, Ghost(key): Ghost<spec_fn(DefinitionId) -> OrderKeyView>)
    requires
        old(ids)@.len() == old(keys)@.len(),
        forall|q: int| 0 <= q < old(ids)@.len() ==> (#[trigger] old(keys)@[q]).view() == key(old(ids)@[q]),
        forall|a: int, b: int| 0 <= a < b < old(ids)@.len() ==> key_le(key(#[trigger] old(ids)@[a]), key(#[trigger] old(ids)@[b])),
        k.view() == key(d),
    ensures
        exists|p: int| 0 <= p <= old(ids)@.len() && final(ids)@ == old(ids)@.insert(p, d),
        final(ids)@.len() == final(keys)@.len(),
        forall|q: int| 0 <= q < final(ids)@.len() ==> (#[trigger] final(keys)@[q]).view() == key(final(ids)@[q]),
        forall|a: int, b: int| 0 <= a < b < final(ids)@.len() ==> key_le(key(#[trigger] final(ids)@[a]), key(#[trigger] final(ids)@[b])),
{
    let mut p: usize = 0;
    while p < keys.len() && !key_less(&k, &keys[p])
        invariant
            p <= keys@.len(),
            ids@.len() == keys@.len(),
            forall|q: int| 0 <= q < ids@.len() ==> (#[trigger] keys@[q]).view() == key(ids@[q]),
            k.view() == key(d),
            forall|q: int| 0 <= q < p ==> key_le(key(#[trigger] ids@[q]), key(d)),
        decreases keys@.len() - p,
    {
        proof {
            lemma_key_order(keys@[p as int].view(), k.view(), keys@[p as int].view());
        }
        p = p + 1;
    }
    let ghost old_ids = ids@;
    let ghost old_keys = keys@;
    proof {
        if p < keys@.len() {
            assert(key_lt(k.view(), keys@[p as int].view()));
        }
    }
    ids.insert(p, d);
    keys.insert(p, k);
    proof {
        assert forall|q: int| 0 <= q < ids@.len() implies (#[trigger] keys@[q]).view() == key(ids@[q]) by {
            if q < p {
                assert(keys@[q] == old_keys[q]);
            } else if q > p {
                assert(keys@[q] == old_keys[q - 1]);
            }
        }
        assert forall|a: int, b: int| 0 <= a < b < ids@.len() implies key_le(key(#[trigger] ids@[a]), key(#[trigger] ids@[b])) by {
            let kd = key(d);
            if a < p && b < p {
                assert(ids@[a] == old_ids[a] && ids@[b] == old_ids[b]);
            } else if a < p && b == p {
                assert(ids@[a] == old_ids[a]);
            } else if a < p {
                assert(ids@[a] == old_ids[a] && ids@[b] == old_ids[b - 1]);
                let ka = key(old_ids[a]);
                let kp = key(old_ids[p as int]);
                let kb = key(old_ids[b - 1]);
                assert(key_le(ka, kd));
                assert(key_lt(kd, kp));
                assert(key_le(kp, kb)) by {
                    if p as int != b - 1 {
                        assert(key_le(key(old_ids[p as int]), key(old_ids[b - 1])));
                    }
                }
                lemma_key_order(ka, kd, kp);
                lemma_key_order(ka, kp, kb);
                lemma_key_order(kd, kp, kb);
            } else if a == p {
                assert(ids@[b] == old_ids[b - 1]);
                let kp = key(old_ids[p as int]);
                let kb = key(old_ids[b - 1]);
                assert(key_lt(kd, kp));
                assert(key_le(kp, kb)) by {
                    if p as int != b - 1 {
                        assert(key_le(key(old_ids[p as int]), key(old_ids[b - 1])));
                    }
                }
                lemma_key_order(kd, kp, kb);
            } else {
                assert(ids@[a] == old_ids[a - 1] && ids@[b] == old_ids[b - 1]);
            }
        }
    }
}

impl Resolver {
    /// The definitions of method declaration `method_id` that come before position
    /// `visibility_offset` of document `visibility_uri_id`, in the order of `order_le`.
    pub fn definition_ids_before_visibility(
        &self,
        method_id: DeclarationId,
        visibility_uri_id: UriId,
        visibility_offset: Offset,
    ) -> (r: Option<Vec<DefinitionId>>)
        ensures
            match r {
                Some(v) => definitions_before(&self.graph_view(), method_id, visibility_uri_id, visibility_offset) == Some(v@),
                None => definitions_before(&self.graph_view(), method_id, visibility_uri_id, visibility_offset) is None,
            },
    {
        broadcast use vstd::seq_lib::group_to_multiset_ensures;
        let graph = self.graph();
        let ghost g = *graph;
        let declaration = match graph.declaration(method_id) {
            Some(d) => d,
            None => return None,
        };
        let ghost pred = |d: DefinitionId| before_position(&g, d, visibility_uri_id, visibility_offset);
        let ghost key = |d: DefinitionId| order_key(&g, visibility_uri_id, d);
        let mut ids: Vec<DefinitionId> = Vec::new();
        let mut keys: Vec<OrderKey> = Vec::new();
        let mut i: usize = 0;
        while i < declaration.definitions.len()
            invariant
                i <= declaration.definitions@.len(),
                *declaration == g.decls()[method_id.value],
                g == *graph,
                pred == (|d: DefinitionId| before_position(&g, d, visibility_uri_id, visibility_offset)),
                key == (|d: DefinitionId| order_key(&g, visibility_uri_id, d)),
                ids@.len() == keys@.len(),
                forall|k: int| 0 <= k < ids@.len() ==> (#[trigger] keys@[k]).view() == key(ids@[k]),
                ids@.to_multiset() == declaration.definitions@.take(i as int).filter(pred).to_multiset(),
                forall|a: int, b: int| 0 <= a < b < ids@.len() ==> key_le(key(#[trigger] ids@[a]), key(#[trigger] ids@[b])),
            decreases declaration.definitions@.len() - i,
        {
            let d = declaration.definitions[i];
            proof {
                reveal(Seq::filter);
                assert(declaration.definitions@.take(i + 1).drop_last() =~= declaration.definitions@.take(i as int));
            }
            let mut inserted = false;
            if let Some(definition) = graph.definition(d) {
                if let Some(document) = graph.document(definition.uri_id) {
                    let same_uri = definition.uri_id.value == visibility_uri_id.value;
                    if !same_uri || definition.offset.start() < visibility_offset.start() {
                        let k = OrderKey {
                            same_uri,
                            uri: chars_of(document.uri.as_str()),
                            start: definition.offset.start(),
                            end: definition.offset.end(),
                            id: d.value,
                        };
                        assert(same_uri == (definition.uri_id == visibility_uri_id)) by {
                            if same_uri {
                                assert(definition.uri_id == UriId { value: definition.uri_id.value });
                            }
                        }
                        assert(before_position(&g, d, visibility_uri_id, visibility_offset));
                        assert(pred(d));
                        assert(k.view() == order_key(&g, visibility_uri_id, d));
                        assert(k.view() == key(d));
                        let ghost before = ids@;
                        insert_sorted(&mut ids, &mut keys, d, k, Ghost(key));
                        proof {
                            let p = choose|p: int| 0 <= p <= before.len() && ids@ == before.insert(p, d);
                            vstd::seq_lib::to_multiset_insert(before, p, d);
                            vstd::seq_lib::to_multiset_build(declaration.definitions@.take(i as int).filter(pred), d);
                            assert(declaration.definitions@.take(i + 1).filter(pred) =~= declaration.definitions@.take(i as int).filter(pred).push(d));
                        }
                        inserted = true;
                    }
                }
            }
            if !inserted {
                assert(!pred(d));
                assert(declaration.definitions@.take(i + 1).filter(pred) =~= declaration.definitions@.take(i as int).filter(pred));
            }
            i = i + 1;
        }
        proof {
            assert(declaration.definitions@.take(i as int) =~= declaration.definitions@);
            let leq = order_le(g, visibility_uri_id);
            lemma_order_le_total(g, visibility_uri_id);
            let filtered = declaration.definitions@.filter(pred);
            filtered.lemma_sort_by_ensures(leq);
            assert forall|a: int, b: int| 0 <= a < b < ids@.len() implies #[trigger] leq(ids@[a], ids@[b]) by {
                assert(key_le(key(ids@[a]), key(ids@[b])));
                if key(ids@[a]) == key(ids@[b]) {
                    assert(ids@[a].value == ids@[b].value);
                }
            }
            assert(vstd::relations::sorted_by(ids@, leq));
            vstd::seq_lib::lemma_sorted_unique(ids@, filtered.sort_by(leq), leq);
        }
        Some(ids)
    }
}

/// Whether method `m` has, before position `offset` of document `uri_id`, a definition that
/// makes it exist.
pub open spec fn has_definition_before(g: &Graph, m: DeclarationId, uri_id: UriId, offset: Offset) -> bool {
    match definitions_before(g, m, uri_id, offset) {
        Some(ds) => exists|i: int| 0 <= i < ds.len() && g.defs().contains_key((#[trigger] ds[i]).value)
            && g.defs()[ds[i].value].establishes_member(),
        None => false,
    }
}

/// The member named `str_id` of the namespace `a`, when `a` is a namespace of `g`.
pub open spec fn namespace_member(g: &Graph, a: DeclarationId, str_id: StringId) -> Option<DeclarationId> {
    if g.decls().contains_key(a.value) && g.decls()[a.value].is_namespace() {
        member_of(g.decls()[a.value].members@, str_id)
    } else {
        None
    }
}

/// The method members named `str_id` of the complete `ancestors` that exist before position
/// `offset` of document `uri_id`, in ancestor order.
pub open spec fn ancestor_members_before(g: &Graph, ancestors: Seq<Ancestor>, str_id: StringId, uri_id: UriId, offset: Offset) -> Seq<DeclarationId>
    decreases ancestors.len(),
{
    if ancestors.len() == 0 {
        Seq::empty()
    } else {
        let rest = ancestor_members_before(g, ancestors.drop_last(), str_id, uri_id, offset);
        match ancestors.last() {
            Ancestor::Complete(a) => match namespace_member(g, a, str_id) {
                Some(m) => if g.decls().contains_key(m.value) && g.decls()[m.value].kind == DeclarationKind::Method
                    && has_definition_before(g, m, uri_id, offset) {
                    rest.push(m)
                } else {
                    rest
                },
                None => rest,
            },
            Ancestor::Partial(_) => rest,
        }
    }
}

/// The method members named `str_id` in the ancestors of namespace `owner` that exist before
/// position `offset` of document `uri_id`.
pub open spec fn members_in_ancestors_before(g: &Graph, owner: DeclarationId, str_id: StringId, uri_id: UriId, offset: Offset) -> Seq<DeclarationId> {
    if g.decls().contains_key(owner.value) && g.decls()[owner.value].is_namespace() {
        ancestor_members_before(g, g.decls()[owner.value].ancestors@, str_id, uri_id, offset)
    } else {
        Seq::empty()
    }
}

/// The owner of the declaration that definition `d` contributes to, if any.
pub open spec fn definition_owner(g: &Graph, d: DefinitionId) -> Option<DeclarationId> {
    if g.def_decl().contains_key(d.value) && g.decls().contains_key(g.def_decl()[d.value].value) {
        Some(g.decls()[g.def_decl()[d.value].value].owner_id)
    } else {
        None
    }
}

/// The visibility of method `m` just before position `offset` of document `uri_id`: that of its
/// latest definition there that gives one; an alias takes the visibility of the method it
/// names, found in its owner's ancestors just before the alias; public when nothing decides.
/// Each method is looked at once per lookup (`seen`, the methods looked at so far, is returned
/// grown): a method seen again gives `None`, as does a method that does not exist or an alias
/// whose owner is unknown.
pub open spec fn visibility_before(g: &Graph, m: DeclarationId, uri_id: UriId, offset: Offset, seen: Set<u64>) -> (Option<Visibility>, Set<u64>)
    decreases g.decls().dom().difference(seen).len(), 0nat, 0nat,
{
    if seen.contains(m.value) {
        (None, seen)
    } else {
        let seen1 = seen.insert(m.value);
        match definitions_before(g, m, uri_id, offset) {
            None => (None, seen1),
            Some(ds) => {
                proof {
                    g.lemma_decls_finite();
                    assert(g.decls().dom().difference(seen).contains(m.value));
                    assert(g.decls().dom().difference(seen1) =~= g.decls().dom().difference(seen).remove(m.value));
                }
                scan_visibility(g, ds, ds.len() as int, seen1)
            },
        }
    }
}

/// `visibility_before`, from the `n` first of the candidate definitions `ds`, latest first.
pub open spec fn scan_visibility(g: &Graph, ds: Seq<DefinitionId>, n: int, seen: Set<u64>) -> (Option<Visibility>, Set<u64>)
    decreases g.decls().dom().difference(seen).len(), 2nat, if n > 0 { n as nat } else { 0nat },
{
    if n <= 0 || n > ds.len() {
        (Some(Visibility::Public), seen)
    } else {
        let d = ds[n - 1];
        let def = g.defs()[d.value];
        match def.effective_visibility() {
            Some(v) => (Some(v), seen),
            None => match def.kind {
                DefinitionKind::MethodAlias { old_name_str_id, .. } => match definition_owner(g, d) {
                    Some(owner) => {
                        let targets = members_in_ancestors_before(g, owner, old_name_str_id, def.uri_id, def.offset);
                        let found = scan_targets(g, targets, 0, def.uri_id, def.offset, seen);
                        match found.0 {
                            Some(v) => (Some(v), found.1),
                            None => {
                                proof {
                                    g.lemma_decls_finite();
                                    vstd::set_lib::lemma_len_subset(
                                        g.decls().dom().difference(seen.union(found.1)),
                                        g.decls().dom().difference(seen),
                                    );
                                }
                                scan_visibility(g, ds, n - 1, seen.union(found.1))
                            },
                        }
                    },
                    None => (None, seen),
                },
                _ => scan_visibility(g, ds, n - 1, seen),
            },
        }
    }
}

/// `visibility_before` of the first of `ts`, from `i` on, that gives a visibility.
pub open spec fn scan_targets(g: &Graph, ts: Seq<DeclarationId>, i: int, uri_id: UriId, offset: Offset, seen: Set<u64>) -> (Option<Visibility>, Set<u64>)
    decreases g.decls().dom().difference(seen).len(), 1nat, if 0 <= i <= ts.len() { (ts.len() - i) as nat } else { 0nat },
{
    if i < 0 || i >= ts.len() {
        (None, seen)
    } else {
        let found = visibility_before(g, ts[i], uri_id, offset, seen);
        match found.0 {
            Some(v) => (Some(v), found.1),
            None => {
                proof {
                    g.lemma_decls_finite();
                    vstd::set_lib::lemma_len_subset(
                        g.decls().dom().difference(seen.union(found.1)),
                        g.decls().dom().difference(seen),
                    );
                }
                scan_targets(g, ts, i + 1, uri_id, offset, seen.union(found.1))
            },
        }
    }
}

/// The candidates of `definitions_before` satisfy `before_position`.
pub proof fn lemma_definitions_before_exist(g: &Graph, m: DeclarationId, uri_id: UriId, offset: Offset, ds: Seq<DefinitionId>)
    requires
        definitions_before(g, m, uri_id, offset) == Some(ds),
    ensures
        forall|i: int| 0 <= i < ds.len() ==> before_position(g, #[trigger] ds[i], uri_id, offset),
{
    let pred = |d: DefinitionId| before_position(g, d, uri_id, offset);
    let filtered = g.decls()[m.value].definitions@.filter(pred);
    let leq = order_le(*g, uri_id);
    lemma_order_le_total(*g, uri_id);
    filtered.lemma_sort_by_ensures(leq);
    crate::seqs::lemma_filter_contains(g.decls()[m.value].definitions@, pred);
    let sorted = filtered.sort_by(leq);
    assert forall|i: int| 0 <= i < sorted.len() implies before_position(g, #[trigger] sorted[i], uri_id, offset) by {
        assert(sorted.contains(sorted[i]));
    }
}

/// Whether definition `d` of `g` belongs to document `uri_id`.
pub open spec fn in_document(g: &Graph, d: DefinitionId, uri_id: UriId) -> bool {
    g.defs()[d.value].uri_id == uri_id
}

/// The URI of the document of definition `d` of `g`.
pub open spec fn document_uri(g: &Graph, d: DefinitionId) -> Seq<char> {
    g.docs()[g.defs()[d.value].uri_id.value].uri@
}

/// The candidates before a position are exactly the definitions of the method that exist, whose
/// document exists, and that start before the position when they are in its document: a
/// definition that comes later in the same document is never one.
pub proof fn lemma_candidates_exact(g: &Graph, m: DeclarationId, uri_id: UriId, offset: Offset)
    requires
        g.decls().contains_key(m.value),
    ensures
        definitions_before(g, m, uri_id, offset) is Some,
        forall|d: DefinitionId| #[trigger] definitions_before(g, m, uri_id, offset).unwrap().contains(d)
            <==> (g.decls()[m.value].definitions@.contains(d) && before_position(g, d, uri_id, offset)),
        forall|d: DefinitionId| #[trigger] definitions_before(g, m, uri_id, offset).unwrap().contains(d)
            && in_document(g, d, uri_id) ==> g.defs()[d.value].offset.start_spec() < offset.start_spec(),
{
    broadcast use vstd::seq_lib::group_to_multiset_ensures;
    let pred = |d: DefinitionId| before_position(g, d, uri_id, offset);
    let filtered = g.decls()[m.value].definitions@.filter(pred);
    let leq = order_le(*g, uri_id);
    lemma_order_le_total(*g, uri_id);
    filtered.lemma_sort_by_ensures(leq);
    crate::seqs::lemma_filter_contains(g.decls()[m.value].definitions@, pred);
    let sorted = filtered.sort_by(leq);
    assert forall|d: DefinitionId| #[trigger] sorted.contains(d) <==> filtered.contains(d) by {
        if filtered.contains(d) {
            assert(filtered.to_multiset().count(d) > 0);
            assert(sorted.to_multiset().count(d) > 0);
        }
    }
}

/// The order of the candidates: those of other documents first, by URI; those of the document
/// of the position last, by where they start. A scan from the last candidate thus meets first
/// the latest definition known to come before the position.
pub proof fn lemma_candidates_order(g: &Graph, m: DeclarationId, uri_id: UriId, offset: Offset)
    requires
        g.decls().contains_key(m.value),
    ensures
        ({
            let ds = definitions_before(g, m, uri_id, offset).unwrap();
            forall|i: int, j: int| 0 <= i < j < ds.len() ==> {
                &&& in_document(g, #[trigger] ds[i], uri_id) ==> in_document(g, #[trigger] ds[j], uri_id)
                &&& !in_document(g, ds[i], uri_id) && !in_document(g, ds[j], uri_id)
                    ==> text_le(document_uri(g, ds[i]), document_uri(g, ds[j]))
                &&& in_document(g, ds[i], uri_id) && in_document(g, ds[j], uri_id)
                    ==> g.defs()[ds[i].value].offset.start_spec() <= g.defs()[ds[j].value].offset.start_spec()
            }
        }),
{
    let pred = |d: DefinitionId| before_position(g, d, uri_id, offset);
    let filtered = g.decls()[m.value].definitions@.filter(pred);
    let leq = order_le(*g, uri_id);
    lemma_order_le_total(*g, uri_id);
    filtered.lemma_sort_by_ensures(leq);
    let ds = filtered.sort_by(leq);
    assert forall|i: int, j: int| 0 <= i < j < ds.len() implies {
        &&& in_document(g, #[trigger] ds[i], uri_id) ==> in_document(g, #[trigger] ds[j], uri_id)
        &&& !in_document(g, ds[i], uri_id) && !in_document(g, ds[j], uri_id)
            ==> text_le(document_uri(g, ds[i]), document_uri(g, ds[j]))
        &&& in_document(g, ds[i], uri_id) && in_document(g, ds[j], uri_id)
            ==> g.defs()[ds[i].value].offset.start_spec() <= g.defs()[ds[j].value].offset.start_spec()
    } by {
        assert(leq(ds[i], ds[j]));
        let a = order_key(g, uri_id, ds[i]);
        let b = order_key(g, uri_id, ds[j]);
        lemma_text_lt_total(a.1, b.1);
        if ds[i] != ds[j] {
            assert(key_lt(a, b));
        }
    }
}

/// The latest definition of the method in the document of the position, among those before
/// it, is the last candidate.
pub proof fn lemma_latest_in_document_is_last(g: &Graph, m: DeclarationId, uri_id: UriId, offset: Offset, d: DefinitionId)
    requires
        g.decls().contains_key(m.value),
        g.decls()[m.value].definitions@.contains(d),
        before_position(g, d, uri_id, offset),
        in_document(g, d, uri_id),
        forall|e: DefinitionId| #[trigger] g.decls()[m.value].definitions@.contains(e) && before_position(g, e, uri_id, offset)
            && in_document(g, e, uri_id) && e != d
            ==> g.defs()[e.value].offset.start_spec() < g.defs()[d.value].offset.start_spec(),
    ensures
        ({
            let ds = definitions_before(g, m, uri_id, offset).unwrap();
            ds.len() > 0 && ds.last() == d
        }),
{
    lemma_candidates_exact(g, m, uri_id, offset);
    lemma_candidates_order(g, m, uri_id, offset);
    let ds = definitions_before(g, m, uri_id, offset).unwrap();
    assert(ds.contains(d));
    let i = choose|i: int| 0 <= i < ds.len() && ds[i] == d;
    let last = ds.len() - 1;
    if ds[last] != d {
        assert(i < last);
        assert(in_document(g, ds[i], uri_id) ==> in_document(g, ds[last], uri_id));
        assert(ds.contains(ds[last]));
        assert(g.decls()[m.value].definitions@.contains(ds[last]));
        assert(g.defs()[ds[last].value].offset.start_spec() < g.defs()[d.value].offset.start_spec());
    }
}

/// With no candidate definition, a method is public; otherwise the latest candidate decides
/// when it gives a visibility of its own.
pub proof fn lemma_latest_definition_decides(g: &Graph, m: DeclarationId, uri_id: UriId, offset: Offset, seen: Set<u64>)
    requires
        g.decls().contains_key(m.value),
        !seen.contains(m.value),
    ensures
        ({
            let ds = definitions_before(g, m, uri_id, offset).unwrap();
            let r = visibility_before(g, m, uri_id, offset, seen).0;
            &&& ds.len() == 0 ==> r == Some(Visibility::Public)
            &&& ds.len() > 0 && g.defs()[ds.last().value].effective_visibility() is Some
                ==> r == g.defs()[ds.last().value].effective_visibility()
        }),
{
    let ds = definitions_before(g, m, uri_id, offset).unwrap();
    assert(visibility_before(g, m, uri_id, offset, seen) == scan_visibility(g, ds, ds.len() as int, seen.insert(m.value)));
}

/// The visibility that a definition of a method gives it, by its kind: a method, an attribute
/// reader, writer or accessor, or a visibility operation gives its own visibility
/// (`module_function` makes the instance method private); the latest such definition before the
/// position decides.
pub proof fn lemma_latest_definition_gives_its_visibility(g: &Graph, m: DeclarationId, uri_id: UriId, offset: Offset, seen: Set<u64>)
    requires
        g.decls().contains_key(m.value),
        !seen.contains(m.value),
    ensures
        ({
            let ds = definitions_before(g, m, uri_id, offset).unwrap();
            let r = visibility_before(g, m, uri_id, offset, seen).0;
            let private_when_module_function = |v: Visibility| if v == Visibility::ModuleFunction { Visibility::Private } else { v };
            ds.len() > 0 ==> match g.defs()[ds.last().value].kind {
                DefinitionKind::Method { visibility, .. } => r == Some(private_when_module_function(visibility)),
                DefinitionKind::AttrAccessor { visibility, .. } => r == Some(private_when_module_function(visibility)),
                DefinitionKind::AttrReader { visibility, .. } => r == Some(private_when_module_function(visibility)),
                DefinitionKind::AttrWriter { visibility, .. } => r == Some(private_when_module_function(visibility)),
                DefinitionKind::MethodVisibility { visibility, .. } => r == Some(private_when_module_function(visibility)),
                _ => true,
            }
        }),
{
    lemma_latest_definition_decides(g, m, uri_id, offset, seen);
}

/// A definition in the document of the operation, before it and after every other definition
/// of the method there, decides the method's visibility when it gives one, whatever the
/// definitions in other documents give.
pub proof fn lemma_prior_definition_in_document_preferred(
    g: &Graph,
    m: DeclarationId,
    uri_id: UriId,
    offset: Offset,
    seen: Set<u64>,
    d: DefinitionId,
)
    requires
        g.decls().contains_key(m.value),
        !seen.contains(m.value),
        g.decls()[m.value].definitions@.contains(d),
        before_position(g, d, uri_id, offset),
        in_document(g, d, uri_id),
        g.defs()[d.value].effective_visibility() is Some,
        forall|e: DefinitionId| #[trigger] g.decls()[m.value].definitions@.contains(e) && before_position(g, e, uri_id, offset)
            && in_document(g, e, uri_id) && e != d
            ==> g.defs()[e.value].offset.start_spec() < g.defs()[d.value].offset.start_spec(),
    ensures
        visibility_before(g, m, uri_id, offset, seen).0 == g.defs()[d.value].effective_visibility(),
{
    lemma_latest_in_document_is_last(g, m, uri_id, offset, d);
    lemma_latest_definition_decides(g, m, uri_id, offset, seen);
}

/// An alias keeps the visibility that the method it names had where the alias stands: when the
/// latest candidate of `m` is an alias, and the first method of that name in its owner's
/// ancestors has visibility `v` just before the alias, `m` has visibility `v`, whatever
/// visibility operations follow the alias.
pub proof fn lemma_alias_takes_target_visibility_at_alias(
    g: &Graph,
    m: DeclarationId,
    uri_id: UriId,
    offset: Offset,
    seen: Set<u64>,
)
    requires
        g.decls().contains_key(m.value),
        !seen.contains(m.value),
    ensures
        ({
            let ds = definitions_before(g, m, uri_id, offset).unwrap();
            let d = ds.last();
            let def = g.defs()[d.value];
            ds.len() > 0 && def.effective_visibility() is None && def.kind is MethodAlias && definition_owner(g, d) is Some
                ==> {
                    let targets = members_in_ancestors_before(g, definition_owner(g, d).unwrap(), def.kind->old_name_str_id, def.uri_id, def.offset);
                    targets.len() > 0 && visibility_before(g, targets[0], def.uri_id, def.offset, seen.insert(m.value)).0 is Some
                        ==> visibility_before(g, m, uri_id, offset, seen).0
                            == visibility_before(g, targets[0], def.uri_id, def.offset, seen.insert(m.value)).0
                }
        }),
{
    let ds = definitions_before(g, m, uri_id, offset).unwrap();
    let seen1 = seen.insert(m.value);
    assert(visibility_before(g, m, uri_id, offset, seen) == scan_visibility(g, ds, ds.len() as int, seen1));
    if ds.len() > 0 {
        let d = ds.last();
        let def = g.defs()[d.value];
        if def.effective_visibility() is None && def.kind is MethodAlias && definition_owner(g, d) is Some {
            let targets = members_in_ancestors_before(g, definition_owner(g, d).unwrap(), def.kind->old_name_str_id, def.uri_id, def.offset);
            if targets.len() > 0 {
                assert(scan_targets(g, targets, 0, def.uri_id, def.offset, seen1).0
                    == match visibility_before(g, targets[0], def.uri_id, def.offset, seen1).0 {
                        Some(v) => Some(v),
                        None => scan_targets(g, targets, 1, def.uri_id, def.offset, seen1.union(visibility_before(g, targets[0], def.uri_id, def.offset, seen1).1)).0,
                    });
            }
        }
    }
}

impl Resolver {
    /// Whether method `method_id` has, before position `offset` of document `uri_id`, a
    /// definition that makes it exist.
    fn method_has_definition_before_position(&self, method_id: DeclarationId, uri_id: UriId, offset: Offset) -> (r: bool)
        ensures
            r == has_definition_before(&self.graph_view(), method_id, uri_id, offset),
    {
        let ghost g = self.graph_view();
        let definition_ids = match self.definition_ids_before_visibility(method_id, uri_id, offset) {
            Some(ids) => ids,
            None => return false,
        };
        let mut i: usize = 0;
        while i < definition_ids.len()
            invariant
                i <= definition_ids@.len(),
                g == self.graph_view(),
                definitions_before(&g, method_id, uri_id, offset) == Some(definition_ids@),
                forall|k: int| 0 <= k < i ==> !(g.defs().contains_key((#[trigger] definition_ids@[k]).value)
                    && g.defs()[definition_ids@[k].value].establishes_member()),
            decreases definition_ids@.len() - i,
        {
            if let Some(definition) = self.graph().definition(definition_ids[i]) {
                if definition.establishes_method_member() {
                    assert(g.defs().contains_key(definition_ids@[i as int].value));
                    assert(g.defs()[definition_ids@[i as int].value].establishes_member());
                    let ghost ds = definitions_before(&g, method_id, uri_id, offset)->0;
                    assert(ds == definition_ids@);
                    assert(ds[i as int] == definition_ids@[i as int]);
                    assert(has_definition_before(&g, method_id, uri_id, offset));
                    return true;
                }
            }
            i = i + 1;
        }
        false
    }

    /// Whether method `method_id` has a definition that makes it exist before the visibility
    /// operation `visibility_id`; false when that operation does not exist.
    pub fn method_has_definition_before_visibility(&self, method_id: DeclarationId, visibility_id: DefinitionId) -> (r: bool)
        ensures
            r == (self.graph_view().defs().contains_key(visibility_id.value) && has_definition_before(
                &self.graph_view(),
                method_id,
                self.graph_view().defs()[visibility_id.value].uri_id,
                self.graph_view().defs()[visibility_id.value].offset,
            )),
    {
        let visibility_definition = match self.graph().definition(visibility_id) {
            Some(d) => d,
            None => return false,
        };
        self.method_has_definition_before_position(method_id, visibility_definition.uri_id, visibility_definition.offset)
    }

    /// The method members named `str_id` in the ancestors of `owner_id` that exist before
    /// position `offset` of document `uri_id`, in ancestor order.
    pub fn method_member_ids_in_ancestors_before(&self, owner_id: DeclarationId, str_id: StringId, uri_id: UriId, offset: Offset) -> (r: Vec<DeclarationId>)
        ensures
            r@ == members_in_ancestors_before(&self.graph_view(), owner_id, str_id, uri_id, offset),
    {
        let ghost g = self.graph_view();
        let namespace = match self.graph().declaration(owner_id) {
            Some(d) => d,
            None => return Vec::new(),
        };
        if !namespace.is_namespace_exec() {
            return Vec::new();
        }
        let mut r: Vec<DeclarationId> = Vec::new();
        let mut i: usize = 0;
        while i < namespace.ancestors.len()
            invariant
                i <= namespace.ancestors@.len(),
                g == self.graph_view(),
                r@ == ancestor_members_before(&g, namespace.ancestors@.take(i as int), str_id, uri_id, offset),
            decreases namespace.ancestors@.len() - i,
        {
            assert(namespace.ancestors@.take(i + 1).drop_last() =~= namespace.ancestors@.take(i as int));
            if let Ancestor::Complete(ancestor_id) = namespace.ancestors[i] {
                if let Some(ancestor) = self.graph().declaration(ancestor_id) {
                    if ancestor.is_namespace_exec() {
                        if let Some(member_id) = member_lookup(&ancestor.members, str_id) {
                            if let Some(member) = self.graph().declaration(member_id) {
                                if member.kind == DeclarationKind::Method
                                    && self.method_has_definition_before_position(member_id, uri_id, offset) {
                                    r.push(member_id);
                                }
                            }
                        }
                    }
                }
            }
            i = i + 1;
        }
        assert(namespace.ancestors@.take(i as int) =~= namespace.ancestors@);
        r
    }

    /// The visibility of method `method_id` just before position `offset` of document `uri_id`
    /// (see `visibility_before`); `seen_method_ids` holds the methods looked at so far.
    fn method_visibility_before(&self, method_id: DeclarationId, uri_id: UriId, offset: Offset, seen_method_ids: &mut HashSet<u64>) -> (r: Option<Visibility>)
        ensures
            (r, final(seen_method_ids)@) == visibility_before(&self.graph_view(), method_id, uri_id, offset, old(seen_method_ids)@),
            old(seen_method_ids)@.subset_of(final(seen_method_ids)@),
        decreases self.graph_view().decls().dom().difference(old(seen_method_ids)@).len(),
    {
        let ghost g = self.graph_view();
        let ghost s0 = seen_method_ids@;
        if !seen_method_ids.insert(method_id.value) {
            return None;
        }
        let ghost s1 = seen_method_ids@;
        let definition_ids = match self.definition_ids_before_visibility(method_id, uri_id, offset) {
            Some(ids) => ids,
            None => return None,
        };
        proof {
            assert(definitions_before(&g, method_id, uri_id, offset) == Some(definition_ids@));
            lemma_definitions_before_exist(&g, method_id, uri_id, offset, definition_ids@);
            g.lemma_decls_finite();
            assert(g.decls().dom().difference(s0).contains(method_id.value));
            assert(g.decls().dom().difference(s1) =~= g.decls().dom().difference(s0).remove(method_id.value));
        }
        let mut n: usize = definition_ids.len();
        while n > 0
            invariant
                n <= definition_ids@.len(),
                g == self.graph_view(),
                g.decls().dom().finite(),
                forall|k: int| 0 <= k < definition_ids@.len() ==> before_position(&g, #[trigger] definition_ids@[k], uri_id, offset),
                s0 == old(seen_method_ids)@,
                s0.subset_of(s1),
                s1.subset_of(seen_method_ids@),
                g.decls().dom().difference(s1).len() < g.decls().dom().difference(s0).len(),
                visibility_before(&g, method_id, uri_id, offset, s0) == scan_visibility(&g, definition_ids@, n as int, seen_method_ids@),
            decreases n,
        {
            let d = definition_ids[n - 1];
            assert(before_position(&g, d, uri_id, offset));
            let definition = match self.graph().definition(d) {
                Some(definition) => definition,
                None => return None,
            };
            if let Some(visibility) = definition.method_effective_visibility() {
                return Some(visibility);
            }
            if let DefinitionKind::MethodAlias { old_name_str_id, .. } = &definition.kind {
                let owner_id = match self.graph().definition_id_to_declaration_id(d) {
                    Some(decl_id) => match self.graph().declaration(decl_id) {
                        Some(declaration) => declaration.owner_id,
                        None => return None,
                    },
                    None => return None,
                };
                let targets = self.method_member_ids_in_ancestors_before(owner_id, *old_name_str_id, definition.uri_id, definition.offset);
                let ghost s_alias = seen_method_ids@;
                let ghost found = scan_targets(&g, targets@, 0, definition.uri_id, definition.offset, s_alias);
                proof {
                    assert(found.0 is Some ==> visibility_before(&g, method_id, uri_id, offset, s0) == found);
                    assert(found.0 is None ==> visibility_before(&g, method_id, uri_id, offset, s0)
                        == scan_visibility(&g, definition_ids@, n - 1, s_alias.union(found.1)));
                }
                let mut j: usize = 0;
                while j < targets.len()
                    invariant
                        j <= targets@.len(),
                        g == self.graph_view(),
                        g.decls().dom().finite(),
                        s0 == old(seen_method_ids)@,
                        s0.subset_of(s1),
                        s1.subset_of(s_alias),
                        s_alias.subset_of(seen_method_ids@),
                        g.decls().dom().difference(s1).len() < g.decls().dom().difference(s0).len(),
                        found == scan_targets(&g, targets@, j as int, definition.uri_id, definition.offset, seen_method_ids@),
                        found.0 is Some ==> visibility_before(&g, method_id, uri_id, offset, s0) == found,
                        found.0 is None ==> visibility_before(&g, method_id, uri_id, offset, s0)
                            == scan_visibility(&g, definition_ids@, n - 1, s_alias.union(found.1)),
                    decreases targets@.len() - j,
                {
                    let ghost before = seen_method_ids@;
                    proof {
                        assert(g.decls().dom().difference(before).subset_of(g.decls().dom().difference(s1)));
                        vstd::set_lib::lemma_len_subset(g.decls().dom().difference(before), g.decls().dom().difference(s1));
                    }
                    let found = self.method_visibility_before(targets[j], definition.uri_id, definition.offset, seen_method_ids);
                    proof {
                        assert(before.union(seen_method_ids@) =~= seen_method_ids@);
                    }
                    if let Some(visibility) = found {
                        return Some(visibility);
                    }
                    j = j + 1;
                }
                proof {
                    assert(s_alias.union(seen_method_ids@) =~= seen_method_ids@);
                }
            }
            n = n - 1;
        }
        Some(Visibility::Public)
    }

    /// The visibility of method `method_id` just before the visibility operation `visibility_id`;
    /// `None` when that operation does not exist.
    pub fn method_visibility_before_visibility_definition(&self, method_id: DeclarationId, visibility_id: DefinitionId) -> (r: Option<Visibility>)
        ensures
            r == if self.graph_view().defs().contains_key(visibility_id.value) {
                visibility_before(
                    &self.graph_view(),
                    method_id,
                    self.graph_view().defs()[visibility_id.value].uri_id,
                    self.graph_view().defs()[visibility_id.value].offset,
                    Set::empty(),
                ).0
            } else {
                None
            },
    {
        let visibility_definition = match self.graph().definition(visibility_id) {
            Some(d) => d,
            None => return None,
        };
        let mut seen_method_ids: HashSet<u64> = HashSet::new();
        assert(seen_method_ids@ =~= Set::<u64>::empty());
        self.method_visibility_before(method_id, visibility_definition.uri_id, visibility_definition.offset, &mut seen_method_ids)
    }
}

} // verus!
