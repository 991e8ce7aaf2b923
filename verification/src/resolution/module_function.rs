//! `module_function`: the copies of a method that it installs, and where their body comes from.

use vstd::prelude::*;
use std::collections::HashSet;
use super::Resolver;
use super::order::{before_position, definition_owner, definitions_before, in_document, lemma_latest_in_document_is_last, members_in_ancestors_before};
use crate::graph::Graph;
use crate::ids::{DeclarationId, DefinitionId, UriId};
use crate::ids::{reference_key, reference_key_string, StringId};
use crate::model::{comment_views, copy_comments, Comment, DeclarationKind, Definition, DefinitionFlags, DefinitionKind, Parameter, ParameterStruct, Receiver};
use crate::text::push_str;
use crate::offset::Offset;
use crate::model::Visibility;

verus! {

broadcast use vstd::std_specs::hash::group_hash_axioms;

/// Where the body copied by `module_function :name` comes from, relative to its owner.
#[derive(Clone, Copy, Debug, PartialEq, Eq, Structural)]
pub enum ModuleFunctionSourceKind {
    /// A method declared on the owner itself.
    DirectMethod,
    /// An alias declared on the owner itself.
    DirectAlias,
    /// A method inherited from an ancestor.
    InheritedMethod,
    /// An alias inherited from an ancestor.
    InheritedAlias,
}

/// The body that `module_function :name` copies.
#[derive(Debug)]
pub struct ModuleFunctionCopySource {
    pub definition_id: DefinitionId,
    pub target_visibility: Visibility,
    pub source_kind: ModuleFunctionSourceKind,
    /// The aliases followed to reach the body, innermost first.
    pub alias_definition_ids: Vec<DefinitionId>,
}

impl ModuleFunctionSourceKind {
    /// The kind of a source: whether the target method is declared on the owner itself, and
    /// whether aliases were followed to reach the body.
    pub open spec fn from_parts(target_is_direct: bool, uses_alias: bool) -> Self {
        if target_is_direct {
            if uses_alias { ModuleFunctionSourceKind::DirectAlias } else { ModuleFunctionSourceKind::DirectMethod }
        } else {
            if uses_alias { ModuleFunctionSourceKind::InheritedAlias } else { ModuleFunctionSourceKind::InheritedMethod }
        }
    }

    /// The kind of a source from where its target is declared and whether aliases were followed.
    pub fn new(target_is_direct: bool, uses_alias: bool) -> (k: Self)
        ensures
            k == Self::from_parts(target_is_direct, uses_alias),
    {
        match (target_is_direct, uses_alias) {
            (true, false) => ModuleFunctionSourceKind::DirectMethod,
            (true, true) => ModuleFunctionSourceKind::DirectAlias,
            (false, false) => ModuleFunctionSourceKind::InheritedMethod,
            (false, true) => ModuleFunctionSourceKind::InheritedAlias,
        }
    }

    /// Whether `module_function` also installs a private instance copy: always for a direct
    /// alias, never for a direct method, and for inherited sources unless the inherited method
    /// was private where the operation stands.
    pub open spec fn creates_instance_copy(self, target_visibility: Visibility) -> bool {
        match self {
            ModuleFunctionSourceKind::DirectMethod => false,
            ModuleFunctionSourceKind::DirectAlias => true,
            _ => target_visibility != Visibility::Private,
        }
    }

    /// Whether `module_function` also installs a private instance copy.
    pub fn should_create_instance_copy(self, target_visibility: Visibility) -> (r: bool)
        ensures
            r == self.creates_instance_copy(target_visibility),
    {
        match self {
            ModuleFunctionSourceKind::DirectMethod => false,
            ModuleFunctionSourceKind::DirectAlias => true,
            ModuleFunctionSourceKind::InheritedMethod | ModuleFunctionSourceKind::InheritedAlias => target_visibility != Visibility::Private,
        }
    }

    /// Whether the source is a method declared on the owner itself.
    pub fn is_direct_method(self) -> (r: bool)
        ensures
            r == (self == ModuleFunctionSourceKind::DirectMethod),
    {
        self == ModuleFunctionSourceKind::DirectMethod
    }

    /// Whether the copy depends on the owner's ancestors: the source definition is not declared
    /// on the owner and the source is not a direct method.
    pub open spec fn tracks_ancestor_dependency(self, source_declared_on_owner: bool) -> bool {
        !source_declared_on_owner && self != ModuleFunctionSourceKind::DirectMethod
    }

    /// Whether the copy depends on the owner's ancestors.
    pub fn should_track_ancestor_dependency(self, source_declared_on_owner: bool) -> (r: bool)
        ensures
            r == self.tracks_ancestor_dependency(source_declared_on_owner),
    {
        !source_declared_on_owner && !self.is_direct_method()
    }
}

/// A source reached through alias `d`: the same body, with `d` as the outermost alias.
pub open spec fn with_alias(src: Option<(DefinitionId, Seq<DefinitionId>)>, d: DefinitionId) -> Option<(DefinitionId, Seq<DefinitionId>)> {
    match src {
        Some(s) => Some((s.0, s.1.push(d))),
        None => None,
    }
}

/// The body that `module_function` copies for method `m`, looked for just before position
/// `offset` of document `uri_id`: its latest candidate definition with a copyable body; an alias
/// leads to the body of the method it names, found in its owner's ancestors just before the
/// alias. Gives the body's definition and the aliases followed, innermost first. Each method is
/// looked at once per lookup (`seen`, returned grown).
pub open spec fn copy_source_before(g: &Graph, m: DeclarationId, uri_id: UriId, offset: Offset, seen: Set<u64>) -> (Option<(DefinitionId, Seq<DefinitionId>)>, Set<u64>)
    decreases g.decls().dom().difference(seen).len(), 0nat, 0nat,
{
    if seen.contains(m.value) {
        (None, seen)
    } else {
        let seen1 = seen.insert(m.value);
        match definitions_before(g, m, uri_id, offset) {
            None => (None, seen1),
            Some(ds) => {
                proof {
                    g.lemma_decls_finite();
                    assert(g.decls().dom().difference(seen).contains(m.value));
                    assert(g.decls().dom().difference(seen1) =~= g.decls().dom().difference(seen).remove(m.value));
                }
                scan_sources(g, ds, ds.len() as int, seen1)
            },
        }
    }
}

/// `copy_source_before`, from the `n` first of the candidate definitions `ds`, latest first.
pub open spec fn scan_sources(g: &Graph, ds: Seq<DefinitionId>, n: int, seen: Set<u64>) -> (Option<(DefinitionId, Seq<DefinitionId>)>, Set<u64>)
    decreases g.decls().dom().difference(seen).len(), 2nat, if n > 0 { n as nat } else { 0nat },
{
    if n <= 0 || n > ds.len() {
        (None, seen)
    } else {
        let d = ds[n - 1];
        if !g.defs().contains_key(d.value) {
            scan_sources(g, ds, n - 1, seen)
        } else if g.defs()[d.value].copyable_body() {
            (Some((d, Seq::empty())), seen)
        } else {
            let def = g.defs()[d.value];
            match def.kind {
                DefinitionKind::MethodAlias { old_name_str_id, .. } => match definition_owner(g, d) {
                    Some(owner) => {
                        let targets = members_in_ancestors_before(g, owner, old_name_str_id, def.uri_id, def.offset);
                        let found = scan_source_targets(g, targets, 0, def.uri_id, def.offset, seen);
                        match found.0 {
                            Some(src) => (with_alias(found.0, d), found.1),
                            None => {
                                proof {
                                    g.lemma_decls_finite();
                                    vstd::set_lib::lemma_len_subset(
                                        g.decls().dom().difference(seen.union(found.1)),
                                        g.decls().dom().difference(seen),
                                    );
                                }
                                scan_sources(g, ds, n - 1, seen.union(found.1))
                            },
                        }
                    },
                    None => scan_sources(g, ds, n - 1, seen),
                },
                _ => scan_sources(g, ds, n - 1, seen),
            }
        }
    }
}

/// `copy_source_before` of the first of `ts`, from `i` on, that gives a source.
pub open spec fn scan_source_targets(g: &Graph, ts: Seq<DeclarationId>, i: int, uri_id: UriId, offset: Offset, seen: Set<u64>) -> (Option<(DefinitionId, Seq<DefinitionId>)>, Set<u64>)
    decreases g.decls().dom().difference(seen).len(), 1nat, if 0 <= i <= ts.len() { (ts.len() - i) as nat } else { 0nat },
{
    if i < 0 || i >= ts.len() {
        (None, seen)
    } else {
        let found = copy_source_before(g, ts[i], uri_id, offset, seen);
        match found.0 {
            Some(src) => (Some(src), found.1),
            None => {
                proof {
                    g.lemma_decls_finite();
                    vstd::set_lib::lemma_len_subset(
                        g.decls().dom().difference(seen.union(found.1)),
                        g.decls().dom().difference(seen),
                    );
                }
                scan_source_targets(g, ts, i + 1, uri_id, offset, seen.union(found.1))
            },
        }
    }
}

/// The source that `module_function` copies for method `m` at visibility operation `vis`, for
/// owner `owner`: the body and aliases of `copy_source_before` (with nothing seen yet), and the
/// kind of the source.
pub open spec fn copy_source(g: &Graph, m: DeclarationId, vis: DefinitionId, owner: DeclarationId) -> Option<(DefinitionId, Seq<DefinitionId>, ModuleFunctionSourceKind)> {
    if g.defs().contains_key(vis.value) {
        match copy_source_before(g, m, g.defs()[vis.value].uri_id, g.defs()[vis.value].offset, Set::empty()).0 {
            Some(src) => {
                let direct = g.decls().contains_key(m.value) && g.decls()[m.value].owner_id == owner;
                Some((src.0, src.1, ModuleFunctionSourceKind::from_parts(direct, src.1.len() > 0)))
            },
            None => None,
        }
    } else {
        None
    }
}

/// The body that `module_function` copies is always an existing definition with a copyable
/// body (a method or an attribute method), never an alias or a visibility operation.
pub proof fn lemma_copied_body_copyable(g: &Graph, m: DeclarationId, uri_id: UriId, offset: Offset, seen: Set<u64>)
    ensures
        copy_source_before(g, m, uri_id, offset, seen).0 matches Some(src)
            ==> g.defs().contains_key(src.0.value) && g.defs()[src.0.value].copyable_body(),
    decreases g.decls().dom().difference(seen).len(), 0nat, 0nat,
{
    if !seen.contains(m.value) {
        let seen1 = seen.insert(m.value);
        if let Some(ds) = definitions_before(g, m, uri_id, offset) {
            g.lemma_decls_finite();
            assert(g.decls().dom().difference(seen).contains(m.value));
            assert(g.decls().dom().difference(seen1) =~= g.decls().dom().difference(seen).remove(m.value));
            lemma_scanned_body_copyable(g, ds, ds.len() as int, seen1);
        }
    }
}

proof fn lemma_scanned_body_copyable(g: &Graph, ds: Seq<DefinitionId>, n: int, seen: Set<u64>)
    ensures
        scan_sources(g, ds, n, seen).0 matches Some(src)
            ==> g.defs().contains_key(src.0.value) && g.defs()[src.0.value].copyable_body(),
    decreases g.decls().dom().difference(seen).len(), 2nat, if n > 0 { n as nat } else { 0nat },
{
    if n <= 0 || n > ds.len() {
    } else {
        let d = ds[n - 1];
        if !g.defs().contains_key(d.value) {
            lemma_scanned_body_copyable(g, ds, n - 1, seen);
            assert(scan_sources(g, ds, n, seen) == scan_sources(g, ds, n - 1, seen));
        } else if g.defs()[d.value].copyable_body() {
            assert(scan_sources(g, ds, n, seen).0 == Some((d, Seq::<DefinitionId>::empty())));
        } else {
            let def = g.defs()[d.value];
            match def.kind {
                DefinitionKind::MethodAlias { old_name_str_id, .. } => match definition_owner(g, d) {
                    Some(owner) => {
                        let targets = members_in_ancestors_before(g, owner, old_name_str_id, def.uri_id, def.offset);
                        let found = scan_source_targets(g, targets, 0, def.uri_id, def.offset, seen);
                        lemma_target_body_copyable(g, targets, 0, def.uri_id, def.offset, seen);
                        if let Some(src) = found.0 {
                            assert(scan_sources(g, ds, n, seen).0 == with_alias(found.0, d));
                            assert(with_alias(found.0, d) == Some((src.0, src.1.push(d))));
                        }
                        if found.0 is None {
                            g.lemma_decls_finite();
                            vstd::set_lib::lemma_len_subset(
                                g.decls().dom().difference(seen.union(found.1)),
                                g.decls().dom().difference(seen),
                            );
                            lemma_scanned_body_copyable(g, ds, n - 1, seen.union(found.1));
                            assert(scan_sources(g, ds, n, seen) == scan_sources(g, ds, n - 1, seen.union(found.1)));
                        }
                    },
                    None => {
                        lemma_scanned_body_copyable(g, ds, n - 1, seen);
                    },
                },
                _ => {
                    lemma_scanned_body_copyable(g, ds, n - 1, seen);
                    assert(scan_sources(g, ds, n, seen) == scan_sources(g, ds, n - 1, seen));
                },
            }
        }
    }
}

proof fn lemma_target_body_copyable(g: &Graph, ts: Seq<DeclarationId>, i: int, uri_id: UriId, offset: Offset, seen: Set<u64>)
    ensures
        scan_source_targets(g, ts, i, uri_id, offset, seen).0 matches Some(src)
            ==> g.defs().contains_key(src.0.value) && g.defs()[src.0.value].copyable_body(),
    decreases g.decls().dom().difference(seen).len(), 1nat, if 0 <= i <= ts.len() { (ts.len() - i) as nat } else { 0nat },
{
    if i < 0 || i >= ts.len() {
    } else {
        let found = copy_source_before(g, ts[i], uri_id, offset, seen);
        lemma_copied_body_copyable(g, ts[i], uri_id, offset, seen);
        if found.0 is None {
            g.lemma_decls_finite();
            vstd::set_lib::lemma_len_subset(
                g.decls().dom().difference(seen.union(found.1)),
                g.decls().dom().difference(seen),
            );
            lemma_target_body_copyable(g, ts, i + 1, uri_id, offset, seen.union(found.1));
        }
    }
}

/// Where the latest candidate definition of the method has a copyable body, `module_function`
/// copies that body, with no alias followed.
pub proof fn lemma_copy_takes_latest_body(g: &Graph, m: DeclarationId, uri_id: UriId, offset: Offset, seen: Set<u64>)
    requires
        g.decls().contains_key(m.value),
        !seen.contains(m.value),
    ensures
        ({
            let ds = definitions_before(g, m, uri_id, offset).unwrap();
            ds.len() > 0 && g.defs().contains_key(ds.last().value) && g.defs()[ds.last().value].copyable_body()
                ==> copy_source_before(g, m, uri_id, offset, seen).0 == Some((ds.last(), Seq::<DefinitionId>::empty()))
        }),
{
    let ds = definitions_before(g, m, uri_id, offset).unwrap();
    assert(copy_source_before(g, m, uri_id, offset, seen) == scan_sources(g, ds, ds.len() as int, seen.insert(m.value)));
}

/// `module_function` copies the method as it stands at the operation: a definition of the
/// method in the same document, before the operation and after every other definition of it
/// there, is the body copied when it has one; a definition that comes after the operation is
/// not.
pub proof fn lemma_copy_of_prior_body(
    g: &Graph,
    m: DeclarationId,
    uri_id: UriId,
    offset: Offset,
    seen: Set<u64>,
    d: DefinitionId,
)
    requires
        g.decls().contains_key(m.value),
        !seen.contains(m.value),
        g.decls()[m.value].definitions@.contains(d),
        before_position(g, d, uri_id, offset),
        in_document(g, d, uri_id),
        g.defs()[d.value].copyable_body(),
        forall|e: DefinitionId| #[trigger] g.decls()[m.value].definitions@.contains(e) && before_position(g, e, uri_id, offset)
            && in_document(g, e, uri_id) && e != d
            ==> g.defs()[e.value].offset.start_spec() < g.defs()[d.value].offset.start_spec(),
    ensures
        copy_source_before(g, m, uri_id, offset, seen).0 == Some((d, Seq::<DefinitionId>::empty())),
{
    lemma_latest_in_document_is_last(g, m, uri_id, offset, d);
    lemma_copy_takes_latest_body(g, m, uri_id, offset, seen);
}

impl Resolver {
    /// The body that `module_function` copies for `source_method_id`, looked for just before
    /// position `offset` of document `uri_id` (see `copy_source_before`).
    fn module_function_copy_source_before(
        &self,
        source_method_id: DeclarationId,
        uri_id: UriId,
        offset: Offset,
        target_visibility: Visibility,
        seen_method_ids: &mut HashSet<u64>,
    ) -> (r: Option<ModuleFunctionCopySource>)
        ensures
            match r {
                Some(src) => copy_source_before(&self.graph_view(), source_method_id, uri_id, offset, old(seen_method_ids)@).0
                    == Some((src.definition_id, src.alias_definition_ids@))
                    && src.target_visibility == target_visibility
                    && src.source_kind == ModuleFunctionSourceKind::InheritedMethod,
                None => copy_source_before(&self.graph_view(), source_method_id, uri_id, offset, old(seen_method_ids)@).0 is None,
            },
            final(seen_method_ids)@ == copy_source_before(&self.graph_view(), source_method_id, uri_id, offset, old(seen_method_ids)@).1,
            old(seen_method_ids)@.subset_of(final(seen_method_ids)@),
        decreases self.graph_view().decls().dom().difference(old(seen_method_ids)@).len(),
    {
        let ghost g = self.graph_view();
        let ghost s0 = seen_method_ids@;
        if !seen_method_ids.insert(source_method_id.value) {
            return None;
        }
        let ghost s1 = seen_method_ids@;
        let definition_ids = match self.definition_ids_before_visibility(source_method_id, uri_id, offset) {
            Some(ids) => ids,
            None => return None,
        };
        proof {
            g.lemma_decls_finite();
            assert(g.decls().dom().difference(s0).contains(source_method_id.value));
            assert(g.decls().dom().difference(s1) =~= g.decls().dom().difference(s0).remove(source_method_id.value));
        }
        let mut n: usize = definition_ids.len();
        while n > 0
            invariant
                n <= definition_ids@.len(),
                g == self.graph_view(),
                g.decls().dom().finite(),
                s0 == old(seen_method_ids)@,
                s0.subset_of(s1),
                s1.subset_of(seen_method_ids@),
                g.decls().dom().difference(s1).len() < g.decls().dom().difference(s0).len(),
                copy_source_before(&g, source_method_id, uri_id, offset, s0) == scan_sources(&g, definition_ids@, n as int, seen_method_ids@),
            decreases n,
        {
            let d = definition_ids[n - 1];
            let definition = match self.graph().definition(d) {
                Some(definition) => definition,
                None => {
                    n = n - 1;
                    continue;
                },
            };
            if definition.is_copyable_method_body() {
                return Some(ModuleFunctionCopySource {
                    definition_id: d,
                    target_visibility,
                    source_kind: ModuleFunctionSourceKind::InheritedMethod,
                    alias_definition_ids: Vec::new(),
                });
            }
            if let DefinitionKind::MethodAlias { old_name_str_id, .. } = &definition.kind {
                let owner = match self.graph().definition_id_to_declaration_id(d) {
                    Some(decl_id) => match self.graph().declaration(decl_id) {
                        Some(declaration) => Some(declaration.owner_id),
                        None => None,
                    },
                    None => None,
                };
                if let Some(owner_id) = owner {
                    let targets = self.method_member_ids_in_ancestors_before(owner_id, *old_name_str_id, definition.uri_id, definition.offset);
                    let ghost s_alias = seen_method_ids@;
                    let ghost found = scan_source_targets(&g, targets@, 0, definition.uri_id, definition.offset, s_alias);
                    proof {
                        assert(found.0 is Some ==> copy_source_before(&g, source_method_id, uri_id, offset, s0)
                            == (with_alias(found.0, d), found.1));
                        assert(found.0 is None ==> copy_source_before(&g, source_method_id, uri_id, offset, s0)
                            == scan_sources(&g, definition_ids@, n - 1, s_alias.union(found.1)));
                    }
                    let mut j: usize = 0;
                    while j < targets.len()
                        invariant
                            j <= targets@.len(),
                            g == self.graph_view(),
                            g.decls().dom().finite(),
                            s0 == old(seen_method_ids)@,
                            s0.subset_of(s1),
                            s1.subset_of(s_alias),
                            s_alias.subset_of(seen_method_ids@),
                            g.decls().dom().difference(s1).len() < g.decls().dom().difference(s0).len(),
                            found == scan_source_targets(&g, targets@, j as int, definition.uri_id, definition.offset, seen_method_ids@),
                            found.0 is Some ==> copy_source_before(&g, source_method_id, uri_id, offset, s0)
                                == (with_alias(found.0, d), found.1),
                            found.0 is None ==> copy_source_before(&g, source_method_id, uri_id, offset, s0)
                                == scan_sources(&g, definition_ids@, n - 1, s_alias.union(found.1)),
                        decreases targets@.len() - j,
                    {
                        let ghost before = seen_method_ids@;
                        proof {
                            assert(g.decls().dom().difference(before).subset_of(g.decls().dom().difference(s1)));
                            vstd::set_lib::lemma_len_subset(g.decls().dom().difference(before), g.decls().dom().difference(s1));
                        }
                        let result = self.module_function_copy_source_before(
                            targets[j],
                            definition.uri_id,
                            definition.offset,
                            target_visibility,
                            seen_method_ids,
                        );
                        proof {
                            assert(before.union(seen_method_ids@) =~= seen_method_ids@);
                        }
                        if let Some(mut source) = result {
                            source.alias_definition_ids.push(d);
                            return Some(source);
                        }
                        j = j + 1;
                    }
                    proof {
                        assert(s_alias.union(seen_method_ids@) =~= seen_method_ids@);
                    }
                }
            }
            n = n - 1;
        }
        None
    }

    /// Whether method declaration `method_id` exists and belongs to `owner_id`.
    fn method_declaration_declared_on_owner(&self, method_id: DeclarationId, owner_id: DeclarationId) -> (r: bool)
        ensures
            r == (self.graph_view().decls().contains_key(method_id.value)
                && self.graph_view().decls()[method_id.value].owner_id == owner_id),
    {
        match self.graph().declaration(method_id) {
            Some(declaration) => declaration.owner_id.value == owner_id.value,
            None => false,
        }
    }

    /// The source that `module_function` copies for `source_method_id` at visibility operation
    /// `visibility_id` for owner `owner_id` (see `copy_source`).
    pub fn module_function_copy_source(
        &self,
        source_method_id: DeclarationId,
        visibility_id: DefinitionId,
        owner_id: DeclarationId,
        target_visibility: Visibility,
    ) -> (r: Option<ModuleFunctionCopySource>)
        ensures
            match r {
                Some(src) => copy_source(&self.graph_view(), source_method_id, visibility_id, owner_id)
                    == Some((src.definition_id, src.alias_definition_ids@, src.source_kind))
                    && src.target_visibility == target_visibility,
                None => copy_source(&self.graph_view(), source_method_id, visibility_id, owner_id) is None,
            },
    {
        let visibility_definition = match self.graph().definition(visibility_id) {
            Some(d) => d,
            None => return None,
        };
        let mut seen_method_ids: HashSet<u64> = HashSet::new();
        assert(seen_method_ids@ =~= Set::<u64>::empty());
        let mut source = match self.module_function_copy_source_before(
            source_method_id,
            visibility_definition.uri_id,
            visibility_definition.offset,
            target_visibility,
            &mut seen_method_ids,
        ) {
            Some(s) => s,
            None => return None,
        };
        let target_is_direct = self.method_declaration_declared_on_owner(source_method_id, owner_id);
        proof {
            assert(target_is_direct == (self.graph_view().decls().contains_key(source_method_id.value)
                && self.graph_view().decls()[source_method_id.value].owner_id == owner_id));
        }
        source.source_kind = ModuleFunctionSourceKind::new(target_is_direct, source.alias_definition_ids.len() > 0);
        Some(source)
    }
}

/// What a copy takes from the method body it copies.
pub struct MethodBodySnapshot {
    pub uri_id: UriId,
    pub offset: Offset,
    pub comments: Vec<Comment>,
    pub flags: DefinitionFlags,
    pub signatures: Vec<Vec<Parameter>>,
}

/// What a copy is: its name, the namespace definition it belongs to, its visibility and
/// receiver, and whether it is generated (an instance copy) or not (a singleton copy).
pub struct ModuleFunctionCopyDefinitionRequest {
    pub str_id: StringId,
    pub owner_definition_id: DefinitionId,
    pub visibility: Visibility,
    pub receiver: Option<Receiver>,
    pub generated: bool,
}

/// The parameter that a copied attribute writer takes.
pub open spec fn writer_arg_name() -> Seq<char> {
    "__rubydex_arg0"@
}

/// The signatures of a copied attribute method: none for a reader, one positional parameter
/// (`arg`, at `offset`) for a writer.
pub open spec fn attr_signatures(offset: Offset, writer_arg: Option<StringId>) -> Seq<Seq<Parameter>> {
    match writer_arg {
        Some(arg) => seq![seq![Parameter::RequiredPositional(ParameterStruct { offset, str: arg })]],
        None => seq![Seq::empty()],
    }
}

/// The key text of a copy's identifier: its name, document and position, then `:generated`
/// for instance copies and `:self` for copies on the singleton.
pub open spec fn copy_key(str_id: StringId, uri_id: UriId, offset: Offset, generated: bool, singleton: bool) -> Seq<char> {
    reference_key(str_id.value, uri_id.value, offset.start_spec(), offset.end_spec())
        + (if generated { ":generated"@ } else { Seq::empty() })
        + (if singleton { ":self"@ } else { Seq::empty() })
}

/// The identifier of a copy.
pub open spec fn copy_id(str_id: StringId, uri_id: UriId, offset: Offset, generated: bool, singleton: bool) -> u64 {
    crate::ids::hash_str(copy_key(str_id, uri_id, offset, generated, singleton))
}

/// The method definition that a copy is, from the request and the snapshot of the body.
pub open spec fn copy_definition(request: ModuleFunctionCopyDefinitionRequest, snapshot: MethodBodySnapshot) -> (Definition, Seq<Vec<Parameter>>) {
    (Definition {
        id: DefinitionId { value: copy_id(request.str_id, snapshot.uri_id, snapshot.offset, request.generated, request.receiver is Some) },
        uri_id: snapshot.uri_id,
        offset: snapshot.offset,
        lexical_nesting_id: Some(request.owner_definition_id),
        comments: snapshot.comments,
        flags: DefinitionFlags { generated: request.generated, singleton_method_visibility: snapshot.flags.singleton_method_visibility },
        kind: DefinitionKind::Method {
            str_id: request.str_id,
            visibility: request.visibility,
            receiver: request.receiver,
            signatures: snapshot.signatures,
        },
    }, snapshot.signatures@)
}

fn copy_parameters(params: &Vec<Parameter>) -> (r: Vec<Parameter>)
    ensures
        r@ == params@,
{
    let mut r: Vec<Parameter> = Vec::new();
    let mut i: usize = 0;
    while i < params.len()
        invariant
            i <= params@.len(),
            r@ == params@.take(i as int),
        decreases params@.len() - i,
    {
        r.push(params[i]);
        i = i + 1;
        assert(r@ =~= params@.take(i as int));
    }
    assert(params@.take(i as int) =~= params@);
    r
}

fn copy_signatures(signatures: &Vec<Vec<Parameter>>) -> (r: Vec<Vec<Parameter>>)
    ensures
        r@.len() == signatures@.len(),
        forall|i: int| 0 <= i < r@.len() ==> (#[trigger] r@[i])@ == signatures@[i]@,
{
    let mut r: Vec<Vec<Parameter>> = Vec::new();
    let mut i: usize = 0;
    while i < signatures.len()
        invariant
            i <= signatures@.len(),
            r@.len() == i,
            forall|k: int| 0 <= k < i ==> (#[trigger] r@[k])@ == signatures@[k]@,
        decreases signatures@.len() - i,
    {
        r.push(copy_parameters(&signatures[i]));
        i = i + 1;
    }
    r
}

/// The signatures that a copy of the body of `source` has: those of a method; none for an
/// attribute reader or accessor; one positional parameter named `writer_arg_name` for a writer.
pub open spec fn copied_signatures(g: &Graph, source: DefinitionId) -> Seq<Seq<Parameter>> {
    let def = g.defs()[source.value];
    match def.kind {
        DefinitionKind::Method { signatures, .. } => signature_views(signatures@),
        DefinitionKind::AttrWriter { .. } => attr_signatures(def.offset, Some(StringId { value: crate::ids::hash_str(writer_arg_name()) })),
        _ => attr_signatures(def.offset, None),
    }
}

/// Whether source definition `source` of `g` is an attribute writer.
pub open spec fn is_writer(g: &Graph, source: DefinitionId) -> bool {
    g.defs().contains_key(source.value) && g.defs()[source.value].kind is AttrWriter
}

/// The graph effect of taking the snapshot of the body of `source`: a writer's parameter name
/// is interned; nothing else changes.
pub open spec fn body_interned(new: &Graph, old: &Graph, source: DefinitionId) -> bool {
    if is_writer(old, source) {
        new.string_interned(old, writer_arg_name())
    } else {
        *new == *old
    }
}

/// Whether `d` is the copy named `str_id` of the body of `source` of `g`: the body's document,
/// position and signatures, the namespace definition `owner_def`, and the given visibility,
/// receiver and generated flag; its identifier is `copy_id`.
pub open spec fn is_copy_of(d: Definition, g: &Graph, str_id: StringId, source: DefinitionId, owner_def: DefinitionId, visibility: Visibility, receiver: Option<Receiver>, generated: bool) -> bool {
    let s = g.defs()[source.value];
    &&& d.uri_id == s.uri_id
    &&& d.offset == s.offset
    &&& d.lexical_nesting_id == Some(owner_def)
    &&& comment_views(d.comments@) == comment_views(s.comments@)
    &&& d.flags == (DefinitionFlags { generated, singleton_method_visibility: s.flags.singleton_method_visibility })
    &&& d.id.value == copy_id(str_id, s.uri_id, s.offset, generated, receiver is Some)
    &&& d.kind matches DefinitionKind::Method { str_id: n, visibility: v, receiver: rc, signatures }
        && n == str_id && v == visibility && rc == receiver && signature_views(signatures@) == copied_signatures(g, source)
}

/// The effect of building the copy named `str_id` of the body of `source` from `old`: `None`,
/// with nothing changed, when `source` has no copyable body; otherwise the copy, with a writer's
/// parameter name interned.
pub open spec fn copy_built(new: &Graph, old: &Graph, str_id: StringId, source: DefinitionId, owner_def: DefinitionId, visibility: Visibility, receiver: Option<Receiver>, generated: bool, r: Option<Definition>) -> bool {
    match r {
        Some(d) => {
            &&& old.defs().contains_key(source.value)
            &&& old.defs()[source.value].copyable_body()
            &&& is_copy_of(d, old, str_id, source, owner_def, visibility, receiver, generated)
            &&& body_interned(new, old, source)
        },
        None => {
            &&& !old.defs().contains_key(source.value) || !old.defs()[source.value].copyable_body()
            &&& *new == *old
        },
    }
}

/// The views of a list of signatures.
pub open spec fn signature_views(signatures: Seq<Vec<Parameter>>) -> Seq<Seq<Parameter>> {
    signatures.map_values(|s: Vec<Parameter>| s@)
}

impl Resolver {
    /// The snapshot of an attribute method body: its document, position, comments and flags, and
    /// the signatures of `attr_signatures`.
    fn module_function_attr_body_snapshot_from_parts(
        uri_id: UriId,
        offset: Offset,
        comments: Vec<Comment>,
        flags: DefinitionFlags,
        writer_arg_str_id: Option<StringId>,
    ) -> (s: MethodBodySnapshot)
        ensures
            s.uri_id == uri_id,
            s.offset == offset,
            s.comments == comments,
            s.flags == flags,
            signature_views(s.signatures@) == attr_signatures(offset, writer_arg_str_id),
    {
        let mut params: Vec<Parameter> = Vec::new();
        if let Some(arg_str_id) = writer_arg_str_id {
            params.push(Parameter::RequiredPositional(ParameterStruct::new(offset, arg_str_id)));
        }
        let mut signatures: Vec<Vec<Parameter>> = Vec::new();
        signatures.push(params);
        let s = MethodBodySnapshot { uri_id, offset, comments, flags, signatures };
        assert(signature_views(s.signatures@) =~= attr_signatures(offset, writer_arg_str_id));
        s
    }

    /// The snapshot of a reader or accessor body, with a copy of its comments.
    fn module_function_attr_body_snapshot(uri_id: UriId, offset: Offset, comments: &Vec<Comment>, flags: DefinitionFlags) -> (s: MethodBodySnapshot)
        ensures
            s.uri_id == uri_id,
            s.offset == offset,
            comment_views(s.comments@) == comment_views(comments@),
            s.flags == flags,
            signature_views(s.signatures@) == attr_signatures(offset, None),
    {
        Self::module_function_attr_body_snapshot_from_parts(uri_id, offset, copy_comments(comments), flags, None)
    }

    /// The snapshot of the body of `source_definition_id`: its document, position, comments,
    /// flags and signatures for a method; for attribute methods, no parameter for readers and accessors
    /// and one (named `writer_arg_name`, interned here) for writers. `None` for other kinds.
    fn module_function_body_snapshot(&mut self, source_definition_id: DefinitionId) -> (r: Option<MethodBodySnapshot>)
        requires
            old(self).graph_view().wf(),
        ensures
            super::keeps_keys(&final(self).graph_view(), &old(self).graph_view()),
            final(self).graph_view().wf(),
            body_interned(&final(self).graph_view(), &old(self).graph_view(), source_definition_id),
            match r {
                Some(s) => {
                    let g = old(self).graph_view();
                    let def = g.defs()[source_definition_id.value];
                    &&& g.defs().contains_key(source_definition_id.value)
                    &&& def.copyable_body()
                    &&& s.uri_id == def.uri_id
                    &&& s.offset == def.offset
                    &&& comment_views(s.comments@) == comment_views(def.comments@)
                    &&& s.flags == def.flags
                    &&& match def.kind {
                        DefinitionKind::Method { signatures, .. } => signature_views(s.signatures@) == signature_views(signatures@),
                        DefinitionKind::AttrWriter { .. } => signature_views(s.signatures@)
                            == attr_signatures(def.offset, Some(StringId { value: crate::ids::hash_str(writer_arg_name()) })),
                        _ => signature_views(s.signatures@) == attr_signatures(def.offset, None),
                    }
                },
                None => !old(self).graph_view().defs().contains_key(source_definition_id.value)
                    || !old(self).graph_view().defs()[source_definition_id.value].copyable_body(),
            },
    {
        let ghost g = self.graph_view();
        let (uri_id, offset, comments, flags, is_writer) = match self.graph().definition(source_definition_id) {
            Some(definition) => {
                match &definition.kind {
                    DefinitionKind::Method { signatures, .. } => {
                        let copied = copy_signatures(signatures);
                        assert(signature_views(copied@) =~= signature_views(signatures@));
                        return Some(MethodBodySnapshot {
                            uri_id: definition.uri_id,
                            offset: definition.offset,
                            comments: copy_comments(&definition.comments),
                            flags: definition.flags,
                            signatures: copied,
                        });
                    },
                    DefinitionKind::AttrAccessor { .. } | DefinitionKind::AttrReader { .. } => {
                        return Some(Self::module_function_attr_body_snapshot(definition.uri_id, definition.offset, &definition.comments, definition.flags));
                    },
                    DefinitionKind::AttrWriter { .. } => (definition.uri_id, definition.offset, copy_comments(&definition.comments), definition.flags, true),
                    _ => return None,
                }
            },
            None => return None,
        };
        let arg = String::from_str("__rubydex_arg0");
        proof {
            reveal_strlit("__rubydex_arg0");
        }
        let arg_str_id = self.graph.intern_string(arg);
        Some(Self::module_function_attr_body_snapshot_from_parts(uri_id, offset, comments, flags, Some(arg_str_id)))
    }

    /// The copy's method definition: the snapshot's body, document, position and comments, the
    /// request's name, owner, visibility and receiver, and the generated flag of the request.
    fn module_function_copy_from_snapshot(request: ModuleFunctionCopyDefinitionRequest, snapshot: MethodBodySnapshot) -> (d: Definition)
        ensures
            d.id == copy_definition(request, snapshot).0.id,
            d.uri_id == snapshot.uri_id,
            d.offset == snapshot.offset,
            d.lexical_nesting_id == Some(request.owner_definition_id),
            d.comments == snapshot.comments,
            d.flags == copy_definition(request, snapshot).0.flags,
            match d.kind {
                DefinitionKind::Method { str_id, visibility, receiver, signatures } => str_id == request.str_id
                    && visibility == request.visibility && receiver == request.receiver
                    && signatures == snapshot.signatures,
                _ => false,
            },
    {
        let ModuleFunctionCopyDefinitionRequest { str_id, owner_definition_id, visibility, receiver, generated } = request;
        let MethodBodySnapshot { uri_id, offset, comments, flags, signatures } = snapshot;
        let mut key = reference_key_string(str_id.value, uri_id.value, offset.start(), offset.end());
        if generated {
            push_str(&mut key, ":generated");
        }
        let singleton = receiver.is_some();
        if singleton {
            push_str(&mut key, ":self");
        }
        proof {
            reveal_strlit("");
        }
        assert(key@ =~= copy_key(str_id, uri_id, offset, generated, singleton)) by {
            assert(Seq::<char>::empty() == ""@);
        }
        let id = DefinitionId::from_str(key.as_str());
        let copied_flags = DefinitionFlags { generated, singleton_method_visibility: flags.singleton_method_visibility };
        Definition {
            id,
            uri_id,
            offset,
            lexical_nesting_id: Some(owner_definition_id),
            comments,
            flags: copied_flags,
            kind: DefinitionKind::Method { str_id, visibility, receiver, signatures },
        }
    }

    /// The copy's method definition for the body of `source_definition_id`; `None` when that
    /// definition has no copyable body.
    fn build_module_function_copy_definition(
        &mut self,
        copy_str_id: StringId,
        source_definition_id: DefinitionId,
        owner_definition_id: DefinitionId,
        visibility: Visibility,
        receiver: Option<Receiver>,
        generated: bool,
    ) -> (r: Option<Definition>)
        requires
            old(self).graph_view().wf(),
        ensures
            super::keeps_keys(&final(self).graph_view(), &old(self).graph_view()),
            final(self).graph_view().wf(),
            copy_built(&final(self).graph_view(), &old(self).graph_view(), copy_str_id, source_definition_id, owner_definition_id, visibility, receiver, generated, r),
    {
        let snapshot = match self.module_function_body_snapshot(source_definition_id) {
            Some(s) => s,
            None => return None,
        };
        Some(Self::module_function_copy_from_snapshot(
            ModuleFunctionCopyDefinitionRequest {
                str_id: copy_str_id,
                owner_definition_id,
                visibility,
                receiver,
                generated,
            },
            snapshot,
        ))
    }
}

/// A copy to install: the member name, the visibility operation that requests it, the body it
/// copies, the namespace that gets it, and its declaration (identifier and name).
pub struct ModuleFunctionCopyRequest {
    pub str_id: StringId,
    pub visibility_id: DefinitionId,
    pub source_definition_id: DefinitionId,
    pub owner_id: DeclarationId,
    pub copy_declaration_id: DeclarationId,
    pub fully_qualified_name: String,
}

/// Whether `c` is the copy of `source` that `g` tracks for declaration `decl`: the first copy of
/// `source`, in order of creation, that belongs to `decl`.
pub open spec fn found_copy(g: &Graph, source: DefinitionId, decl: DeclarationId, c: DefinitionId) -> bool {
    exists|i: int|
        0 <= i < g.copies().copies().sources(source.value).len()
            && #[trigger] g.copies().copies().sources(source.value)[i] == c.value
            && g.copies().copies().decl_of(c.value) == decl.value
            && forall|j: int| 0 <= j < i ==> g.copies().copies().decl_of(#[trigger] g.copies().copies().sources(source.value)[j]) != decl.value
}

/// Whether `g` tracks no copy of `source` for declaration `decl`.
pub open spec fn no_copy(g: &Graph, source: DefinitionId, decl: DeclarationId) -> bool {
    forall|x: u64| #[trigger] g.copies().copies().has(x) && g.copies().copies().source_of(x) == source.value
        ==> g.copies().copies().decl_of(x) != decl.value
}

/// The effect of registering copy `c` (named `str_id`, for declaration `decl`, requested by
/// visibility operation `v`) from `old`: the copy tracked for `decl` gains the request; with none,
/// a copy is built (see `copy_built`) and registered.
pub open spec fn copy_registered(
    new: &Graph,
    old: &Graph,
    str_id: StringId,
    v: DefinitionId,
    source: DefinitionId,
    decl: DeclarationId,
    owner_def: DefinitionId,
    visibility: Visibility,
    receiver: Option<Receiver>,
    generated: bool,
    c: DefinitionId,
) -> bool {
    if no_copy(old, source, decl) {
        exists|mid: Graph, d: Definition| {
            &&& #[trigger] copy_built(&mid, old, str_id, source, owner_def, visibility, receiver, generated, Some(d))
            &&& new.module_function_copy_added(&mid, source, v, decl, d, c)
        }
    } else {
        &&& found_copy(old, source, decl, c)
        &&& new.copy_visibility_attached(old, c, v)
    }
}

/// The effect of making copy `c` a definition of declaration `decl` (named `fqn`, ordered by `v`)
/// and `decl` the member `str_id` of `owner`, from `old`.
pub open spec fn copy_declared(new: &Graph, old: &Graph, c: DefinitionId, v: DefinitionId, owner: DeclarationId, str_id: StringId, decl: DeclarationId, fqn: Seq<char>) -> bool {
    if old.decls().contains_key(decl.value) && old.decls()[decl.value].definitions@.contains(c) {
        new.member_recorded(old, owner, decl, str_id)
    } else {
        exists|mid: Graph| {
            &&& #[trigger] mid.copy_declaration_added(old, decl, c, v, fqn, owner)
            &&& new.member_recorded(&mid, owner, decl, str_id)
        }
    }
}

/// The effect of installing the copy named `str_id` of `source` on `owner` (declaration `decl`,
/// named `fqn`), requested by `v`, from `old`: registered (see `copy_registered`), then declared
/// (see `copy_declared`). It fails, with nothing changed, when there is no copy yet and the body
/// cannot be copied.
pub open spec fn copy_installed(
    new: &Graph,
    old: &Graph,
    str_id: StringId,
    v: DefinitionId,
    source: DefinitionId,
    owner: DeclarationId,
    decl: DeclarationId,
    fqn: Seq<char>,
    owner_def: DefinitionId,
    visibility: Visibility,
    receiver: Option<Receiver>,
    generated: bool,
    r: bool,
) -> bool {
    if r {
        exists|mid: Graph, c: DefinitionId| {
            &&& #[trigger] copy_registered(&mid, old, str_id, v, source, decl, owner_def, visibility, receiver, generated, c)
            &&& copy_declared(new, &mid, c, v, owner, str_id, decl, fqn)
        }
    } else {
        &&& no_copy(old, source, decl)
        &&& !old.defs().contains_key(source.value) || !old.defs()[source.value].copyable_body()
        &&& *new == *old
    }
}

/// The effect of installing the private instance copy of member `str_id` of `owner` (from the
/// body of `source`, requested by `v`) from `old`.
pub open spec fn instance_copy_installed(new: &Graph, old: &Graph, str_id: StringId, v: DefinitionId, owner: DeclarationId, source: DefinitionId, owner_def: DefinitionId, r: bool) -> bool {
    let fqn = super::member_name(old, owner, str_id);
    copy_installed(new, old, str_id, v, source, owner, DeclarationId { value: crate::ids::hash_str(fqn) }, fqn, owner_def,
        Visibility::Private, None, true, r)
}

/// The effect of installing the public singleton copy of member `str_id` of `owner` (from the
/// body of `source`, requested by `v`) from `old`: the singleton class of `owner` is declared when
/// missing and gets the copy, with `self` as receiver. It fails, with nothing changed, when
/// `owner` is not a namespace.
pub open spec fn singleton_copy_installed(new: &Graph, old: &Graph, str_id: StringId, v: DefinitionId, owner: DeclarationId, source: DefinitionId, owner_def: DefinitionId, r: bool) -> bool {
    if old.decls().contains_key(owner.value) && old.decls()[owner.value].is_namespace() {
        let sname = super::singleton_name(old, owner);
        let sid = DeclarationId { value: crate::ids::hash_str(sname) };
        exists|mid: Graph| {
            &&& #[trigger] mid.declaration_added(old, sname, DeclarationKind::SingletonClass, owner, sid.value)
            &&& copy_installed(new, &mid, str_id, v, source, sid,
                DeclarationId { value: crate::ids::hash_str(super::member_name(&mid, sid, str_id)) },
                super::member_name(&mid, sid, str_id), owner_def, Visibility::Public, Some(Receiver::SelfReceiver(owner_def)), false, r)
        }
    } else {
        !r && *new == *old
    }
}

/// The effect of recording that visibility operation `v` followed the aliases `aliases`, from
/// `old`: each alias relates to `v` in the alias dependencies; nothing else changes.
pub open spec fn aliases_tracked(new: &Graph, old: &Graph, aliases: Seq<DefinitionId>, v: DefinitionId) -> bool {
    &&& forall|k: u128, x: u64| #[trigger] new.copies().alias_deps().relates(k, x)
        <==> (old.copies().alias_deps().relates(k, x)
            || (x == v.value && exists|i: int| 0 <= i < aliases.len() && k == (#[trigger] aliases[i]).value as u128))
    &&& new.copies().copies() == old.copies().copies()
    &&& new.copies().ancestor_deps() == old.copies().ancestor_deps()
    &&& new.copies().member_deps() == old.copies().member_deps()
    &&& new.copies().document_deps() == old.copies().document_deps()
    &&& new.frame(old, false, false, false, false, false, false, true, false, false)
}

/// The instance copy step of `module_function`: installed when the source kind asks for one
/// (see `creates_instance_copy`), else nothing changes.
pub open spec fn instance_copy_step(
    new: &Graph,
    old: &Graph,
    str_id: StringId,
    v: DefinitionId,
    owner: DeclarationId,
    source: DefinitionId,
    owner_def: DefinitionId,
    kind: ModuleFunctionSourceKind,
    target_visibility: Visibility,
    r: bool,
) -> bool {
    if kind.creates_instance_copy(target_visibility) {
        instance_copy_installed(new, old, str_id, v, owner, source, owner_def, r)
    } else {
        r && *new == *old
    }
}

/// What `module_function` records after its copies: a direct method gets the operation
/// attached (see `visibility_declaration_created`); a source that tracks its owner's ancestors
/// (see `tracks_ancestor_dependency`) records that dependency; otherwise nothing changes.
pub open spec fn dependency_recorded(
    new: &Graph,
    old: &Graph,
    str_id: StringId,
    v: DefinitionId,
    owner: DeclarationId,
    kind: ModuleFunctionSourceKind,
    declared_on_owner: bool,
) -> bool {
    if kind == ModuleFunctionSourceKind::DirectMethod {
        super::visibility_declaration_created(new, old, str_id, v, owner)
    } else if kind.tracks_ancestor_dependency(declared_on_owner) {
        new.ancestor_dependency_tracked(old, owner, str_id, v)
    } else {
        *new == *old
    }
}

/// The effect of `module_function :name` (operation `v`, naming `str_id`) on `owner` with the
/// source `source` (reached through `aliases`, of `kind`, the target having `target_visibility`),
/// from `old`. It fails, with nothing changed, when `v` has no enclosing definition. Otherwise,
/// in turn: the instance copy step (see `instance_copy_step`), the singleton copy (see
/// `singleton_copy_installed`), the dependency (see `dependency_recorded`, the source declared on
/// the owner as `old` tells) and the aliases (see `aliases_tracked`); a copy that fails stops
/// there with failure.
pub open spec fn module_function_applied(
    new: &Graph,
    old: &Graph,
    str_id: StringId,
    v: DefinitionId,
    owner: DeclarationId,
    source: DefinitionId,
    aliases: Seq<DefinitionId>,
    kind: ModuleFunctionSourceKind,
    target_visibility: Visibility,
    r: bool,
) -> bool {
    if !(old.defs().contains_key(v.value) && old.defs()[v.value].lexical_nesting_id is Some) {
        !r && *new == *old
    } else {
        let owner_def = old.defs()[v.value].lexical_nesting_id.unwrap();
        let on_owner = definition_owner(old, source) == Some(owner);
        exists|g1: Graph, r1: bool| {
            &&& #[trigger] instance_copy_step(&g1, old, str_id, v, owner, source, owner_def, kind, target_visibility, r1)
            &&& if !r1 {
                !r && *new == g1
            } else {
                exists|g2: Graph, r2: bool| {
                    &&& #[trigger] singleton_copy_installed(&g2, &g1, str_id, v, owner, source, owner_def, r2)
                    &&& if !r2 {
                        !r && *new == g2
                    } else {
                        r && exists|g3: Graph| {
                            &&& #[trigger] dependency_recorded(&g3, &g2, str_id, v, owner, kind, on_owner)
                            &&& aliases_tracked(new, &g3, aliases, v)
                        }
                    }
                }
            }
        }
    }
}

impl Resolver {
    /// Installs the copy of `request`: reuses the copy of its body already made for its
    /// declaration (now also requested by its visibility operation), or builds one (with
    /// `visibility`, `receiver` and `generated`) and registers it; then makes sure the copy's
    /// declaration holds it and is the owner's member named `str_id`. Fails only when there is
    /// no copy yet and the body cannot be copied.
    fn create_module_function_copy(
        &mut self,
        request: ModuleFunctionCopyRequest,
        owner_definition_id: DefinitionId,
        visibility: Visibility,
        receiver: Option<Receiver>,
        generated: bool,
    ) -> (r: bool)
        requires
            old(self).graph_view().wf(),
            request.copy_declaration_id.value == crate::ids::hash_str(request.fully_qualified_name@),
        ensures
            super::keeps_keys(&final(self).graph_view(), &old(self).graph_view()),
            final(self).graph_view().wf(),
            final(self).graph_view().docs() == old(self).graph_view().docs(),
            final(self).graph_view().work() == old(self).graph_view().work(),
            final(self).graph_view().unresolved() == old(self).graph_view().unresolved(),
            final(self).graph_view().applied() == old(self).graph_view().applied(),
            !r <==> (no_copy(&old(self).graph_view(), request.source_definition_id, request.copy_declaration_id)
                && (!old(self).graph_view().defs().contains_key(request.source_definition_id.value)
                    || !old(self).graph_view().defs()[request.source_definition_id.value].copyable_body())),
            r ==> final(self).graph_view().decls().contains_key(request.copy_declaration_id.value),
            copy_installed(
                &final(self).graph_view(),
                &old(self).graph_view(),
                request.str_id,
                request.visibility_id,
                request.source_definition_id,
                request.owner_id,
                request.copy_declaration_id,
                request.fully_qualified_name@,
                owner_definition_id,
                visibility,
                receiver,
                generated,
                r,
            ),
    {
        let ModuleFunctionCopyRequest {
            str_id,
            visibility_id,
            source_definition_id,
            owner_id,
            copy_declaration_id,
            fully_qualified_name,
        } = request;
        let ghost g0 = self.graph_view();
        let copy_definition_id = match self.graph.find_module_function_copy(source_definition_id, copy_declaration_id) {
            Some(copy_definition_id) => {
                proof {
                    let g = self.graph_view();
                    let i = choose|i: int| 0 <= i < g.copies().copies().sources(source_definition_id.value).len()
                        && #[trigger] g.copies().copies().sources(source_definition_id.value)[i] == copy_definition_id.value
                        && g.copies().copies().decl_of(copy_definition_id.value) == copy_declaration_id.value
                        && forall|j: int| 0 <= j < i ==> g.copies().copies().decl_of(#[trigger] g.copies().copies().sources(source_definition_id.value)[j]) != copy_declaration_id.value;
                    g.copies().copies().lemma_consistent();
                    assert(g.copies().copies().sources(source_definition_id.value).contains(copy_definition_id.value));
                    assert(g.copies().copies().has(copy_definition_id.value));
                    assert(g.copies().copies().source_of(copy_definition_id.value) == source_definition_id.value);
                    assert(found_copy(&g0, source_definition_id, copy_declaration_id, copy_definition_id));
                    assert(!no_copy(&g0, source_definition_id, copy_declaration_id));
                }
                self.graph.attach_module_function_copy_visibility(copy_definition_id, visibility_id);
                assert(copy_registered(&self.graph_view(), &g0, str_id, visibility_id, source_definition_id, copy_declaration_id,
                    owner_definition_id, visibility, receiver, generated, copy_definition_id));
                copy_definition_id
            },
            None => {
                assert(no_copy(&g0, source_definition_id, copy_declaration_id));
                let copy_definition = match self.build_module_function_copy_definition(
                    str_id,
                    source_definition_id,
                    owner_definition_id,
                    visibility,
                    receiver,
                    generated,
                ) {
                    Some(d) => d,
                    None => return false,
                };
                let ghost built = self.graph_view();
                let ghost d = copy_definition;
                let id = self.graph.add_module_function_copy(source_definition_id, visibility_id, copy_declaration_id, copy_definition);
                assert(copy_built(&built, &g0, str_id, source_definition_id, owner_definition_id, visibility, receiver, generated, Some(d)));
                assert(copy_registered(&self.graph_view(), &g0, str_id, visibility_id, source_definition_id, copy_declaration_id,
                    owner_definition_id, visibility, receiver, generated, id));
                id
            },
        };
        let ghost g1 = self.graph_view();
        let already_attached = match self.graph.declaration(copy_declaration_id) {
            Some(declaration) => crate::graph::contains_definition(&declaration.definitions, copy_definition_id),
            None => false,
        };
        if already_attached {
            self.graph.add_member(&owner_id, copy_declaration_id, str_id);
            assert(copy_declared(&self.graph_view(), &g1, copy_definition_id, visibility_id, owner_id, str_id, copy_declaration_id, fully_qualified_name@));
            return true;
        }
        let declared_id = self.graph.add_module_function_copy_declaration(
            copy_definition_id,
            visibility_id,
            fully_qualified_name,
            owner_id,
        );
        let ghost g2 = self.graph_view();
        assert(declared_id == copy_declaration_id);
        self.graph.add_member(&owner_id, declared_id, str_id);
        assert(g2.copy_declaration_added(&g1, copy_declaration_id, copy_definition_id, visibility_id, fully_qualified_name@, owner_id));
        assert(copy_declared(&self.graph_view(), &g1, copy_definition_id, visibility_id, owner_id, str_id, copy_declaration_id, fully_qualified_name@));
        true
    }
}

impl Resolver {
    /// Whether the source definition contributes to a declaration owned by `owner_id`.
    fn source_definition_declared_on_owner(&self, owner_id: DeclarationId, source_definition_id: DefinitionId) -> (r: bool)
        ensures
            r == (definition_owner(&self.graph_view(), source_definition_id) == Some(owner_id)),
    {
        match self.graph().definition_id_to_declaration_id(source_definition_id) {
            Some(declaration_id) => match self.graph().declaration(declaration_id) {
                Some(declaration) => declaration.owner_id.value == owner_id.value,
                None => false,
            },
            None => false,
        }
    }

    /// Installs the private instance copy of member `str_id` on `owner_id`, from the body of
    /// `source_definition_id`.
    fn create_module_function_instance_copy(
        &mut self,
        str_id: StringId,
        visibility_id: DefinitionId,
        owner_id: DeclarationId,
        source_definition_id: DefinitionId,
        owner_definition_id: DefinitionId,
    ) -> (r: bool)
        requires
            old(self).graph_view().wf(),
            old(self).graph_view().decls().contains_key(owner_id.value),
            old(self).graph_view().strs().contains_key(str_id.value),
        ensures
            super::keeps_keys(&final(self).graph_view(), &old(self).graph_view()),
            final(self).graph_view().wf(),
            final(self).graph_view().docs() == old(self).graph_view().docs(),
            final(self).graph_view().work() == old(self).graph_view().work(),
            final(self).graph_view().unresolved() == old(self).graph_view().unresolved(),
            final(self).graph_view().applied() == old(self).graph_view().applied(),
            r ==> final(self).graph_view().decls().contains_key(crate::ids::hash_str(super::member_name(&old(self).graph_view(), owner_id, str_id))),
            instance_copy_installed(&final(self).graph_view(), &old(self).graph_view(), str_id, visibility_id, owner_id, source_definition_id, owner_definition_id, r),
    {
        let fully_qualified_name = self.member_fully_qualified_name(owner_id, str_id);
        let copy_declaration_id = DeclarationId::from_str(fully_qualified_name.as_str());
        self.create_module_function_copy(
            ModuleFunctionCopyRequest {
                str_id,
                visibility_id,
                source_definition_id,
                owner_id,
                copy_declaration_id,
                fully_qualified_name,
            },
            owner_definition_id,
            Visibility::Private,
            None,
            true,
        )
    }

    /// Installs the public singleton copy of member `str_id` on the singleton class of
    /// `owner_id` (created when missing), from the body of `source_definition_id`.
    fn create_module_function_singleton_copy(
        &mut self,
        str_id: StringId,
        visibility_id: DefinitionId,
        owner_id: DeclarationId,
        source_definition_id: DefinitionId,
        owner_definition_id: DefinitionId,
    ) -> (r: bool)
        requires
            old(self).graph_view().wf(),
            old(self).graph_view().strs().contains_key(str_id.value),
        ensures
            super::keeps_keys(&final(self).graph_view(), &old(self).graph_view()),
            final(self).graph_view().wf(),
            final(self).graph_view().docs() == old(self).graph_view().docs(),
            final(self).graph_view().work() == old(self).graph_view().work(),
            final(self).graph_view().unresolved() == old(self).graph_view().unresolved(),
            final(self).graph_view().applied() == old(self).graph_view().applied(),
            !(old(self).graph_view().decls().contains_key(owner_id.value) && old(self).graph_view().decls()[owner_id.value].is_namespace()) ==> !r,
            singleton_copy_installed(&final(self).graph_view(), &old(self).graph_view(), str_id, visibility_id, owner_id, source_definition_id, owner_definition_id, r),
    {
        let singleton_id = match self.get_or_create_singleton_class(owner_id) {
            Some(id) => id,
            None => return false,
        };
        let ghost mid = self.graph_view();
        let fully_qualified_name = self.member_fully_qualified_name(singleton_id, str_id);
        let copy_declaration_id = DeclarationId::from_str(fully_qualified_name.as_str());
        self.create_module_function_copy(
            ModuleFunctionCopyRequest {
                str_id,
                visibility_id,
                source_definition_id,
                owner_id: singleton_id,
                copy_declaration_id,
                fully_qualified_name,
            },
            owner_definition_id,
            Visibility::Public,
            Some(Receiver::SelfReceiver(owner_definition_id)),
            false,
        )
    }

    /// Applies `module_function :name` (visibility operation `visibility_id`, naming `str_id`)
    /// on `owner_id` with the copy source `source`: installs the instance copy when the source
    /// kind asks for one, then the singleton copy; a direct method gets the visibility
    /// operation attached, other sources track their dependency on the owner's ancestors (when
    /// not declared on the owner), and each alias followed is tracked. Fails when the operation
    /// has no enclosing definition or a copy cannot be made.
    pub fn apply_module_function(
        &mut self,
        str_id: StringId,
        visibility_id: DefinitionId,
        owner_id: DeclarationId,
        source: ModuleFunctionCopySource,
    ) -> (r: bool)
        requires
            old(self).graph_view().wf(),
            old(self).graph_view().decls().contains_key(owner_id.value),
            old(self).graph_view().strs().contains_key(str_id.value),
        ensures
            super::keeps_keys(&final(self).graph_view(), &old(self).graph_view()),
            final(self).graph_view().wf(),
            final(self).graph_view().docs() == old(self).graph_view().docs(),
            final(self).graph_view().work() == old(self).graph_view().work(),
            final(self).graph_view().unresolved() == old(self).graph_view().unresolved(),
            !(old(self).graph_view().defs().contains_key(visibility_id.value)
                && old(self).graph_view().defs()[visibility_id.value].lexical_nesting_id is Some) ==> !r
                && final(self).graph_view() == old(self).graph_view(),
            r && source.source_kind == ModuleFunctionSourceKind::DirectMethod ==> forall|k: u128, v: u64|
                #[trigger] old(self).graph_view().applied().index().relates(k, v) ==> final(self).graph_view().applied().index().relates(k, v),
            module_function_applied(
                &final(self).graph_view(),
                &old(self).graph_view(),
                str_id,
                visibility_id,
                owner_id,
                source.definition_id,
                source.alias_definition_ids@,
                source.source_kind,
                source.target_visibility,
                r,
            ),
    {
        let owner_definition_id = match self.graph().definition(visibility_id) {
            Some(definition) => match definition.lexical_nesting_id {
                Some(id) => id,
                None => return false,
            },
            None => return false,
        };
        let ghost g0 = self.graph_view();
        let source_definition_id = source.definition_id;
        let source_declared_on_owner = self.source_definition_declared_on_owner(owner_id, source_definition_id);
        let ghost kind = source.source_kind;
        let ghost tv = source.target_visibility;
        if source.source_kind.should_create_instance_copy(source.target_visibility) {
            let ok = self.create_module_function_instance_copy(str_id, visibility_id, owner_id, source_definition_id, owner_definition_id);
            assert(instance_copy_step(&self.graph_view(), &g0, str_id, visibility_id, owner_id, source_definition_id, owner_definition_id, kind, tv, ok));
            if !ok {
                return false;
            }
        } else {
            assert(instance_copy_step(&self.graph_view(), &g0, str_id, visibility_id, owner_id, source_definition_id, owner_definition_id, kind, tv, true));
        }
        let ghost g1 = self.graph_view();
        let ok = self.create_module_function_singleton_copy(str_id, visibility_id, owner_id, source_definition_id, owner_definition_id);
        assert(singleton_copy_installed(&self.graph_view(), &g1, str_id, visibility_id, owner_id, source_definition_id, owner_definition_id, ok));
        if !ok {
            return false;
        }
        let ghost g2 = self.graph_view();
        if source.source_kind.is_direct_method() {
            self.create_method_visibility_declaration_for_owner(str_id, visibility_id, owner_id);
        } else if source.source_kind.should_track_ancestor_dependency(source_declared_on_owner) {
            self.graph.track_module_function_ancestor_dependency(owner_id, str_id, visibility_id);
        }
        let ghost g3 = self.graph_view();
        assert(dependency_recorded(&g3, &g2, str_id, visibility_id, owner_id, kind, source_declared_on_owner));
        let mut i: usize = 0;
        while i < source.alias_definition_ids.len()
            invariant
                i <= source.alias_definition_ids@.len(),
                self.graph_view().wf(),
                super::keeps_keys(&self.graph_view(), &old(self).graph_view()),
                self.graph_view().docs() == old(self).graph_view().docs(),
                self.graph_view().work() == old(self).graph_view().work(),
                self.graph_view().unresolved() == old(self).graph_view().unresolved(),
                source.source_kind == ModuleFunctionSourceKind::DirectMethod ==> forall|k: u128, v: u64|
                    #[trigger] old(self).graph_view().applied().index().relates(k, v) ==> self.graph_view().applied().index().relates(k, v),
                aliases_tracked(&self.graph_view(), &g3, source.alias_definition_ids@.take(i as int), visibility_id),
            decreases source.alias_definition_ids@.len() - i,
        {
            let ghost before = self.graph_view();
            self.graph.track_module_function_alias_dependency(source.alias_definition_ids[i], visibility_id);
            proof {
                let a = source.alias_definition_ids@;
                let t0 = a.take(i as int);
                let t1 = a.take(i + 1);
                assert forall|k: u128, x: u64| #[trigger] self.graph_view().copies().alias_deps().relates(k, x)
                    <==> (g3.copies().alias_deps().relates(k, x)
                        || (x == visibility_id.value && exists|j: int| 0 <= j < t1.len() && k == (#[trigger] t1[j]).value as u128)) by {
                    if x == visibility_id.value && k == a[i as int].value as u128 {
                        assert(t1[i as int] == a[i as int]);
                    }
                    if exists|j: int| 0 <= j < t0.len() && k == (#[trigger] t0[j]).value as u128 {
                        let j = choose|j: int| 0 <= j < t0.len() && k == (#[trigger] t0[j]).value as u128;
                        assert(t1[j] == t0[j]);
                    }
                    if exists|j: int| 0 <= j < t1.len() && k == (#[trigger] t1[j]).value as u128 {
                        let j = choose|j: int| 0 <= j < t1.len() && k == (#[trigger] t1[j]).value as u128;
                        if j < i {
                            assert(t0[j] == t1[j]);
                        }
                    }
                }
            }
            i = i + 1;
        }
        proof {
            assert(source.alias_definition_ids@.take(i as int) =~= source.alias_definition_ids@);
        }
        true
    }
}

} // verus!
