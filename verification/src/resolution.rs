//! Resolution of method visibility operations (`private :foo`, `module_function :foo`, ...):
//! which method each one targets, what it changes, and what happens when it targets none.

mod module_function;
mod order;

pub use module_function::{ModuleFunctionCopySource, ModuleFunctionSourceKind};

use vstd::prelude::*;
use std::collections::HashSet;
use crate::graph::{member_lookup, Graph};
use crate::ids::{DeclarationId, DefinitionId, StringId};
use crate::model::{Ancestor, DeclarationKind, Visibility};
use crate::text::push_str;
use module_function::copy_source;
use order::{before_position, definitions_before, has_definition_before, insert_sorted, key_le, key_lt, lemma_candidates_exact, namespace_member, visibility_before, OrderKey, OrderKeyView};
use crate::model::{DefinitionKind, Diagnostic, Rule, Unit};
use crate::text::chars_of;

verus! {

/// Resolves the graph's pending work.
pub struct Resolver {
    graph: Graph,
}

impl Resolver {
    /// The graph being resolved.
    pub closed spec fn graph_view(&self) -> Graph {
        self.graph
    }

    /// A resolver for `graph`.
    pub fn new(graph: Graph) -> (r: Self)
        ensures
            r.graph_view() == graph,
    {
        Resolver { graph }
    }

    /// The graph being resolved.
    pub fn graph(&self) -> (g: &Graph)
        ensures
            *g == self.graph_view(),
    {
        &self.graph
    }

    /// The resolved graph.
    pub fn into_graph(self) -> (g: Graph)
        ensures
            g == self.graph_view(),
    {
        self.graph
    }
}

/// What a visibility operation does, decided from the owner's ancestors.
pub enum MethodVisibilityResolution {
    /// The target method exists before the operation: apply it.
    ApplyExisting,
    /// `module_function`: copy this source.
    ApplyModuleFunctionCopy(ModuleFunctionCopySource),
    /// The target may be in an ancestor that is not resolved yet: try again later.
    RetryPartial,
    /// The target method does not exist.
    Missing,
    /// The owner is not a namespace.
    Skip,
}

/// `MethodVisibilityResolution` as a value: for a copy, the source's body, aliases and kind, and
/// the visibility of the target method where the operation stands.
pub enum ResolutionOutcome {
    ApplyExisting,
    ApplyCopy(DefinitionId, Seq<DefinitionId>, ModuleFunctionSourceKind, Visibility),
    RetryPartial,
    Missing,
    Skip,
}

impl MethodVisibilityResolution {
    pub open spec fn outcome(&self) -> ResolutionOutcome {
        match self {
            MethodVisibilityResolution::ApplyExisting => ResolutionOutcome::ApplyExisting,
            MethodVisibilityResolution::ApplyModuleFunctionCopy(src) => ResolutionOutcome::ApplyCopy(
                src.definition_id,
                src.alias_definition_ids@,
                src.source_kind,
                src.target_visibility,
            ),
            MethodVisibilityResolution::RetryPartial => ResolutionOutcome::RetryPartial,
            MethodVisibilityResolution::Missing => ResolutionOutcome::Missing,
            MethodVisibilityResolution::Skip => ResolutionOutcome::Skip,
        }
    }
}

/// The visibility of method `m` just before visibility operation `vis`, when `vis` exists.
pub open spec fn visibility_at(g: &Graph, m: DeclarationId, vis: DefinitionId) -> Option<Visibility> {
    if g.defs().contains_key(vis.value) {
        visibility_before(g, m, g.defs()[vis.value].uri_id, g.defs()[vis.value].offset, Set::empty()).0
    } else {
        None
    }
}

/// Whether method `m` exists before visibility operation `vis`.
pub open spec fn exists_at(g: &Graph, m: DeclarationId, vis: DefinitionId) -> bool {
    g.defs().contains_key(vis.value) && has_definition_before(g, m, g.defs()[vis.value].uri_id, g.defs()[vis.value].offset)
}

/// The outcome of visibility operation `vis` (of kind `visibility`, naming `str_id`) on `owner`,
/// from the ancestors `ancestors[i..]` on: the first complete ancestor whose member named
/// `str_id` is found decides (`module_function` needs that member's visibility and a source to
/// copy; the others need it to exist before the operation); when none does, the operation is
/// retried if some ancestor is partial, and its target is missing otherwise.
pub open spec fn resolution_from(
    g: &Graph,
    owner: DeclarationId,
    str_id: StringId,
    visibility: Visibility,
    vis: DefinitionId,
    ancestors: Seq<Ancestor>,
    i: int,
    has_partial: bool,
) -> ResolutionOutcome
    decreases ancestors.len() - i,
{
    if i < 0 || i >= ancestors.len() {
        if has_partial { ResolutionOutcome::RetryPartial } else { ResolutionOutcome::Missing }
    } else {
        match ancestors[i] {
            Ancestor::Complete(a) => match namespace_member(g, a, str_id) {
                Some(m) => if visibility == Visibility::ModuleFunction {
                    match visibility_at(g, m, vis) {
                        Some(target_visibility) => match copy_source(g, m, vis, owner) {
                            Some(src) => ResolutionOutcome::ApplyCopy(src.0, src.1, src.2, target_visibility),
                            None => resolution_from(g, owner, str_id, visibility, vis, ancestors, i + 1, has_partial),
                        },
                        None => resolution_from(g, owner, str_id, visibility, vis, ancestors, i + 1, has_partial),
                    }
                } else if exists_at(g, m, vis) {
                    ResolutionOutcome::ApplyExisting
                } else {
                    resolution_from(g, owner, str_id, visibility, vis, ancestors, i + 1, has_partial)
                },
                None => resolution_from(g, owner, str_id, visibility, vis, ancestors, i + 1, has_partial),
            },
            Ancestor::Partial(_) => resolution_from(g, owner, str_id, visibility, vis, ancestors, i + 1, true),
        }
    }
}

/// The outcome of visibility operation `vis` on `owner`: skipped when the owner is not a
/// namespace, else decided by its ancestors (see `resolution_from`).
pub open spec fn resolution(g: &Graph, owner: DeclarationId, str_id: StringId, visibility: Visibility, vis: DefinitionId) -> ResolutionOutcome {
    if g.decls().contains_key(owner.value) && g.decls()[owner.value].is_namespace() {
        resolution_from(g, owner, str_id, visibility, vis, g.decls()[owner.value].ancestors@, 0, false)
    } else {
        ResolutionOutcome::Skip
    }
}

/// Whether ancestor `a` is complete and has a member named `str_id` that exists before
/// visibility operation `vis`.
pub open spec fn ancestor_has_target(g: &Graph, a: Ancestor, str_id: StringId, vis: DefinitionId) -> bool {
    match a {
        Ancestor::Complete(id) => match namespace_member(g, id, str_id) {
            Some(m) => exists_at(g, m, vis),
            None => false,
        },
        Ancestor::Partial(_) => false,
    }
}

/// Whether some ancestor of `ancestors[i..]` has the target of the operation.
pub open spec fn target_found_from(g: &Graph, ancestors: Seq<Ancestor>, i: int, str_id: StringId, vis: DefinitionId) -> bool {
    exists|j: int| i <= j < ancestors.len() && #[trigger] ancestor_has_target(g, ancestors[j], str_id, vis)
}

/// Whether some ancestor of `ancestors[i..]` is not resolved yet.
pub open spec fn partial_from(ancestors: Seq<Ancestor>, i: int) -> bool {
    exists|j: int| i <= j < ancestors.len() && (#[trigger] ancestors[j]) is Partial
}

proof fn lemma_resolution_from_plain(
    g: &Graph,
    owner: DeclarationId,
    str_id: StringId,
    visibility: Visibility,
    vis: DefinitionId,
    ancestors: Seq<Ancestor>,
    i: int,
    has_partial: bool,
)
    requires
        visibility != Visibility::ModuleFunction,
        0 <= i <= ancestors.len(),
    ensures
        resolution_from(g, owner, str_id, visibility, vis, ancestors, i, has_partial) == if target_found_from(g, ancestors, i, str_id, vis) {
            ResolutionOutcome::ApplyExisting
        } else if has_partial || partial_from(ancestors, i) {
            ResolutionOutcome::RetryPartial
        } else {
            ResolutionOutcome::Missing
        },
    decreases ancestors.len() - i,
{
    if i < ancestors.len() {
        let hp = has_partial || ancestors[i] is Partial;
        lemma_resolution_from_plain(g, owner, str_id, visibility, vis, ancestors, i + 1, hp);
        if target_found_from(g, ancestors, i, str_id, vis) && !ancestor_has_target(g, ancestors[i], str_id, vis) {
            let j = choose|j: int| i <= j < ancestors.len() && #[trigger] ancestor_has_target(g, ancestors[j], str_id, vis);
            assert(i + 1 <= j);
        }
        if target_found_from(g, ancestors, i + 1, str_id, vis) {
            let j = choose|j: int| i + 1 <= j < ancestors.len() && #[trigger] ancestor_has_target(g, ancestors[j], str_id, vis);
            assert(i <= j);
        }
        if ancestor_has_target(g, ancestors[i], str_id, vis) {
            assert(target_found_from(g, ancestors, i, str_id, vis));
        }
        if partial_from(ancestors, i) && !(ancestors[i] is Partial) {
            let j = choose|j: int| i <= j < ancestors.len() && (#[trigger] ancestors[j]) is Partial;
            assert(i + 1 <= j);
        }
        if partial_from(ancestors, i + 1) {
            let j = choose|j: int| i + 1 <= j < ancestors.len() && (#[trigger] ancestors[j]) is Partial;
            assert(i <= j);
        }
        if ancestors[i] is Partial {
            assert(partial_from(ancestors, i));
        }
    }
}

proof fn lemma_resolution_from_fallback(
    g: &Graph,
    owner: DeclarationId,
    str_id: StringId,
    visibility: Visibility,
    vis: DefinitionId,
    ancestors: Seq<Ancestor>,
    i: int,
    has_partial: bool,
)
    requires
        0 <= i <= ancestors.len(),
    ensures
        ({
            let out = resolution_from(g, owner, str_id, visibility, vis, ancestors, i, has_partial);
            !(out is ApplyExisting) && !(out is ApplyCopy) ==> out == if has_partial || partial_from(ancestors, i) {
                ResolutionOutcome::RetryPartial
            } else {
                ResolutionOutcome::Missing
            }
        }),
    decreases ancestors.len() - i,
{
    if i < ancestors.len() {
        let hp = has_partial || ancestors[i] is Partial;
        lemma_resolution_from_fallback(g, owner, str_id, visibility, vis, ancestors, i + 1, hp);
        if partial_from(ancestors, i) && !(ancestors[i] is Partial) {
            let j = choose|j: int| i <= j < ancestors.len() && (#[trigger] ancestors[j]) is Partial;
            assert(i + 1 <= j);
        }
        if partial_from(ancestors, i + 1) {
            let j = choose|j: int| i + 1 <= j < ancestors.len() && (#[trigger] ancestors[j]) is Partial;
            assert(i <= j);
        }
        if ancestors[i] is Partial {
            assert(partial_from(ancestors, i));
        }
    }
}

/// Whatever the kind of visibility operation (`module_function` included), when no complete
/// ancestor of its owner settles it, it waits while some ancestor is not resolved yet, and its
/// target is missing only once every ancestor is resolved.
pub proof fn lemma_unsettled_operation_waits_for_partial_ancestors(
    g: &Graph,
    owner: DeclarationId,
    str_id: StringId,
    visibility: Visibility,
    vis: DefinitionId,
)
    requires
        g.decls().contains_key(owner.value),
        g.decls()[owner.value].is_namespace(),
    ensures
        ({
            let ancestors = g.decls()[owner.value].ancestors@;
            let out = resolution(g, owner, str_id, visibility, vis);
            &&& out is RetryPartial ==> exists|j: int| 0 <= j < ancestors.len() && (#[trigger] ancestors[j]) is Partial
            &&& out is Missing ==> forall|j: int| 0 <= j < ancestors.len() ==> (#[trigger] ancestors[j]) is Complete
            &&& !(out is ApplyExisting) && !(out is ApplyCopy) && (exists|j: int| 0 <= j < ancestors.len() && (#[trigger] ancestors[j]) is Partial)
                ==> out is RetryPartial
        }),
{
    let ancestors = g.decls()[owner.value].ancestors@;
    lemma_resolution_from_fallback(g, owner, str_id, visibility, vis, ancestors, 0, false);
    let out = resolution(g, owner, str_id, visibility, vis);
    if out is Missing {
        assert forall|j: int| 0 <= j < ancestors.len() implies (#[trigger] ancestors[j]) is Complete by {
            if ancestors[j] is Partial {
                assert(partial_from(ancestors, 0));
            }
        }
    }
}

/// A definition of the member that makes a method exist (a method, an attribute reader, writer
/// or accessor, or an alias) and that comes before a visibility operation, in another document
/// or earlier in the same one, makes the member exist there.
pub proof fn lemma_prior_method_definition_exists(g: &Graph, m: DeclarationId, vis: DefinitionId, d: DefinitionId)
    requires
        g.defs().contains_key(vis.value),
        g.decls().contains_key(m.value),
        g.decls()[m.value].definitions@.contains(d),
        before_position(g, d, g.defs()[vis.value].uri_id, g.defs()[vis.value].offset),
        match g.defs()[d.value].kind {
            DefinitionKind::Method { .. } => true,
            DefinitionKind::AttrAccessor { .. } => true,
            DefinitionKind::AttrReader { .. } => true,
            DefinitionKind::AttrWriter { .. } => true,
            DefinitionKind::MethodAlias { .. } => true,
            _ => false,
        },
    ensures
        exists_at(g, m, vis),
{
    let uri_id = g.defs()[vis.value].uri_id;
    let offset = g.defs()[vis.value].offset;
    lemma_candidates_exact(g, m, uri_id, offset);
    let ds = definitions_before(g, m, uri_id, offset).unwrap();
    assert(ds.contains(d));
    let i = choose|i: int| 0 <= i < ds.len() && ds[i] == d;
    assert(g.defs().contains_key(ds[i].value) && g.defs()[ds[i].value].establishes_member());
}

/// Only such definitions make a member exist: when every definition of the member before the
/// operation is of another kind (a constant, a namespace, a visibility operation), the member
/// does not exist there.
pub proof fn lemma_other_definitions_do_not_make_methods(g: &Graph, m: DeclarationId, vis: DefinitionId)
    requires
        g.defs().contains_key(vis.value),
        g.decls().contains_key(m.value),
        forall|d: DefinitionId| #[trigger] g.decls()[m.value].definitions@.contains(d)
            && before_position(g, d, g.defs()[vis.value].uri_id, g.defs()[vis.value].offset)
            ==> match g.defs()[d.value].kind {
                DefinitionKind::Method { .. } => false,
                DefinitionKind::AttrAccessor { .. } => false,
                DefinitionKind::AttrReader { .. } => false,
                DefinitionKind::AttrWriter { .. } => false,
                DefinitionKind::MethodAlias { .. } => false,
                _ => true,
            },
    ensures
        !exists_at(g, m, vis),
{
    let uri_id = g.defs()[vis.value].uri_id;
    let offset = g.defs()[vis.value].offset;
    lemma_candidates_exact(g, m, uri_id, offset);
    let ds = definitions_before(g, m, uri_id, offset).unwrap();
    assert forall|i: int| 0 <= i < ds.len() implies !(g.defs().contains_key((#[trigger] ds[i]).value)
        && g.defs()[ds[i].value].establishes_member()) by {
        assert(ds.contains(ds[i]));
    }
}

/// A visibility operation other than `module_function` applies when a complete ancestor of its
/// owner has the member, with a method, attribute method or alias definition of it before the
/// operation.
pub proof fn lemma_prior_method_definition_applies(
    g: &Graph,
    owner: DeclarationId,
    str_id: StringId,
    visibility: Visibility,
    vis: DefinitionId,
    j: int,
    m: DeclarationId,
    d: DefinitionId,
)
    requires
        visibility != Visibility::ModuleFunction,
        g.decls().contains_key(owner.value),
        g.decls()[owner.value].is_namespace(),
        0 <= j < g.decls()[owner.value].ancestors@.len(),
        g.decls()[owner.value].ancestors@[j] matches Ancestor::Complete(a) && namespace_member(g, a, str_id) == Some(m),
        g.defs().contains_key(vis.value),
        g.decls().contains_key(m.value),
        g.decls()[m.value].definitions@.contains(d),
        before_position(g, d, g.defs()[vis.value].uri_id, g.defs()[vis.value].offset),
        match g.defs()[d.value].kind {
            DefinitionKind::Method { .. } => true,
            DefinitionKind::AttrAccessor { .. } => true,
            DefinitionKind::AttrReader { .. } => true,
            DefinitionKind::AttrWriter { .. } => true,
            DefinitionKind::MethodAlias { .. } => true,
            _ => false,
        },
    ensures
        resolution(g, owner, str_id, visibility, vis) == ResolutionOutcome::ApplyExisting,
{
    let ancestors = g.decls()[owner.value].ancestors@;
    lemma_prior_method_definition_exists(g, m, vis, d);
    assert(ancestor_has_target(g, ancestors[j], str_id, vis));
    assert(target_found_from(g, ancestors, 0, str_id, vis));
    lemma_visibility_target_must_exist(g, owner, str_id, visibility, vis);
}

/// A visibility operation other than `module_function` needs its method to exist where it
/// stands: it applies when a complete ancestor of its owner has a method of that name defined
/// before it (inherited methods included); otherwise it waits while an ancestor of the owner
/// is not resolved, and reports its target missing once all are.
pub proof fn lemma_visibility_target_must_exist(
    g: &Graph,
    owner: DeclarationId,
    str_id: StringId,
    visibility: Visibility,
    vis: DefinitionId,
)
    requires
        visibility != Visibility::ModuleFunction,
        g.decls().contains_key(owner.value),
        g.decls()[owner.value].is_namespace(),
    ensures
        ({
            let ancestors = g.decls()[owner.value].ancestors@;
            resolution(g, owner, str_id, visibility, vis) == if target_found_from(g, ancestors, 0, str_id, vis) {
                ResolutionOutcome::ApplyExisting
            } else if partial_from(ancestors, 0) {
                ResolutionOutcome::RetryPartial
            } else {
                ResolutionOutcome::Missing
            }
        }),
{
    lemma_resolution_from_plain(g, owner, str_id, visibility, vis, g.decls()[owner.value].ancestors@, 0, false);
}

impl Resolver {
    /// Decides what visibility operation `visibility_id` (of kind `visibility`, naming
    /// `str_id`) does on `owner_id` (see `resolution`).
    pub fn method_visibility_resolution(
        &self,
        owner_id: DeclarationId,
        str_id: StringId,
        visibility: Visibility,
        visibility_id: DefinitionId,
    ) -> (r: MethodVisibilityResolution)
        ensures
            r.outcome() == resolution(&self.graph_view(), owner_id, str_id, visibility, visibility_id),
    {
        let ghost g = self.graph_view();
        let namespace = match self.graph().declaration(owner_id) {
            Some(d) => d,
            None => return MethodVisibilityResolution::Skip,
        };
        if !namespace.is_namespace_exec() {
            return MethodVisibilityResolution::Skip;
        }
        let mut has_partial = false;
        let mut i: usize = 0;
        while i < namespace.ancestors.len()
            invariant
                i <= namespace.ancestors@.len(),
                g == self.graph_view(),
                g.decls().contains_key(owner_id.value),
                *namespace == g.decls()[owner_id.value],
                namespace.is_namespace(),
                resolution(&g, owner_id, str_id, visibility, visibility_id)
                    == resolution_from(&g, owner_id, str_id, visibility, visibility_id, namespace.ancestors@, i as int, has_partial),
            decreases namespace.ancestors@.len() - i,
        {
            match namespace.ancestors[i] {
                Ancestor::Complete(ancestor_id) => {
                    let mut member: Option<DeclarationId> = None;
                    if let Some(ancestor) = self.graph().declaration(ancestor_id) {
                        if ancestor.is_namespace_exec() {
                            member = member_lookup(&ancestor.members, str_id);
                        }
                    }
                    assert(member == namespace_member(&g, ancestor_id, str_id));
                    if let Some(member_id) = member {
                        if visibility == Visibility::ModuleFunction {
                            if let Some(target_visibility) = self.method_visibility_before_visibility_definition(member_id, visibility_id) {
                                if let Some(source) = self.module_function_copy_source(member_id, visibility_id, owner_id, target_visibility) {
                                    return MethodVisibilityResolution::ApplyModuleFunctionCopy(source);
                                }
                            }
                        } else if self.method_has_definition_before_visibility(member_id, visibility_id) {
                            return MethodVisibilityResolution::ApplyExisting;
                        }
                    }
                },
                Ancestor::Partial(_) => {
                    has_partial = true;
                },
            }
            i = i + 1;
        }
        if has_partial {
            MethodVisibilityResolution::RetryPartial
        } else {
            MethodVisibilityResolution::Missing
        }
    }
}

/// `new` keeps every declaration, interned string and definition of `old`.
pub open spec fn keeps_keys(new: &Graph, old: &Graph) -> bool {
    &&& forall|k: u64| #[trigger] old.decls().contains_key(k) ==> new.decls().contains_key(k)
    &&& forall|k: u64| #[trigger] old.strs().contains_key(k) ==> new.strs().contains_key(k)
    &&& forall|k: u64| #[trigger] old.defs().contains_key(k) ==> new.defs().contains_key(k) && new.defs()[k] == old.defs()[k]
}

/// The name of member `str_id` of `owner`: the owner's name, `#`, the member's name.
pub open spec fn member_name(g: &Graph, owner: DeclarationId, str_id: StringId) -> Seq<char> {
    g.decls()[owner.value].name@ + "#"@ + g.strs()[str_id.value]@
}

/// The name of the singleton class of `owner`: `Name::<Name>`.
pub open spec fn singleton_name(g: &Graph, owner: DeclarationId) -> Seq<char> {
    g.decls()[owner.value].name@ + "::<"@ + g.decls()[owner.value].name@ + ">"@
}

/// The effect of attaching visibility operation `v` to the method member `str_id` of
/// `owner_id` from `old`: the method declaration named `member_name` holds `v` at its place
/// (created, owned by `owner_id`, when the method is inherited), `v` counts as applied to that
/// member, and the declaration is the owner's member of that name.
pub open spec fn visibility_declaration_created(new: &Graph, old: &Graph, str_id: StringId, v: DefinitionId, owner_id: DeclarationId) -> bool {
    let fqn = member_name(old, owner_id, str_id);
    let id = crate::ids::hash_str(fqn);
    exists|mid: Graph| {
        &&& #[trigger] mid.visibility_declaration_added(old, id, v, owner_id, str_id, fqn)
        &&& new.member_recorded(&mid, owner_id, DeclarationId { value: id }, str_id)
    }
}

impl Resolver {
    /// The fully qualified name of member `str_id` of `owner_id`.
    pub fn member_fully_qualified_name(&self, owner_id: DeclarationId, str_id: StringId) -> (r: String)
        requires
            self.graph_view().decls().contains_key(owner_id.value),
            self.graph_view().strs().contains_key(str_id.value),
        ensures
            r@ == member_name(&self.graph_view(), owner_id, str_id),
    {
        let mut name = String::new();
        if let Some(owner) = self.graph().declaration(owner_id) {
            push_str(&mut name, owner.name.as_str());
        }
        push_str(&mut name, "#");
        if let Some(member) = self.graph().string(str_id) {
            push_str(&mut name, member.as_str());
        }
        assert(name@ =~= member_name(&self.graph_view(), owner_id, str_id));
        name
    }

    /// The singleton class of namespace `owner_id`, declared (owned by `owner_id`) when
    /// missing; `None` when `owner_id` is not a namespace.
    pub fn get_or_create_singleton_class(&mut self, owner_id: DeclarationId) -> (r: Option<DeclarationId>)
        requires
            old(self).graph_view().wf(),
        ensures
            final(self).graph_view().wf(),
            final(self).graph_view().frame(&old(self).graph_view(), false, false, true, false, false, false, false, false, false),
            keeps_keys(&final(self).graph_view(), &old(self).graph_view()),
            forall|k: u64| #[trigger] old(self).graph_view().decls().contains_key(k)
                ==> final(self).graph_view().decls().contains_key(k) && final(self).graph_view().decls()[k] == old(self).graph_view().decls()[k],
            match r {
                Some(id) => {
                    &&& old(self).graph_view().decls().contains_key(owner_id.value)
                    &&& old(self).graph_view().decls()[owner_id.value].is_namespace()
                    &&& id.value == crate::ids::hash_str(singleton_name(&old(self).graph_view(), owner_id))
                    &&& final(self).graph_view().decls().contains_key(id.value)
                    &&& final(self).graph_view().declaration_added(
                        &old(self).graph_view(),
                        singleton_name(&old(self).graph_view(), owner_id),
                        DeclarationKind::SingletonClass,
                        owner_id,
                        id.value,
                    )
                },
                None => {
                    &&& !(old(self).graph_view().decls().contains_key(owner_id.value)
                        && old(self).graph_view().decls()[owner_id.value].is_namespace())
                    &&& final(self).graph_view() == old(self).graph_view()
                },
            },
    {
        let name = match self.graph.declaration(owner_id) {
            Some(owner) => {
                if !owner.is_namespace_exec() {
                    return None;
                }
                let mut name = String::new();
                push_str(&mut name, owner.name.as_str());
                push_str(&mut name, "::<");
                push_str(&mut name, owner.name.as_str());
                push_str(&mut name, ">");
                name
            },
            None => return None,
        };
        assert(name@ =~= singleton_name(&self.graph_view(), owner_id));
        let id = self.graph.add_declaration(name, DeclarationKind::SingletonClass, owner_id);
        Some(id)
    }

    /// The namespace that lexically holds a definition: the declaration of its enclosing
    /// definition, or `Object` at the top level.
    pub fn resolve_lexical_owner(&self, lexical_nesting_id: Option<DefinitionId>) -> (r: Option<DeclarationId>)
        ensures
            r == lexical_owner(&self.graph_view(), lexical_nesting_id),
    {
        match lexical_nesting_id {
            Some(nesting_id) => self.graph().definition_id_to_declaration_id(nesting_id),
            None => {
                let object = DeclarationId::from_str("Object");
                match self.graph().declaration(object) {
                    Some(_) => Some(object),
                    None => None,
                }
            },
        }
    }

    /// Attaches visibility operation `visibility_id` to the method member `str_id` of
    /// `owner_id`: its declaration (created when inherited), and its membership.
    pub fn create_method_visibility_declaration_for_owner(&mut self, str_id: StringId, visibility_id: DefinitionId, owner_id: DeclarationId)
        requires
            old(self).graph_view().wf(),
            old(self).graph_view().decls().contains_key(owner_id.value),
            old(self).graph_view().strs().contains_key(str_id.value),
        ensures
            final(self).graph_view().wf(),
            final(self).graph_view().frame(&old(self).graph_view(), false, false, true, true, false, false, false, true, false),
            keeps_keys(&final(self).graph_view(), &old(self).graph_view()),
            final(self).graph_view().decls().contains_key(crate::ids::hash_str(member_name(&old(self).graph_view(), owner_id, str_id))),
            visibility_declaration_created(&final(self).graph_view(), &old(self).graph_view(), str_id, visibility_id, owner_id),
            forall|k: u128, v: u64| #[trigger] final(self).graph_view().applied().index().relates(k, v)
                <==> (old(self).graph_view().applied().index().relates(k, v)
                    || (k == crate::graph_indexes::pair_key(owner_id.value, str_id.value) && v == visibility_id.value)),
    {
        let fully_qualified_name = self.member_fully_qualified_name(owner_id, str_id);
        let declaration_id = self.graph.add_method_visibility_declaration(visibility_id, owner_id, str_id, fully_qualified_name);
        let ghost added = self.graph;
        self.graph.add_member(&owner_id, declaration_id, str_id);
        assert(visibility_declaration_created(&self.graph_view(), &old(self).graph_view(), str_id, visibility_id, owner_id)) by {
            assert(added.visibility_declaration_added(&old(self).graph_view(), declaration_id.value, visibility_id, owner_id, str_id,
                member_name(&old(self).graph_view(), owner_id, str_id)));
        }
    }
}

/// The program order key of definition `d`: its document's URI, its position and its
/// identifier.
pub open spec fn program_key(g: &Graph, d: DefinitionId) -> OrderKeyView {
    let def = g.defs()[d.value];
    (false, g.docs()[def.uri_id.value].uri@, def.offset.start_spec(), def.offset.end_spec(), d.value)
}

/// Whether definition `d` has a place in program order: it and its document exist.
pub open spec fn has_program_key(g: &Graph, d: DefinitionId) -> bool {
    g.defs().contains_key(d.value) && g.docs().contains_key(g.defs()[d.value].uri_id.value)
}

/// Whether `d` can be handed to resolution: when it exists, it is a visibility operation.
pub open spec fn resolvable_visibility(g: &Graph, d: DefinitionId) -> bool {
    g.defs().contains_key(d.value) ==> g.defs()[d.value].kind is MethodVisibility
}

/// The message of a visibility operation whose target does not exist.
pub open spec fn undefined_target_message(owner_name: Seq<char>, method_name: Seq<char>) -> Seq<char> {
    "undefined method `"@ + owner_name + "#"@ + method_name + "` for visibility change"@
}

/// The namespace that lexically holds a definition whose enclosing definition is `nesting`:
/// the declaration of that definition, or `Object` at the top level.
pub open spec fn lexical_owner(g: &Graph, nesting: Option<DefinitionId>) -> Option<DeclarationId> {
    match nesting {
        Some(n) => if g.def_decl().contains_key(n.value) {
            Some(g.def_decl()[n.value])
        } else {
            None
        },
        None => if g.decls().contains_key(crate::ids::hash_str("Object"@)) {
            Some(DeclarationId { value: crate::ids::hash_str("Object"@) })
        } else {
            None
        },
    }
}

/// The effect of reporting the target of visibility operation `v` (at `uri_id`, `offset`) on
/// `owner` missing, from `old`: the operation is detached (see `visibility_declaration_detached`),
/// tracked as unresolved for member `str_id` of `owner`, and an undefined-target diagnostic
/// naming `Owner#name` is reported for it.
pub open spec fn target_missing(new: &Graph, old: &Graph, v: DefinitionId, owner: DeclarationId, str_id: StringId, uri_id: crate::ids::UriId, offset: crate::offset::Offset) -> bool {
    exists|g1: Graph, g2: Graph| {
        &&& #[trigger] g1.visibility_declaration_detached(old, v) && #[trigger] g2.unresolved_visibility_tracked(&g1, owner, str_id, v)
        &&& exists|d: Diagnostic| {
            &&& d.rule == Rule::UndefinedMethodVisibilityTarget
            &&& d.uri_id == uri_id
            &&& d.offset == offset
            &&& d.message@ == undefined_target_message(g2.decls()[owner.value].name@, g2.strs()[str_id.value]@)
            &&& #[trigger] new.target_diagnostic_reported(&g2, owner, v, d)
        }
    }
}

/// The effect of visibility operation `v` (of kind `visibility`, naming `str_id`, at `uri_id`,
/// `offset`) on `owner`, from `old`, by its outcome (see `resolution`): applied to an existing
/// method, it is marked resolved and attached to the method's declaration; with a copy source,
/// `module_function` is applied (see `module_function_applied`) and the operation marked
/// resolved, or reported missing when a copy fails; waiting on an unresolved ancestor, it is
/// detached and to be tried again (`retried`); with no target, it is reported missing; skipped,
/// nothing changes. An outcome that names the member (applied, copied or missing) needs its name
/// interned: without it the operation is left as it is.
pub open spec fn operation_applied(
    new: &Graph,
    old: &Graph,
    v: DefinitionId,
    owner: DeclarationId,
    str_id: StringId,
    visibility: Visibility,
    uri_id: crate::ids::UriId,
    offset: crate::offset::Offset,
    retried: bool,
) -> bool {
    let out = resolution(old, owner, str_id, visibility, v);
    if !(out is RetryPartial || out is Skip) && !old.strs().contains_key(str_id.value) {
        !retried && *new == *old
    } else {
    match out {
        ResolutionOutcome::ApplyExisting => !retried && exists|g1: Graph| {
            &&& #[trigger] g1.visibility_marked_resolved(old, v)
            &&& visibility_declaration_created(new, &g1, str_id, v, owner)
        },
        ResolutionOutcome::ApplyCopy(src, aliases, kind, target_visibility) => !retried && exists|g1: Graph, ok: bool| {
            &&& #[trigger] module_function::module_function_applied(&g1, old, str_id, v, owner, src, aliases, kind, target_visibility, ok)
            &&& if ok {
                new.visibility_marked_resolved(&g1, v)
            } else {
                target_missing(new, &g1, v, owner, str_id, uri_id, offset)
            }
        },
        ResolutionOutcome::RetryPartial => retried && new.visibility_declaration_detached(old, v),
        ResolutionOutcome::Missing => !retried && target_missing(new, old, v, owner, str_id, uri_id, offset),
        ResolutionOutcome::Skip => !retried && *new == *old,
    }
    }
}

/// The effect of resolving visibility operation `v` from `old`: an operation that does not exist
/// or has no lexical owner (see `lexical_owner`) changes nothing; the owner of a class-method
/// form is the singleton class of the lexical owner, declared when missing (nothing changes when
/// the lexical owner is not a namespace); then see `operation_applied`.
pub open spec fn operation_resolved(new: &Graph, old: &Graph, v: DefinitionId, retried: bool) -> bool {
    if old.defs().contains_key(v.value) {
        let def = old.defs()[v.value];
        match def.kind {
            DefinitionKind::MethodVisibility { str_id, visibility } => match lexical_owner(old, def.lexical_nesting_id) {
                Some(lex) => if def.flags.singleton_method_visibility {
                    if old.decls().contains_key(lex.value) && old.decls()[lex.value].is_namespace() {
                        let sname = singleton_name(old, lex);
                        let sid = DeclarationId { value: crate::ids::hash_str(sname) };
                        exists|g1: Graph| {
                            &&& #[trigger] g1.declaration_added(old, sname, DeclarationKind::SingletonClass, lex, sid.value)
                            &&& operation_applied(new, &g1, v, sid, str_id, visibility, def.uri_id, def.offset, retried)
                        }
                    } else {
                        !retried && *new == *old
                    }
                } else {
                    operation_applied(new, old, v, lex, str_id, visibility, def.uri_id, def.offset, retried)
                },
                None => !retried && *new == *old,
            },
            _ => !retried && *new == *old,
        }
    } else {
        !retried && *new == *old
    }
}

/// Whether `ordered` holds the visibility operations `ids` that have a place in program order
/// in `g`, each once, in program order.
pub open spec fn program_ordered(g: &Graph, ids: Seq<DefinitionId>, ordered: Seq<DefinitionId>) -> bool {
    &&& ordered.no_duplicates()
    &&& forall|d: DefinitionId| #[trigger] ordered.contains(d) <==> (ids.contains(d) && has_program_key(g, d))
    &&& forall|a: int, b: int| 0 <= a < b < ordered.len() ==> key_lt(program_key(g, #[trigger] ordered[a]), program_key(g, #[trigger] ordered[b]))
}

/// The operations of `ordered` whose resolution is to be tried again, as work, in order.
pub open spec fn retried_units(ordered: Seq<DefinitionId>, retried: Seq<bool>) -> Seq<Unit>
    decreases ordered.len(),
{
    if ordered.len() == 0 || retried.len() == 0 {
        Seq::empty()
    } else {
        let rest = retried_units(ordered.drop_last(), retried.drop_last());
        if retried.last() {
            rest.push(Unit::Definition(ordered.last()))
        } else {
            rest
        }
    }
}

/// A run of `resolve_method_visibilities` on `ids` from `old`: the operations in program order
/// (`ordered`), the graph before each of them and after the last (`gs`), and whether each is to
/// be tried again (`retried`); each step is `operation_resolved`.
pub open spec fn resolution_run(old: &Graph, ids: Seq<DefinitionId>, ordered: Seq<DefinitionId>, gs: Seq<Graph>, retried: Seq<bool>) -> bool {
    &&& program_ordered(old, ids, ordered)
    &&& gs.len() == ordered.len() + 1
    &&& retried.len() == ordered.len()
    &&& gs[0] == *old
    &&& forall|k: int| 0 <= k < ordered.len() ==> operation_resolved(&gs[k + 1], &gs[k], ordered[k], #[trigger] retried[k])
}

impl Resolver {
    /// The visibility operations `visibility_ids` that have a place in program order, each once,
    /// in program order.
    pub fn ordered_visibility_ids(&self, visibility_ids: &Vec<DefinitionId>) -> (r: Vec<DefinitionId>)
        ensures
            r@.no_duplicates(),
            forall|d: DefinitionId| #[trigger] r@.contains(d) <==> (visibility_ids@.contains(d) && has_program_key(&self.graph_view(), d)),
            forall|a: int, b: int| 0 <= a < b < r@.len()
                ==> key_lt(program_key(&self.graph_view(), #[trigger] r@[a]), program_key(&self.graph_view(), #[trigger] r@[b])),
    {
        let ghost g = self.graph_view();
        let ghost key = |d: DefinitionId| program_key(&g, d);
        let mut seen: HashSet<u64> = HashSet::new();
        let mut ids: Vec<DefinitionId> = Vec::new();
        let mut keys: Vec<OrderKey> = Vec::new();
        let mut i: usize = 0;
        while i < visibility_ids.len()
            invariant
                i <= visibility_ids@.len(),
                g == self.graph_view(),
                key == (|d: DefinitionId| program_key(&g, d)),
                ids@.len() == keys@.len(),
                forall|k: int| 0 <= k < ids@.len() ==> (#[trigger] keys@[k]).view() == key(ids@[k]),
                forall|a: int, b: int| 0 <= a < b < ids@.len() ==> key_le(key(#[trigger] ids@[a]), key(#[trigger] ids@[b])),
                forall|v: u64| #[trigger] seen@.contains(v) <==> visibility_ids@.take(i as int).contains(DefinitionId { value: v }),
                forall|d: DefinitionId| #[trigger] ids@.contains(d) <==> (visibility_ids@.take(i as int).contains(d) && has_program_key(&g, d)),
                ids@.no_duplicates(),
            decreases visibility_ids@.len() - i,
        {
            let id = visibility_ids[i];
            let ghost before = ids@;
            proof {
                assert forall|d: DefinitionId| #[trigger] visibility_ids@.take(i + 1).contains(d)
                    <==> (visibility_ids@.take(i as int).contains(d) || d == id) by {
                    crate::seqs::lemma_take_succ_contains(visibility_ids@, i as int, d);
                }
            }
            if seen.insert(id.value) {
                assert(!before.contains(id));
                if let Some(definition) = self.graph().definition(id) {
                    if let Some(document) = self.graph().document(definition.uri_id) {
                        let k = OrderKey {
                            same_uri: false,
                            uri: chars_of(document.uri.as_str()),
                            start: definition.offset.start(),
                            end: definition.offset.end(),
                            id: id.value,
                        };
                        assert(k.view() == key(id));
                        insert_sorted(&mut ids, &mut keys, id, k, Ghost(key));
                        proof {
                            let p = choose|p: int| 0 <= p <= before.len() && ids@ == before.insert(p, id);
                            crate::seqs::lemma_insert_contains(before, p, id);
                        }
                    }
                }
            } else {
                assert(visibility_ids@.take(i as int).contains(id));
            }
            proof {
                assert forall|v: u64| #[trigger] seen@.contains(v) <==> visibility_ids@.take(i + 1).contains(DefinitionId { value: v }) by {
                    assert(visibility_ids@.take(i + 1).contains(DefinitionId { value: v })
                        <==> (visibility_ids@.take(i as int).contains(DefinitionId { value: v }) || DefinitionId { value: v } == id));
                }
            }
            i = i + 1;
        }
        proof {
            assert(visibility_ids@.take(i as int) =~= visibility_ids@);
            assert forall|a: int, b: int| 0 <= a < b < ids@.len()
                implies key_lt(program_key(&g, #[trigger] ids@[a]), program_key(&g, #[trigger] ids@[b])) by {
                assert(key_le(key(ids@[a]), key(ids@[b])));
                if program_key(&g, ids@[a]) == program_key(&g, ids@[b]) {
                    assert(ids@[a].value == ids@[b].value);
                    assert(ids@[a] == ids@[b]);
                }
            }
        }
        ids
    }
}

impl Resolver {
    /// Resolves visibility operation `id` (see `operation_resolved`); returns whether it is to
    /// be tried again.
    #[verifier::rlimit(60)]
    fn resolve_method_visibility(&mut self, id: DefinitionId) -> (retried: bool)
        requires
            old(self).graph_view().wf(),
            resolvable_visibility(&old(self).graph_view(), id),
        ensures
            final(self).graph_view().wf(),
            keeps_keys(&final(self).graph_view(), &old(self).graph_view()),
            final(self).graph_view().work() == old(self).graph_view().work(),
            operation_resolved(&final(self).graph_view(), &old(self).graph_view(), id, retried),
    {
        let ghost g0 = self.graph_view();
        let (str_id, uri_id, offset, lexical_nesting_id, is_singleton, visibility) = match self.graph().definition(id) {
            Some(definition) => match &definition.kind {
                DefinitionKind::MethodVisibility { str_id, visibility } => (
                    *str_id,
                    definition.uri_id,
                    definition.offset,
                    definition.lexical_nesting_id,
                    definition.flags.singleton_method_visibility,
                    *visibility,
                ),
                _ => return false,
            },
            None => return false,
        };
        let lexical_owner_id = match self.resolve_lexical_owner(lexical_nesting_id) {
            Some(owner) => owner,
            None => return false,
        };
        let owner_id = if is_singleton {
            match self.get_or_create_singleton_class(lexical_owner_id) {
                Some(singleton_id) => singleton_id,
                None => return false,
            }
        } else {
            lexical_owner_id
        };
        let ghost g1 = self.graph_view();
        let outcome = self.method_visibility_resolution(owner_id, str_id, visibility, id);
        let named = self.graph().string(str_id).is_some();
        if !named {
            match outcome {
                MethodVisibilityResolution::ApplyExisting | MethodVisibilityResolution::ApplyModuleFunctionCopy(_)
                | MethodVisibilityResolution::Missing => return false,
                _ => {},
            }
        }
        match outcome {
            MethodVisibilityResolution::ApplyExisting => {
                self.graph.mark_method_visibility_resolved(id);
                let ghost g2 = self.graph_view();
                self.create_method_visibility_declaration_for_owner(str_id, id, owner_id);
                let ghost g3 = self.graph_view();
                assert(resolution(&g1, owner_id, str_id, visibility, id) == ResolutionOutcome::ApplyExisting);
                assert(g2.visibility_marked_resolved(&g1, id) && visibility_declaration_created(&g3, &g2, str_id, id, owner_id));
                assert(operation_applied(&g3, &g1, id, owner_id, str_id, visibility, uri_id, offset, false));
                return false;
            },
            MethodVisibilityResolution::ApplyModuleFunctionCopy(source) => {
                let ghost src = source.definition_id;
                let ghost aliases = source.alias_definition_ids@;
                let ghost kind = source.source_kind;
                let ghost tv = source.target_visibility;
                if self.apply_module_function(str_id, id, owner_id, source) {
                    let ghost g2 = self.graph_view();
                    self.graph.mark_method_visibility_resolved(id);
                    let ghost g3 = self.graph_view();
                    assert(resolution(&g1, owner_id, str_id, visibility, id) == ResolutionOutcome::ApplyCopy(src, aliases, kind, tv));
                    assert({
                        let out = resolution(&g1, owner_id, str_id, visibility, id);
                        out->0 == src && out->1 == aliases && out->2 == kind && out->3 == tv
                    });
                    assert(module_function::module_function_applied(&g2, &g1, str_id, id, owner_id, src, aliases, kind, tv, true)
                        && g3.visibility_marked_resolved(&g2, id));
                    assert(operation_applied(&g3, &g1, id, owner_id, str_id, visibility, uri_id, offset, false));
                    return false;
                }
                let ghost g2 = self.graph_view();
                self.report_missing_target(id, owner_id, str_id, uri_id, offset);
                let ghost g3 = self.graph_view();
                assert(resolution(&g1, owner_id, str_id, visibility, id) == ResolutionOutcome::ApplyCopy(src, aliases, kind, tv));
                    assert({
                        let out = resolution(&g1, owner_id, str_id, visibility, id);
                        out->0 == src && out->1 == aliases && out->2 == kind && out->3 == tv
                    });
                assert(module_function::module_function_applied(&g2, &g1, str_id, id, owner_id, src, aliases, kind, tv, false)
                    && target_missing(&g3, &g2, id, owner_id, str_id, uri_id, offset));
                assert(operation_applied(&g3, &g1, id, owner_id, str_id, visibility, uri_id, offset, false));
                false
            },
            MethodVisibilityResolution::RetryPartial => {
                self.graph.detach_method_visibility_declaration(id);
                true
            },
            MethodVisibilityResolution::Missing => {
                self.report_missing_target(id, owner_id, str_id, uri_id, offset);
                false
            },
            MethodVisibilityResolution::Skip => false,
        }
    }

    /// Reports the target of visibility operation `id` missing (see `target_missing`).
    fn report_missing_target(&mut self, id: DefinitionId, owner_id: DeclarationId, str_id: StringId, uri_id: crate::ids::UriId, offset: crate::offset::Offset)
        requires
            old(self).graph_view().wf(),
            old(self).graph_view().decls().contains_key(owner_id.value),
            old(self).graph_view().strs().contains_key(str_id.value),
        ensures
            final(self).graph_view().wf(),
            keeps_keys(&final(self).graph_view(), &old(self).graph_view()),
            final(self).graph_view().work() == old(self).graph_view().work(),
            target_missing(&final(self).graph_view(), &old(self).graph_view(), id, owner_id, str_id, uri_id, offset),
    {
        let ghost g0 = self.graph_view();
        self.graph.detach_method_visibility_declaration(id);
        let ghost g1 = self.graph_view();
        self.graph.track_unresolved_method_visibility(owner_id, str_id, id);
        let ghost g2 = self.graph_view();
        let mut message = String::new();
        push_str(&mut message, "undefined method `");
        if let Some(owner) = self.graph().declaration(owner_id) {
            push_str(&mut message, owner.name.as_str());
        }
        push_str(&mut message, "#");
        if let Some(method_name) = self.graph().string(str_id) {
            push_str(&mut message, method_name.as_str());
        }
        push_str(&mut message, "` for visibility change");
        proof {
            reveal_strlit("undefined method `");
            reveal_strlit("#");
            reveal_strlit("` for visibility change");
            assert(message@ =~= undefined_target_message(g2.decls()[owner_id.value].name@, g2.strs()[str_id.value]@));
        }
        let diagnostic = Diagnostic::new(Rule::UndefinedMethodVisibilityTarget, uri_id, offset, message);
        let ghost diag = diagnostic;
        self.graph.add_unresolved_method_visibility_diagnostic(owner_id, id, diagnostic);
        assert(g1.visibility_declaration_detached(&g0, id) && g2.unresolved_visibility_tracked(&g1, owner_id, str_id, id));
        assert(self.graph_view().target_diagnostic_reported(&g2, owner_id, id, diag));
    }

    /// Resolves the visibility operations `visibility_ids` (`private :foo`, `module_function :foo`,
    /// `private_class_method :foo`, ...), once each, in program order (see `resolution_run`).
    /// Each applies to the namespace that lexically holds it (its singleton class for class-method
    /// variants): when its target method exists before it, it is attached to that method's
    /// declaration (for `module_function`, the copies are installed); when the target may still
    /// come from an ancestor that is not resolved, it is queued again as work; when the target
    /// does not exist, it is tracked as unresolved and reported.
    pub fn resolve_method_visibilities(&mut self, visibility_ids: Vec<DefinitionId>)
        requires
            old(self).graph_view().wf(),
            forall|i: int| 0 <= i < visibility_ids@.len() ==> resolvable_visibility(&old(self).graph_view(), #[trigger] visibility_ids@[i]),
        ensures
            final(self).graph_view().wf(),
            keeps_keys(&final(self).graph_view(), &old(self).graph_view()),
            exists|ordered: Seq<DefinitionId>, gs: Seq<Graph>, retried: Seq<bool>| {
                &&& #[trigger] resolution_run(&old(self).graph_view(), visibility_ids@, ordered, gs, retried)
                &&& final(self).graph_view().frame(&gs.last(), false, false, false, false, false, true, false, false, false)
                &&& final(self).graph_view().work() == old(self).graph_view().work() + retried_units(ordered, retried)
            },
    {
        let ghost g0 = self.graph_view();
        let ordered = self.ordered_visibility_ids(&visibility_ids);
        let mut pending_work: Vec<Unit> = Vec::new();
        let ghost mut gs: Seq<Graph> = seq![g0];
        let ghost mut rs: Seq<bool> = Seq::empty();
        let mut i: usize = 0;
        while i < ordered.len()
            invariant
                i <= ordered@.len(),
                self.graph_view().wf(),
                keeps_keys(&self.graph_view(), &g0),
                g0 == old(self).graph_view(),
                self.graph_view().work() == g0.work(),
                forall|d: DefinitionId| #[trigger] ordered@.contains(d) ==> visibility_ids@.contains(d) && has_program_key(&g0, d),
                forall|k: int| 0 <= k < visibility_ids@.len() ==> resolvable_visibility(&g0, #[trigger] visibility_ids@[k]),
                gs.len() == i + 1,
                rs.len() == i,
                gs[0] == g0,
                gs.last() == self.graph_view(),
                forall|k: int| 0 <= k < i ==> operation_resolved(&gs[k + 1], &gs[k], ordered@[k], #[trigger] rs[k]),
                pending_work@ == retried_units(ordered@.take(i as int), rs),
            decreases ordered@.len() - i,
        {
            let id = ordered[i];
            proof {
                assert(ordered@.contains(id));
                let k = choose|k: int| 0 <= k < visibility_ids@.len() && visibility_ids@[k] == id;
                assert(resolvable_visibility(&g0, visibility_ids@[k]));
            }
            let ghost before = self.graph_view();
            let retried = self.resolve_method_visibility(id);
            if retried {
                pending_work.push(Unit::Definition(id));
            }
            proof {
                let t = ordered@.take(i + 1);
                assert(t.drop_last() =~= ordered@.take(i as int));
                assert(rs.push(retried).drop_last() =~= rs);
                gs = gs.push(self.graph_view());
                rs = rs.push(retried);
                assert(retried_units(t, rs) == pending_work@);
            }
            i = i + 1;
        }
        let ghost last = self.graph_view();
        self.graph.extend_work(pending_work);
        proof {
            assert(ordered@.take(i as int) =~= ordered@);
            assert(resolution_run(&g0, visibility_ids@, ordered@, gs, rs));
        }
    }
}

} // verus!
