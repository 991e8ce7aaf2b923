//! The graph: documents, definitions, declarations, references and the reverse indexes that keep
//! method visibility operations incremental.

use std::collections::HashMap;

pub mod visibility;

pub use visibility::VisibilityWork;
use vstd::prelude::*;
use crate::graph_indexes::{AppliedMethodVisibilities, ModuleFunctionCopies, UnresolvedMethodVisibilities};
use crate::ids::{hash_str, ConstantReferenceId, DeclarationId, DefinitionId, NameId, StringId, UriId};
use crate::model::{Ancestor, Declaration, DeclarationKind, Definition, Diagnostic, Document, Rule, Unit};
use crate::offset::Offset;
use crate::seqs::without;
use crate::references::{reference_id_value, ConstantReference};

verus! {

broadcast use vstd::std_specs::hash::group_hash_axioms;

/// The global graph of a Ruby codebase.
#[derive(Debug)]
pub struct Graph {
    documents: HashMap<u64, Document>,
    definitions: HashMap<u64, Definition>,
    declarations: HashMap<u64, Declaration>,
    strings: HashMap<u64, String>,
    constant_references: HashMap<u64, ConstantReference>,
    names: HashMap<u64, DeclarationId>,
    definition_declarations: HashMap<u64, DeclarationId>,
    work: Vec<Unit>,
    pub(crate) module_function_copies: ModuleFunctionCopies,
    pub(crate) applied_method_visibilities: AppliedMethodVisibilities,
    pub(crate) unresolved_method_visibilities: UnresolvedMethodVisibilities,
}

impl Graph {
    /// Documents by URI identifier.
    pub closed spec fn docs(&self) -> Map<u64, Document> {
        self.documents@
    }

    /// Definitions by identifier.
    pub closed spec fn defs(&self) -> Map<u64, Definition> {
        self.definitions@
    }

    /// Declarations by identifier.
    pub closed spec fn decls(&self) -> Map<u64, Declaration> {
        self.declarations@
    }

    /// Interned strings by identifier.
    pub closed spec fn strs(&self) -> Map<u64, String> {
        self.strings@
    }

    /// Constant references by identifier.
    pub closed spec fn const_refs(&self) -> Map<u64, ConstantReference> {
        self.constant_references@
    }

    /// The declaration each resolved constant name points to.
    pub closed spec fn names(&self) -> Map<u64, DeclarationId> {
        self.names@
    }

    /// The declaration each definition contributes to.
    pub closed spec fn def_decl(&self) -> Map<u64, DeclarationId> {
        self.definition_declarations@
    }

    /// Pending resolution work, in order.
    pub closed spec fn work(&self) -> Seq<Unit> {
        self.work@
    }

    pub closed spec fn copies(&self) -> ModuleFunctionCopies {
        self.module_function_copies
    }

    pub closed spec fn applied(&self) -> AppliedMethodVisibilities {
        self.applied_method_visibilities
    }

    pub closed spec fn unresolved(&self) -> UnresolvedMethodVisibilities {
        self.unresolved_method_visibilities
    }

    /// The graph's invariant: consistent reverse indexes, and each definition stored under its
    /// own identifier.
    pub open spec fn wf(&self) -> bool {
        &&& self.copies().wf()
        &&& self.applied().wf()
        &&& self.unresolved().wf()
        &&& forall|k: u64| #[trigger] self.defs().contains_key(k) ==> self.defs()[k].id.value == k
    }

    /// The graph holds finitely many declarations.
    pub proof fn lemma_decls_finite(&self)
        ensures
            self.decls().dom().finite(),
    {
    }

    /// The copies made by `module_function` and the dependencies of their requests.
    pub fn module_function_copies(&self) -> (r: &ModuleFunctionCopies)
        ensures
            *r == self.copies(),
    {
        &self.module_function_copies
    }

    /// The visibility operations applied to method members.
    pub fn applied_method_visibilities(&self) -> (r: &AppliedMethodVisibilities)
        ensures
            *r == self.applied(),
    {
        &self.applied_method_visibilities
    }

    /// The visibility operations whose target was missing.
    pub fn unresolved_method_visibilities(&self) -> (r: &UnresolvedMethodVisibilities)
        ensures
            *r == self.unresolved(),
    {
        &self.unresolved_method_visibilities
    }

    /// Whether `id` names a visibility operation of this graph.
    pub open spec fn is_visibility_def(&self, id: u64) -> bool {
        self.defs().contains_key(id) && self.defs()[id].is_method_visibility()
    }

    /// An empty graph.
    pub fn new() -> (g: Self)
        ensures
            g.wf(),
            g.docs() == Map::<u64, Document>::empty(),
            g.defs() == Map::<u64, Definition>::empty(),
            g.decls() == Map::<u64, Declaration>::empty(),
            g.work() == Seq::<Unit>::empty(),
            g.strs() == Map::<u64, String>::empty(),
            g.const_refs() == Map::<u64, ConstantReference>::empty(),
            g.names() == Map::<u64, DeclarationId>::empty(),
            g.def_decl() == Map::<u64, DeclarationId>::empty(),
            forall|x: u64| !(#[trigger] g.copies().copies().has(x)),
            g.copies().alias_deps().is_empty_spec(),
            g.copies().ancestor_deps().is_empty_spec(),
            g.copies().member_deps().is_empty_spec(),
            g.copies().document_deps().is_empty_spec(),
            g.applied().index().is_empty_spec(),
            g.unresolved().keys().dom().is_empty(),
    {
        let g = Graph {
            documents: HashMap::new(),
            definitions: HashMap::new(),
            declarations: HashMap::new(),
            strings: HashMap::new(),
            constant_references: HashMap::new(),
            names: HashMap::new(),
            definition_declarations: HashMap::new(),
            work: Vec::new(),
            module_function_copies: ModuleFunctionCopies::new(),
            applied_method_visibilities: AppliedMethodVisibilities::new(),
            unresolved_method_visibilities: UnresolvedMethodVisibilities::new(),
        };
        assert(g.docs() =~= Map::empty());
        assert(g.defs() =~= Map::empty());
        assert(g.decls() =~= Map::empty());
        assert(g.strs() =~= Map::empty());
        assert(g.const_refs() =~= Map::empty());
        assert(g.names() =~= Map::empty());
        assert(g.def_decl() =~= Map::empty());
        g
    }

    /// Every field but the documents is unchanged.
    pub open spec fn same_except_docs(&self, other: &Self) -> bool {
        &&& self.defs() == other.defs()
        &&& self.decls() == other.decls()
        &&& self.strs() == other.strs()
        &&& self.const_refs() == other.const_refs()
        &&& self.names() == other.names()
        &&& self.def_decl() == other.def_decl()
        &&& self.work() == other.work()
        &&& self.copies() == other.copies()
        &&& self.applied() == other.applied()
        &&& self.unresolved() == other.unresolved()
    }

    /// Adds an empty document for `uri` (keeping an existing one) and returns its identifier.
    pub fn add_document(&mut self, uri: String) -> (id: UriId)
        requires
            old(self).wf(),
        ensures
            final(self).wf(),
            id.value == hash_str(uri@),
            final(self).docs().contains_key(id.value),
            old(self).docs().contains_key(id.value) ==> final(self).docs() == old(self).docs(),
            !old(self).docs().contains_key(id.value) ==> {
                &&& final(self).docs()[id.value].uri@ == uri@
                &&& final(self).docs()[id.value].definitions@ == Seq::<DefinitionId>::empty()
                &&& final(self).docs()[id.value].diagnostics@.len() == 0
                &&& forall|k: u64| k != id.value ==> #[trigger] final(self).docs().contains_key(k) == old(self).docs().contains_key(k)
                &&& forall|k: u64| k != id.value && #[trigger] old(self).docs().contains_key(k) ==> final(self).docs()[k] == old(self).docs()[k]
            },
            final(self).same_except_docs(old(self)),
    {
        let id = UriId::from_str(uri.as_str());
        if !self.documents.contains_key(&id.value) {
            self.documents.insert(id.value, Document { uri, definitions: Vec::new(), diagnostics: Vec::new() });
        }
        id
    }

    /// The document with URI identifier `uri_id`.
    pub fn document(&self, uri_id: UriId) -> (d: Option<&Document>)
        ensures
            match d {
                Some(d) => self.docs().contains_key(uri_id.value) && *d == self.docs()[uri_id.value],
                None => !self.docs().contains_key(uri_id.value),
            },
    {
        self.documents.get(&uri_id.value)
    }

    /// The definition `id`.
    pub fn definition(&self, id: DefinitionId) -> (d: Option<&Definition>)
        ensures
            match d {
                Some(d) => self.defs().contains_key(id.value) && *d == self.defs()[id.value],
                None => !self.defs().contains_key(id.value),
            },
    {
        self.definitions.get(&id.value)
    }

    /// The declaration `id`.
    pub fn declaration(&self, id: DeclarationId) -> (d: Option<&Declaration>)
        ensures
            match d {
                Some(d) => self.decls().contains_key(id.value) && *d == self.decls()[id.value],
                None => !self.decls().contains_key(id.value),
            },
    {
        self.declarations.get(&id.value)
    }

    /// The interned string `id`.
    pub fn string(&self, id: StringId) -> (s: Option<&String>)
        ensures
            match s {
                Some(s) => self.strs().contains_key(id.value) && *s == self.strs()[id.value],
                None => !self.strs().contains_key(id.value),
            },
    {
        self.strings.get(&id.value)
    }

    /// The constant reference `id`.
    pub fn constant_reference(&self, id: ConstantReferenceId) -> (r: Option<&ConstantReference>)
        ensures
            match r {
                Some(r) => self.const_refs().contains_key(id.value) && *r == self.const_refs()[id.value],
                None => !self.const_refs().contains_key(id.value),
            },
    {
        self.constant_references.get(&id.value)
    }

    /// The declaration that the constant name `name_id` resolved to.
    pub fn name_id_to_declaration_id(&self, name_id: NameId) -> (r: Option<DeclarationId>)
        ensures
            match r {
                Some(d) => self.names().contains_key(name_id.value) && d == self.names()[name_id.value],
                None => !self.names().contains_key(name_id.value),
            },
    {
        match self.names.get(&name_id.value) {
            Some(d) => Some(*d),
            None => None,
        }
    }

    /// The declaration that definition `id` contributes to.
    pub fn definition_id_to_declaration_id(&self, id: DefinitionId) -> (r: Option<DeclarationId>)
        ensures
            match r {
                Some(d) => self.def_decl().contains_key(id.value) && d == self.def_decl()[id.value],
                None => !self.def_decl().contains_key(id.value),
            },
    {
        match self.definition_declarations.get(&id.value) {
            Some(d) => Some(*d),
            None => None,
        }
    }

    /// The number of documents.
    pub fn document_count(&self) -> (n: usize)
        ensures
            n == self.docs().dom().len(),
    {
        self.documents.len()
    }

    /// The number of definitions.
    pub fn definition_count(&self) -> (n: usize)
        ensures
            n == self.defs().dom().len(),
    {
        self.definitions.len()
    }

    /// The number of declarations.
    pub fn declaration_count(&self) -> (n: usize)
        ensures
            n == self.decls().dom().len(),
    {
        self.declarations.len()
    }

    /// The identifiers of all documents, each once.
    pub fn document_ids(&self) -> (ids: Vec<u64>)
        ensures
            ids@.to_set() == self.docs().dom(),
            ids@.no_duplicates(),
    {
        let mut ids: Vec<u64> = Vec::new();
        for k in it: self.documents.keys()
            invariant
                ids@.len() == it.index(),
                forall|i: int| 0 <= i < it.index() ==> ids@[i] == *it.seq()[i],
                it.seq().unref().to_set() == self.documents@.dom(),
                it.seq().unref().no_duplicates(),
                it.index() == it.seq().len() ==> ids@ == it.seq().unref(),
        {
            ids.push(*k);
        }
        ids
    }
}


/// Whether `d` reports the undefined target of the visibility operation at `uri_id`/`offset`.
pub open spec fn is_undefined_target_diagnostic(d: Diagnostic, uri_id: UriId, offset: Offset) -> bool {
    d.rule == Rule::UndefinedMethodVisibilityTarget && d.uri_id == uri_id && d.offset == offset
}

/// `diags` without the diagnostics of the visibility operation at `uri_id`/`offset`.
pub open spec fn other_diagnostics(diags: Seq<Diagnostic>, uri_id: UriId, offset: Offset) -> Seq<Diagnostic> {
    diags.filter(|d: Diagnostic| !is_undefined_target_diagnostic(d, uri_id, offset))
}

/// Keeps the diagnostics that do not report the undefined target at `uri_id`/`offset`.
pub fn retain_other_diagnostics(diags: Vec<Diagnostic>, uri_id: UriId, offset: Offset) -> (r: Vec<Diagnostic>)
    ensures
        r@ == other_diagnostics(diags@, uri_id, offset),
{
    let ghost p = |d: Diagnostic| !is_undefined_target_diagnostic(d, uri_id, offset);
    let ghost all = diags@;
    let mut r: Vec<Diagnostic> = Vec::new();
    for d in it: diags
        invariant
            it.seq() == all,
            p == (|d: Diagnostic| !is_undefined_target_diagnostic(d, uri_id, offset)),
            r@ == all.take(it.index() as int).filter(p),
    {
        proof {
            reveal(Seq::filter);
            assert(all.take(it.index() + 1).drop_last() =~= all.take(it.index() as int));
        }
        let matches = match d.rule {
            Rule::UndefinedMethodVisibilityTarget => d.uri_id.value == uri_id.value && d.offset.same_range(&offset),
            Rule::Other => false,
        };
        proof {
            assert(d == all[it.index() as int]);
            assert(matches == !p(d));
        }
        if !matches {
            r.push(d);
        }
    }
    proof {
        assert(all.take(all.len() as int) =~= all);
    }
    r
}

/// Membership after dropping the target diagnostics of one visibility operation.
pub proof fn lemma_other_diagnostics(diags: Seq<Diagnostic>, uri_id: UriId, offset: Offset)
    ensures
        forall|d: Diagnostic| #[trigger] other_diagnostics(diags, uri_id, offset).contains(d)
            <==> (diags.contains(d) && !is_undefined_target_diagnostic(d, uri_id, offset)),
{
    crate::seqs::lemma_filter_contains(diags, |d: Diagnostic| !is_undefined_target_diagnostic(d, uri_id, offset));
}

impl Graph {
    /// Every field but those flagged is unchanged.
    pub open spec fn frame(
        &self,
        other: &Self,
        docs: bool,
        defs: bool,
        decls: bool,
        def_decl: bool,
        lookups: bool,
        work: bool,
        copies: bool,
        applied: bool,
        unresolved: bool,
    ) -> bool {
        &&& !docs ==> self.docs() == other.docs()
        &&& !defs ==> self.defs() == other.defs()
        &&& !decls ==> self.decls() == other.decls()
        &&& !def_decl ==> self.def_decl() == other.def_decl()
        &&& !lookups ==> {
            &&& self.strs() == other.strs()
            &&& self.const_refs() == other.const_refs()
            &&& self.names() == other.names()
        }
        &&& !work ==> self.work() == other.work()
        &&& !copies ==> self.copies() == other.copies()
        &&& !applied ==> self.applied() == other.applied()
        &&& !unresolved ==> self.unresolved() == other.unresolved()
    }

    /// Adds a definition, listing it in its document when that document exists.
    pub fn add_definition(&mut self, definition: Definition)
        requires
            old(self).wf(),
            !old(self).defs().contains_key(definition.id.value),
        ensures
            final(self).wf(),
            final(self).defs() == old(self).defs().insert(definition.id.value, definition),
            forall|k: u64| #[trigger] final(self).docs().contains_key(k) == old(self).docs().contains_key(k),
            forall|k: u64| #[trigger] old(self).docs().contains_key(k) && k != definition.uri_id.value
                ==> final(self).docs()[k] == old(self).docs()[k],
            old(self).docs().contains_key(definition.uri_id.value) ==> {
                let d = final(self).docs()[definition.uri_id.value];
                let o = old(self).docs()[definition.uri_id.value];
                &&& d.uri == o.uri
                &&& d.diagnostics == o.diagnostics
                &&& d.definitions@ == o.definitions@.push(definition.id)
            },
            final(self).frame(old(self), true, true, false, false, false, false, false, false, false),
    {
        let id = definition.id;
        let uri_id = definition.uri_id;
        self.definitions.insert(id.value, definition);
        if let Some(mut document) = self.documents.remove(&uri_id.value) {
            document.definitions.push(id);
            self.documents.insert(uri_id.value, document);
        }
        proof {
            assert forall|k: u64| #[trigger] self.defs().contains_key(k) implies self.defs()[k].id.value == k by {
                if k != id.value {
                    assert(old(self).defs().contains_key(k));
                }
            }
        }
    }

    /// The effect of declaring `name` (identifier `id`) from `old`: an existing declaration is
    /// kept; otherwise a new one, of `kind` and owned by `owner_id`, with nothing in it.
    pub open spec fn declaration_added(&self, old: &Graph, name: Seq<char>, kind: DeclarationKind, owner_id: DeclarationId, id: u64) -> bool {
        &&& id == hash_str(name)
        &&& self.decls().contains_key(id)
        &&& old.decls().contains_key(id) ==> self.decls() == old.decls()
        &&& !old.decls().contains_key(id) ==> {
            &&& self.decls() == old.decls().insert(id, self.decls()[id])
            &&& self.decls()[id].name@ == name
            &&& self.decls()[id].kind == kind
            &&& self.decls()[id].owner_id == owner_id
            &&& self.decls()[id].definitions@ == Seq::<DefinitionId>::empty()
            &&& self.decls()[id].diagnostics@.len() == 0
            &&& self.decls()[id].members@ == Seq::<(StringId, DeclarationId)>::empty()
            &&& self.decls()[id].ancestors@ == Seq::<Ancestor>::empty()
            &&& self.decls()[id].descendants@ == Seq::<DeclarationId>::empty()
        }
        &&& self.frame(old, false, false, true, false, false, false, false, false, false)
    }

    /// Adds a declaration named `name` (keeping an existing one) and returns its identifier.
    pub fn add_declaration(&mut self, name: String, kind: DeclarationKind, owner_id: DeclarationId) -> (id: DeclarationId)
        requires
            old(self).wf(),
        ensures
            final(self).wf(),
            final(self).declaration_added(old(self), name@, kind, owner_id, id.value),
    {
        let id = DeclarationId::from_str(name.as_str());
        if !self.declarations.contains_key(&id.value) {
            self.declarations.insert(id.value, Declaration::new(name, kind, owner_id));
        }
        proof {
            if !old(self).decls().contains_key(id.value) {
                assert(self.decls() =~= old(self).decls().insert(id.value, self.decls()[id.value]));
            }
        }
        id
    }

    /// Makes definition `definition_id` contribute to declaration `declaration_id`, after its
    /// other definitions.
    pub fn add_definition_to_declaration(&mut self, declaration_id: DeclarationId, definition_id: DefinitionId)
        requires
            old(self).wf(),
            old(self).decls().contains_key(declaration_id.value),
        ensures
            final(self).wf(),
            final(self).def_decl() == old(self).def_decl().insert(definition_id.value, declaration_id),
            forall|k: u64| #[trigger] final(self).decls().contains_key(k) == old(self).decls().contains_key(k),
            forall|k: u64| #[trigger] old(self).decls().contains_key(k) && k != declaration_id.value
                ==> final(self).decls()[k] == old(self).decls()[k],
            final(self).decls()[declaration_id.value].definitions@ == if old(self).decls()[declaration_id.value].definitions@.contains(definition_id) {
                old(self).decls()[declaration_id.value].definitions@
            } else {
                old(self).decls()[declaration_id.value].definitions@.push(definition_id)
            },
            final(self).decls()[declaration_id.value].name == old(self).decls()[declaration_id.value].name,
            final(self).decls()[declaration_id.value].kind == old(self).decls()[declaration_id.value].kind,
            final(self).decls()[declaration_id.value].owner_id == old(self).decls()[declaration_id.value].owner_id,
            final(self).decls()[declaration_id.value].members == old(self).decls()[declaration_id.value].members,
            final(self).decls()[declaration_id.value].ancestors == old(self).decls()[declaration_id.value].ancestors,
            final(self).decls()[declaration_id.value].descendants == old(self).decls()[declaration_id.value].descendants,
            final(self).decls()[declaration_id.value].diagnostics == old(self).decls()[declaration_id.value].diagnostics,
            final(self).frame(old(self), false, false, true, true, false, false, false, false, false),
    {
        let mut declaration = self.declarations.remove(&declaration_id.value).unwrap();
        if !contains_definition(&declaration.definitions, definition_id) {
            declaration.definitions.push(definition_id);
        }
        self.declarations.insert(declaration_id.value, declaration);
        self.definition_declarations.insert(definition_id.value, declaration_id);
    }

    /// The declarations of `self` are those of `old` with `member_id` recorded as the member
    /// named `str_id` of `owner_id`, when `owner_id` exists.
    pub open spec fn member_recorded(&self, old: &Graph, owner_id: DeclarationId, member_id: DeclarationId, str_id: StringId) -> bool {
        &&& forall|k: u64| #[trigger] self.decls().contains_key(k) == old.decls().contains_key(k)
        &&& forall|k: u64| #[trigger] old.decls().contains_key(k) && k != owner_id.value ==> self.decls()[k] == old.decls()[k]
        &&& old.decls().contains_key(owner_id.value) ==> {
            let d = self.decls()[owner_id.value];
            let o = old.decls()[owner_id.value];
            &&& d.members@ == set_member(o.members@, str_id, member_id)
            &&& d.name == o.name
            &&& d.kind == o.kind
            &&& d.owner_id == o.owner_id
            &&& d.definitions == o.definitions
            &&& d.diagnostics == o.diagnostics
            &&& d.ancestors == o.ancestors
            &&& d.descendants == o.descendants
        }
        &&& self.frame(old, false, false, true, false, false, false, false, false, false)
    }

    /// Records that `member_id` is the member named `str_id` of namespace `owner_id`.
    pub fn add_member(&mut self, owner_id: &DeclarationId, member_id: DeclarationId, str_id: StringId)
        requires
            old(self).wf(),
        ensures
            final(self).wf(),
            final(self).member_recorded(old(self), *owner_id, member_id, str_id),
    {
        if let Some(mut declaration) = self.declarations.remove(&owner_id.value) {
            let members = set_member_exec(&declaration.members, str_id, member_id);
            declaration.members = members;
            self.declarations.insert(owner_id.value, declaration);
        }
    }

    /// Sets the linearized ancestor chain of declaration `declaration_id`, when it exists.
    pub fn set_ancestors(&mut self, declaration_id: DeclarationId, ancestors: Vec<Ancestor>)
        requires
            old(self).wf(),
        ensures
            final(self).wf(),
            forall|k: u64| #[trigger] final(self).decls().contains_key(k) == old(self).decls().contains_key(k),
            forall|k: u64| #[trigger] old(self).decls().contains_key(k) && k != declaration_id.value
                ==> final(self).decls()[k] == old(self).decls()[k],
            old(self).decls().contains_key(declaration_id.value) ==> {
                let d = final(self).decls()[declaration_id.value];
                let o = old(self).decls()[declaration_id.value];
                &&& d.ancestors@ == ancestors@
                &&& d.name == o.name
                &&& d.kind == o.kind
                &&& d.owner_id == o.owner_id
                &&& d.definitions == o.definitions
                &&& d.diagnostics == o.diagnostics
                &&& d.members == o.members
                &&& d.descendants == o.descendants
            },
            final(self).frame(old(self), false, false, true, false, false, false, false, false, false),
    {
        if let Some(mut declaration) = self.declarations.remove(&declaration_id.value) {
            declaration.ancestors = ancestors;
            self.declarations.insert(declaration_id.value, declaration);
        }
    }

    /// Records `descendant_id` among the descendants of namespace `declaration_id`, once.
    pub fn add_descendant(&mut self, declaration_id: DeclarationId, descendant_id: DeclarationId)
        requires
            old(self).wf(),
        ensures
            final(self).wf(),
            forall|k: u64| #[trigger] final(self).decls().contains_key(k) == old(self).decls().contains_key(k),
            forall|k: u64| #[trigger] old(self).decls().contains_key(k) && k != declaration_id.value
                ==> final(self).decls()[k] == old(self).decls()[k],
            old(self).decls().contains_key(declaration_id.value) ==> {
                let d = final(self).decls()[declaration_id.value];
                let o = old(self).decls()[declaration_id.value];
                &&& d.descendants@ == crate::seqs::pushed_unique(o.descendants@, descendant_id)
                &&& d.name == o.name
                &&& d.kind == o.kind
                &&& d.owner_id == o.owner_id
                &&& d.definitions == o.definitions
                &&& d.diagnostics == o.diagnostics
                &&& d.members == o.members
                &&& d.ancestors == o.ancestors
            },
            final(self).frame(old(self), false, false, true, false, false, false, false, false, false),
    {
        if let Some(mut declaration) = self.declarations.remove(&declaration_id.value) {
            let mut found = false;
            let mut i: usize = 0;
            while i < declaration.descendants.len()
                invariant
                    i <= declaration.descendants@.len(),
                    found <==> declaration.descendants@.take(i as int).contains(descendant_id),
                decreases declaration.descendants@.len() - i,
            {
                proof {
                    crate::seqs::lemma_take_succ_contains(declaration.descendants@, i as int, descendant_id);
                }
                if declaration.descendants[i].value == descendant_id.value {
                    found = true;
                }
                i = i + 1;
            }
            assert(declaration.descendants@.take(i as int) =~= declaration.descendants@);
            if !found {
                declaration.descendants.push(descendant_id);
            }
            self.declarations.insert(declaration_id.value, declaration);
        }
    }

    /// Interns `s` and returns its identifier.
    /// The effect of interning `text` from `old`: the string table maps the hash of `text` to
    /// `text`; nothing else changes.
    pub open spec fn string_interned(&self, old: &Graph, text: Seq<char>) -> bool {
        let id = hash_str(text);
        &&& self.strs().contains_key(id)
        &&& self.strs()[id]@ == text
        &&& forall|k: u64| k != id ==> #[trigger] self.strs().contains_key(k) == old.strs().contains_key(k)
        &&& forall|k: u64| k != id && #[trigger] old.strs().contains_key(k) ==> self.strs()[k] == old.strs()[k]
        &&& self.const_refs() == old.const_refs()
        &&& self.names() == old.names()
        &&& self.frame(old, false, false, false, false, true, false, false, false, false)
    }

    /// Interns `s` and returns its identifier, the hash of its text.
    pub fn intern_string(&mut self, s: String) -> (id: StringId)
        requires
            old(self).wf(),
        ensures
            final(self).wf(),
            id.value == hash_str(s@),
            final(self).string_interned(old(self), s@),
    {
        let id = StringId::from_str(s.as_str());
        self.strings.insert(id.value, s);
        id
    }

    /// Adds a constant reference and returns its identifier.
    pub fn add_constant_reference(&mut self, reference: ConstantReference) -> (id: ConstantReferenceId)
        requires
            old(self).wf(),
        ensures
            final(self).wf(),
            id.value == reference_id_value(reference.name_id_spec().value, reference.uri_id_spec(), reference.offset_spec()),
            final(self).const_refs() == old(self).const_refs().insert(id.value, reference),
            final(self).strs() == old(self).strs(),
            final(self).names() == old(self).names(),
            final(self).frame(old(self), false, false, false, false, true, false, false, false, false),
    {
        let id = reference.id();
        self.constant_references.insert(id.value, reference);
        id
    }

    /// Records that the constant name `name_id` resolves to `declaration_id`.
    pub fn resolve_name(&mut self, name_id: NameId, declaration_id: DeclarationId)
        requires
            old(self).wf(),
        ensures
            final(self).wf(),
            final(self).names() == old(self).names().insert(name_id.value, declaration_id),
            final(self).strs() == old(self).strs(),
            final(self).const_refs() == old(self).const_refs(),
            final(self).frame(old(self), false, false, false, false, true, false, false, false, false),
    {
        self.names.insert(name_id.value, declaration_id);
    }

    /// Queues `unit` for resolution.
    pub fn push_work(&mut self, unit: Unit)
        ensures
            final(self).work() == old(self).work().push(unit),
            final(self).frame(old(self), false, false, false, false, false, true, false, false, false),
    {
        self.work.push(unit);
    }

    /// Queues all of `units` for resolution, in order.
    pub fn extend_work(&mut self, units: Vec<Unit>)
        ensures
            final(self).work() == old(self).work() + units@,
            final(self).frame(old(self), false, false, false, false, false, true, false, false, false),
    {
        let mut units = units;
        self.work.append(&mut units);
    }

    /// Removes and returns the pending resolution work.
    pub fn take_work(&mut self) -> (units: Vec<Unit>)
        ensures
            units@ == old(self).work(),
            final(self).work() == Seq::<Unit>::empty(),
            final(self).frame(old(self), false, false, false, false, false, true, false, false, false),
    {
        let mut units: Vec<Unit> = Vec::new();
        std::mem::swap(&mut units, &mut self.work);
        units
    }
}

/// Two declarations agree on everything but their definitions and diagnostics.
pub open spec fn same_decl_shape(a: Declaration, b: Declaration) -> bool {
    &&& a.name == b.name
    &&& a.kind == b.kind
    &&& a.owner_id == b.owner_id
    &&& a.members == b.members
    &&& a.ancestors == b.ancestors
    &&& a.descendants == b.descendants
}

/// Two documents agree on everything but their diagnostics.
pub open spec fn same_doc_shape(a: Document, b: Document) -> bool {
    &&& a.uri == b.uri
    &&& a.definitions == b.definitions
}

impl Graph {
    /// Same documents, up to their diagnostics.
    pub open spec fn same_doc_shapes(&self, other: &Self) -> bool {
        &&& self.docs().dom() == other.docs().dom()
        &&& forall|k: u64| #[trigger] self.docs().contains_key(k) ==> same_doc_shape(self.docs()[k], other.docs()[k])
    }

    /// Same declarations, up to their definitions and diagnostics.
    pub open spec fn same_decl_shapes(&self, other: &Self) -> bool {
        &&& self.decls().dom() == other.decls().dom()
        &&& forall|k: u64| #[trigger] self.decls().contains_key(k) ==> same_decl_shape(self.decls()[k], other.decls()[k])
    }

    /// Same declarations, up to their diagnostics.
    pub open spec fn same_decls_but_diagnostics(&self, other: &Self) -> bool {
        &&& self.same_decl_shapes(other)
        &&& forall|k: u64| #[trigger] self.decls().contains_key(k) ==> self.decls()[k].definitions == other.decls()[k].definitions
    }

    /// Adds a diagnostic to the document `uri_id`, when it exists.
    pub fn add_document_diagnostic(&mut self, uri_id: UriId, diagnostic: Diagnostic)
        requires
            old(self).wf(),
        ensures
            final(self).wf(),
            final(self).same_doc_shapes(old(self)),
            forall|k: u64| k != uri_id.value && #[trigger] final(self).docs().contains_key(k) ==> final(self).docs()[k] == old(self).docs()[k],
            old(self).docs().contains_key(uri_id.value)
                ==> final(self).docs()[uri_id.value].diagnostics@ == old(self).docs()[uri_id.value].diagnostics@.push(diagnostic),
            final(self).frame(old(self), true, false, false, false, false, false, false, false, false),
    {
        if let Some(mut document) = self.documents.remove(&uri_id.value) {
            document.diagnostics.push(diagnostic);
            self.documents.insert(uri_id.value, document);
        }
        assert(self.docs().dom() =~= old(self).docs().dom());
    }

    /// Adds a diagnostic to the declaration `declaration_id`, when it exists.
    pub fn add_declaration_diagnostic(&mut self, declaration_id: DeclarationId, diagnostic: Diagnostic)
        requires
            old(self).wf(),
        ensures
            final(self).wf(),
            final(self).same_decls_but_diagnostics(old(self)),
            forall|k: u64| k != declaration_id.value && #[trigger] final(self).decls().contains_key(k) ==> final(self).decls()[k] == old(self).decls()[k],
            old(self).decls().contains_key(declaration_id.value)
                ==> final(self).decls()[declaration_id.value].diagnostics@ == old(self).decls()[declaration_id.value].diagnostics@.push(diagnostic),
            final(self).frame(old(self), false, false, true, false, false, false, false, false, false),
    {
        if let Some(mut declaration) = self.declarations.remove(&declaration_id.value) {
            declaration.diagnostics.push(diagnostic);
            self.declarations.insert(declaration_id.value, declaration);
        }
        assert(self.decls().dom() =~= old(self).decls().dom());
    }

    /// Drops the diagnostics of document `uri_id` that report the undefined target of the
    /// visibility operation at `target_uri_id`/`offset`.
    pub fn retain_document_diagnostics(&mut self, uri_id: UriId, target_uri_id: UriId, offset: Offset)
        requires
            old(self).wf(),
        ensures
            final(self).wf(),
            final(self).same_doc_shapes(old(self)),
            forall|k: u64| k != uri_id.value && #[trigger] final(self).docs().contains_key(k) ==> final(self).docs()[k] == old(self).docs()[k],
            old(self).docs().contains_key(uri_id.value) ==> final(self).docs()[uri_id.value].diagnostics@
                == other_diagnostics(old(self).docs()[uri_id.value].diagnostics@, target_uri_id, offset),
            final(self).frame(old(self), true, false, false, false, false, false, false, false, false),
    {
        if let Some(mut document) = self.documents.remove(&uri_id.value) {
            let mut diagnostics: Vec<Diagnostic> = Vec::new();
            std::mem::swap(&mut diagnostics, &mut document.diagnostics);
            document.diagnostics = retain_other_diagnostics(diagnostics, target_uri_id, offset);
            self.documents.insert(uri_id.value, document);
        }
        assert(self.docs().dom() =~= old(self).docs().dom());
    }

    /// Drops the diagnostics of declaration `declaration_id` that report the undefined target of
    /// the visibility operation at `target_uri_id`/`offset`.
    pub fn retain_declaration_diagnostics(&mut self, declaration_id: DeclarationId, target_uri_id: UriId, offset: Offset)
        requires
            old(self).wf(),
        ensures
            final(self).wf(),
            final(self).same_decls_but_diagnostics(old(self)),
            forall|k: u64| k != declaration_id.value && #[trigger] final(self).decls().contains_key(k) ==> final(self).decls()[k] == old(self).decls()[k],
            old(self).decls().contains_key(declaration_id.value) ==> final(self).decls()[declaration_id.value].diagnostics@
                == other_diagnostics(old(self).decls()[declaration_id.value].diagnostics@, target_uri_id, offset),
            final(self).frame(old(self), false, false, true, false, false, false, false, false, false),
    {
        if let Some(mut declaration) = self.declarations.remove(&declaration_id.value) {
            let mut diagnostics: Vec<Diagnostic> = Vec::new();
            std::mem::swap(&mut diagnostics, &mut declaration.diagnostics);
            declaration.diagnostics = retain_other_diagnostics(diagnostics, target_uri_id, offset);
            self.declarations.insert(declaration_id.value, declaration);
        }
        assert(self.decls().dom() =~= old(self).decls().dom());
    }

    /// Stops counting definition `definition_id` as a definition of `declaration_id`.
    pub fn detach_definition_from_declaration(&mut self, declaration_id: DeclarationId, definition_id: DefinitionId)
        requires
            old(self).wf(),
        ensures
            final(self).wf(),
            final(self).same_decl_shapes(old(self)),
            forall|k: u64| k != declaration_id.value && #[trigger] final(self).decls().contains_key(k) ==> final(self).decls()[k] == old(self).decls()[k],
            old(self).decls().contains_key(declaration_id.value) ==> {
                &&& final(self).decls()[declaration_id.value].definitions@
                    == without(old(self).decls()[declaration_id.value].definitions@, definition_id)
                &&& final(self).decls()[declaration_id.value].diagnostics == old(self).decls()[declaration_id.value].diagnostics
            },
            final(self).def_decl() == if old(self).def_decl().contains_key(definition_id.value)
                && old(self).def_decl()[definition_id.value] == declaration_id {
                old(self).def_decl().remove(definition_id.value)
            } else {
                old(self).def_decl()
            },
            final(self).frame(old(self), false, false, true, true, false, false, false, false, false),
    {
        if let Some(mut declaration) = self.declarations.remove(&declaration_id.value) {
            declaration.definitions = remove_definition_id(&declaration.definitions, definition_id);
            self.declarations.insert(declaration_id.value, declaration);
        }
        let owned = match self.definition_declarations.get(&definition_id.value) {
            Some(d) => d.value == declaration_id.value,
            None => false,
        };
        if owned {
            self.definition_declarations.remove(&definition_id.value);
        }
        assert(self.decls().dom() =~= old(self).decls().dom());
    }

    /// Stores a definition that no document lists, such as a generated copy.
    pub(crate) fn store_definition(&mut self, definition: Definition)
        requires
            old(self).wf(),
        ensures
            final(self).wf(),
            final(self).defs() == old(self).defs().insert(definition.id.value, definition),
            final(self).frame(old(self), false, true, false, false, false, false, false, false, false),
    {
        let id = definition.id.value;
        self.definitions.insert(id, definition);
        proof {
            assert forall|k: u64| #[trigger] self.defs().contains_key(k) implies self.defs()[k].id.value == k by {
                if k != id {
                    assert(old(self).defs().contains_key(k));
                }
            }
        }
    }

    /// Removes and returns the definition `definition_id`.
    pub(crate) fn remove_definition(&mut self, definition_id: DefinitionId) -> (r: Option<Definition>)
        requires
            old(self).wf(),
        ensures
            final(self).wf(),
            final(self).defs() == old(self).defs().remove(definition_id.value),
            match r {
                Some(d) => old(self).defs().contains_key(definition_id.value) && d == old(self).defs()[definition_id.value],
                None => !old(self).defs().contains_key(definition_id.value),
            },
            final(self).frame(old(self), false, true, false, false, false, false, false, false, false),
    {
        self.definitions.remove(&definition_id.value)
    }

    /// Whether definition `definition_id` exists.
    pub fn contains_definition(&self, definition_id: DefinitionId) -> (r: bool)
        ensures
            r == self.defs().contains_key(definition_id.value),
    {
        self.definitions.contains_key(&definition_id.value)
    }
}

/// A copy of `ids` without `id`.
pub fn remove_definition_id(ids: &Vec<DefinitionId>, id: DefinitionId) -> (r: Vec<DefinitionId>)
    ensures
        r@ == without(ids@, id),
{
    let mut r: Vec<DefinitionId> = Vec::new();
    let mut i: usize = 0;
    while i < ids.len()
        invariant
            i <= ids@.len(),
            r@ == without(ids@.take(i as int), id),
        decreases ids@.len() - i,
    {
        assert(ids@.take(i + 1).drop_last() =~= ids@.take(i as int));
        if ids[i].value != id.value {
            r.push(ids[i]);
        }
        i = i + 1;
    }
    assert(ids@.take(i as int) =~= ids@);
    r
}

/// `members` with `str_id` mapped to `member_id`: an existing entry for `str_id` is updated in
/// place, otherwise the pair is appended.
pub open spec fn set_member(members: Seq<(StringId, DeclarationId)>, str_id: StringId, member_id: DeclarationId) -> Seq<(StringId, DeclarationId)>
    decreases members.len(),
{
    if members.len() == 0 {
        seq![(str_id, member_id)]
    } else if members[0].0 == str_id {
        members.update(0, (str_id, member_id))
    } else {
        seq![members[0]] + set_member(members.drop_first(), str_id, member_id)
    }
}

/// The member named `str_id` in `members`, if any.
pub open spec fn member_of(members: Seq<(StringId, DeclarationId)>, str_id: StringId) -> Option<DeclarationId>
    decreases members.len(),
{
    if members.len() == 0 {
        None
    } else if members[0].0 == str_id {
        Some(members[0].1)
    } else {
        member_of(members.drop_first(), str_id)
    }
}

/// Reading a member after recording it: the name just recorded gives the new member, and every
/// other name gives what it gave before.
pub proof fn lemma_member_read_after_write(
    members: Seq<(StringId, DeclarationId)>,
    str_id: StringId,
    member_id: DeclarationId,
    other: StringId,
)
    ensures
        member_of(set_member(members, str_id, member_id), str_id) == Some(member_id),
        other != str_id ==> member_of(set_member(members, str_id, member_id), other) == member_of(members, other),
    decreases members.len(),
{
    let s = set_member(members, str_id, member_id);
    if members.len() == 0 {
        assert(s.drop_first() =~= Seq::<(StringId, DeclarationId)>::empty());
        assert(member_of(s.drop_first(), other) == None::<DeclarationId>);
    } else if members[0].0 == str_id {
        assert(s[0] == (str_id, member_id));
        assert(s.drop_first() =~= members.drop_first());
        if other != str_id {
            assert(member_of(s, other) == member_of(s.drop_first(), other));
            assert(member_of(members, other) == member_of(members.drop_first(), other));
        }
    } else {
        lemma_member_read_after_write(members.drop_first(), str_id, member_id, other);
        assert(s[0] == members[0]);
        assert(s.drop_first() =~= set_member(members.drop_first(), str_id, member_id));
        if other != str_id && members[0].0 != other {
            assert(member_of(s, other) == member_of(s.drop_first(), other));
            assert(member_of(members, other) == member_of(members.drop_first(), other));
        }
    }
}

/// The member named `str_id` in `members`, if any.
pub fn member_lookup(members: &Vec<(StringId, DeclarationId)>, str_id: StringId) -> (r: Option<DeclarationId>)
    ensures
        r == member_of(members@, str_id),
{
    let mut i: usize = 0;
    assert(members@.skip(0) =~= members@);
    while i < members.len()
        invariant
            i <= members@.len(),
            member_of(members@, str_id) == member_of(members@.skip(i as int), str_id),
        decreases members@.len() - i,
    {
        assert(members@.skip(i as int).drop_first() =~= members@.skip(i + 1));
        if members[i].0.value == str_id.value {
            return Some(members[i].1);
        }
        i = i + 1;
    }
    None
}

fn set_member_exec(members: &Vec<(StringId, DeclarationId)>, str_id: StringId, member_id: DeclarationId) -> (r: Vec<(StringId, DeclarationId)>)
    ensures
        r@ == set_member(members@, str_id, member_id),
{
    let mut i: usize = 0;
    while i < members.len()
        invariant
            i <= members@.len(),
            forall|j: int| 0 <= j < i ==> (#[trigger] members@[j]).0 != str_id,
        decreases members@.len() - i,
    {
        if members[i].0.value == str_id.value {
            let mut r = copy_members(members);
            r.set(i, (str_id, member_id));
            proof {
                lemma_set_member_at(members@, str_id, member_id, i as int);
            }
            return r;
        }
        i = i + 1;
    }
    let mut r = copy_members(members);
    r.push((str_id, member_id));
    proof {
        lemma_set_member_absent(members@, str_id, member_id);
        assert(r@ =~= members@.push((str_id, member_id)));
    }
    r
}

fn copy_members(members: &Vec<(StringId, DeclarationId)>) -> (r: Vec<(StringId, DeclarationId)>)
    ensures
        r@ == members@,
{
    let mut r: Vec<(StringId, DeclarationId)> = Vec::new();
    let mut i: usize = 0;
    while i < members.len()
        invariant
            i <= members@.len(),
            r@ == members@.take(i as int),
        decreases members@.len() - i,
    {
        r.push(members[i]);
        i = i + 1;
        assert(r@ =~= members@.take(i as int));
    }
    assert(members@.take(i as int) =~= members@);
    r
}

proof fn lemma_set_member_at(members: Seq<(StringId, DeclarationId)>, str_id: StringId, member_id: DeclarationId, i: int)
    requires
        0 <= i < members.len(),
        members[i].0 == str_id,
        forall|j: int| 0 <= j < i ==> (#[trigger] members[j]).0 != str_id,
    ensures
        set_member(members, str_id, member_id) == members.update(i, (str_id, member_id)),
    decreases i,
{
    if i > 0 {
        let t = members.drop_first();
        assert forall|j: int| 0 <= j < i - 1 implies (#[trigger] t[j]).0 != str_id by {
            assert(t[j] == members[j + 1]);
        }
        lemma_set_member_at(t, str_id, member_id, i - 1);
        assert(members.update(i, (str_id, member_id)) =~= seq![members[0]] + t.update(i - 1, (str_id, member_id)));
    }
}

proof fn lemma_set_member_absent(members: Seq<(StringId, DeclarationId)>, str_id: StringId, member_id: DeclarationId)
    requires
        forall|j: int| 0 <= j < members.len() ==> (#[trigger] members[j]).0 != str_id,
    ensures
        set_member(members, str_id, member_id) == members.push((str_id, member_id)),
    decreases members.len(),
{
    if members.len() > 0 {
        let t = members.drop_first();
        assert forall|j: int| 0 <= j < t.len() implies (#[trigger] t[j]).0 != str_id by {
            assert(t[j] == members[j + 1]);
        }
        lemma_set_member_absent(t, str_id, member_id);
        assert(members.push((str_id, member_id)) =~= seq![members[0]] + t.push((str_id, member_id)));
    }
}

/// Whether `ids` holds `id`.
pub fn contains_definition(ids: &Vec<DefinitionId>, id: DefinitionId) -> (r: bool)
    ensures
        r == ids@.contains(id),
{
    let mut i: usize = 0;
    while i < ids.len()
        invariant
            i <= ids@.len(),
            forall|j: int| 0 <= j < i ==> ids@[j] != id,
        decreases ids@.len() - i,
    {
        if ids[i].value == id.value {
            assert(ids@[i as int] == id);
            return true;
        }
        i = i + 1;
    }
    false
}

} // verus!
