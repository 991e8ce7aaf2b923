//! Graph operations for method visibility operations (`private :foo`, `module_function :foo`, ...)
//! and the copies and dependencies they create.

use std::collections::HashSet;
use vstd::prelude::*;
use super::{other_diagnostics, Graph};
use crate::graph_indexes::pair_key;
use crate::seqs::without;
use crate::ids::{DeclarationId, DefinitionId, StringId};
use crate::model::{Declaration, DeclarationKind, Definition, DefinitionKind, Diagnostic, Unit};
use crate::seqs::{lemma_pushed_unique, pushed_unique};

verus! {

broadcast use vstd::std_specs::hash::group_hash_axioms;

/// A list of visibility definitions to resolve again, each listed once, in order of discovery.
pub struct VisibilityWork {
    seen: HashSet<u64>,
    ids: Vec<DefinitionId>,
}

impl VisibilityWork {
    /// The listed definitions, in order.
    pub closed spec fn ids_view(&self) -> Seq<DefinitionId> {
        self.ids@
    }

    pub closed spec fn wf(&self) -> bool {
        &&& self.ids@.no_duplicates()
        &&& forall|v: u64| #[trigger] self.seen@.contains(v) <==> self.ids@.contains(DefinitionId { value: v })
    }

    pub fn new() -> (w: Self)
        ensures
            w.wf(),
            w.ids_view() == Seq::<DefinitionId>::empty(),
    {
        VisibilityWork { seen: HashSet::new(), ids: Vec::new() }
    }

    /// Lists `visibility_definition_id` unless it is listed already.
    pub fn push(&mut self, visibility_definition_id: DefinitionId)
        requires
            old(self).wf(),
        ensures
            final(self).wf(),
            final(self).ids_view() == pushed_unique(old(self).ids_view(), visibility_definition_id),
    {
        let ghost old_ids = self.ids@;
        if self.seen.insert(visibility_definition_id.value) {
            self.ids.push(visibility_definition_id);
        }
        proof {
            lemma_pushed_unique(old_ids, visibility_definition_id);
            assert(old_ids.contains(visibility_definition_id) == old(self).seen@.contains(visibility_definition_id.value));
            assert forall|v: u64| #[trigger] self.seen@.contains(v) <==> self.ids@.contains(DefinitionId { value: v }) by {
                assert(old(self).seen@.contains(v) <==> old_ids.contains(DefinitionId { value: v }));
            }
        }
    }

    /// The listed definitions, in order.
    pub fn into_vec(self) -> (v: Vec<DefinitionId>)
        requires
            self.wf(),
        ensures
            v@ == self.ids_view(),
            v@.no_duplicates(),
    {
        self.ids
    }
}

/// The list that pushing each of `xs` in turn onto `w` gives (see `VisibilityWork::push`).
pub open spec fn pushed_all(w: Seq<DefinitionId>, xs: Seq<DefinitionId>) -> Seq<DefinitionId>
    decreases xs.len(),
{
    if xs.len() == 0 {
        w
    } else {
        pushed_unique(pushed_all(w, xs.drop_last()), xs.last())
    }
}

/// Whether the elements of `r` come in the order of their first occurrence in `xs`: each comes
/// in `xs` before every occurrence of any later element of `r`.
pub open spec fn in_first_occurrence_order(xs: Seq<DefinitionId>, r: Seq<DefinitionId>) -> bool {
    forall|i: int, j: int, b: int| #![trigger xs[b], r[i], r[j]]
        0 <= i < j < r.len() && 0 <= b < xs.len() && xs[b] == r[j] ==> xs.take(b).contains(r[i])
}

/// Pushing `xs` in turn onto an empty work list keeps the first occurrence of each: the list
/// holds each of `xs` exactly once, nothing else, and in the order of first occurrence in `xs`
/// (an element comes before another when it occurs in `xs` before every occurrence of the other).
pub proof fn lemma_pushes_keep_first_occurrences(xs: Seq<DefinitionId>)
    ensures
        pushed_all(Seq::empty(), xs).no_duplicates(),
        forall|x: DefinitionId| #[trigger] pushed_all(Seq::empty(), xs).contains(x) <==> xs.contains(x),
        in_first_occurrence_order(xs, pushed_all(Seq::empty(), xs)),
    decreases xs.len(),
{
    if xs.len() > 0 {
        let p = xs.drop_last();
        let x = xs.last();
        let r0 = pushed_all(Seq::empty(), p);
        let r = pushed_all(Seq::empty(), xs);
        lemma_pushes_keep_first_occurrences(p);
        lemma_pushed_unique(r0, x);
        assert(r == pushed_unique(r0, x));
        assert forall|y: DefinitionId| #[trigger] r.contains(y) <==> xs.contains(y) by {
            assert(r0.contains(y) <==> p.contains(y));
            assert(r.contains(y) <==> (r0.contains(y) || y == x));
            if p.contains(y) {
                let k = choose|k: int| 0 <= k < p.len() && p[k] == y;
                assert(xs[k] == y);
            }
            if y == x {
                assert(xs[xs.len() - 1] == y);
            }
            if xs.contains(y) {
                let k = choose|k: int| 0 <= k < xs.len() && xs[k] == y;
                if k < p.len() {
                    assert(p[k] == y);
                } else {
                    assert(y == x);
                }
            }
        }
        assert(in_first_occurrence_order(p, r0));
        assert forall|i: int, j: int, b: int| #![trigger xs[b], r[i], r[j]]
            0 <= i < j < r.len() && 0 <= b < xs.len() && xs[b] == r[j] implies xs.take(b).contains(r[i]) by {
            assert(r[i] == r0[i]);
            assert(r0.contains(r0[i]));
            let a0 = choose|a: int| 0 <= a < p.len() && p[a] == r0[i];
            if j < r0.len() {
                assert(r[j] == r0[j]);
                if b < p.len() {
                    assert(p[b] == r0[j]);
                    assert(p.take(b).contains(r0[i]));
                    let a = choose|a: int| 0 <= a < b && p.take(b)[a] == r0[i];
                    assert(xs.take(b)[a] == r[i]);
                } else {
                    assert(xs.take(b)[a0] == r[i]);
                }
            } else {
                assert(!r0.contains(x));
                assert(r[j] == x);
                if b < p.len() {
                    assert(p[b] == x);
                    assert(p.contains(x));
                }
                assert(xs.take(b)[a0] == r[i]);
            }
        }
        assert(in_first_occurrence_order(xs, r));
    } else {
        assert(pushed_all(Seq::<DefinitionId>::empty(), xs).len() == 0);
    }
}


/// Lists `owner_id` in `owner_ids` unless `seen_owner_ids` holds it.
fn push_unique_owner(owner_id: DeclarationId, seen_owner_ids: &mut HashSet<u64>, owner_ids: &mut Vec<DeclarationId>)
    requires
        forall|v: u64| #[trigger] old(seen_owner_ids)@.contains(v) <==> old(owner_ids)@.contains(DeclarationId { value: v }),
        old(owner_ids)@.no_duplicates(),
    ensures
        forall|v: u64| #[trigger] final(seen_owner_ids)@.contains(v) <==> final(owner_ids)@.contains(DeclarationId { value: v }),
        final(owner_ids)@ == pushed_unique(old(owner_ids)@, owner_id),
        final(owner_ids)@.no_duplicates(),
{
    let ghost old_ids = owner_ids@;
    if seen_owner_ids.insert(owner_id.value) {
        owner_ids.push(owner_id);
    }
    proof {
        lemma_pushed_unique(old_ids, owner_id);
        assert(old_ids.contains(owner_id) == old(seen_owner_ids)@.contains(owner_id.value));
        assert forall|v: u64| #[trigger] seen_owner_ids@.contains(v) <==> owner_ids@.contains(DeclarationId { value: v }) by {
            assert(old(seen_owner_ids)@.contains(v) <==> old_ids.contains(DeclarationId { value: v }));
        }
    }
}

/// `work` extended with those of `ids` that exist in `g`, each once.
pub open spec fn extend_existing(defs: Map<u64, Definition>, work: Seq<DefinitionId>, ids: Seq<DefinitionId>) -> Seq<DefinitionId>
    decreases ids.len(),
{
    if ids.len() == 0 {
        work
    } else {
        let prefix = extend_existing(defs, work, ids.drop_last());
        if defs.contains_key(ids.last().value) {
            pushed_unique(prefix, ids.last())
        } else {
            prefix
        }
    }
}

/// The owner itself, then each of its descendants, each once.
pub open spec fn owner_dependents(g: &Graph, owner_id: DeclarationId) -> Seq<DeclarationId> {
    let descendants = if g.decls().contains_key(owner_id.value) && g.decls()[owner_id.value].is_namespace() {
        g.decls()[owner_id.value].descendants@
    } else {
        Seq::empty()
    };
    unique_prefix(seq![owner_id] + descendants, (seq![owner_id] + descendants).len() as int)
}

/// The first `n` elements of `s`, keeping the first occurrence of each.
pub open spec fn unique_prefix<T>(s: Seq<T>, n: int) -> Seq<T>
    decreases n,
{
    if n <= 0 {
        Seq::empty()
    } else {
        pushed_unique(unique_prefix(s, n - 1), s[n - 1])
    }
}

proof fn lemma_unique_prefix<T>(s: Seq<T>, n: int)
    ensures
        unique_prefix(s, n).no_duplicates(),
    decreases n,
{
    if n > 0 {
        lemma_unique_prefix(s, n - 1);
        lemma_pushed_unique(unique_prefix(s, n - 1), s[n - 1]);
    }
}

proof fn lemma_unique_prefix_contains<T>(s: Seq<T>, n: int)
    requires
        0 <= n <= s.len(),
    ensures
        forall|x: T| #[trigger] unique_prefix(s, n).contains(x) <==> s.take(n).contains(x),
        n > 0 ==> unique_prefix(s, n).len() > 0 && unique_prefix(s, n)[0] == s[0],
    decreases n,
{
    if n > 0 {
        lemma_unique_prefix_contains(s, n - 1);
        let u = unique_prefix(s, n - 1);
        lemma_pushed_unique(u, s[n - 1]);
        let t0 = s.take(n - 1);
        let t1 = s.take(n);
        assert forall|x: T| #[trigger] unique_prefix(s, n).contains(x) <==> t1.contains(x) by {
            assert(u.contains(x) <==> t0.contains(x));
            if t0.contains(x) {
                let k = choose|k: int| 0 <= k < t0.len() && t0[k] == x;
                assert(t1[k] == x);
            }
            if x == s[n - 1] {
                assert(t1[n - 1] == x);
            }
            if t1.contains(x) {
                let k = choose|k: int| 0 <= k < t1.len() && t1[k] == x;
                if k < n - 1 {
                    assert(t0[k] == x);
                }
            }
        }
        if n - 1 > 0 {
            assert(u.len() > 0);
        } else {
            assert(u =~= Seq::<T>::empty());
        }
    }
}

/// The owners that a change of one of `owner_id`'s members reaches: `owner_id` first, then each
/// namespace that descends from it when it is a namespace, each once and nothing else.
pub proof fn lemma_owner_dependents_are_owner_and_descendants(g: &Graph, owner_id: DeclarationId)
    ensures
        owner_dependents(g, owner_id).no_duplicates(),
        owner_dependents(g, owner_id).len() > 0,
        owner_dependents(g, owner_id)[0] == owner_id,
        forall|d: DeclarationId| #[trigger] owner_dependents(g, owner_id).contains(d) <==> (d == owner_id
            || (g.decls().contains_key(owner_id.value) && g.decls()[owner_id.value].is_namespace()
                && g.decls()[owner_id.value].descendants@.contains(d))),
{
    let descendants = if g.decls().contains_key(owner_id.value) && g.decls()[owner_id.value].is_namespace() {
        g.decls()[owner_id.value].descendants@
    } else {
        Seq::empty()
    };
    let all = seq![owner_id] + descendants;
    lemma_unique_prefix(all, all.len() as int);
    lemma_unique_prefix_contains(all, all.len() as int);
    assert(all.take(all.len() as int) =~= all);
    assert forall|d: DeclarationId| #[trigger] all.contains(d) <==> (d == owner_id || descendants.contains(d)) by {
        if d == owner_id {
            assert(all[0] == d);
        }
        if descendants.contains(d) {
            let k = choose|k: int| 0 <= k < descendants.len() && descendants[k] == d;
            assert(all[k + 1] == d);
        }
        if all.contains(d) {
            let k = choose|k: int| 0 <= k < all.len() && all[k] == d;
            if k > 0 {
                assert(descendants[k - 1] == d);
            }
        }
    }
}

impl Graph {
    /// Lists `visibility_definition_id` in `visibility_definition_ids` when the definition still
    /// exists.
    fn push_existing_visibility_work(&self, visibility_definition_id: DefinitionId, visibility_definition_ids: &mut VisibilityWork)
        requires
            old(visibility_definition_ids).wf(),
        ensures
            final(visibility_definition_ids).wf(),
            final(visibility_definition_ids).ids_view() == extend_existing(self.defs(), old(visibility_definition_ids).ids_view(), seq![visibility_definition_id]),
    {
        if self.definitions.contains_key(&visibility_definition_id.value) {
            visibility_definition_ids.push(visibility_definition_id);
        }
        proof {
            let w = old(visibility_definition_ids).ids_view();
            assert(seq![visibility_definition_id].drop_last() =~= Seq::<DefinitionId>::empty());
            assert(extend_existing(self.defs(), w, Seq::<DefinitionId>::empty()) == w);
        }
    }

    /// Lists each of `source_visibility_ids` that still exists, each once.
    fn push_unique_visibility_work(&self, source_visibility_ids: Vec<DefinitionId>, visibility_ids: &mut VisibilityWork)
        requires
            old(visibility_ids).wf(),
        ensures
            final(visibility_ids).wf(),
            final(visibility_ids).ids_view() == extend_existing(self.defs(), old(visibility_ids).ids_view(), source_visibility_ids@),
    {
        let ghost start = visibility_ids.ids_view();
        let mut i: usize = 0;
        while i < source_visibility_ids.len()
            invariant
                visibility_ids.wf(),
                i <= source_visibility_ids@.len(),
                visibility_ids.ids_view() == extend_existing(self.defs(), start, source_visibility_ids@.take(i as int)),
            decreases source_visibility_ids@.len() - i,
        {
            let ghost prev = visibility_ids.ids_view();
            let x = source_visibility_ids[i];
            self.push_existing_visibility_work(x, visibility_ids);
            proof {
                let t = source_visibility_ids@.take(i + 1);
                assert(t.drop_last() =~= source_visibility_ids@.take(i as int));
                assert(t.last() == x);
                let one = seq![x];
                assert(one.drop_last() =~= Seq::<DefinitionId>::empty());
                assert(one.last() == x);
                assert(extend_existing(self.defs(), prev, Seq::<DefinitionId>::empty()) == prev);
                assert(extend_existing(self.defs(), prev, one) == if self.defs().contains_key(x.value) {
                    pushed_unique(prev, x)
                } else {
                    prev
                });
            }
            i = i + 1;
        }
        assert(source_visibility_ids@.take(i as int) =~= source_visibility_ids@);
    }

    /// The owner and each of its descendants, each once: the namespaces whose inherited
    /// visibility declarations and generated copies may depend on a member of the owner.
    fn method_visibility_owner_dependents(&self, owner_id: DeclarationId) -> (owner_ids: Vec<DeclarationId>)
        ensures
            owner_ids@ == owner_dependents(self, owner_id),
            owner_ids@.no_duplicates(),
    {
        let ghost all = seq![owner_id] + if self.decls().contains_key(owner_id.value) && self.decls()[owner_id.value].is_namespace() {
            self.decls()[owner_id.value].descendants@
        } else {
            Seq::empty()
        };
        let mut seen_owner_ids: HashSet<u64> = HashSet::new();
        let mut owner_ids: Vec<DeclarationId> = Vec::new();
        proof {
            assert(unique_prefix(all, 0) =~= Seq::<DeclarationId>::empty());
        }
        push_unique_owner(owner_id, &mut seen_owner_ids, &mut owner_ids);
        proof {
            assert(all[0] == owner_id);
            assert(owner_ids@ == unique_prefix(all, 1));
        }
        if let Some(declaration) = self.declarations.get(&owner_id.value) {
            if declaration.is_namespace_exec() {
                let descendants = &declaration.descendants;
                let mut i: usize = 0;
                while i < descendants.len()
                    invariant
                        i <= descendants@.len(),
                        all == seq![owner_id] + descendants@,
                        owner_ids@ == unique_prefix(all, i + 1),
                        owner_ids@.no_duplicates(),
                        forall|v: u64| #[trigger] seen_owner_ids@.contains(v) <==> owner_ids@.contains(DeclarationId { value: v }),
                    decreases descendants@.len() - i,
                {
                    push_unique_owner(descendants[i], &mut seen_owner_ids, &mut owner_ids);
                    proof {
                        assert(all[i + 1] == descendants@[i as int]);
                    }
                    i = i + 1;
                }
            }
        }
        proof {
            lemma_unique_prefix(all, all.len() as int);
        }
        owner_ids
    }

    /// The visibility operations among the definitions of `declaration_id`, in order.
    fn method_visibility_definition_ids_for_declaration(&self, declaration_id: DeclarationId) -> (ids: Vec<DefinitionId>)
        ensures
            ids@ == if self.decls().contains_key(declaration_id.value) {
                self.decls()[declaration_id.value].definitions@.filter(|d: DefinitionId| self.is_visibility_def(d.value))
            } else {
                Seq::<DefinitionId>::empty()
            },
    {
        let mut ids: Vec<DefinitionId> = Vec::new();
        if let Some(declaration) = self.declarations.get(&declaration_id.value) {
            let definitions = &declaration.definitions;
            let ghost p = |d: DefinitionId| self.is_visibility_def(d.value);
            let mut i: usize = 0;
            while i < definitions.len()
                invariant
                    i <= definitions@.len(),
                    p == (|d: DefinitionId| self.is_visibility_def(d.value)),
                    ids@ == definitions@.take(i as int).filter(p),
                decreases definitions@.len() - i,
            {
                proof {
                    reveal(Seq::filter);
                    assert(definitions@.take(i + 1).drop_last() =~= definitions@.take(i as int));
                }
                let id = definitions[i];
                let is_visibility = match self.definitions.get(&id.value) {
                    Some(definition) => definition.is_method_visibility_exec(),
                    None => false,
                };
                if is_visibility {
                    ids.push(id);
                }
                i = i + 1;
            }
            assert(definitions@.take(i as int) =~= definitions@);
        }
        ids
    }

    /// Whether some visibility operation could depend on a change of a method member.
    fn has_method_visibility_member_change_dependents(&self) -> (r: bool)
        requires
            self.wf(),
        ensures
            r == (!self.unresolved().keys().dom().is_empty() || !self.applied().index().is_empty_spec()
                || !self.copies().ancestor_deps().is_empty_spec()),
    {
        !self.unresolved_method_visibilities.is_empty() || !self.applied_method_visibilities.is_empty()
            || self.module_function_copies.has_ancestor_dependent_visibilities()
    }
}


/// Whether `d` reports the undefined target of visibility operation `v` in `g`.
pub open spec fn reports_target_of(g: &Graph, d: Diagnostic, v: u64) -> bool {
    g.is_visibility_def(v) && super::is_undefined_target_diagnostic(d, g.defs()[v].uri_id, g.defs()[v].offset)
}

/// Whether visibility operation `v` of `g` targets singleton methods.
pub open spec fn is_singleton_visibility(g: &Graph, v: u64) -> bool {
    g.is_visibility_def(v) && g.defs()[v].flags.singleton_method_visibility
}

/// Whether the target diagnostic `d` of one of `ids` is kept on document `k`.
pub open spec fn dropped_from_doc(g: &Graph, ids: Seq<DefinitionId>, k: u64, d: Diagnostic) -> bool {
    exists|i: int| 0 <= i < ids.len() && is_singleton_visibility(g, (#[trigger] ids[i]).value)
        && g.defs()[ids[i].value].uri_id.value == k && reports_target_of(g, d, ids[i].value)
}

/// Whether the target diagnostic `d` of one of `ids` is kept on declaration `k`.
pub open spec fn dropped_from_decl(g: &Graph, ids: Seq<DefinitionId>, owner: DeclarationId, k: u64, d: Diagnostic) -> bool {
    k == owner.value && exists|i: int| 0 <= i < ids.len() && !is_singleton_visibility(g, (#[trigger] ids[i]).value)
        && reports_target_of(g, d, ids[i].value)
}

impl Graph {
    /// `self` is `old` with the target diagnostics of `ids` dropped: from their documents for
    /// singleton operations, from `owner` for the others. Everything else is unchanged.
    pub open spec fn drops_target_diagnostics(&self, old: &Graph, owner: DeclarationId, ids: Seq<DefinitionId>) -> bool {
        &&& self.drops_target_diagnostics_only(old, owner, ids)
        &&& self.frame(old, true, false, true, false, false, false, false, false, false)
    }

    /// The document and declaration part of [`Self::drops_target_diagnostics`].
    pub open spec fn drops_target_diagnostics_only(&self, old: &Graph, owner: DeclarationId, ids: Seq<DefinitionId>) -> bool {
        &&& self.same_doc_shapes(old)
        &&& self.same_decls_but_diagnostics(old)
        &&& forall|k: u64, d: Diagnostic| #[trigger] self.docs()[k].diagnostics@.contains(d) && old.docs().contains_key(k)
            ==> old.docs()[k].diagnostics@.contains(d)
        &&& forall|k: u64, d: Diagnostic| old.docs().contains_key(k) && #[trigger] old.docs()[k].diagnostics@.contains(d)
            ==> (self.docs()[k].diagnostics@.contains(d) <==> !dropped_from_doc(old, ids, k, d))
        &&& forall|k: u64, d: Diagnostic| #[trigger] self.decls()[k].diagnostics@.contains(d) && old.decls().contains_key(k)
            ==> old.decls()[k].diagnostics@.contains(d)
        &&& forall|k: u64, d: Diagnostic| old.decls().contains_key(k) && #[trigger] old.decls()[k].diagnostics@.contains(d)
            ==> (self.decls()[k].diagnostics@.contains(d) <==> !dropped_from_decl(old, ids, owner, k, d))
    }

    /// `self` is `old` with the target diagnostics of visibility operation `v` dropped, exactly.
    pub open spec fn drops_target_diagnostic_exactly(&self, old: &Graph, owner: DeclarationId, v: DefinitionId) -> bool {
        &&& forall|k: u64| #[trigger] old.docs().contains_key(k) ==> self.docs()[k].diagnostics@ == if is_singleton_visibility(old, v.value)
            && k == old.defs()[v.value].uri_id.value {
            other_diagnostics(old.docs()[k].diagnostics@, old.defs()[v.value].uri_id, old.defs()[v.value].offset)
        } else {
            old.docs()[k].diagnostics@
        }
        &&& forall|k: u64| #[trigger] old.decls().contains_key(k) ==> self.decls()[k].diagnostics@ == if old.is_visibility_def(v.value)
            && !is_singleton_visibility(old, v.value) && k == owner.value {
            other_diagnostics(old.decls()[k].diagnostics@, old.defs()[v.value].uri_id, old.defs()[v.value].offset)
        } else {
            old.decls()[k].diagnostics@
        }
    }

    /// Drops the diagnostics that report the undefined target of visibility operation
    /// `visibility_definition_id`: from its document for singleton operations, from `owner_id`
    /// for the others.
    pub fn remove_unresolved_method_visibility_diagnostic(&mut self, owner_id: DeclarationId, visibility_definition_id: DefinitionId)
        requires
            old(self).wf(),
        ensures
            final(self).wf(),
            final(self).drops_target_diagnostics(old(self), owner_id, seq![visibility_definition_id]),
            final(self).drops_target_diagnostic_exactly(old(self), owner_id, visibility_definition_id),
    {
        let ghost old_self = *old(self);
        let v = visibility_definition_id.value;
        let (uri_id, offset, singleton) = match self.definitions.get(&v) {
            Some(definition) => match &definition.kind {
                DefinitionKind::MethodVisibility { .. } => (definition.uri_id, definition.offset, definition.flags.singleton_method_visibility),
                _ => {
                    proof {
                        self.lemma_drops_nothing(owner_id, seq![visibility_definition_id]);
                    }
                    return;
                },
            },
            None => {
                proof {
                    self.lemma_drops_nothing(owner_id, seq![visibility_definition_id]);
                }
                return;
            },
        };
        let ghost ids = seq![visibility_definition_id];
        if singleton {
            self.retain_document_diagnostics(uri_id, uri_id, offset);
            proof {
                assert forall|k: u64, d: Diagnostic| old_self.docs().contains_key(k) && #[trigger] old_self.docs()[k].diagnostics@.contains(d)
                    implies (self.docs()[k].diagnostics@.contains(d) <==> !dropped_from_doc(&old_self, ids, k, d)) by {
                    if k == uri_id.value {
                        super::lemma_other_diagnostics(old_self.docs()[k].diagnostics@, uri_id, offset);
                        if !self.docs()[k].diagnostics@.contains(d) {
                            assert(ids[0] == visibility_definition_id);
                        }
                    }
                }
                assert forall|k: u64, d: Diagnostic| #[trigger] self.docs()[k].diagnostics@.contains(d) && old_self.docs().contains_key(k)
                    implies old_self.docs()[k].diagnostics@.contains(d) by {
                    if k == uri_id.value {
                        super::lemma_other_diagnostics(old_self.docs()[k].diagnostics@, uri_id, offset);
                    }
                }
            }
            return;
        }
        self.retain_declaration_diagnostics(owner_id, uri_id, offset);
        proof {
            assert forall|k: u64, d: Diagnostic| old_self.decls().contains_key(k) && #[trigger] old_self.decls()[k].diagnostics@.contains(d)
                implies (self.decls()[k].diagnostics@.contains(d) <==> !dropped_from_decl(&old_self, ids, owner_id, k, d)) by {
                if k == owner_id.value {
                    super::lemma_other_diagnostics(old_self.decls()[k].diagnostics@, uri_id, offset);
                    if !self.decls()[k].diagnostics@.contains(d) {
                        assert(ids[0] == visibility_definition_id);
                    }
                }
            }
            assert forall|k: u64, d: Diagnostic| #[trigger] self.decls()[k].diagnostics@.contains(d) && old_self.decls().contains_key(k)
                implies old_self.decls()[k].diagnostics@.contains(d) by {
                if k == owner_id.value {
                    super::lemma_other_diagnostics(old_self.decls()[k].diagnostics@, uri_id, offset);
                }
            }
        }
    }

    /// Dropping the target diagnostics of operations that are not visibility operations changes
    /// nothing.
    proof fn lemma_drops_nothing(&self, owner: DeclarationId, ids: Seq<DefinitionId>)
        requires
            forall|i: int| 0 <= i < ids.len() ==> !self.is_visibility_def((#[trigger] ids[i]).value),
        ensures
            self.drops_target_diagnostics(self, owner, ids),
    {
        assert(self.docs().dom() =~= self.docs().dom());
    }

    /// Drops the target diagnostics of each of `ids`, as
    /// [`Self::remove_unresolved_method_visibility_diagnostic`] does for one.
    fn remove_unresolved_method_visibility_diagnostics(&mut self, owner_id: DeclarationId, ids: &Vec<DefinitionId>)
        requires
            old(self).wf(),
        ensures
            final(self).wf(),
            final(self).drops_target_diagnostics(old(self), owner_id, ids@),
    {
        let ghost old_self = *old(self);
        let mut i: usize = 0;
        proof {
            assert(old_self.docs().dom() =~= old_self.docs().dom());
        }
        while i < ids.len()
            invariant
                self.wf(),
                i <= ids@.len(),
                self.drops_target_diagnostics(&old_self, owner_id, ids@.take(i as int)),
                self.defs() == old_self.defs(),
            decreases ids@.len() - i,
        {
            let ghost before = *self;
            self.remove_unresolved_method_visibility_diagnostic(owner_id, ids[i]);
            proof {
                let t = ids@.take(i as int);
                let t1 = ids@.take(i + 1);
                let one = seq![ids@[i as int]];
                assert forall|k: u64, d: Diagnostic| old_self.docs().contains_key(k) && #[trigger] old_self.docs()[k].diagnostics@.contains(d)
                    implies (self.docs()[k].diagnostics@.contains(d) <==> !dropped_from_doc(&old_self, t1, k, d)) by {
                    assert(dropped_from_doc(&old_self, t1, k, d) <==> (dropped_from_doc(&old_self, t, k, d) || dropped_from_doc(&before, one, k, d))) by {
                        if dropped_from_doc(&old_self, t1, k, d) {
                            let j = choose|j: int| 0 <= j < t1.len() && is_singleton_visibility(&old_self, (#[trigger] t1[j]).value)
                                && old_self.defs()[t1[j].value].uri_id.value == k && reports_target_of(&old_self, d, t1[j].value);
                            if j < i {
                                assert(t[j] == t1[j]);
                            } else {
                                assert(one[0] == t1[j]);
                            }
                        }
                        if dropped_from_doc(&old_self, t, k, d) {
                            let j = choose|j: int| 0 <= j < t.len() && is_singleton_visibility(&old_self, (#[trigger] t[j]).value)
                                && old_self.defs()[t[j].value].uri_id.value == k && reports_target_of(&old_self, d, t[j].value);
                            assert(t1[j] == t[j]);
                        }
                        if dropped_from_doc(&before, one, k, d) {
                            assert(t1[i as int] == one[0]);
                        }
                    }
                    if before.docs()[k].diagnostics@.contains(d) {
                    }
                }
                assert forall|k: u64, d: Diagnostic| #[trigger] self.docs()[k].diagnostics@.contains(d) && old_self.docs().contains_key(k)
                    implies old_self.docs()[k].diagnostics@.contains(d) by {
                    assert(before.docs().contains_key(k));
                    assert(before.docs()[k].diagnostics@.contains(d));
                }
                assert forall|k: u64, d: Diagnostic| old_self.decls().contains_key(k) && #[trigger] old_self.decls()[k].diagnostics@.contains(d)
                    implies (self.decls()[k].diagnostics@.contains(d) <==> !dropped_from_decl(&old_self, t1, owner_id, k, d)) by {
                    assert(dropped_from_decl(&old_self, t1, owner_id, k, d) <==> (dropped_from_decl(&old_self, t, owner_id, k, d) || dropped_from_decl(&before, one, owner_id, k, d))) by {
                        if dropped_from_decl(&old_self, t1, owner_id, k, d) {
                            let j = choose|j: int| 0 <= j < t1.len() && !is_singleton_visibility(&old_self, (#[trigger] t1[j]).value)
                                && reports_target_of(&old_self, d, t1[j].value);
                            if j < i {
                                assert(t[j] == t1[j]);
                            } else {
                                assert(one[0] == t1[j]);
                            }
                        }
                        if dropped_from_decl(&old_self, t, owner_id, k, d) {
                            let j = choose|j: int| 0 <= j < t.len() && !is_singleton_visibility(&old_self, (#[trigger] t[j]).value)
                                && reports_target_of(&old_self, d, t[j].value);
                            assert(t1[j] == t[j]);
                        }
                        if dropped_from_decl(&before, one, owner_id, k, d) {
                            assert(t1[i as int] == one[0]);
                        }
                    }
                }
                assert forall|k: u64, d: Diagnostic| #[trigger] self.decls()[k].diagnostics@.contains(d) && old_self.decls().contains_key(k)
                    implies old_self.decls()[k].diagnostics@.contains(d) by {
                    assert(before.decls().contains_key(k));
                    assert(before.decls()[k].diagnostics@.contains(d));
                }
            }
            i = i + 1;
        }
        assert(ids@.take(i as int) =~= ids@);
    }
}

/// Raw identifiers as definition identifiers.
pub open spec fn as_definition_ids(s: Seq<u64>) -> Seq<DefinitionId> {
    s.map_values(|v: u64| DefinitionId { value: v })
}

/// Raw identifiers as definition identifiers.
fn to_definition_ids(ids: &Vec<u64>) -> (r: Vec<DefinitionId>)
    ensures
        r@ == as_definition_ids(ids@),
{
    let mut r: Vec<DefinitionId> = Vec::new();
    let mut i: usize = 0;
    while i < ids.len()
        invariant
            i <= ids@.len(),
            r@ == as_definition_ids(ids@.take(i as int)),
        decreases ids@.len() - i,
    {
        r.push(DefinitionId::new(ids[i]));
        i = i + 1;
        assert(r@ =~= as_definition_ids(ids@.take(i as int)));
    }
    assert(ids@.take(i as int) =~= ids@);
    r
}

/// Resolution work for each of `ids`, in order.
pub open spec fn definition_units(ids: Seq<DefinitionId>) -> Seq<Unit> {
    ids.map_values(|d: DefinitionId| Unit::Definition(d))
}

impl Graph {
    /// Stops tracking visibility operation `visibility_definition_id` as unresolved; returns the
    /// owner it was tracked under.
    pub fn remove_unresolved_method_visibility(&mut self, visibility_definition_id: DefinitionId) -> (owner: Option<DeclarationId>)
        requires
            old(self).wf(),
        ensures
            final(self).wf(),
            owner == if old(self).unresolved().keys().contains_key(visibility_definition_id.value) {
                Some(old(self).unresolved().keys()[visibility_definition_id.value].owner_id)
            } else {
                None
            },
            final(self).unresolved().keys() == old(self).unresolved().keys().remove(visibility_definition_id.value),
            forall|o: u64| #[trigger] final(self).unresolved().owned(o) == without(old(self).unresolved().owned(o), visibility_definition_id.value),
            forall|k: u128| #[trigger] final(self).unresolved().for_member(k) == without(old(self).unresolved().for_member(k), visibility_definition_id.value),
            final(self).frame(old(self), false, false, false, false, false, false, false, false, true),
    {
        self.unresolved_method_visibilities.remove(visibility_definition_id)
    }

    /// The effect of marking visibility operation `visibility_definition_id` resolved from `old`.
    pub open spec fn visibility_marked_resolved(&self, old: &Graph, visibility_definition_id: DefinitionId) -> bool {
        &&& self.unresolved().keys() == old.unresolved().keys().remove(visibility_definition_id.value)
        &&& forall|o: u64| #[trigger] self.unresolved().owned(o) == without(old.unresolved().owned(o), visibility_definition_id.value)
        &&& forall|k: u128| #[trigger] self.unresolved().for_member(k) == without(old.unresolved().for_member(k), visibility_definition_id.value)
        &&& old.unresolved().keys().contains_key(visibility_definition_id.value) ==> self.drops_target_diagnostics_only(
            old,
            old.unresolved().keys()[visibility_definition_id.value].owner_id,
            seq![visibility_definition_id],
        )
        &&& !old.unresolved().keys().contains_key(visibility_definition_id.value) ==> self.docs() == old.docs()
            && self.decls() == old.decls()
        &&& self.frame(old, true, false, true, false, false, false, false, false, true)
    }

    /// Marks visibility operation `visibility_definition_id` as resolved: it is no longer tracked
    /// as unresolved and its undefined-target diagnostic is dropped.
    pub fn mark_method_visibility_resolved(&mut self, visibility_definition_id: DefinitionId)
        requires
            old(self).wf(),
        ensures
            final(self).wf(),
            final(self).visibility_marked_resolved(old(self), visibility_definition_id),

    {
        if let Some(owner_id) = self.remove_unresolved_method_visibility(visibility_definition_id) {
            self.remove_unresolved_method_visibility_diagnostic(owner_id, visibility_definition_id);
        }
    }

    /// The effect of tracking visibility operation `visibility_definition_id` as unresolved for
    /// member `str_id` of `owner_id` from `old`.
    pub open spec fn unresolved_visibility_tracked(&self, old: &Graph, owner_id: DeclarationId, str_id: StringId, visibility_definition_id: DefinitionId) -> bool {
        &&& self.unresolved().keys() == old.unresolved().keys().insert(
            visibility_definition_id.value,
            crate::graph_indexes::MethodVisibilityDependencyKey { owner_id, str_id },
        )
        &&& old.unresolved().moves(visibility_definition_id.value, crate::graph_indexes::MethodVisibilityDependencyKey { owner_id, str_id })
            ==> self.drops_target_diagnostics_only(
            old,
            old.unresolved().keys()[visibility_definition_id.value].owner_id,
            seq![visibility_definition_id],
        )
        &&& !old.unresolved().moves(visibility_definition_id.value, crate::graph_indexes::MethodVisibilityDependencyKey { owner_id, str_id })
            ==> self.docs() == old.docs() && self.decls() == old.decls()
        &&& self.frame(old, true, false, true, false, false, false, false, false, true)
    }

    /// Tracks visibility operation `visibility_definition_id` as unresolved for member `str_id`
    /// of `owner_id`. When it was tracked under another owner, that owner's diagnostic is dropped.
    pub fn track_unresolved_method_visibility(&mut self, owner_id: DeclarationId, str_id: StringId, visibility_definition_id: DefinitionId)
        requires
            old(self).wf(),
        ensures
            final(self).wf(),
            final(self).unresolved_visibility_tracked(old(self), owner_id, str_id, visibility_definition_id),

    {
        if let Some(old_owner_id) = self.unresolved_method_visibilities.track(owner_id, str_id, visibility_definition_id) {
            self.remove_unresolved_method_visibility_diagnostic(old_owner_id, visibility_definition_id);
        }
    }

    /// The effect of reporting `diagnostic` for the undefined target of visibility operation
    /// `visibility_definition_id` from `old`.
    pub open spec fn target_diagnostic_reported(&self, old: &Graph, owner_id: DeclarationId, visibility_definition_id: DefinitionId, diagnostic: Diagnostic) -> bool {
        &&& self.same_doc_shapes(old)
        &&& self.same_decls_but_diagnostics(old)
        &&& forall|k: u64| #[trigger] old.docs().contains_key(k) ==> self.docs()[k].diagnostics@ == if is_singleton_visibility(old, visibility_definition_id.value)
            && k == old.defs()[visibility_definition_id.value].uri_id.value {
            other_diagnostics(old.docs()[k].diagnostics@, old.defs()[visibility_definition_id.value].uri_id, old.defs()[visibility_definition_id.value].offset)
                .push(diagnostic)
        } else {
            old.docs()[k].diagnostics@
        }
        &&& forall|k: u64| #[trigger] old.decls().contains_key(k) ==> self.decls()[k].diagnostics@ == if old.is_visibility_def(visibility_definition_id.value)
            && !is_singleton_visibility(old, visibility_definition_id.value) && k == owner_id.value {
            other_diagnostics(old.decls()[k].diagnostics@, old.defs()[visibility_definition_id.value].uri_id, old.defs()[visibility_definition_id.value].offset)
                .push(diagnostic)
        } else {
            old.decls()[k].diagnostics@
        }
        &&& self.frame(old, true, false, true, false, false, false, false, false, false)
    }

    /// Reports the undefined target of visibility operation `visibility_definition_id`, replacing
    /// an earlier report: on its document for singleton operations, on `owner_id` for the others.
    pub fn add_unresolved_method_visibility_diagnostic(&mut self, owner_id: DeclarationId, visibility_definition_id: DefinitionId, diagnostic: Diagnostic)
        requires
            old(self).wf(),
        ensures
            final(self).wf(),
            final(self).target_diagnostic_reported(old(self), owner_id, visibility_definition_id, diagnostic),

    {
        self.remove_unresolved_method_visibility_diagnostic(owner_id, visibility_definition_id);
        let singleton = match self.definitions.get(&visibility_definition_id.value) {
            Some(definition) => match &definition.kind {
                DefinitionKind::MethodVisibility { .. } => Some((definition.flags.singleton_method_visibility, definition.uri_id)),
                _ => None,
            },
            None => None,
        };
        match singleton {
            Some((true, uri_id)) => self.add_document_diagnostic(uri_id, diagnostic),
            Some((false, _)) => self.add_declaration_diagnostic(owner_id, diagnostic),
            None => {},
        }
    }

    /// Forgets that visibility operation `visibility_definition_id` was applied.
    pub fn detach_applied_method_visibility(&mut self, visibility_definition_id: DefinitionId)
        requires
            old(self).wf(),
        ensures
            final(self).wf(),
            forall|k: u128, v: u64| #[trigger] final(self).applied().index().relates(k, v) <==> (old(self).applied().index().relates(k, v)
                && !(v == visibility_definition_id.value && old(self).is_visibility_def(visibility_definition_id.value))),
            forall|k: u128| #[trigger] final(self).applied().index().fwd(k) == if old(self).is_visibility_def(visibility_definition_id.value) {
                without(old(self).applied().index().fwd(k), visibility_definition_id.value)
            } else {
                old(self).applied().index().fwd(k)
            },
            final(self).frame(old(self), false, false, false, false, false, false, false, true, false),
    {
        let is_visibility = match self.definitions.get(&visibility_definition_id.value) {
            Some(definition) => definition.is_method_visibility_exec(),
            None => false,
        };
        if is_visibility {
            self.applied_method_visibilities.detach(visibility_definition_id);
        }
    }

    /// The effect of undoing the application of visibility operation `visibility_definition_id`
    /// from `old`.
    pub open spec fn visibility_declaration_detached(&self, old: &Graph, visibility_definition_id: DefinitionId) -> bool {
        &&& old.is_visibility_def(visibility_definition_id.value) ==> {
            &&& forall|k: u128, v: u64| #[trigger] self.applied().index().relates(k, v)
                <==> (old.applied().index().relates(k, v) && v != visibility_definition_id.value)
            &&& !self.def_decl().contains_key(visibility_definition_id.value)
                || self.def_decl() == old.def_decl()
            &&& old.def_decl().contains_key(visibility_definition_id.value) ==> {
                let decl = old.def_decl()[visibility_definition_id.value].value;
                &&& !self.def_decl().contains_key(visibility_definition_id.value)
                &&& self.def_decl() == old.def_decl().remove(visibility_definition_id.value)
                &&& old.decls().contains_key(decl) ==> self.decls()[decl].definitions@
                    == without(old.decls()[decl].definitions@, visibility_definition_id)
                &&& forall|k: u64| k != decl && #[trigger] self.decls().contains_key(k) ==> self.decls()[k] == old.decls()[k]
            }
            &&& !old.def_decl().contains_key(visibility_definition_id.value) ==> self.decls() == old.decls()
                && self.def_decl() == old.def_decl()
        }
        &&& !old.is_visibility_def(visibility_definition_id.value) ==> self.applied() == old.applied()
            && self.decls() == old.decls() && self.def_decl() == old.def_decl()
        &&& self.same_decl_shapes(old)
        &&& forall|k: u64| #[trigger] self.decls().contains_key(k) ==> self.decls()[k].diagnostics == old.decls()[k].diagnostics
        &&& self.frame(old, false, false, true, true, false, false, false, true, false)
    }

    /// Undoes the application of visibility operation `visibility_definition_id`: it no longer
    /// counts as applied nor as a definition of its declaration.
    pub fn detach_method_visibility_declaration(&mut self, visibility_definition_id: DefinitionId)
        requires
            old(self).wf(),
        ensures
            final(self).wf(),
            final(self).visibility_declaration_detached(old(self), visibility_definition_id),

    {
        let is_visibility = match self.definitions.get(&visibility_definition_id.value) {
            Some(definition) => definition.is_method_visibility_exec(),
            None => false,
        };
        if !is_visibility {
            assert(self.decls().dom() =~= old(self).decls().dom());
            return;
        }
        self.detach_applied_method_visibility(visibility_definition_id);
        if let Some(declaration_id) = self.definition_id_to_declaration_id(visibility_definition_id) {
            self.detach_definition_from_declaration(declaration_id, visibility_definition_id);
        }
        assert(self.decls().dom() =~= old(self).decls().dom());
    }

    /// Stops tracking every unresolved visibility operation of `owner_id`, drops their
    /// diagnostics, and returns them.
    pub fn take_unresolved_method_visibilities_for_owner(&mut self, owner_id: DeclarationId) -> (ids: Vec<DefinitionId>)
        requires
            old(self).wf(),
        ensures
            final(self).wf(),
            ids@ == as_definition_ids(old(self).unresolved().owned(owner_id.value)),
            forall|v: u64| #[trigger] final(self).unresolved().keys().contains_key(v)
                <==> (old(self).unresolved().keys().contains_key(v) && old(self).unresolved().keys()[v].owner_id != owner_id),
            forall|o: u64| #[trigger] final(self).unresolved().owned(o) == if o == owner_id.value {
                Seq::<u64>::empty()
            } else {
                old(self).unresolved().owned(o)
            },
            final(self).drops_target_diagnostics_only(old(self), owner_id, ids@),
            final(self).frame(old(self), true, false, true, false, false, false, false, false, true),
    {
        let raw = self.unresolved_method_visibilities.take_for_owner(owner_id);
        let ids = to_definition_ids(&raw);
        self.remove_unresolved_method_visibility_diagnostics(owner_id, &ids);
        ids
    }

    /// The effect of taking the unresolved visibility operations of member `member_str_id` of
    /// `owner_id` (`ids`), with their diagnostics, from `old`.
    pub open spec fn unresolved_member_taken(&self, old: &Graph, owner_id: DeclarationId, member_str_id: StringId, ids: Seq<DefinitionId>) -> bool {
        &&& ids == as_definition_ids(old.unresolved().for_member(pair_key(owner_id.value, member_str_id.value)))
        &&& forall|v: u64| #[trigger] self.unresolved().keys().contains_key(v)
            <==> (old.unresolved().keys().contains_key(v)
            && old.unresolved().keys()[v] != crate::graph_indexes::MethodVisibilityDependencyKey { owner_id, str_id: member_str_id })
        &&& forall|k: u128| #[trigger] self.unresolved().for_member(k) == if k == pair_key(owner_id.value, member_str_id.value) {
            Seq::<u64>::empty()
        } else {
            old.unresolved().for_member(k)
        }
        &&& self.drops_target_diagnostics_only(old, owner_id, ids)
        &&& self.frame(old, true, false, true, false, false, false, false, false, true)
    }

    /// Stops tracking every unresolved visibility operation of member `member_str_id` of
    /// `owner_id`, drops their diagnostics, and returns them.
    pub fn take_unresolved_method_visibilities_for_owner_and_member(&mut self, owner_id: DeclarationId, member_str_id: StringId) -> (ids: Vec<DefinitionId>)
        requires
            old(self).wf(),
        ensures
            final(self).wf(),
            final(self).unresolved_member_taken(old(self), owner_id, member_str_id, ids@),

    {
        let raw = self.unresolved_method_visibilities.take_for_owner_and_member(owner_id, member_str_id);
        let ids = to_definition_ids(&raw);
        self.remove_unresolved_method_visibility_diagnostics(owner_id, &ids);
        ids
    }

    /// Queues every unresolved visibility operation of `owner_id` for resolution again.
    pub fn requeue_unresolved_method_visibilities_for_owner(&mut self, owner_id: DeclarationId)
        requires
            old(self).wf(),
        ensures
            final(self).wf(),
            final(self).work() == old(self).work() + definition_units(as_definition_ids(old(self).unresolved().owned(owner_id.value))),
            forall|v: u64| #[trigger] final(self).unresolved().keys().contains_key(v)
                <==> (old(self).unresolved().keys().contains_key(v) && old(self).unresolved().keys()[v].owner_id != owner_id),
            final(self).drops_target_diagnostics_only(old(self), owner_id, as_definition_ids(old(self).unresolved().owned(owner_id.value))),
            final(self).frame(old(self), true, false, true, false, false, true, false, false, true),
    {
        let ids = self.take_unresolved_method_visibilities_for_owner(owner_id);
        let ghost start = self.work();
        let ghost mid = *self;
        let mut i: usize = 0;
        while i < ids.len()
            invariant
                self.wf(),
                self.frame(&mid, false, false, false, false, false, true, false, false, false),
                i <= ids@.len(),
                self.work() == start + definition_units(ids@.take(i as int)),
            decreases ids@.len() - i,
        {
            self.push_work(Unit::Definition(ids[i]));
            i = i + 1;
            assert(self.work() =~= start + definition_units(ids@.take(i as int)));
        }
        assert(ids@.take(i as int) =~= ids@);
    }
}

impl Graph {
    /// The first copy of `source_definition_id` that belongs to `copy_declaration_id`.
    pub fn find_module_function_copy(&self, source_definition_id: DefinitionId, copy_declaration_id: DeclarationId) -> (r: Option<DefinitionId>)
        requires
            self.wf(),
        ensures
            match r {
                Some(g) => exists|i: int|
                    0 <= i < self.copies().copies().sources(source_definition_id.value).len()
                        && #[trigger] self.copies().copies().sources(source_definition_id.value)[i] == g.value
                        && self.copies().copies().decl_of(g.value) == copy_declaration_id.value
                        && forall|j: int| 0 <= j < i ==> self.copies().copies().decl_of(#[trigger] self.copies().copies().sources(source_definition_id.value)[j]) != copy_declaration_id.value,
                None => forall|g: u64|
                    #[trigger] self.copies().copies().has(g) && self.copies().copies().source_of(g) == source_definition_id.value
                        ==> self.copies().copies().decl_of(g) != copy_declaration_id.value,
            },
    {
        self.module_function_copies.find(source_definition_id, copy_declaration_id)
    }

    /// The effect of recording that visibility operation `visibility_definition_id` also requested
    /// the copy `copy_definition_id`, from `old`.
    pub open spec fn copy_visibility_attached(&self, old: &Graph, copy_definition_id: DefinitionId, visibility_definition_id: DefinitionId) -> bool {
        &&& forall|x: u64| #[trigger] self.copies().copies().has(x) == old.copies().copies().has(x)
        &&& forall|x: u64| x != copy_definition_id.value ==> #[trigger] self.copies().copies().same_entry(&old.copies().copies(), x)
        &&& self.copies().copies().triggers_of(copy_definition_id.value)
            == pushed_unique(old.copies().copies().triggers_of(copy_definition_id.value), visibility_definition_id.value)
        &&& self.copies().copies().source_of(copy_definition_id.value) == old.copies().copies().source_of(copy_definition_id.value)
        &&& self.copies().copies().decl_of(copy_definition_id.value) == old.copies().copies().decl_of(copy_definition_id.value)
        &&& self.copies().alias_deps() == old.copies().alias_deps()
        &&& self.copies().ancestor_deps() == old.copies().ancestor_deps()
        &&& self.copies().member_deps() == old.copies().member_deps()
        &&& self.copies().document_deps() == old.copies().document_deps()
        &&& self.frame(old, false, false, false, false, false, false, true, false, false)
    }

    /// Records that visibility operation `visibility_definition_id` also requested the copy
    /// `copy_definition_id`.
    pub fn attach_module_function_copy_visibility(&mut self, copy_definition_id: DefinitionId, visibility_definition_id: DefinitionId)
        requires
            old(self).wf(),
            old(self).copies().copies().has(copy_definition_id.value),
        ensures
            final(self).wf(),
            final(self).copy_visibility_attached(old(self), copy_definition_id, visibility_definition_id),

    {
        self.module_function_copies.attach_visibility(copy_definition_id, visibility_definition_id);
    }

    /// The effect of recording that visibility operation `visibility_definition_id` resolved
    /// through alias `alias_definition_id`, from `old`.
    pub open spec fn alias_dependency_tracked(&self, old: &Graph, alias_definition_id: DefinitionId, visibility_definition_id: DefinitionId) -> bool {
        &&& forall|k: u128, v: u64| #[trigger] self.copies().alias_deps().relates(k, v)
            <==> (old.copies().alias_deps().relates(k, v) || (k == alias_definition_id.value as u128 && v == visibility_definition_id.value))
        &&& self.copies().copies() == old.copies().copies()
        &&& self.copies().ancestor_deps() == old.copies().ancestor_deps()
        &&& self.copies().member_deps() == old.copies().member_deps()
        &&& self.copies().document_deps() == old.copies().document_deps()
        &&& self.frame(old, false, false, false, false, false, false, true, false, false)
    }

    /// Records that visibility operation `visibility_definition_id` resolved through alias
    /// `alias_definition_id`.
    pub fn track_module_function_alias_dependency(&mut self, alias_definition_id: DefinitionId, visibility_definition_id: DefinitionId)
        requires
            old(self).wf(),
        ensures
            final(self).wf(),
            final(self).alias_dependency_tracked(old(self), alias_definition_id, visibility_definition_id),

    {
        self.module_function_copies.track_alias_dependent_visibility(alias_definition_id, visibility_definition_id);
    }

    /// The effect of recording that visibility operation `visibility_definition_id` resolved
    /// member `str_id` through an ancestor of `owner_id`, from `old`.
    pub open spec fn ancestor_dependency_tracked(&self, old: &Graph, owner_id: DeclarationId, str_id: StringId, visibility_definition_id: DefinitionId) -> bool {
        &&& forall|k: u128, v: u64| #[trigger] self.copies().ancestor_deps().relates(k, v)
            <==> (old.copies().ancestor_deps().relates(k, v) || (k == owner_id.value as u128 && v == visibility_definition_id.value))
        &&& forall|k: u128, v: u64| #[trigger] self.copies().member_deps().relates(k, v)
            <==> (old.copies().member_deps().relates(k, v) || (k == pair_key(owner_id.value, str_id.value) && v == visibility_definition_id.value))
        &&& self.copies().copies() == old.copies().copies()
        &&& self.copies().alias_deps() == old.copies().alias_deps()
        &&& self.copies().document_deps() == old.copies().document_deps()
        &&& self.frame(old, false, false, false, false, false, false, true, false, false)
    }

    /// Records that visibility operation `visibility_definition_id` resolved member `str_id`
    /// through an ancestor of `owner_id`.
    pub fn track_module_function_ancestor_dependency(&mut self, owner_id: DeclarationId, str_id: StringId, visibility_definition_id: DefinitionId)
        requires
            old(self).wf(),
        ensures
            final(self).wf(),
            final(self).ancestor_dependency_tracked(old(self), owner_id, str_id, visibility_definition_id),

    {
        self.module_function_copies.track_ancestor_dependent_visibility(owner_id, str_id, visibility_definition_id);
    }

    /// Removes the generated copy `copy_definition_id`: from the copy index, from its declaration
    /// and from the definitions. Returns the visibility operations that had requested it.
    fn remove_module_function_copy(&mut self, copy_definition_id: DefinitionId) -> (triggers: Vec<DefinitionId>)
        requires
            old(self).wf(),
        ensures
            final(self).wf(),
            old(self).copies().copies().has(copy_definition_id.value) ==> {
                let decl = old(self).copies().copies().decl_of(copy_definition_id.value);
                &&& triggers@ == as_definition_ids(old(self).copies().copies().triggers_of(copy_definition_id.value))
                &&& final(self).defs() == old(self).defs().remove(copy_definition_id.value)
                &&& old(self).decls().contains_key(decl) ==> final(self).decls()[decl].definitions@
                    == without(old(self).decls()[decl].definitions@, copy_definition_id)
                &&& forall|k: u64| k != decl && #[trigger] final(self).decls().contains_key(k) ==> final(self).decls()[k] == old(self).decls()[k]
                &&& final(self).def_decl() == if old(self).def_decl().contains_key(copy_definition_id.value)
                    && old(self).def_decl()[copy_definition_id.value].value == decl {
                    old(self).def_decl().remove(copy_definition_id.value)
                } else {
                    old(self).def_decl()
                }
            },
            !old(self).copies().copies().has(copy_definition_id.value) ==> {
                &&& triggers@ == Seq::<DefinitionId>::empty()
                &&& final(self).defs() == old(self).defs()
                &&& final(self).decls() == old(self).decls()
                &&& final(self).def_decl() == old(self).def_decl()
            },
            forall|x: u64| #[trigger] final(self).copies().copies().has(x) == (old(self).copies().copies().has(x) && x != copy_definition_id.value),
            forall|x: u64| x != copy_definition_id.value ==> #[trigger] final(self).copies().copies().same_entry(&old(self).copies().copies(), x),
            forall|s: u64| #[trigger] final(self).copies().copies().sources(s) == without(old(self).copies().copies().sources(s), copy_definition_id.value),
            forall|t: u64| #[trigger] final(self).copies().copies().triggered(t) == without(old(self).copies().copies().triggered(t), copy_definition_id.value),
            final(self).copies().alias_deps() == old(self).copies().alias_deps(),
            final(self).copies().ancestor_deps() == old(self).copies().ancestor_deps(),
            final(self).copies().member_deps() == old(self).copies().member_deps(),
            final(self).copies().document_deps() == old(self).copies().document_deps(),
            final(self).same_decl_shapes(old(self)),
            forall|k: u64| #[trigger] final(self).decls().contains_key(k) ==> final(self).decls()[k].diagnostics == old(self).decls()[k].diagnostics,
            final(self).frame(old(self), false, true, true, true, false, false, true, false, false),
    {
        let copy = match self.module_function_copies.remove(copy_definition_id) {
            Some(copy) => copy,
            None => {
                assert(self.decls().dom() =~= old(self).decls().dom());
                return Vec::new();
            },
        };
        self.detach_definition_from_declaration(copy.declaration_id, copy_definition_id);
        let _removed = self.remove_definition(copy_definition_id);
        assert(self.decls().dom() =~= old(self).decls().dom());
        to_definition_ids(&copy.trigger_definition_ids)
    }
}

/// Whether a copy that `old` tracks and `new` no longer does was requested by `v`.
pub open spec fn released(old: &Graph, new: &Graph, v: u64) -> bool {
    exists|g: u64| old.copies().copies().has(g) && !new.copies().copies().has(g)
        && #[trigger] old.copies().copies().triggers_of(g).contains(v)
}

/// Whether each copy visited from `v0` to `v1` was tracked by `c` and is one of `roots` or a copy
/// of a copy visited from `v0` to `v1`: a traversal removes nothing it was not led to.
pub open spec fn visits_justified(c: crate::graph_indexes::GeneratedMethodCopies, v0: Set<u64>, v1: Set<u64>, roots: Set<u64>) -> bool {
    forall|g: u64| #[trigger] v1.contains(g) && !v0.contains(g) ==> {
        &&& c.has(g)
        &&& roots.contains(g) || (v1.contains(c.source_of(g)) && !v0.contains(c.source_of(g)))
    }
}

/// Whether `old` tracks the copy `g` and `new` no longer does.
pub open spec fn removed_copy(old: &Graph, new: &Graph, g: u64) -> bool {
    old.copies().copies().has(g) && !new.copies().copies().has(g)
}

/// Whether no copy that `g` tracks was requested by a definition that is itself a tracked copy
/// (the requests come from visibility operations).
pub open spec fn requests_no_copy(g: &Graph) -> bool {
    forall|c: u64, t: u64| g.copies().copies().has(c) && #[trigger] g.copies().copies().triggers_of(c).contains(t)
        ==> !g.copies().copies().has(t)
}

/// Whether each copy that `old` tracks and `new` no longer does has left its declaration in
/// `new`: it is not among that declaration's definitions, and, where `old` mapped it to that
/// declaration, it is no longer mapped to any.
pub open spec fn copies_left_declarations(old: &Graph, new: &Graph) -> bool {
    let c0 = old.copies().copies();
    &&& forall|g: u64| #[trigger] removed_copy(old, new, g) && new.decls().contains_key(c0.decl_of(g))
        ==> !new.decls()[c0.decl_of(g)].definitions@.contains(DefinitionId { value: g })
    &&& forall|g: u64| #[trigger] removed_copy(old, new, g) && old.def_decl().contains_key(g) && old.def_decl()[g].value == c0.decl_of(g)
        ==> !new.def_decl().contains_key(g)
}

/// Two steps after which copies have left their declarations make one, when the second keeps
/// the declarations of the copies that survive the first and only drops definitions and
/// mappings.
proof fn lemma_copies_left_trans(s0: &Graph, s1: &Graph, s2: &Graph)
    requires
        copies_left_declarations(s0, s1),
        copies_left_declarations(s1, s2),
        forall|g: u64| #[trigger] s1.copies().copies().has(g) ==> s0.copies().copies().has(g)
            && s1.copies().copies().decl_of(g) == s0.copies().copies().decl_of(g),
        forall|g: u64| #[trigger] s2.copies().copies().has(g) ==> s1.copies().copies().has(g),
        s2.decls().dom() == s1.decls().dom(),
        forall|k: u64, d: DefinitionId| s2.decls().contains_key(k) && #[trigger] s2.decls()[k].definitions@.contains(d)
            ==> s1.decls()[k].definitions@.contains(d),
        forall|k: u64| #[trigger] s1.def_decl().contains_key(k) ==> s0.def_decl().contains_key(k) && s1.def_decl()[k] == s0.def_decl()[k],
        forall|k: u64| #[trigger] s2.def_decl().contains_key(k) ==> s1.def_decl().contains_key(k) && s2.def_decl()[k] == s1.def_decl()[k],
    ensures
        copies_left_declarations(s0, s2),
{
    let c0 = s0.copies().copies();
    let c1 = s1.copies().copies();
    assert forall|g: u64| #[trigger] removed_copy(s0, s2, g) && s2.decls().contains_key(c0.decl_of(g))
        implies !s2.decls()[c0.decl_of(g)].definitions@.contains(DefinitionId { value: g }) by {
        if c1.has(g) {
            assert(removed_copy(s1, s2, g));
        } else {
            assert(removed_copy(s0, s1, g));
            assert(s1.decls().contains_key(c0.decl_of(g)));
            if s2.decls()[c0.decl_of(g)].definitions@.contains(DefinitionId { value: g }) {
                assert(s1.decls()[c0.decl_of(g)].definitions@.contains(DefinitionId { value: g }));
            }
        }
    }
    assert forall|g: u64| #[trigger] removed_copy(s0, s2, g) && s0.def_decl().contains_key(g) && s0.def_decl()[g].value == c0.decl_of(g)
        implies !s2.def_decl().contains_key(g) by {
        if c1.has(g) {
            assert(removed_copy(s1, s2, g));
            if s1.def_decl().contains_key(g) {
                assert(s1.def_decl()[g].value == c1.decl_of(g));
            }
        } else {
            assert(removed_copy(s0, s1, g));
        }
    }
}

impl Graph {
    /// The effect of removing generated copies during one traversal, from `old` with visited set
    /// `v0` and work `w0`, to `self` with visited set `v1` and work `w1`:
    /// - only copies are removed, and exactly the newly visited live ones;
    /// - no surviving copy has a newly visited source, unless it was visited before;
    /// - the definitions of removed copies are gone and detached from their declarations;
    /// - the visibility operations that requested a removed copy lose their alias and ancestor
    ///   dependencies and, when they still exist, are listed in the work after `w0`.
    pub open spec fn removal_step(&self, old: &Graph, v0: Set<u64>, v1: Set<u64>, w0: Seq<DefinitionId>, w1: Seq<DefinitionId>) -> bool {
        let c0 = old.copies().copies();
        let c1 = self.copies().copies();
        &&& v0.subset_of(v1)
        &&& forall|g: u64| #[trigger] c1.has(g) ==> c0.has(g) && c1.same_entry(&c0, g)
        &&& forall|g: u64| #[trigger] removed_copy(old, self, g) ==> v1.contains(g) && !v0.contains(g)
        &&& forall|g: u64| #[trigger] v1.contains(g) && !v0.contains(g) ==> !c1.has(g)
        &&& forall|g: u64| #[trigger] c1.has(g) && v1.contains(c1.source_of(g)) && !v0.contains(c1.source_of(g)) ==> v0.contains(g)
        &&& forall|k: u64| #[trigger] self.defs().contains_key(k) <==> (old.defs().contains_key(k) && !removed_copy(old, self, k))
        &&& forall|k: u64| #[trigger] self.defs().contains_key(k) ==> self.defs()[k] == old.defs()[k]
        &&& w0.len() <= w1.len()
        &&& w1.take(w0.len() as int) == w0
        &&& forall|i: int| w0.len() <= i < w1.len() ==> old.defs().contains_key((#[trigger] w1[i]).value) && released(old, self, w1[i].value)
        &&& forall|g: u64, t: u64| removed_copy(old, self, g) && #[trigger] c0.triggers_of(g).contains(t) && self.defs().contains_key(t)
            ==> w1.contains(DefinitionId { value: t })
        &&& forall|k: u128, v: u64| #[trigger] self.copies().alias_deps().relates(k, v)
            <==> (old.copies().alias_deps().relates(k, v) && !released(old, self, v))
        &&& forall|k: u128, v: u64| #[trigger] self.copies().ancestor_deps().relates(k, v)
            <==> (old.copies().ancestor_deps().relates(k, v) && !released(old, self, v))
        &&& forall|k: u128, v: u64| #[trigger] self.copies().member_deps().relates(k, v)
            <==> (old.copies().member_deps().relates(k, v) && !released(old, self, v))
        &&& self.copies().document_deps() == old.copies().document_deps()
        &&& self.same_decl_shapes(old)
        &&& forall|k: u64| #[trigger] self.decls().contains_key(k) ==> self.decls()[k].diagnostics == old.decls()[k].diagnostics
        &&& forall|k: u64, d: DefinitionId| #[trigger] self.decls()[k].definitions@.contains(d) && self.decls().contains_key(k)
            ==> old.decls()[k].definitions@.contains(d)
        &&& forall|k: u64, d: DefinitionId| old.decls().contains_key(k) && #[trigger] old.decls()[k].definitions@.contains(d)
            && !removed_copy(old, self, d.value) ==> self.decls()[k].definitions@.contains(d)
        &&& forall|k: u64| #[trigger] self.def_decl().contains_key(k) ==> old.def_decl().contains_key(k) && self.def_decl()[k] == old.def_decl()[k]
        &&& forall|k: u64| old.def_decl().contains_key(k) && !removed_copy(old, self, k) ==> #[trigger] self.def_decl().contains_key(k)
        &&& copies_left_declarations(old, self)
        &&& self.frame(old, false, true, true, true, false, false, true, false, false)
    }

    /// Nothing removed is a removal step.
    proof fn lemma_removal_step_refl(&self, v: Set<u64>, w: Seq<DefinitionId>)
        requires
            self.wf(),
        ensures
            self.removal_step(self, v, v, w, w),
    {
        assert(w.take(w.len() as int) =~= w);
        assert(self.decls().dom() =~= self.decls().dom());
        assert forall|k: u128, x: u64| #[trigger] self.copies().alias_deps().relates(k, x)
            <==> (self.copies().alias_deps().relates(k, x) && !released(self, self, x)) by {}
    }

    /// Two removal steps make one.
    proof fn lemma_removal_step_trans(
        s0: &Graph, s1: &Graph, s2: &Graph,
        v0: Set<u64>, v1: Set<u64>, v2: Set<u64>,
        w0: Seq<DefinitionId>, w1: Seq<DefinitionId>, w2: Seq<DefinitionId>,
    )
        requires
            s1.removal_step(s0, v0, v1, w0, w1),
            s2.removal_step(s1, v1, v2, w1, w2),
            w2.no_duplicates(),
        ensures
            s2.removal_step(s0, v0, v2, w0, w2),
    {
        let c0 = s0.copies().copies();
        let c1 = s1.copies().copies();
        let c2 = s2.copies().copies();
        assert forall|g: u64| #[trigger] c2.has(g) implies c0.has(g) && c2.same_entry(&c0, g) by {
            assert(c1.has(g));
        }
        assert forall|g: u64| #[trigger] removed_copy(s0, s2, g) implies v2.contains(g) && !v0.contains(g) by {
            if c1.has(g) {
                assert(removed_copy(s1, s2, g));
            } else {
                assert(removed_copy(s0, s1, g));
            }
        }
        assert forall|g: u64| #[trigger] v2.contains(g) && !v0.contains(g) implies !c2.has(g) by {
            if v1.contains(g) {
                assert(!c1.has(g));
            }
        }
        assert forall|g: u64| #[trigger] c2.has(g) && v2.contains(c2.source_of(g)) && !v0.contains(c2.source_of(g)) implies v0.contains(g) by {
            assert(c1.has(g));
            assert(c2.same_entry(&c1, g));
            if v1.contains(c1.source_of(g)) {
            } else {
                assert(v1.contains(g));
                assert(!c1.has(g) || v0.contains(g));
            }
        }
        assert forall|k: u64| #[trigger] s2.defs().contains_key(k) <==> (s0.defs().contains_key(k) && !removed_copy(s0, s2, k)) by {
            assert(s1.defs().contains_key(k) <==> (s0.defs().contains_key(k) && !removed_copy(s0, s1, k)));
            assert(s2.defs().contains_key(k) <==> (s1.defs().contains_key(k) && !removed_copy(s1, s2, k)));
            if c2.has(k) {
                assert(c1.has(k));
            }
        }
        assert forall|x: u64| #[trigger] released(s0, s2, x) <==> (released(s0, s1, x) || released(s1, s2, x)) by {
            if released(s0, s2, x) {
                let g = choose|g: u64| c0.has(g) && !c2.has(g) && #[trigger] c0.triggers_of(g).contains(x);
                if c1.has(g) {
                    assert(c1.same_entry(&c0, g));
                    assert(c1.triggers_of(g).contains(x));
                } else {
                    assert(c0.triggers_of(g).contains(x));
                }
            }
            if released(s0, s1, x) {
                let g = choose|g: u64| c0.has(g) && !c1.has(g) && #[trigger] c0.triggers_of(g).contains(x);
                assert(!c2.has(g));
            }
            if released(s1, s2, x) {
                let g = choose|g: u64| c1.has(g) && !c2.has(g) && #[trigger] c1.triggers_of(g).contains(x);
                assert(c1.same_entry(&c0, g));
                assert(c0.triggers_of(g).contains(x));
            }
        }
        assert(w2.take(w0.len() as int) =~= w1.take(w1.len() as int).take(w0.len() as int));
        assert(w1.take(w1.len() as int) =~= w1);
        assert forall|i: int| w0.len() <= i < w2.len() implies s0.defs().contains_key((#[trigger] w2[i]).value) && released(s0, s2, w2[i].value) by {
            if i < w1.len() {
                assert(w2[i] == w1.take(w1.len() as int)[i]);
                assert(w1[i] == w2[i]);
            } else {
                assert(s1.defs().contains_key(w2[i].value));
            }
        }
        assert forall|g: u64, t: u64| removed_copy(s0, s2, g) && #[trigger] c0.triggers_of(g).contains(t) && s2.defs().contains_key(t)
            implies w2.contains(DefinitionId { value: t }) by {
            assert(s1.defs().contains_key(t));
            if c1.has(g) {
                assert(c1.same_entry(&c0, g));
                assert(c1.triggers_of(g).contains(t));
                assert(removed_copy(s1, s2, g));
            } else {
                assert(removed_copy(s0, s1, g));
                assert(w1.contains(DefinitionId { value: t }));
                let i = choose|i: int| 0 <= i < w1.len() && w1[i] == DefinitionId { value: t };
                assert(w2.take(w1.len() as int)[i] == w1[i]);
            }
        }
        assert forall|k: u64, d: DefinitionId| s0.decls().contains_key(k) && #[trigger] s0.decls()[k].definitions@.contains(d)
            && !removed_copy(s0, s2, d.value) implies s2.decls()[k].definitions@.contains(d) by {
            if c1.has(d.value) || !c0.has(d.value) {
                assert(!removed_copy(s0, s1, d.value));
                assert(s1.decls()[k].definitions@.contains(d));
                assert(!removed_copy(s1, s2, d.value));
            }
        }
        assert forall|k: u64| s0.def_decl().contains_key(k) && !removed_copy(s0, s2, k) implies #[trigger] s2.def_decl().contains_key(k) by {
            assert(!removed_copy(s0, s1, k));
            assert(s1.def_decl().contains_key(k));
            assert(!removed_copy(s1, s2, k));
        }
        assert forall|k: u64, d: DefinitionId| #[trigger] s2.decls()[k].definitions@.contains(d) && s2.decls().contains_key(k)
            implies s0.decls()[k].definitions@.contains(d) by {
            assert(s1.decls().contains_key(k));
        }
        assert forall|g: u64| #[trigger] c1.has(g) implies c0.has(g) && c1.decl_of(g) == c0.decl_of(g) by {
            assert(c1.same_entry(&c0, g));
        }
        lemma_copies_left_trans(s0, s1, s2);
    }
}

/// What [`extend_existing`] adds: it keeps `work` as a prefix, adds only existing elements of
/// `ids`, adds every existing element of `ids`, and lists nothing twice.
proof fn lemma_extend_existing(defs: Map<u64, Definition>, work: Seq<DefinitionId>, ids: Seq<DefinitionId>)
    ensures
        work.len() <= extend_existing(defs, work, ids).len(),
        extend_existing(defs, work, ids).take(work.len() as int) == work,
        forall|i: int| work.len() <= i < extend_existing(defs, work, ids).len() ==> {
            &&& defs.contains_key((#[trigger] extend_existing(defs, work, ids)[i]).value)
            &&& ids.contains(extend_existing(defs, work, ids)[i])
        },
        forall|j: int| 0 <= j < ids.len() && defs.contains_key((#[trigger] ids[j]).value)
            ==> extend_existing(defs, work, ids).contains(ids[j]),
        work.no_duplicates() ==> extend_existing(defs, work, ids).no_duplicates(),
        forall|x: DefinitionId| work.contains(x) ==> #[trigger] extend_existing(defs, work, ids).contains(x),
    decreases ids.len(),
{
    if ids.len() == 0 {
        assert(work.take(work.len() as int) =~= work);
    } else {
        let t = ids.drop_last();
        let p = extend_existing(defs, work, t);
        lemma_extend_existing(defs, work, t);
        lemma_pushed_unique(p, ids.last());
        let r = extend_existing(defs, work, ids);
        assert(r.take(work.len() as int) =~= p.take(work.len() as int)) by {
            if defs.contains_key(ids.last().value) && !p.contains(ids.last()) {
                assert(r == p.push(ids.last()));
            }
        }
        assert forall|i: int| work.len() <= i < r.len() implies {
            &&& defs.contains_key((#[trigger] r[i]).value)
            &&& ids.contains(r[i])
        } by {
            if i < p.len() {
                assert(r[i] == p[i]);
                assert(t.contains(p[i]));
                let j = choose|j: int| 0 <= j < t.len() && t[j] == p[i];
                assert(ids[j] == t[j]);
            } else {
                assert(r[i] == ids.last());
                assert(ids[ids.len() - 1] == ids.last());
            }
        }
        assert forall|j: int| 0 <= j < ids.len() && defs.contains_key((#[trigger] ids[j]).value) implies r.contains(ids[j]) by {
            if j < ids.len() - 1 {
                assert(t[j] == ids[j]);
                assert(p.contains(ids[j]));
            }
        }
    }
}

/// Finishes a traversal step: after a removal step from `s0` (with `copy` already visited) to
/// `sb`, removing `copy` itself from `sb` gives a removal step from `s0` without `copy` visited.
proof fn lemma_removal_step_finish(
    s0: &Graph, sb: &Graph, sd: &Graph,
    v0: Set<u64>, vb: Set<u64>,
    w0: Seq<DefinitionId>, wb: Seq<DefinitionId>, wd: Seq<DefinitionId>,
    copy: u64,
)
    requires
        !v0.contains(copy),
        s0.copies().copies().has(copy),
        sb.removal_step(s0, v0.insert(copy), vb, w0, wb),
        sd.removal_step(sb, vb.remove(copy), vb, wb, wd),
        wd.no_duplicates(),
    ensures
        sd.removal_step(s0, v0, vb, w0, wd),
{
    let va = v0.insert(copy);
    let c0 = s0.copies().copies();
    let cb = sb.copies().copies();
    let cd = sd.copies().copies();
    assert(!removed_copy(s0, sb, copy));
    assert(cb.has(copy));
    assert(!cd.has(copy));
    assert forall|g: u64| #[trigger] cd.has(g) implies c0.has(g) && cd.same_entry(&c0, g) by {
        assert(cb.has(g));
    }
    assert forall|g: u64| #[trigger] removed_copy(s0, sd, g) implies vb.contains(g) && !v0.contains(g) by {
        if cb.has(g) {
            assert(removed_copy(sb, sd, g));
        } else {
            assert(removed_copy(s0, sb, g));
        }
    }
    assert forall|g: u64| #[trigger] vb.contains(g) && !v0.contains(g) implies !cd.has(g) by {
        if g != copy {
            assert(!va.contains(g));
            assert(!cb.has(g));
        }
    }
    assert forall|g: u64| #[trigger] cd.has(g) && vb.contains(cd.source_of(g)) && !v0.contains(cd.source_of(g)) implies v0.contains(g) by {
        assert(cb.has(g));
        assert(cd.same_entry(&cb, g));
        if cb.source_of(g) == copy {
            assert(vb.remove(copy).contains(g));
            assert(g != copy);
            if !va.contains(g) {
                assert(!cb.has(g));
            }
        } else {
            assert(!va.contains(cb.source_of(g)));
            assert(va.contains(g));
        }
    }
    assert forall|k: u64| #[trigger] sd.defs().contains_key(k) <==> (s0.defs().contains_key(k) && !removed_copy(s0, sd, k)) by {
        assert(sb.defs().contains_key(k) <==> (s0.defs().contains_key(k) && !removed_copy(s0, sb, k)));
        assert(sd.defs().contains_key(k) <==> (sb.defs().contains_key(k) && !removed_copy(sb, sd, k)));
        if cd.has(k) {
            assert(cb.has(k));
        }
    }
    assert forall|x: u64| #[trigger] released(s0, sd, x) <==> (released(s0, sb, x) || released(sb, sd, x)) by {
        if released(s0, sd, x) {
            let g = choose|g: u64| c0.has(g) && !cd.has(g) && #[trigger] c0.triggers_of(g).contains(x);
            if cb.has(g) {
                assert(cb.same_entry(&c0, g));
                assert(cb.triggers_of(g).contains(x));
            } else {
                assert(c0.triggers_of(g).contains(x));
            }
        }
        if released(s0, sb, x) {
            let g = choose|g: u64| c0.has(g) && !cb.has(g) && #[trigger] c0.triggers_of(g).contains(x);
            assert(!cd.has(g));
        }
        if released(sb, sd, x) {
            let g = choose|g: u64| cb.has(g) && !cd.has(g) && #[trigger] cb.triggers_of(g).contains(x);
            assert(cb.same_entry(&c0, g));
            assert(c0.triggers_of(g).contains(x));
        }
    }
    assert(wd.take(w0.len() as int) =~= wb.take(wb.len() as int).take(w0.len() as int));
    assert(wb.take(wb.len() as int) =~= wb);
    assert forall|i: int| w0.len() <= i < wd.len() implies s0.defs().contains_key((#[trigger] wd[i]).value) && released(s0, sd, wd[i].value) by {
        if i < wb.len() {
            assert(wd[i] == wb.take(wb.len() as int)[i]);
            assert(wb[i] == wd[i]);
        } else {
            assert(sb.defs().contains_key(wd[i].value));
        }
    }
    assert forall|g: u64, t: u64| removed_copy(s0, sd, g) && #[trigger] c0.triggers_of(g).contains(t) && sd.defs().contains_key(t)
        implies wd.contains(DefinitionId { value: t }) by {
        assert(sb.defs().contains_key(t));
        if cb.has(g) {
            assert(cb.same_entry(&c0, g));
            assert(cb.triggers_of(g).contains(t));
            assert(removed_copy(sb, sd, g));
        } else {
            assert(removed_copy(s0, sb, g));
            assert(wb.contains(DefinitionId { value: t }));
            let i = choose|i: int| 0 <= i < wb.len() && wb[i] == DefinitionId { value: t };
            assert(wd.take(wb.len() as int)[i] == wb[i]);
        }
    }
    assert forall|k: u64, d: DefinitionId| s0.decls().contains_key(k) && #[trigger] s0.decls()[k].definitions@.contains(d)
        && !removed_copy(s0, sd, d.value) implies sd.decls()[k].definitions@.contains(d) by {
        if cb.has(d.value) || !c0.has(d.value) {
            assert(!removed_copy(s0, sb, d.value));
            assert(sb.decls()[k].definitions@.contains(d));
            assert(!removed_copy(sb, sd, d.value));
        }
    }
    assert forall|k: u64| s0.def_decl().contains_key(k) && !removed_copy(s0, sd, k) implies #[trigger] sd.def_decl().contains_key(k) by {
        assert(!removed_copy(s0, sb, k));
        assert(sb.def_decl().contains_key(k));
        assert(!removed_copy(sb, sd, k));
    }
    assert forall|k: u64, d: DefinitionId| #[trigger] sd.decls()[k].definitions@.contains(d) && sd.decls().contains_key(k)
        implies s0.decls()[k].definitions@.contains(d) by {
        assert(sb.decls().contains_key(k));
    }
    assert forall|g: u64| #[trigger] cb.has(g) implies c0.has(g) && cb.decl_of(g) == c0.decl_of(g) by {
        assert(cb.same_entry(&c0, g));
    }
    lemma_copies_left_trans(s0, sb, sd);
}

impl Graph {
    /// The live copies not yet visited: the measure of a removal traversal.
    pub open spec fn pending_copies(&self, visited: Set<u64>) -> nat {
        self.copies().copies().live().difference(visited).len()
    }

    /// Removes the generated copy `copy_definition_id` and, first, every copy generated from it,
    /// transitively; each is handled once per traversal (`visited_copy_ids`). The visibility
    /// operations that requested a removed copy lose their alias and ancestor dependencies and,
    /// when they still exist, are listed in `visibility_definition_ids`.
    fn remove_module_function_copy_and_collect_visibility_work(
        &mut self,
        copy_definition_id: DefinitionId,
        visibility_definition_ids: &mut VisibilityWork,
        visited_copy_ids: &mut HashSet<u64>,
    )
        requires
            old(self).wf(),
            old(visibility_definition_ids).wf(),
            old(self).copies().copies().has(copy_definition_id.value) || old(visited_copy_ids)@.contains(copy_definition_id.value),
        ensures
            final(self).wf(),
            final(visibility_definition_ids).wf(),
            final(visited_copy_ids)@.contains(copy_definition_id.value),
            final(self).removal_step(
                old(self),
                old(visited_copy_ids)@,
                final(visited_copy_ids)@,
                old(visibility_definition_ids).ids_view(),
                final(visibility_definition_ids).ids_view(),
            ),
            visits_justified(old(self).copies().copies(), old(visited_copy_ids)@, final(visited_copy_ids)@, set![copy_definition_id.value]),
        decreases self.pending_copies(visited_copy_ids@),
    {
        let ghost s0 = *old(self);
        let ghost v0 = visited_copy_ids@;
        let ghost w0 = visibility_definition_ids.ids_view();
        let copy = copy_definition_id.value;
        if !visited_copy_ids.insert(copy) {
            proof {
                self.lemma_removal_step_refl(v0, w0);
            }
            return;
        }
        let ghost va = visited_copy_ids@;
        proof {
            assert(va == v0.insert(copy));
            s0.copies().copies().lemma_live();
            self.lemma_removal_step_refl(va, w0);
            assert(s0.copies().copies().live().difference(v0).contains(copy));
            assert(s0.copies().copies().live().difference(va) =~= s0.copies().copies().live().difference(v0).remove(copy));
            vstd::set::axiom_set_remove_len(s0.copies().copies().live().difference(v0), copy);
        }
        let dependent_copy_ids = self.module_function_copies.copy_ids_for_source(copy_definition_id);
        let mut i: usize = 0;
        while i < dependent_copy_ids.len()
            invariant
                self.wf(),
                visibility_definition_ids.wf(),
                i <= dependent_copy_ids@.len(),
                dependent_copy_ids@ == s0.copies().copies().sources(copy),
                s0 == *old(self),
                v0 == old(visited_copy_ids)@,
                s0.wf(),
                va == v0.insert(copy),
                !v0.contains(copy),
                s0.copies().copies().has(copy),
                s0.pending_copies(va) < s0.pending_copies(v0),
                self.removal_step(&s0, va, visited_copy_ids@, w0, visibility_definition_ids.ids_view()),
                forall|j: int| 0 <= j < i ==> visited_copy_ids@.contains(#[trigger] dependent_copy_ids@[j]),
                visits_justified(s0.copies().copies(), v0, visited_copy_ids@, set![copy]),
            decreases dependent_copy_ids@.len() - i,
        {
            let dependent = dependent_copy_ids[i];
            let ghost s1 = *self;
            let ghost v1 = visited_copy_ids@;
            let ghost w1 = visibility_definition_ids.ids_view();
            proof {
                s0.copies().copies().lemma_consistent();
                assert(s0.copies().copies().sources(copy).contains(dependent));
                assert(s0.copies().copies().has(dependent));
                if !s1.copies().copies().has(dependent) {
                    assert(removed_copy(&s0, &s1, dependent));
                }
                s0.copies().copies().lemma_live();
                s1.copies().copies().lemma_live();
                let d0 = s0.copies().copies().live().difference(va);
                let d1 = s1.copies().copies().live().difference(v1);
                assert(d1.subset_of(d0));
                vstd::set_lib::lemma_len_subset(d1, d0);
                assert(self.pending_copies(visited_copy_ids@) < s0.pending_copies(v0));
            }
            self.remove_module_function_copy_and_collect_visibility_work(
                DefinitionId::new(dependent),
                visibility_definition_ids,
                visited_copy_ids,
            );
            proof {
                Self::lemma_removal_step_trans(
                    &s0, &s1, self, va, v1, visited_copy_ids@, w0, w1, visibility_definition_ids.ids_view(),
                );
                let c0 = s0.copies().copies();
                let c1 = s1.copies().copies();
                let v2 = visited_copy_ids@;
                assert forall|g: u64| #[trigger] v2.contains(g) && !v0.contains(g) implies {
                    &&& c0.has(g)
                    &&& set![copy].contains(g) || (v2.contains(c0.source_of(g)) && !v0.contains(c0.source_of(g)))
                } by {
                    if !v1.contains(g) {
                        assert(c1.has(g));
                        assert(c1.same_entry(&c0, g));
                        if g == dependent {
                            assert(c0.sources(copy).contains(dependent));
                            assert(c0.source_of(g) == copy);
                        } else {
                            assert(v2.contains(c1.source_of(g)) && !v1.contains(c1.source_of(g)));
                        }
                    } else {
                        assert(v1.contains(g));
                    }
                }
                assert forall|j: int| 0 <= j < i + 1 implies visited_copy_ids@.contains(#[trigger] dependent_copy_ids@[j]) by {
                    if j < i {
                        assert(v1.contains(dependent_copy_ids@[j]));
                    }
                }
            }
            i = i + 1;
        }
        let ghost sb = *self;
        let ghost vb = visited_copy_ids@;
        let ghost wb = visibility_definition_ids.ids_view();
        proof {
            assert(!removed_copy(&s0, &sb, copy));
            assert(sb.copies().copies().has(copy));
        }
        let triggers = self.remove_module_function_copy(copy_definition_id);
        let ghost sc = *self;
        let mut j: usize = 0;
        while j < triggers.len()
            invariant
                self.wf(),
                visibility_definition_ids.wf(),
                j <= triggers@.len(),
                triggers@ == as_definition_ids(sb.copies().copies().triggers_of(copy)),
                self.copies().copies() == sc.copies().copies(),
                self.copies().document_deps() == sc.copies().document_deps(),
                self.frame(&sc, false, false, false, false, false, false, true, false, false),
                forall|k: u128, v: u64| #[trigger] self.copies().alias_deps().relates(k, v)
                    <==> (sc.copies().alias_deps().relates(k, v) && !triggers@.take(j as int).contains(DefinitionId { value: v })),
                forall|k: u128, v: u64| #[trigger] self.copies().ancestor_deps().relates(k, v)
                    <==> (sc.copies().ancestor_deps().relates(k, v) && !triggers@.take(j as int).contains(DefinitionId { value: v })),
                forall|k: u128, v: u64| #[trigger] self.copies().member_deps().relates(k, v)
                    <==> (sc.copies().member_deps().relates(k, v) && !triggers@.take(j as int).contains(DefinitionId { value: v })),
                visibility_definition_ids.ids_view() == extend_existing(sc.defs(), wb, triggers@.take(j as int)),
            decreases triggers@.len() - j,
        {
            let visibility_id = triggers[j];
            let ghost before = *self;
            let ghost wbefore = visibility_definition_ids.ids_view();
            self.module_function_copies.detach_alias_dependent_visibility(visibility_id);
            self.module_function_copies.detach_ancestor_dependent_visibility(visibility_id);
            self.push_existing_visibility_work(visibility_id, visibility_definition_ids);
            proof {
                let t = triggers@.take(j as int);
                let t1 = triggers@.take(j + 1);
                assert(t1.drop_last() =~= t);
                assert(t1.last() == visibility_id);
                let one = seq![visibility_id];
                assert(one.drop_last() =~= Seq::<DefinitionId>::empty());
                assert(extend_existing(before.defs(), wbefore, Seq::<DefinitionId>::empty()) == wbefore);
                assert forall|x: DefinitionId| #[trigger] t1.contains(x) <==> (t.contains(x) || x == visibility_id) by {
                    lemma_take_succ_contains_def(triggers@, j as int, x);
                }
                assert forall|k: u128, v: u64| #[trigger] self.copies().alias_deps().relates(k, v)
                    <==> (sc.copies().alias_deps().relates(k, v) && !t1.contains(DefinitionId { value: v })) by {
                    assert(before.copies().alias_deps().relates(k, v)
                        <==> (sc.copies().alias_deps().relates(k, v) && !t.contains(DefinitionId { value: v })));
                }
                assert forall|k: u128, v: u64| #[trigger] self.copies().ancestor_deps().relates(k, v)
                    <==> (sc.copies().ancestor_deps().relates(k, v) && !t1.contains(DefinitionId { value: v })) by {
                    assert(before.copies().ancestor_deps().relates(k, v)
                        <==> (sc.copies().ancestor_deps().relates(k, v) && !t.contains(DefinitionId { value: v })));
                }
                assert forall|k: u128, v: u64| #[trigger] self.copies().member_deps().relates(k, v)
                    <==> (sc.copies().member_deps().relates(k, v) && !t1.contains(DefinitionId { value: v })) by {
                    assert(before.copies().member_deps().relates(k, v)
                        <==> (sc.copies().member_deps().relates(k, v) && !t.contains(DefinitionId { value: v })));
                }
            }
            j = j + 1;
        }
        proof {
            let sd = *self;
            let wd = visibility_definition_ids.ids_view();
            let cb = sb.copies().copies();
            let cd = sd.copies().copies();
            assert(triggers@.take(j as int) =~= triggers@);
            lemma_extend_existing(sc.defs(), wb, triggers@);
            assert forall|x: u64| #[trigger] released(&sb, &sd, x) <==> triggers@.contains(DefinitionId { value: x }) by {
                if released(&sb, &sd, x) {
                    let g = choose|g: u64| cb.has(g) && !cd.has(g) && #[trigger] cb.triggers_of(g).contains(x);
                    assert(g == copy);
                    let k = choose|k: int| 0 <= k < cb.triggers_of(copy).len() && cb.triggers_of(copy)[k] == x;
                    assert(triggers@[k] == DefinitionId { value: x });
                }
                if triggers@.contains(DefinitionId { value: x }) {
                    let k = choose|k: int| 0 <= k < triggers@.len() && triggers@[k] == DefinitionId { value: x };
                    assert(cb.triggers_of(copy)[k] == x);
                    assert(cb.triggers_of(copy).contains(x));
                }
            }
            s0.copies().copies().lemma_consistent();
            assert forall|g: u64| #[trigger] cb.has(g) && cb.source_of(g) == copy implies vb.contains(g) by {
                assert(cb.same_entry(&s0.copies().copies(), g));
                assert(s0.copies().copies().sources(copy).contains(g));
                let k = choose|k: int| 0 <= k < dependent_copy_ids@.len() && dependent_copy_ids@[k] == g;
                assert(vb.contains(dependent_copy_ids@[k]));
            }
            assert forall|g: u64| #[trigger] cd.has(g) && vb.contains(cd.source_of(g)) && !vb.remove(copy).contains(cd.source_of(g))
                implies vb.remove(copy).contains(g) by {
                assert(cb.has(g));
                assert(cd.same_entry(&cb, g));
            }
            assert forall|i: int| wb.len() <= i < wd.len() implies sb.defs().contains_key((#[trigger] wd[i]).value) && released(&sb, &sd, wd[i].value) by {
                assert(triggers@.contains(wd[i]));
            }
            assert forall|g: u64, t: u64| removed_copy(&sb, &sd, g) && #[trigger] cb.triggers_of(g).contains(t) && sd.defs().contains_key(t)
                implies wd.contains(DefinitionId { value: t }) by {
                assert(g == copy);
                let k = choose|k: int| 0 <= k < cb.triggers_of(copy).len() && cb.triggers_of(copy)[k] == t;
                assert(triggers@[k] == DefinitionId { value: t });
            }
            assert forall|k: u64, d: DefinitionId| sb.decls().contains_key(k) && #[trigger] sb.decls()[k].definitions@.contains(d)
                && !removed_copy(&sb, &sd, d.value) implies sd.decls()[k].definitions@.contains(d) by {
                crate::seqs::lemma_without(sb.decls()[k].definitions@, copy_definition_id);
            }
            assert forall|k: u64, d: DefinitionId| #[trigger] sd.decls()[k].definitions@.contains(d) && sd.decls().contains_key(k)
                implies sb.decls()[k].definitions@.contains(d) by {
                crate::seqs::lemma_without(sb.decls()[k].definitions@, copy_definition_id);
            }
            assert(copies_left_declarations(&sb, &sd)) by {
                let decl = cb.decl_of(copy);
                assert forall|g: u64| #[trigger] removed_copy(&sb, &sd, g) && sd.decls().contains_key(cb.decl_of(g))
                    implies !sd.decls()[cb.decl_of(g)].definitions@.contains(DefinitionId { value: g }) by {
                    assert(g == copy);
                    crate::seqs::lemma_without(sb.decls()[decl].definitions@, copy_definition_id);
                }
            }
            assert(sd.removal_step(&sb, vb.remove(copy), vb, wb, wd));
            lemma_removal_step_finish(&s0, &sb, &sd, v0, vb, w0, wb, wd, copy);
        }
    }
}

/// Extending a prefix of definition identifiers by one element adds exactly that element.
proof fn lemma_take_succ_contains_def(s: Seq<DefinitionId>, i: int, x: DefinitionId)
    requires
        0 <= i < s.len(),
    ensures
        s.take(i + 1).contains(x) <==> (s.take(i).contains(x) || s[i] == x),
{
    crate::seqs::lemma_take_succ_contains(s, i, x);
}

/// `s` without the elements listed in `ids`.
pub open spec fn not_listed(s: Seq<u64>, ids: Seq<DefinitionId>) -> Seq<u64> {
    s.filter(|t: u64| !ids.contains(DefinitionId { value: t }))
}

proof fn lemma_not_listed_append(s: Seq<u64>, a: Seq<DefinitionId>, b: Seq<DefinitionId>)
    ensures
        not_listed(not_listed(s, a), b) == not_listed(s, a + b),
    decreases s.len(),
{
    reveal(Seq::filter);
    if s.len() > 0 {
        lemma_not_listed_append(s.drop_last(), a, b);
        let l = s.last();
        let x = DefinitionId { value: l };
        assert((a + b).contains(x) <==> (a.contains(x) || b.contains(x))) by {
            if (a + b).contains(x) {
                let i = choose|i: int| 0 <= i < (a + b).len() && (a + b)[i] == x;
                if i < a.len() {
                    assert(a[i] == x);
                } else {
                    assert(b[i - a.len()] == x);
                }
            }
            if a.contains(x) {
                let i = choose|i: int| 0 <= i < a.len() && a[i] == x;
                assert((a + b)[i] == x);
            }
            if b.contains(x) {
                let i = choose|i: int| 0 <= i < b.len() && b[i] == x;
                assert((a + b)[i + a.len()] == x);
            }
        }
        let fa = not_listed(s.drop_last(), a);
        if !a.contains(x) {
            assert(not_listed(s, a) == fa.push(l));
            assert(not_listed(s, a).drop_last() =~= fa);
            assert(not_listed(s, a).last() == l);
        } else {
            assert(not_listed(s, a) == fa);
        }
    }
}

proof fn lemma_not_listed_contains(s: Seq<u64>, ids: Seq<DefinitionId>)
    ensures
        forall|t: u64| #[trigger] not_listed(s, ids).contains(t) <==> (s.contains(t) && !ids.contains(DefinitionId { value: t })),
        not_listed(s, ids).len() == 0 <==> forall|t: u64| s.contains(t) ==> ids.contains(DefinitionId { value: t }),
{
    crate::seqs::lemma_filter_contains(s, |t: u64| !ids.contains(DefinitionId { value: t }));
    let f = not_listed(s, ids);
    if f.len() > 0 {
        assert(f.contains(f[0]));
    }
    if exists|t: u64| s.contains(t) && !ids.contains(DefinitionId { value: t }) {
        let t = choose|t: u64| s.contains(t) && !ids.contains(DefinitionId { value: t });
        assert(f.contains(t));
    }
}

impl Graph {
    /// The effect of withdrawing every request of the visibility operations `ids`, from `old`
    /// with work `w0` to `self` with work `w1`:
    /// - surviving copies existed before, keep source and declaration, and lose exactly the
    ///   requests of `ids`;
    /// - a copy all of whose requests came from `ids` is removed;
    /// - no surviving copy has a removed source;
    /// - a removed copy is one of these two;
    /// - only the definitions of removed copies are removed, and only from declarations; each
    ///   removed copy leaves its own declaration;
    /// - the work keeps `w0` as a prefix and only adds definitions that existed, each one of
    ///   `ids` or a request of a removed copy; every request of a removed copy that is not one of
    ///   `ids` and still exists is in the work.
    pub open spec fn withdrawal(&self, old: &Graph, ids: Seq<DefinitionId>, w0: Seq<DefinitionId>, w1: Seq<DefinitionId>) -> bool {
        let c0 = old.copies().copies();
        let c1 = self.copies().copies();
        &&& forall|g: u64| #[trigger] c1.has(g) ==> {
            &&& c0.has(g)
            &&& c1.source_of(g) == c0.source_of(g)
            &&& c1.decl_of(g) == c0.decl_of(g)
            &&& c1.triggers_of(g) == not_listed(c0.triggers_of(g), ids)
        }
        &&& forall|g: u64| #[trigger] c0.has(g) && c0.triggers_of(g).len() > 0 && not_listed(c0.triggers_of(g), ids).len() == 0 ==> !c1.has(g)
        &&& forall|g: u64| #[trigger] c1.has(g) ==> !removed_copy(old, self, c1.source_of(g))
        &&& forall|g: u64| #[trigger] removed_copy(old, self, g) ==> {
            ||| c0.triggers_of(g).len() > 0 && not_listed(c0.triggers_of(g), ids).len() == 0
            ||| removed_copy(old, self, c0.source_of(g))
        }
        &&& forall|k: u64| #[trigger] self.defs().contains_key(k) <==> (old.defs().contains_key(k) && !removed_copy(old, self, k))
        &&& forall|k: u64| #[trigger] self.defs().contains_key(k) ==> self.defs()[k] == old.defs()[k]
        &&& w0.len() <= w1.len()
        &&& w1.take(w0.len() as int) == w0
        &&& forall|i: int| w0.len() <= i < w1.len() ==> old.defs().contains_key((#[trigger] w1[i]).value)
        &&& forall|i: int| w0.len() <= i < w1.len() ==> released(old, self, (#[trigger] w1[i]).value) || ids.contains(w1[i])
        &&& forall|g: u64, t: u64| removed_copy(old, self, g) && #[trigger] c0.triggers_of(g).contains(t)
            && !ids.contains(DefinitionId { value: t }) && self.defs().contains_key(t) ==> w1.contains(DefinitionId { value: t })
        &&& forall|k: u128, v: u64| #[trigger] self.copies().alias_deps().relates(k, v) ==> old.copies().alias_deps().relates(k, v)
        &&& forall|k: u128, v: u64| #[trigger] self.copies().ancestor_deps().relates(k, v) ==> old.copies().ancestor_deps().relates(k, v)
        &&& forall|k: u128, v: u64| #[trigger] self.copies().member_deps().relates(k, v) ==> old.copies().member_deps().relates(k, v)
        &&& forall|k: u128, v: u64| #[trigger] self.copies().document_deps().relates(k, v) ==> old.copies().document_deps().relates(k, v)
        &&& self.same_decl_shapes(old)
        &&& forall|k: u64| #[trigger] self.decls().contains_key(k) ==> self.decls()[k].diagnostics == old.decls()[k].diagnostics
        &&& forall|k: u64, d: DefinitionId| self.decls().contains_key(k) && #[trigger] self.decls()[k].definitions@.contains(d)
            ==> old.decls()[k].definitions@.contains(d)
        &&& forall|k: u64, d: DefinitionId| old.decls().contains_key(k) && #[trigger] old.decls()[k].definitions@.contains(d)
            && !removed_copy(old, self, d.value) ==> self.decls()[k].definitions@.contains(d)
        &&& forall|k: u64| #[trigger] self.def_decl().contains_key(k) ==> old.def_decl().contains_key(k) && self.def_decl()[k] == old.def_decl()[k]
        &&& copies_left_declarations(old, self)
        &&& self.frame(old, false, true, true, true, false, false, true, false, false)
    }

    proof fn lemma_withdrawal_refl(&self, w: Seq<DefinitionId>)
        requires
            self.wf(),
        ensures
            self.withdrawal(self, Seq::empty(), w, w),
    {
        assert(w.take(w.len() as int) =~= w);
        assert(self.decls().dom() =~= self.decls().dom());
        let c = self.copies().copies();
        assert forall|g: u64| #[trigger] c.has(g) implies c.triggers_of(g) == not_listed(c.triggers_of(g), Seq::empty()) by {
            crate::seqs::lemma_filter_contains(c.triggers_of(g), |t: u64| !Seq::<DefinitionId>::empty().contains(DefinitionId { value: t }));
            assert forall|i: int| 0 <= i < c.triggers_of(g).len() implies
                (|t: u64| !Seq::<DefinitionId>::empty().contains(DefinitionId { value: t }))(#[trigger] c.triggers_of(g)[i])
                == (|t: u64| true)(c.triggers_of(g)[i]) by {}
            crate::seqs::lemma_filter_ext(c.triggers_of(g), |t: u64| !Seq::<DefinitionId>::empty().contains(DefinitionId { value: t }), |t: u64| true);
            lemma_filter_true(c.triggers_of(g));
        }
        assert forall|g: u64| #[trigger] c.has(g) && c.triggers_of(g).len() > 0 && not_listed(c.triggers_of(g), Seq::empty()).len() == 0 implies !c.has(g) by {
            lemma_not_listed_contains(c.triggers_of(g), Seq::empty());
            assert(c.triggers_of(g).contains(c.triggers_of(g)[0]));
        }
    }

    proof fn lemma_withdrawal_trans(
        s0: &Graph, s1: &Graph, s2: &Graph,
        a: Seq<DefinitionId>, b: Seq<DefinitionId>,
        w0: Seq<DefinitionId>, w1: Seq<DefinitionId>, w2: Seq<DefinitionId>,
    )
        requires
            s1.withdrawal(s0, a, w0, w1),
            s2.withdrawal(s1, b, w1, w2),
        ensures
            s2.withdrawal(s0, a + b, w0, w2),
    {
        let c0 = s0.copies().copies();
        let c1 = s1.copies().copies();
        let c2 = s2.copies().copies();
        assert forall|g: u64| #[trigger] c2.has(g) implies {
            &&& c0.has(g)
            &&& c2.source_of(g) == c0.source_of(g)
            &&& c2.decl_of(g) == c0.decl_of(g)
            &&& c2.triggers_of(g) == not_listed(c0.triggers_of(g), a + b)
        } by {
            assert(c1.has(g));
            lemma_not_listed_append(c0.triggers_of(g), a, b);
        }
        assert forall|g: u64| #[trigger] c0.has(g) && c0.triggers_of(g).len() > 0 && not_listed(c0.triggers_of(g), a + b).len() == 0
            implies !c2.has(g) by {
            lemma_not_listed_append(c0.triggers_of(g), a, b);
            if c1.has(g) {
                let t1 = c1.triggers_of(g);
                assert(t1 == not_listed(c0.triggers_of(g), a));
                if t1.len() == 0 {
                    assert(!c1.has(g));
                } else {
                    assert(not_listed(t1, b).len() == 0);
                }
            }
        }
        assert forall|g: u64| #[trigger] c2.has(g) implies !removed_copy(s0, s2, c2.source_of(g)) by {
            assert(c1.has(g));
            assert(!removed_copy(s0, s1, c1.source_of(g)));
            assert(!removed_copy(s1, s2, c2.source_of(g)));
        }
        assert forall|g: u64| #[trigger] removed_copy(s0, s2, g) implies {
            ||| c0.triggers_of(g).len() > 0 && not_listed(c0.triggers_of(g), a + b).len() == 0
            ||| removed_copy(s0, s2, c0.source_of(g))
        } by {
            lemma_not_listed_append(c0.triggers_of(g), a, b);
            if c1.has(g) {
                assert(removed_copy(s1, s2, g));
                assert(c1.triggers_of(g) == not_listed(c0.triggers_of(g), a));
                assert(c1.source_of(g) == c0.source_of(g));
                if removed_copy(s1, s2, c1.source_of(g)) {
                    assert(c0.has(c1.source_of(g)));
                }
            } else {
                assert(removed_copy(s0, s1, g));
                if c0.triggers_of(g).len() > 0 && not_listed(c0.triggers_of(g), a).len() == 0 {
                    lemma_not_listed_of_empty(not_listed(c0.triggers_of(g), a), b);
                } else {
                    assert(removed_copy(s0, s1, c0.source_of(g)));
                }
            }
        }
        assert forall|k: u64| #[trigger] s2.defs().contains_key(k) <==> (s0.defs().contains_key(k) && !removed_copy(s0, s2, k)) by {
            assert(s1.defs().contains_key(k) <==> (s0.defs().contains_key(k) && !removed_copy(s0, s1, k)));
            assert(s2.defs().contains_key(k) <==> (s1.defs().contains_key(k) && !removed_copy(s1, s2, k)));
            if c2.has(k) {
                assert(c1.has(k));
            }
        }
        assert(w2.take(w0.len() as int) =~= w1.take(w1.len() as int).take(w0.len() as int));
        assert(w1.take(w1.len() as int) =~= w1);
        assert forall|i: int| w0.len() <= i < w2.len() implies s0.defs().contains_key((#[trigger] w2[i]).value) by {
            if i < w1.len() {
                assert(w2[i] == w1.take(w1.len() as int)[i]);
                assert(w1[i] == w2[i]);
            } else {
                assert(s1.defs().contains_key(w2[i].value));
            }
        }
        assert forall|i: int| w0.len() <= i < w2.len() implies released(s0, s2, (#[trigger] w2[i]).value) || (a + b).contains(w2[i]) by {
            let x = w2[i];
            if i < w1.len() {
                assert(w2[i] == w2.take(w1.len() as int)[i]);
                assert(w1[i] == x);
                if released(s0, s1, x.value) {
                    let g = choose|g: u64| c0.has(g) && !c1.has(g) && #[trigger] c0.triggers_of(g).contains(x.value);
                    assert(!c2.has(g));
                    assert(released(s0, s2, x.value));
                } else {
                    assert(a.contains(x));
                    let q = choose|q: int| 0 <= q < a.len() && a[q] == x;
                    assert((a + b)[q] == x);
                }
            } else {
                if released(s1, s2, x.value) {
                    let g = choose|g: u64| c1.has(g) && !c2.has(g) && #[trigger] c1.triggers_of(g).contains(x.value);
                    lemma_not_listed_contains(c0.triggers_of(g), a);
                    assert(c0.triggers_of(g).contains(x.value));
                    assert(released(s0, s2, x.value));
                } else {
                    assert(b.contains(x));
                    let q = choose|q: int| 0 <= q < b.len() && b[q] == x;
                    assert((a + b)[a.len() + q] == x);
                }
            }
        }
        assert forall|g: u64, t: u64| removed_copy(s0, s2, g) && #[trigger] c0.triggers_of(g).contains(t)
            && !(a + b).contains(DefinitionId { value: t }) && s2.defs().contains_key(t) implies w2.contains(DefinitionId { value: t }) by {
            let x = DefinitionId { value: t };
            if a.contains(x) {
                let q = choose|q: int| 0 <= q < a.len() && a[q] == x;
                assert((a + b)[q] == x);
            }
            if b.contains(x) {
                let q = choose|q: int| 0 <= q < b.len() && b[q] == x;
                assert((a + b)[a.len() + q] == x);
            }
            assert(s1.defs().contains_key(t));
            if c1.has(g) {
                assert(removed_copy(s1, s2, g));
                lemma_not_listed_contains(c0.triggers_of(g), a);
                assert(c1.triggers_of(g).contains(t));
            } else {
                assert(removed_copy(s0, s1, g));
                assert(w1.contains(x));
                let q = choose|q: int| 0 <= q < w1.len() && w1[q] == x;
                assert(w2.take(w1.len() as int)[q] == x);
                assert(w2[q] == x);
            }
        }
        assert forall|k: u64, d: DefinitionId| s0.decls().contains_key(k) && #[trigger] s0.decls()[k].definitions@.contains(d)
            && !removed_copy(s0, s2, d.value) implies s2.decls()[k].definitions@.contains(d) by {
            if c1.has(d.value) || !c0.has(d.value) {
                assert(!removed_copy(s0, s1, d.value));
                assert(s1.decls()[k].definitions@.contains(d));
                assert(!removed_copy(s1, s2, d.value));
            }
        }
        assert forall|k: u64, d: DefinitionId| s2.decls().contains_key(k) && #[trigger] s2.decls()[k].definitions@.contains(d)
            implies s0.decls()[k].definitions@.contains(d) by {
            assert(s1.decls().contains_key(k));
        }
        lemma_copies_left_trans(s0, s1, s2);
    }
}

proof fn lemma_not_listed_of_empty(s: Seq<u64>, ids: Seq<DefinitionId>)
    requires
        s.len() == 0,
    ensures
        not_listed(s, ids).len() == 0,
{
    reveal(Seq::filter);
}

proof fn lemma_filter_true(s: Seq<u64>)
    ensures
        s.filter(|t: u64| true) == s,
    decreases s.len(),
{
    reveal(Seq::filter);
    if s.len() > 0 {
        lemma_filter_true(s.drop_last());
        assert(s.drop_last().push(s.last()) =~= s);
    }
}
/// Whether definition `d` of `g` belongs to the document with URI `uri` and starts after
/// `start`.
pub open spec fn starts_later_in(g: &Graph, d: DefinitionId, uri: Seq<char>, start: u32) -> bool {
    &&& g.defs().contains_key(d.value)
    &&& g.docs().contains_key(g.defs()[d.value].uri_id.value)
    &&& g.docs()[g.defs()[d.value].uri_id.value].uri@ == uri
    &&& start < g.defs()[d.value].offset.start_spec()
}

/// The position of the first of `defs` that starts after `start` in the document with URI `uri`.
pub open spec fn first_later(g: &Graph, defs: Seq<DefinitionId>, uri: Seq<char>, start: u32) -> Option<int>
    decreases defs.len(),
{
    if defs.len() == 0 {
        None
    } else if starts_later_in(g, defs[0], uri, start) {
        Some(0)
    } else {
        match first_later(g, defs.drop_first(), uri, start) {
            Some(i) => Some(i + 1),
            None => None,
        }
    }
}

proof fn lemma_first_later(g: &Graph, defs: Seq<DefinitionId>, uri: Seq<char>, start: u32)
    ensures
        match first_later(g, defs, uri, start) {
            Some(i) => 0 <= i < defs.len() && starts_later_in(g, defs[i], uri, start)
                && forall|j: int| 0 <= j < i ==> !starts_later_in(g, #[trigger] defs[j], uri, start),
            None => forall|j: int| 0 <= j < defs.len() ==> !starts_later_in(g, #[trigger] defs[j], uri, start),
        },
    decreases defs.len(),
{
    if defs.len() > 0 {
        lemma_first_later(g, defs.drop_first(), uri, start);
        if !starts_later_in(g, defs[0], uri, start) {
            match first_later(g, defs.drop_first(), uri, start) {
                Some(i) => {
                    assert forall|j: int| 0 <= j < i + 1 implies !starts_later_in(g, #[trigger] defs[j], uri, start) by {
                        if j > 0 {
                            assert(defs[j] == defs.drop_first()[j - 1]);
                        }
                    }
                },
                None => {
                    assert forall|j: int| 0 <= j < defs.len() implies !starts_later_in(g, #[trigger] defs[j], uri, start) by {
                        if j > 0 {
                            assert(defs[j] == defs.drop_first()[j - 1]);
                        }
                    }
                },
            }
        }
    }
}

impl Graph {
    /// Whether a visibility operation `vis` can order the definitions of declaration `decl`: it
    /// exists, is a visibility operation, its document exists, and so does the declaration.
    pub open spec fn ordering_known(&self, decl: u64, vis: u64) -> bool {
        &&& self.is_visibility_def(vis)
        &&& self.docs().contains_key(self.defs()[vis].uri_id.value)
        &&& self.decls().contains_key(decl)
    }

    /// Where visibility operation `vis` goes among the definitions of declaration `decl`: before
    /// the first of them that starts after it in its own document.
    pub open spec fn insert_position(&self, decl: u64, vis: u64) -> Option<int> {
        if self.ordering_known(decl, vis) {
            first_later(self, self.decls()[decl].definitions@, self.docs()[self.defs()[vis].uri_id.value].uri@,
                self.defs()[vis].offset.start_spec())
        } else {
            None
        }
    }

    /// Where visibility operation `visibility_definition_id` goes among the definitions of
    /// `declaration_id`: before the first of them in the same document that starts after it.
    /// Definitions of other documents keep their order.
    fn method_visibility_insert_index(&self, declaration_id: DeclarationId, visibility_definition_id: DefinitionId) -> (r: Option<usize>)
        ensures
            match r {
                Some(i) => self.insert_position(declaration_id.value, visibility_definition_id.value) == Some(i as int),
                None => self.insert_position(declaration_id.value, visibility_definition_id.value) is None,
            },
    {
        let visibility_definition = match self.definitions.get(&visibility_definition_id.value) {
            Some(d) => d,
            None => return None,
        };
        if !visibility_definition.is_method_visibility_exec() {
            return None;
        }
        let visibility_uri = match self.documents.get(&visibility_definition.uri_id.value) {
            Some(document) => &document.uri,
            None => return None,
        };
        let visibility_start = visibility_definition.offset.start();
        let declaration = match self.declarations.get(&declaration_id.value) {
            Some(d) => d,
            None => return None,
        };
        let ghost uri = visibility_uri@;
        proof {
            lemma_first_later(self, declaration.definitions@, uri, visibility_start);
        }
        let mut i: usize = 0;
        while i < declaration.definitions.len()
            invariant
                i <= declaration.definitions@.len(),
                visibility_uri@ == uri,
                self.ordering_known(declaration_id.value, visibility_definition_id.value),
                *declaration == self.decls()[declaration_id.value],
                uri == self.docs()[self.defs()[visibility_definition_id.value].uri_id.value].uri@,
                visibility_start == self.defs()[visibility_definition_id.value].offset.start_spec(),
                forall|j: int| 0 <= j < i ==> !starts_later_in(self, #[trigger] declaration.definitions@[j], uri, visibility_start),
            decreases declaration.definitions@.len() - i,
        {
            let definition_id = declaration.definitions[i];
            if let Some(definition) = self.definitions.get(&definition_id.value) {
                if let Some(document) = self.documents.get(&definition.uri_id.value) {
                    if document.uri == *visibility_uri && visibility_start < definition.offset.start() {
                        proof {
                            lemma_first_later(self, declaration.definitions@, uri, visibility_start);
                            assert(starts_later_in(self, declaration.definitions@[i as int], uri, visibility_start));
                            match first_later(self, declaration.definitions@, uri, visibility_start) {
                                Some(k) => {
                                    if k < i {
                                        assert(!starts_later_in(self, declaration.definitions@[k], uri, visibility_start));
                                    }
                                },
                                None => {},
                            }
                        }
                        return Some(i);
                    }
                }
            }
            i = i + 1;
        }
        None
    }

    /// The definitions of a declaration after `definition_id` joins them, ordered by visibility
    /// operation `vis`: at its insert position, or last.
    pub open spec fn ordered_definitions(&self, decl: u64, vis: u64, definition_id: DefinitionId) -> Seq<DefinitionId> {
        match self.insert_position(decl, vis) {
            Some(i) => self.decls()[decl].definitions@.insert(i, definition_id),
            None => self.decls()[decl].definitions@.push(definition_id),
        }
    }

    /// The effect of adding definition `def` to the declaration named `fqn` (id `id`), ordered by
    /// visibility operation `vis`, from `old`: a new method declaration of `owner_id` holding
    /// only `def`, or `def` joined to the existing declaration at its place (unless it holds it
    /// already, in which case nothing changes).
    pub open spec fn ordered_declaration_added(&self, old: &Graph, id: u64, def: DefinitionId, vis: DefinitionId, fqn: Seq<char>, kind: DeclarationKind, owner_id: DeclarationId) -> bool {
        &&& id == crate::ids::hash_str(fqn)
        &&& self.decls().contains_key(id)
        &&& forall|k: u64| k != id ==> #[trigger] self.decls().contains_key(k) == old.decls().contains_key(k)
        &&& forall|k: u64| k != id && #[trigger] old.decls().contains_key(k) ==> self.decls()[k] == old.decls()[k]
        &&& if old.decls().contains_key(id) && old.decls()[id].definitions@.contains(def) {
            &&& self.decls() == old.decls()
            &&& self.def_decl() == old.def_decl()
        } else if old.decls().contains_key(id) {
            &&& crate::graph::same_decl_shape(self.decls()[id], old.decls()[id])
            &&& self.decls()[id].diagnostics == old.decls()[id].diagnostics
            &&& self.decls()[id].definitions@ == old.ordered_definitions(id, vis.value, def)
            &&& self.def_decl() == old.def_decl().insert(def.value, DeclarationId { value: id })
        } else {
            &&& self.decls()[id].name@ == fqn
            &&& self.decls()[id].kind == kind
            &&& self.decls()[id].owner_id == owner_id
            &&& self.decls()[id].definitions@ == seq![def]
            &&& self.decls()[id].diagnostics@.len() == 0
            &&& self.decls()[id].members@.len() == 0
            &&& self.decls()[id].ancestors@.len() == 0
            &&& self.def_decl() == old.def_decl().insert(def.value, DeclarationId { value: id })
        }
    }

    /// Adds `definition_id` to the declaration named `fully_qualified_name`, creating it (of
    /// `kind`, owned by `owner_id`) when missing; among existing definitions it goes before the
    /// first one of the same document that starts after `ordering_visibility_definition_id`.
    fn add_ordered_declaration(
        &mut self,
        definition_id: DefinitionId,
        ordering_visibility_definition_id: DefinitionId,
        fully_qualified_name: String,
        kind: DeclarationKind,
        owner_id: DeclarationId,
    ) -> (id: DeclarationId)
        requires
            old(self).wf(),
        ensures
            final(self).wf(),
            final(self).ordered_declaration_added(old(self), id.value, definition_id, ordering_visibility_definition_id, fully_qualified_name@, kind, owner_id),
            final(self).frame(old(self), false, false, true, true, false, false, false, false, false),
    {
        let ghost g0 = *old(self);
        let declaration_id = DeclarationId::from_str(fully_qualified_name.as_str());
        let insert_index = self.method_visibility_insert_index(declaration_id, ordering_visibility_definition_id);
        if let Some(mut declaration) = self.declarations.remove(&declaration_id.value) {
            if crate::graph::contains_definition(&declaration.definitions, definition_id) {
                self.declarations.insert(declaration_id.value, declaration);
                assert(self.decls() =~= g0.decls());
                return declaration_id;
            }
            match insert_index {
                Some(index) => {
                    proof {
                        lemma_first_later(&g0, g0.decls()[declaration_id.value].definitions@,
                            g0.docs()[g0.defs()[ordering_visibility_definition_id.value].uri_id.value].uri@,
                            g0.defs()[ordering_visibility_definition_id.value].offset.start_spec());
                    }
                    declaration.definitions.insert(index, definition_id);
                },
                None => declaration.definitions.push(definition_id),
            }
            self.declarations.insert(declaration_id.value, declaration);
        } else {
            let mut declaration = Declaration::new(fully_qualified_name, kind, owner_id);
            declaration.definitions.push(definition_id);
            self.declarations.insert(declaration_id.value, declaration);
        }
        self.definition_declarations.insert(definition_id.value, declaration_id);
        declaration_id
    }

    /// The effect of attaching visibility operation `v` to the method declaration `id` named
    /// `fqn` from `old`: the declaration holds `v` at its place (created for `owner_id` when
    /// missing), and `v` counts as applied to member `str_id` of `owner_id`.
    pub open spec fn visibility_declaration_added(&self, old: &Graph, id: u64, v: DefinitionId, owner_id: DeclarationId, str_id: StringId, fqn: Seq<char>) -> bool {
        &&& self.ordered_declaration_added(old, id, v, v, fqn, DeclarationKind::Method, owner_id)
        &&& forall|k: u128, x: u64| #[trigger] self.applied().index().relates(k, x)
            <==> (old.applied().index().relates(k, x) || (k == pair_key(owner_id.value, str_id.value) && x == v.value))
        &&& self.frame(old, false, false, true, true, false, false, false, true, false)
    }

    /// Attaches visibility operation `definition_id` to the method declaration named
    /// `fully_qualified_name` (created for `owner_id` when missing) at its place in program order,
    /// and records it as applied to member `str_id` of `owner_id`.
    pub fn add_method_visibility_declaration(
        &mut self,
        definition_id: DefinitionId,
        owner_id: DeclarationId,
        str_id: StringId,
        fully_qualified_name: String,
    ) -> (id: DeclarationId)
        requires
            old(self).wf(),
        ensures
            final(self).wf(),
            final(self).visibility_declaration_added(old(self), id.value, definition_id, owner_id, str_id, fully_qualified_name@),
    {
        let declaration_id = self.add_ordered_declaration(definition_id, definition_id, fully_qualified_name, DeclarationKind::Method, owner_id);
        let ghost mid = *self;
        self.applied_method_visibilities.track(owner_id, str_id, definition_id);
        assert(mid.ordered_declaration_added(old(self), declaration_id.value, definition_id, definition_id, fully_qualified_name@, DeclarationKind::Method, owner_id));
        assert(self.decls() == mid.decls() && self.def_decl() == mid.def_decl());
        declaration_id
    }

    /// The effect of attaching the copy `definition_id` to the method declaration `id` named
    /// `fully_qualified_name` (created for `owner_id` when missing), ordered by
    /// `visibility_definition_id`, from `old`.
    pub open spec fn copy_declaration_added(&self, old: &Graph, id: DeclarationId, definition_id: DefinitionId, visibility_definition_id: DefinitionId, fully_qualified_name: Seq<char>, owner_id: DeclarationId) -> bool {
        &&& self.ordered_declaration_added(old, id.value, definition_id, visibility_definition_id, fully_qualified_name, DeclarationKind::Method, owner_id)
        &&& self.frame(old, false, false, true, true, false, false, false, false, false)
    }

    /// Attaches the module function copy `definition_id` to the method declaration named
    /// `fully_qualified_name` (created for `owner_id` when missing), ordered by the visibility
    /// operation that requested it.
    pub fn add_module_function_copy_declaration(
        &mut self,
        definition_id: DefinitionId,
        visibility_definition_id: DefinitionId,
        fully_qualified_name: String,
        owner_id: DeclarationId,
    ) -> (id: DeclarationId)
        requires
            old(self).wf(),
        ensures
            final(self).wf(),
            final(self).copy_declaration_added(old(self), id, definition_id, visibility_definition_id, fully_qualified_name@, owner_id),

    {
        self.add_ordered_declaration(definition_id, visibility_definition_id, fully_qualified_name, DeclarationKind::Method, owner_id)
    }

    /// The effect of registering `definition` (identifier `id`) as the copy of
    /// `source_definition_id` requested by `visibility_definition_id` for `copy_declaration_id`,
    /// from `old`.
    pub open spec fn module_function_copy_added(&self, old: &Graph, source_definition_id: DefinitionId, visibility_definition_id: DefinitionId, copy_declaration_id: DeclarationId, definition: Definition, id: DefinitionId) -> bool {
        &&& id == definition.id
        &&& old.copies().copies().has(id.value) ==> {
            &&& forall|x: u64| #[trigger] self.copies().copies().has(x) == old.copies().copies().has(x)
            &&& forall|x: u64| x != id.value ==> #[trigger] self.copies().copies().same_entry(&old.copies().copies(), x)
            &&& self.copies().copies().triggers_of(id.value)
                == pushed_unique(old.copies().copies().triggers_of(id.value), visibility_definition_id.value)
            &&& self.copies().copies().source_of(id.value) == old.copies().copies().source_of(id.value)
            &&& self.copies().copies().decl_of(id.value) == old.copies().copies().decl_of(id.value)
            &&& self.copies().document_deps() == old.copies().document_deps()
            &&& self.defs() == old.defs()
        }
        &&& !old.copies().copies().has(id.value) && old.defs().contains_key(id.value) ==> {
            &&& self.copies().copies() == old.copies().copies()
            &&& forall|k: u128, v: u64| #[trigger] self.copies().document_deps().relates(k, v)
                <==> (old.copies().document_deps().relates(k, v)
                    || (k == source_definition_id.value as u128 && v == visibility_definition_id.value))
            &&& self.defs() == old.defs()
        }
        &&& !old.copies().copies().has(id.value) && !old.defs().contains_key(id.value) ==> {
            &&& self.defs() == old.defs().insert(id.value, definition)
            &&& forall|x: u64| #[trigger] self.copies().copies().has(x) == (old.copies().copies().has(x) || x == id.value)
            &&& forall|x: u64| x != id.value ==> #[trigger] self.copies().copies().same_entry(&old.copies().copies(), x)
            &&& self.copies().copies().source_of(id.value) == source_definition_id.value
            &&& self.copies().copies().decl_of(id.value) == copy_declaration_id.value
            &&& self.copies().copies().triggers_of(id.value) == seq![visibility_definition_id.value]
            &&& self.copies().document_deps() == old.copies().document_deps()
        }
        &&& self.copies().alias_deps() == old.copies().alias_deps()
        &&& self.copies().ancestor_deps() == old.copies().ancestor_deps()
        &&& self.copies().member_deps() == old.copies().member_deps()
        &&& self.frame(old, false, true, false, false, false, false, true, false, false)
    }

    /// Registers `definition` as the copy of `source_definition_id` requested by visibility
    /// operation `visibility_definition_id` for declaration `copy_declaration_id`, and returns its
    /// identifier. A copy tracked already only gains the request; a definition that exists
    /// already (written in the source as `module_function def ...`) is reused and the request is
    /// recorded against its source document's definition.
    pub fn add_module_function_copy(
        &mut self,
        source_definition_id: DefinitionId,
        visibility_definition_id: DefinitionId,
        copy_declaration_id: DeclarationId,
        definition: Definition,
    ) -> (id: DefinitionId)
        requires
            old(self).wf(),
        ensures
            final(self).wf(),
            final(self).module_function_copy_added(old(self), source_definition_id, visibility_definition_id, copy_declaration_id, definition, id),

    {
        let definition_id = definition.id;
        if self.module_function_copies.get(definition_id).is_some() {
            self.attach_module_function_copy_visibility(definition_id, visibility_definition_id);
            return definition_id;
        }
        if self.definitions.contains_key(&definition_id.value) {
            self.module_function_copies.attach_document_owned_visibility(source_definition_id, visibility_definition_id);
            return definition_id;
        }
        self.definitions.insert(definition_id.value, definition);
        self.module_function_copies.insert(definition_id, source_definition_id, visibility_definition_id, copy_declaration_id);
        proof {
            assert forall|k: u64| #[trigger] self.defs().contains_key(k) implies self.defs()[k].id.value == k by {
                if k != definition_id.value {
                    assert(old(self).defs().contains_key(k));
                }
            }
        }
        definition_id
    }
}

/// Dropping one value from a sequence is filtering out that value.
proof fn lemma_without_not_listed(s: Seq<u64>, v: u64)
    ensures
        without(s, v) == not_listed(s, seq![DefinitionId { value: v }]),
    decreases s.len(),
{
    reveal(Seq::filter);
    let ids = seq![DefinitionId { value: v }];
    if s.len() > 0 {
        lemma_without_not_listed(s.drop_last(), v);
        let l = s.last();
        assert(ids.contains(DefinitionId { value: l }) <==> l == v) by {
            if ids.contains(DefinitionId { value: l }) {
                let i = choose|i: int| 0 <= i < ids.len() && ids[i] == DefinitionId { value: l };
                assert(i == 0);
            }
            if l == v {
                assert(ids[0] == DefinitionId { value: l });
            }
        }
    }
}

impl Graph {
    /// Withdraws every request of visibility operation `visibility_id`: the copies it alone
    /// requested are removed, with the copies made from them; the operations that requested a
    /// removed copy are listed in `work` when they still exist.
    fn withdraw_visibility_copies(&mut self, visibility_id: DefinitionId, work: &mut VisibilityWork)
        requires
            old(self).wf(),
            old(work).wf(),
        ensures
            final(self).wf(),
            final(work).wf(),
            final(self).withdrawal(old(self), seq![visibility_id], old(work).ids_view(), final(work).ids_view()),
            forall|g: u64| #[trigger] final(self).copies().copies().has(g)
                ==> !final(self).copies().copies().triggers_of(g).contains(visibility_id.value),
    {
        let ghost s0 = *old(self);
        let ghost w0 = work.ids_view();
        let orphaned = self.module_function_copies.detach_visibility(visibility_id);
        let ghost s1 = *self;
        let mut visited: HashSet<u64> = HashSet::new();
        proof {
            self.lemma_removal_step_refl(visited@, w0);
            assert(visited@ =~= Set::<u64>::empty());
        }
        let mut i: usize = 0;
        while i < orphaned.len()
            invariant
                i <= orphaned@.len(),
                self.wf(),
                work.wf(),
                s0.wf(),
                s1.wf(),
                orphaned@ == s0.copies().copies().orphans_for(visibility_id.value),
                forall|x: u64| #[trigger] s1.copies().copies().has(x) == s0.copies().copies().has(x),
                self.removal_step(&s1, Set::<u64>::empty(), visited@, w0, work.ids_view()),
                forall|j: int| 0 <= j < i ==> visited@.contains(#[trigger] orphaned@[j]),
                visits_justified(s1.copies().copies(), Set::<u64>::empty(), visited@, Set::new(|g: u64| orphaned@.contains(g))),
            decreases orphaned@.len() - i,
        {
            let copy = orphaned[i];
            let ghost sa = *self;
            let ghost va = visited@;
            let ghost wa = work.ids_view();
            proof {
                s0.copies().copies().lemma_consistent();
                crate::seqs::lemma_filter_contains(s0.copies().copies().triggered(visibility_id.value),
                    |g: u64| without(s0.copies().copies().triggers_of(g), visibility_id.value).len() == 0);
                assert(orphaned@.contains(copy));
                assert(s0.copies().copies().has(copy));
                if !sa.copies().copies().has(copy) {
                    assert(removed_copy(&s1, &sa, copy));
                    assert(va.contains(copy));
                }
            }
            self.remove_module_function_copy_and_collect_visibility_work(DefinitionId::new(copy), work, &mut visited);
            proof {
                Self::lemma_removal_step_trans(&s1, &sa, self, Set::<u64>::empty(), va, visited@, w0, wa, work.ids_view());
                let c1 = s1.copies().copies();
                let ca = sa.copies().copies();
                let roots = Set::new(|g: u64| orphaned@.contains(g));
                let vb = visited@;
                assert forall|g: u64| #[trigger] vb.contains(g) && !Set::<u64>::empty().contains(g) implies {
                    &&& c1.has(g)
                    &&& roots.contains(g) || (vb.contains(c1.source_of(g)) && !Set::<u64>::empty().contains(c1.source_of(g)))
                } by {
                    if !va.contains(g) {
                        assert(ca.has(g));
                        assert(ca.same_entry(&c1, g));
                        if g == copy {
                            assert(orphaned@.contains(copy));
                            assert(roots.contains(g));
                        } else {
                            assert(vb.contains(ca.source_of(g)));
                        }
                    } else {
                        assert(va.contains(g) && !Set::<u64>::empty().contains(g));
                    }
                }
                assert forall|j: int| 0 <= j < i + 1 implies visited@.contains(#[trigger] orphaned@[j]) by {
                    if j < i {
                        assert(va.contains(orphaned@[j]));
                    }
                }
            }
            i = i + 1;
        }
        proof {
            let c0 = s0.copies().copies();
            let c1 = s1.copies().copies();
            let c2 = self.copies().copies();
            let ids = seq![visibility_id];
            let v = visibility_id.value;
            assert forall|g: u64| #[trigger] c2.has(g) implies {
                &&& c0.has(g)
                &&& c2.source_of(g) == c0.source_of(g)
                &&& c2.decl_of(g) == c0.decl_of(g)
                &&& c2.triggers_of(g) == not_listed(c0.triggers_of(g), ids)
            } by {
                assert(c1.has(g));
                assert(c2.same_entry(&c1, g));
                lemma_without_not_listed(c0.triggers_of(g), v);
            }
            assert forall|g: u64| #[trigger] c0.has(g) && c0.triggers_of(g).len() > 0 && not_listed(c0.triggers_of(g), ids).len() == 0
                implies !c2.has(g) by {
                lemma_without_not_listed(c0.triggers_of(g), v);
                crate::seqs::lemma_without(c0.triggers_of(g), v);
                assert(c0.triggers_of(g).contains(c0.triggers_of(g)[0]));
                assert(c0.triggers_of(g).contains(v));
                c0.lemma_consistent();
                assert(c0.triggered(v).contains(g));
                crate::seqs::lemma_filter_contains(c0.triggered(v), |x: u64| without(c0.triggers_of(x), v).len() == 0);
                assert(orphaned@.contains(g));
                let j = choose|j: int| 0 <= j < orphaned@.len() && orphaned@[j] == g;
                assert(visited@.contains(orphaned@[j]));
            }
            assert forall|g: u64| #[trigger] c2.has(g) implies !removed_copy(&s0, self, c2.source_of(g)) by {
                assert(c1.has(g));
                if removed_copy(&s0, self, c2.source_of(g)) {
                    assert(removed_copy(&s1, self, c2.source_of(g)));
                    assert(visited@.contains(c2.source_of(g)));
                    assert(Set::<u64>::empty().contains(g));
                }
            }
            assert forall|g: u64| #[trigger] removed_copy(&s0, self, g) implies {
                ||| c0.triggers_of(g).len() > 0 && not_listed(c0.triggers_of(g), ids).len() == 0
                ||| removed_copy(&s0, self, c0.source_of(g))
            } by {
                assert(removed_copy(&s1, self, g));
                assert(visited@.contains(g));
                if orphaned@.contains(g) {
                    crate::seqs::lemma_filter_contains(c0.triggered(v), |x: u64| without(c0.triggers_of(x), v).len() == 0);
                    c0.lemma_consistent();
                    assert(c0.triggered(v).contains(g));
                    assert(c0.triggers_of(g).contains(v));
                    lemma_without_not_listed(c0.triggers_of(g), v);
                } else {
                    let src = c1.source_of(g);
                    assert(visited@.contains(src));
                    assert(c1.has(src));
                    assert(!c2.has(src));
                    assert(c1.source_of(g) == c0.source_of(g));
                }
            }
            assert forall|k: u64| #[trigger] self.defs().contains_key(k) <==> (s0.defs().contains_key(k) && !removed_copy(&s0, self, k)) by {
                assert(removed_copy(&s0, self, k) == removed_copy(&s1, self, k));
            }
            assert forall|g: u64| #[trigger] c2.has(g) implies !c2.triggers_of(g).contains(v) by {
                assert(c1.has(g));
                assert(c2.same_entry(&c1, g));
                crate::seqs::lemma_without(c0.triggers_of(g), v);
            }
            assert forall|k: u64, d: DefinitionId| s0.decls().contains_key(k) && #[trigger] s0.decls()[k].definitions@.contains(d)
                && !removed_copy(&s0, self, d.value) implies self.decls()[k].definitions@.contains(d) by {
                assert(removed_copy(&s0, self, d.value) == removed_copy(&s1, self, d.value));
            }
            assert forall|g: u64| #[trigger] removed_copy(&s0, self, g) && self.decls().contains_key(c0.decl_of(g))
                implies !self.decls()[c0.decl_of(g)].definitions@.contains(DefinitionId { value: g }) by {
                assert(removed_copy(&s1, self, g));
            }
            assert forall|g: u64| #[trigger] removed_copy(&s0, self, g) && s0.def_decl().contains_key(g) && s0.def_decl()[g].value == c0.decl_of(g)
                implies !self.def_decl().contains_key(g) by {
                assert(removed_copy(&s1, self, g));
            }
            let w1 = work.ids_view();
            assert forall|i: int| w0.len() <= i < w1.len() implies released(&s0, self, (#[trigger] w1[i]).value) || ids.contains(w1[i]) by {
                assert(released(&s1, self, w1[i].value));
                let g = choose|g: u64| c1.has(g) && !c2.has(g) && #[trigger] c1.triggers_of(g).contains(w1[i].value);
                crate::seqs::lemma_without(c0.triggers_of(g), v);
                assert(c0.triggers_of(g).contains(w1[i].value));
            }
            assert forall|g: u64, t: u64| removed_copy(&s0, self, g) && #[trigger] c0.triggers_of(g).contains(t)
                && !ids.contains(DefinitionId { value: t }) && self.defs().contains_key(t) implies w1.contains(DefinitionId { value: t }) by {
                assert(removed_copy(&s1, self, g));
                if t == v {
                    assert(ids[0] == DefinitionId { value: t });
                }
                crate::seqs::lemma_without(c0.triggers_of(g), v);
                assert(c1.triggers_of(g).contains(t));
            }
        }
    }

    /// Withdraws the requests of the visibility operations `visibility_ids`, each also losing its
    /// alias dependencies, and lists the operations to resolve again: those that requested a
    /// removed copy, and each of `visibility_ids`, when they still exist.
    fn take_module_function_copy_work_for_visibilities(&mut self, visibility_ids: Vec<u64>) -> (r: Vec<DefinitionId>)
        requires
            old(self).wf(),
        ensures
            final(self).wf(),
            final(self).withdrawal(old(self), as_definition_ids(visibility_ids@), Seq::empty(), r@),
            r@.no_duplicates(),
            forall|k: u128, v: u64| #[trigger] final(self).copies().alias_deps().relates(k, v) ==> !visibility_ids@.contains(v),
            forall|i: int| 0 <= i < visibility_ids@.len() && final(self).defs().contains_key(#[trigger] visibility_ids@[i])
                ==> r@.contains(DefinitionId { value: visibility_ids@[i] }),
    {
        let mut work = VisibilityWork::new();
        let ghost s0 = *old(self);
        proof {
            self.lemma_withdrawal_refl(Seq::empty());
            assert(as_definition_ids(visibility_ids@.take(0)) =~= Seq::<DefinitionId>::empty());
        }
        let mut i: usize = 0;
        while i < visibility_ids.len()
            invariant
                i <= visibility_ids@.len(),
                self.wf(),
                work.wf(),
                s0 == *old(self),
                self.withdrawal(&s0, as_definition_ids(visibility_ids@.take(i as int)), Seq::empty(), work.ids_view()),
                forall|k: u128, v: u64| #[trigger] self.copies().alias_deps().relates(k, v) ==> !visibility_ids@.take(i as int).contains(v),
                forall|j: int| 0 <= j < i && self.defs().contains_key(#[trigger] visibility_ids@[j])
                    ==> work.ids_view().contains(DefinitionId { value: visibility_ids@[j] }),
            decreases visibility_ids@.len() - i,
        {
            let visibility_id = DefinitionId::new(visibility_ids[i]);
            let ghost sa = *self;
            let ghost wa = work.ids_view();
            self.module_function_copies.detach_alias_dependent_visibility(visibility_id);
            let ghost sb = *self;
            proof {
                sb.lemma_withdrawal_refl(wa);
            }
            self.withdraw_visibility_copies(visibility_id, &mut work);
            let ghost sc = *self;
            let ghost wc = work.ids_view();
            self.push_existing_visibility_work(visibility_id, &mut work);
            proof {
                assert(sb.withdrawal(&sa, Seq::empty(), wa, wa)) by {
                    assert(wa.take(wa.len() as int) =~= wa);
                    let ca = sa.copies().copies();
                    assert forall|g: u64| #[trigger] sb.copies().copies().has(g) implies
                        sb.copies().copies().triggers_of(g) == not_listed(ca.triggers_of(g), Seq::empty()) by {
                        assert(sb.copies().copies().triggers_of(g) == not_listed(sb.copies().copies().triggers_of(g), Seq::empty()));
                    }
                    assert forall|g: u64| #[trigger] ca.has(g) && ca.triggers_of(g).len() > 0 && not_listed(ca.triggers_of(g), Seq::empty()).len() == 0
                        implies !sb.copies().copies().has(g) by {
                        assert(!sb.copies().copies().has(g));
                    }
                }
                Self::lemma_withdrawal_trans(&sa, &sb, &sc, Seq::empty(), seq![visibility_id], wa, wa, wc);
                Self::lemma_withdrawal_trans(&s0, &sa, &sc, as_definition_ids(visibility_ids@.take(i as int)),
                    Seq::empty() + seq![visibility_id], Seq::empty(), wa, wc);
                assert(as_definition_ids(visibility_ids@.take(i as int)) + (Seq::empty() + seq![visibility_id])
                    =~= as_definition_ids(visibility_ids@.take(i + 1)));
                lemma_extend_existing(sc.defs(), wc, seq![visibility_id]);
                let idsn = as_definition_ids(visibility_ids@.take(i + 1));
                assert forall|q: int| wc.len() <= q < work.ids_view().len() implies idsn.contains(#[trigger] work.ids_view()[q]) by {
                    assert(seq![visibility_id].contains(work.ids_view()[q]));
                    assert(idsn[i as int] == visibility_id);
                }
                Self::lemma_withdrawal_extend_work(&s0, &sc, as_definition_ids(visibility_ids@.take(i + 1)), Seq::empty(), wc, work.ids_view());
                assert forall|k: u128, v: u64| #[trigger] self.copies().alias_deps().relates(k, v) implies !visibility_ids@.take(i + 1).contains(v) by {
                    crate::seqs::lemma_take_succ_contains(visibility_ids@, i as int, v);
                    assert(sa.copies().alias_deps().relates(k, v));
                }
                assert forall|j: int| 0 <= j < i + 1 && self.defs().contains_key(#[trigger] visibility_ids@[j])
                    implies work.ids_view().contains(DefinitionId { value: visibility_ids@[j] }) by {
                    if j < i {
                        assert(sa.defs().contains_key(visibility_ids@[j]));
                        assert(wa.contains(DefinitionId { value: visibility_ids@[j] }));
                        let q = choose|q: int| 0 <= q < wa.len() && wa[q] == DefinitionId { value: visibility_ids@[j] };
                        assert(wc.contains(DefinitionId { value: visibility_ids@[j] })) by {
                            assert(wc.take(wa.len() as int)[q] == wa[q]);
                        }
                    } else {
                        assert(seq![visibility_id][0] == visibility_id);
                    }
                }
            }
            i = i + 1;
        }
        assert(visibility_ids@.take(i as int) =~= visibility_ids@);
        work.into_vec()
    }
}

impl Graph {
    /// A withdrawal stays one when more existing definitions are listed after its work.
    proof fn lemma_withdrawal_extend_work(old: &Graph, new: &Graph, ids: Seq<DefinitionId>, w0: Seq<DefinitionId>, w1: Seq<DefinitionId>, w2: Seq<DefinitionId>)
        requires
            new.withdrawal(old, ids, w0, w1),
            w1.len() <= w2.len(),
            w2.take(w1.len() as int) == w1,
            forall|i: int| w1.len() <= i < w2.len() ==> new.defs().contains_key((#[trigger] w2[i]).value),
            forall|i: int| w1.len() <= i < w2.len() ==> ids.contains(#[trigger] w2[i]),
        ensures
            new.withdrawal(old, ids, w0, w2),
    {
        assert(w2.take(w0.len() as int) =~= w2.take(w1.len() as int).take(w0.len() as int));
        assert forall|i: int| w0.len() <= i < w2.len() implies released(old, new, (#[trigger] w2[i]).value) || ids.contains(w2[i]) by {
            if i < w1.len() {
                assert(w2[i] == w2.take(w1.len() as int)[i]);
            }
        }
        let c0 = old.copies().copies();
        assert forall|g: u64, t: u64| removed_copy(old, new, g) && #[trigger] c0.triggers_of(g).contains(t)
            && !ids.contains(DefinitionId { value: t }) && new.defs().contains_key(t) implies w2.contains(DefinitionId { value: t }) by {
            assert(w1.contains(DefinitionId { value: t }));
            let q = choose|q: int| 0 <= q < w1.len() && w1[q] == DefinitionId { value: t };
            assert(w2.take(w1.len() as int)[q] == w1[q]);
        }
        assert forall|i: int| w0.len() <= i < w2.len() implies old.defs().contains_key((#[trigger] w2[i]).value) by {
            if i < w1.len() {
                assert(w2[i] == w2.take(w1.len() as int)[i]);
                assert(old.defs().contains_key(w1[i].value));
            } else {
                assert(new.defs().contains_key(w2[i].value));
            }
        }
    }
}

impl Graph {
    /// Dropping dependencies of copies, and nothing else, withdraws nothing.
    proof fn lemma_withdrawal_deps_only(old: &Graph, new: &Graph, w: Seq<DefinitionId>)
        requires
            old.wf(),
            new.copies().copies() == old.copies().copies(),
            forall|k: u128, v: u64| #[trigger] new.copies().alias_deps().relates(k, v) ==> old.copies().alias_deps().relates(k, v),
            forall|k: u128, v: u64| #[trigger] new.copies().ancestor_deps().relates(k, v) ==> old.copies().ancestor_deps().relates(k, v),
            forall|k: u128, v: u64| #[trigger] new.copies().member_deps().relates(k, v) ==> old.copies().member_deps().relates(k, v),
            forall|k: u128, v: u64| #[trigger] new.copies().document_deps().relates(k, v) ==> old.copies().document_deps().relates(k, v),
            new.frame(old, false, false, false, false, false, false, true, false, false),
        ensures
            new.withdrawal(old, Seq::empty(), w, w),
    {
        old.lemma_withdrawal_refl(w);
    }

    /// Withdraws the requests of the visibility operations that depend on the ancestors of
    /// `owner_id` (those dependencies are dropped), and lists the operations to resolve again.
    fn take_module_function_copy_work_for_owner(&mut self, owner_id: DeclarationId) -> (r: Vec<DefinitionId>)
        requires
            old(self).wf(),
        ensures
            final(self).wf(),
            final(self).withdrawal(old(self), as_definition_ids(old(self).copies().ancestor_deps().fwd(owner_id.value as u128)), Seq::empty(), r@),
            r@.no_duplicates(),
            forall|k: u128, v: u64| #[trigger] final(self).copies().ancestor_deps().relates(k, v) ==> k != owner_id.value as u128,
    {
        let ghost s0 = *old(self);
        let visibility_ids = self.module_function_copies.take_ancestor_dependent_visibility_ids_for_owner(owner_id);
        let ghost s1 = *self;
        let r = self.take_module_function_copy_work_for_visibilities(visibility_ids);
        proof {
            Self::lemma_withdrawal_deps_only(&s0, &s1, Seq::empty());
            Self::lemma_withdrawal_trans(&s0, &s1, self, Seq::empty(), as_definition_ids(visibility_ids@), Seq::empty(), Seq::empty(), r@);
            assert(Seq::<DefinitionId>::empty() + as_definition_ids(visibility_ids@) =~= as_definition_ids(visibility_ids@));
        }
        r
    }

    /// The effect of withdrawing the copies whose operations resolved member `member_str_id`
    /// through an ancestor of `owner_id`, from `old`, `r` being the operations to resolve again.
    pub open spec fn member_copies_withdrawn(&self, old: &Graph, owner_id: DeclarationId, member_str_id: StringId, r: Seq<DefinitionId>) -> bool {
        &&& self.withdrawal(old, as_definition_ids(old.copies().member_deps().fwd(pair_key(owner_id.value, member_str_id.value))), Seq::empty(), r)
        &&& r.no_duplicates()
        &&& forall|k: u128, v: u64| #[trigger] self.copies().member_deps().relates(k, v) ==> k != pair_key(owner_id.value, member_str_id.value)
    }

    /// Withdraws the requests of the visibility operations that depend on member `member_str_id`
    /// of the ancestors of `owner_id` (those dependencies are dropped), and lists the operations
    /// to resolve again.
    fn take_module_function_copy_work_for_owner_and_member(&mut self, owner_id: DeclarationId, member_str_id: StringId) -> (r: Vec<DefinitionId>)
        requires
            old(self).wf(),
        ensures
            final(self).wf(),
            final(self).member_copies_withdrawn(old(self), owner_id, member_str_id, r@),

    {
        let ghost s0 = *old(self);
        let visibility_ids = self.module_function_copies.take_ancestor_dependent_visibility_ids_for_owner_and_member(owner_id, member_str_id);
        let ghost s1 = *self;
        let r = self.take_module_function_copy_work_for_visibilities(visibility_ids);
        proof {
            Self::lemma_withdrawal_deps_only(&s0, &s1, Seq::empty());
            Self::lemma_withdrawal_trans(&s0, &s1, self, Seq::empty(), as_definition_ids(visibility_ids@), Seq::empty(), Seq::empty(), r@);
            assert(Seq::<DefinitionId>::empty() + as_definition_ids(visibility_ids@) =~= as_definition_ids(visibility_ids@));
        }
        r
    }

    /// Queues for resolution the visibility operations whose copies depended on the ancestors
    /// of `owner_id`, after withdrawing their requests.
    pub fn requeue_module_function_copies_for_owner(&mut self, owner_id: DeclarationId)
        requires
            old(self).wf(),
        ensures
            final(self).wf(),
            exists|mid: Graph, r: Seq<DefinitionId>| {
                &&& #[trigger] mid.withdrawal(old(self), as_definition_ids(old(self).copies().ancestor_deps().fwd(owner_id.value as u128)), Seq::empty(), r)
                &&& final(self).work() == old(self).work() + r.map_values(|d: DefinitionId| Unit::Definition(d))
                &&& final(self).frame(&mid, false, false, false, false, false, true, false, false, false)
            },
    {
        let ids = self.take_module_function_copy_work_for_owner(owner_id);
        let ghost mid = *self;
        let mut i: usize = 0;
        while i < ids.len()
            invariant
                i <= ids@.len(),
                self.wf(),
                self.frame(&mid, false, false, false, false, false, true, false, false, false),
                self.work() == mid.work() + ids@.take(i as int).map_values(|d: DefinitionId| Unit::Definition(d)),
            decreases ids@.len() - i,
        {
            self.push_work(Unit::Definition(ids[i]));
            assert(ids@.take(i + 1).map_values(|d: DefinitionId| Unit::Definition(d))
                =~= ids@.take(i as int).map_values(|d: DefinitionId| Unit::Definition(d)).push(Unit::Definition(ids@[i as int])));
            i = i + 1;
        }
        assert(ids@.take(i as int) =~= ids@);
        assert(mid.work() == old(self).work());
    }
}

/// Whether each graph of `gs` is the one before it with visibility operation `ids[k]` undone
/// (see `visibility_declaration_detached`).
pub open spec fn detached_in_turn(gs: Seq<Graph>, ids: Seq<DefinitionId>) -> bool {
    &&& gs.len() == ids.len() + 1
    &&& forall|k: int| 0 <= k < ids.len() ==> #[trigger] gs[k + 1].visibility_declaration_detached(&gs[k], ids[k])
}

/// The members of namespace `owner` of `g`, in order; none when `owner` is not a namespace.
pub open spec fn namespace_member_ids(g: &Graph, owner: DeclarationId) -> Seq<DeclarationId> {
    if g.decls().contains_key(owner.value) && g.decls()[owner.value].is_namespace() {
        g.decls()[owner.value].members@.map_values(|m: (StringId, DeclarationId)| m.1)
    } else {
        Seq::empty()
    }
}

/// Whether each graph of `gs` is the one before it with the visibility operations of
/// `members[k]` requeued when it is a method (see `visibility_definitions_requeued`), unchanged
/// otherwise.
pub open spec fn requeued_in_turn(gs: Seq<Graph>, members: Seq<DeclarationId>) -> bool {
    &&& gs.len() == members.len() + 1
    &&& forall|k: int| #![trigger members[k]] 0 <= k < members.len() ==> if gs[k].decls().contains_key(members[k].value)
        && gs[k].decls()[members[k].value].kind == DeclarationKind::Method {
        gs[k + 1].visibility_definitions_requeued(&gs[k], members[k])
    } else {
        gs[k + 1] == gs[k]
    }
}

impl Graph {
    /// The visibility operations among the definitions of `declaration_id`, in order.
    pub open spec fn visibility_definitions_of(&self, declaration_id: DeclarationId) -> Seq<DefinitionId> {
        if self.decls().contains_key(declaration_id.value) {
            self.decls()[declaration_id.value].definitions@.filter(|d: DefinitionId| self.is_visibility_def(d.value))
        } else {
            Seq::<DefinitionId>::empty()
        }
    }

    /// The effect of undoing every visibility operation applied to `decl`, in order (see
    /// `detached_in_turn`), and queuing them for resolution, from `old`.
    pub open spec fn visibility_definitions_requeued(&self, old: &Graph, decl: DeclarationId) -> bool {
        let ids = old.visibility_definitions_of(decl);
        exists|gs: Seq<Graph>| {
            &&& #[trigger] detached_in_turn(gs, ids)
            &&& gs[0] == *old
            &&& self.frame(&gs.last(), false, false, false, false, false, true, false, false, false)
            &&& self.work() == old.work() + definition_units(ids)
        }
    }

    /// Undoes every visibility operation applied to `declaration_id` and queues it for
    /// resolution, in order.
    pub fn requeue_method_visibility_definitions_for_declaration(&mut self, declaration_id: DeclarationId)
        requires
            old(self).wf(),
        ensures
            final(self).wf(),
            final(self).visibility_definitions_requeued(old(self), declaration_id),
            final(self).work() == old(self).work() + old(self).visibility_definitions_of(declaration_id).map_values(|d: DefinitionId| Unit::Definition(d)),
            forall|i: int| 0 <= i < old(self).visibility_definitions_of(declaration_id).len()
                ==> !final(self).def_decl().contains_key((#[trigger] old(self).visibility_definitions_of(declaration_id)[i]).value),
            forall|k: u128, i: int| 0 <= i < old(self).visibility_definitions_of(declaration_id).len()
                ==> !#[trigger] final(self).applied().index().relates(k, old(self).visibility_definitions_of(declaration_id)[i].value),
            final(self).defs() == old(self).defs(),
            final(self).docs() == old(self).docs(),
            final(self).copies() == old(self).copies(),
            final(self).unresolved() == old(self).unresolved(),
            final(self).same_decl_shapes(old(self)),
            forall|k: u128, v: u64| #[trigger] final(self).applied().index().relates(k, v) ==> old(self).applied().index().relates(k, v),
            forall|k: u64, d: DefinitionId| final(self).decls().contains_key(k) && #[trigger] final(self).decls()[k].definitions@.contains(d)
                ==> old(self).decls()[k].definitions@.contains(d),
            forall|k: u64| #[trigger] final(self).def_decl().contains_key(k)
                ==> old(self).def_decl().contains_key(k) && final(self).def_decl()[k] == old(self).def_decl()[k],
    {
        let ghost s0 = *old(self);
        let visibility_ids = self.method_visibility_definition_ids_for_declaration(declaration_id);
        let ghost ids = visibility_ids@;
        proof {
            crate::seqs::lemma_filter_contains(s0.decls()[declaration_id.value].definitions@, |d: DefinitionId| s0.is_visibility_def(d.value));
            assert forall|i: int| 0 <= i < ids.len() implies s0.is_visibility_def((#[trigger] ids[i]).value) by {
                if s0.decls().contains_key(declaration_id.value) {
                    assert(ids.contains(ids[i]));
                }
            }
        }
        let mut units: Vec<Unit> = Vec::new();
        let ghost mut gs: Seq<Graph> = seq![s0];
        let mut i: usize = 0;
        while i < visibility_ids.len()
            invariant
                i <= ids.len(),
                ids == visibility_ids@,
                s0 == *old(self),
                self.wf(),
                forall|j: int| 0 <= j < ids.len() ==> s0.is_visibility_def((#[trigger] ids[j]).value),
                self.work() == s0.work(),
                units@ == ids.take(i as int).map_values(|d: DefinitionId| Unit::Definition(d)),
                forall|j: int| 0 <= j < i ==> !self.def_decl().contains_key((#[trigger] ids[j]).value),
                forall|k: u128, j: int| 0 <= j < i ==> !#[trigger] self.applied().index().relates(k, ids[j].value),
                self.defs() == s0.defs(),
                self.docs() == s0.docs(),
                self.copies() == s0.copies(),
                self.unresolved() == s0.unresolved(),
                self.same_decl_shapes(&s0),
                forall|k: u128, v: u64| #[trigger] self.applied().index().relates(k, v) ==> s0.applied().index().relates(k, v),
                forall|k: u64, d: DefinitionId| self.decls().contains_key(k) && #[trigger] self.decls()[k].definitions@.contains(d)
                    ==> s0.decls()[k].definitions@.contains(d),
                forall|k: u64| #[trigger] self.def_decl().contains_key(k)
                    ==> s0.def_decl().contains_key(k) && self.def_decl()[k] == s0.def_decl()[k],
                detached_in_turn(gs, ids.take(i as int)),
                gs[0] == s0,
                gs.last() == *self,
            decreases ids.len() - i,
        {
            let visibility_id = visibility_ids[i];
            assert(s0.is_visibility_def(ids[i as int].value));
            let ghost before = *self;
            self.detach_method_visibility_declaration(visibility_id);
            units.push(Unit::Definition(visibility_id));
            proof {
                assert(ids.take(i + 1).map_values(|d: DefinitionId| Unit::Definition(d))
                    =~= ids.take(i as int).map_values(|d: DefinitionId| Unit::Definition(d)).push(Unit::Definition(visibility_id)));
                assert forall|j: int| 0 <= j < i + 1 implies !self.def_decl().contains_key((#[trigger] ids[j]).value) by {
                    if j < i {
                        assert(!before.def_decl().contains_key(ids[j].value));
                    }
                }
                assert forall|k: u128, j: int| 0 <= j < i + 1 implies !#[trigger] self.applied().index().relates(k, ids[j].value) by {
                    if j < i {
                        assert(!before.applied().index().relates(k, ids[j].value));
                    }
                }
                assert forall|k: u64, d: DefinitionId| self.decls().contains_key(k) && #[trigger] self.decls()[k].definitions@.contains(d)
                    implies s0.decls()[k].definitions@.contains(d) by {
                    assert(before.decls().contains_key(k));
                    if before.def_decl().contains_key(visibility_id.value) {
                        crate::seqs::lemma_without(before.decls()[k].definitions@, visibility_id);
                    }
                    assert(before.decls()[k].definitions@.contains(d));
                }
                let gs0 = gs;
                gs = gs.push(*self);
                let t = ids.take(i + 1);
                assert forall|q: int| 0 <= q < t.len() implies #[trigger] gs[q + 1].visibility_declaration_detached(&gs[q], t[q]) by {
                    if q < i {
                        assert(t[q] == ids.take(i as int)[q]);
                        assert(gs[q + 1] == gs0[q + 1] && gs[q] == gs0[q]);
                    }
                }
            }
            i = i + 1;
        }
        assert(ids.take(i as int) =~= ids);
        let ghost detached = *self;
        self.extend_work(units);
        assert(definition_units(ids) == ids.map_values(|d: DefinitionId| Unit::Definition(d)));
        assert(ids == s0.visibility_definitions_of(declaration_id));
        assert(detached_in_turn(gs, s0.visibility_definitions_of(declaration_id)));
        assert(self.frame(&gs.last(), false, false, false, false, false, true, false, false, false));
        assert(self.visibility_definitions_requeued(&s0, declaration_id));
    }

    /// Undoes and queues for resolution the visibility operations applied to the method members
    /// of namespace `owner_id`.
    pub fn requeue_method_visibility_definitions_for_owner(&mut self, owner_id: DeclarationId)
        requires
            old(self).wf(),
        ensures
            final(self).wf(),
            exists|gs: Seq<Graph>| {
                &&& #[trigger] requeued_in_turn(gs, namespace_member_ids(old(self), owner_id))
                &&& gs[0] == *old(self)
                &&& *final(self) == gs.last()
            },
            final(self).defs() == old(self).defs(),
            final(self).docs() == old(self).docs(),
            final(self).copies() == old(self).copies(),
            final(self).unresolved() == old(self).unresolved(),
            final(self).same_decl_shapes(old(self)),
            final(self).work().len() >= old(self).work().len(),
            final(self).work().take(old(self).work().len() as int) == old(self).work(),
            forall|i: int| old(self).work().len() <= i < final(self).work().len()
                ==> (#[trigger] final(self).work()[i] matches Unit::Definition(d) && old(self).is_visibility_def(d.value)),
    {
        let ghost s0 = *old(self);
        let mut member_ids: Vec<DeclarationId> = Vec::new();
        if let Some(declaration) = self.declarations.get(&owner_id.value) {
            if declaration.is_namespace_exec() {
                let mut m: usize = 0;
                while m < declaration.members.len()
                    invariant
                        m <= declaration.members@.len(),
                        member_ids@ == declaration.members@.take(m as int).map_values(|x: (StringId, DeclarationId)| x.1),
                    decreases declaration.members@.len() - m,
                {
                    member_ids.push(declaration.members[m].1);
                    m = m + 1;
                    assert(member_ids@ =~= declaration.members@.take(m as int).map_values(|x: (StringId, DeclarationId)| x.1));
                }
                assert(declaration.members@.take(m as int) =~= declaration.members@);
            }
        }
        assert(member_ids@ == namespace_member_ids(&s0, owner_id));
        let ghost mut gs: Seq<Graph> = seq![s0];
        let mut i: usize = 0;
        while i < member_ids.len()
            invariant
                i <= member_ids@.len(),
                s0 == *old(self),
                self.wf(),
                self.defs() == s0.defs(),
                self.docs() == s0.docs(),
                self.copies() == s0.copies(),
                self.unresolved() == s0.unresolved(),
                self.same_decl_shapes(&s0),
                self.work().len() >= s0.work().len(),
                self.work().take(s0.work().len() as int) == s0.work(),
                forall|j: int| s0.work().len() <= j < self.work().len()
                    ==> (#[trigger] self.work()[j] matches Unit::Definition(d) && s0.is_visibility_def(d.value)),
                requeued_in_turn(gs, member_ids@.take(i as int)),
                gs[0] == s0,
                gs.last() == *self,
            decreases member_ids@.len() - i,
        {
            let member_id = member_ids[i];
            let is_method = match self.declarations.get(&member_id.value) {
                Some(member) => member.kind == DeclarationKind::Method,
                None => false,
            };
            let ghost before = *self;
            if is_method {
                self.requeue_method_visibility_definitions_for_declaration(member_id);
                proof {
                    let ids = before.visibility_definitions_of(member_id);
                    let added = ids.map_values(|d: DefinitionId| Unit::Definition(d));
                    assert(self.work().take(s0.work().len() as int) =~= before.work().take(s0.work().len() as int));
                    assert forall|j: int| s0.work().len() <= j < self.work().len()
                        implies (#[trigger] self.work()[j] matches Unit::Definition(d) && s0.is_visibility_def(d.value)) by {
                        if j >= before.work().len() {
                            let q = j - before.work().len();
                            assert(self.work()[j] == added[q]);
                            crate::seqs::lemma_filter_contains(before.decls()[member_id.value].definitions@, |d: DefinitionId| before.is_visibility_def(d.value));
                            assert(ids.contains(ids[q]));
                        } else {
                            assert(self.work()[j] == before.work()[j]);
                        }
                    }
                }
            }
            proof {
                let gs0 = gs;
                gs = gs.push(*self);
                let t = member_ids@.take(i + 1);
                assert forall|q: int| #![trigger t[q]] 0 <= q < t.len() implies (if gs[q].decls().contains_key(t[q].value)
                    && gs[q].decls()[t[q].value].kind == DeclarationKind::Method {
                    gs[q + 1].visibility_definitions_requeued(&gs[q], t[q])
                } else {
                    gs[q + 1] == gs[q]
                }) by {
                    if q < i {
                        assert(t[q] == member_ids@.take(i as int)[q]);
                        assert(gs[q + 1] == gs0[q + 1] && gs[q] == gs0[q]);
                    } else {
                        assert(t[q] == member_id && gs[q] == before && gs[q + 1] == *self);
                        assert(is_method == (before.decls().contains_key(member_id.value)
                            && before.decls()[member_id.value].kind == DeclarationKind::Method));
                    }
                }
            }
            i = i + 1;
        }
        assert(member_ids@.take(i as int) =~= member_ids@);
    }
}

impl Graph {
    /// The effect of withdrawing the copies requested by visibility operation
    /// `visibility_definition_id` and its dependencies, from `old`, with `r` the visibility
    /// operations to resolve again: each existed before and still does, unless it was itself one
    /// of the removed copies (which cannot be when no copy was requested by a copy).
    pub open spec fn copies_removed_for_visibility(&self, old: &Graph, visibility_definition_id: DefinitionId, r: Seq<DefinitionId>) -> bool {
        &&& r.no_duplicates()
        &&& forall|i: int| 0 <= i < r.len() ==> old.defs().contains_key((#[trigger] r[i]).value)
        &&& forall|i: int| 0 <= i < r.len() ==> self.defs().contains_key((#[trigger] r[i]).value) || removed_copy(old, self, r[i].value)
        &&& requests_no_copy(old) && !old.copies().copies().has(visibility_definition_id.value)
            ==> forall|i: int| 0 <= i < r.len() ==> self.defs().contains_key((#[trigger] r[i]).value)
        &&& forall|g: u64| #[trigger] self.copies().copies().has(g)
            ==> !self.copies().copies().triggers_of(g).contains(visibility_definition_id.value)
        &&& forall|k: u128| !#[trigger] self.copies().document_deps().relates(k, visibility_definition_id.value)
        &&& forall|k: u128| !#[trigger] self.copies().alias_deps().relates(k, visibility_definition_id.value)
        &&& forall|k: u128| !#[trigger] self.copies().ancestor_deps().relates(k, visibility_definition_id.value)
        &&& forall|k: u128| !#[trigger] self.copies().member_deps().relates(k, visibility_definition_id.value)
        &&& exists|mid: Graph| #[trigger] mid.withdrawal(old, seq![visibility_definition_id], Seq::empty(), r)
            && self.defs() == mid.defs() && self.copies() == mid.copies()
            && self.docs() == old.docs() && self.unresolved() == old.unresolved()
        &&& copies_left_declarations(old, self)
        &&& self.decls().dom() == old.decls().dom()
        &&& forall|k: u64, d: DefinitionId| self.decls().contains_key(k) && #[trigger] self.decls()[k].definitions@.contains(d)
            ==> old.decls()[k].definitions@.contains(d)
        &&& forall|k: u64| #[trigger] self.def_decl().contains_key(k)
            ==> old.def_decl().contains_key(k) && self.def_decl()[k] == old.def_decl()[k]
        &&& self.work().len() >= old.work().len()
        &&& self.work().take(old.work().len() as int) == old.work()
        &&& forall|i: int| old.work().len() <= i < self.work().len()
            ==> (#[trigger] self.work()[i] matches Unit::Definition(d) && old.is_visibility_def(d.value))
        &&& forall|k: u128, v: u64| #[trigger] self.applied().index().relates(k, v) ==> old.applied().index().relates(k, v)
    }

    /// Undoes the copies of visibility operation `visibility_definition_id`: it loses every
    /// dependency and every request (the copies it alone requested are removed, with the copies
    /// made from them), the declarations of its copies that remain have their visibility
    /// operations undone and queued, and the operations that requested a removed copy are
    /// returned, when they still exist.
    pub fn remove_module_function_copy_for_visibility(&mut self, visibility_definition_id: DefinitionId) -> (r: Vec<DefinitionId>)
        requires
            old(self).wf(),
        ensures
            final(self).wf(),
            exists|mid: Graph, gs: Seq<Graph>| {
                &&& #[trigger] mid.withdrawal(old(self), seq![visibility_definition_id], Seq::empty(), r@)
                &&& #[trigger] declarations_requeued_in_turn(gs, affected_declarations(&mid, old(self).copies().copies().triggered(visibility_definition_id.value)))
                &&& gs[0] == mid
                &&& *final(self) == gs.last()
            },
            final(self).copies_removed_for_visibility(old(self), visibility_definition_id, r@),

    {
        let ghost s0 = *old(self);
        let mut work = VisibilityWork::new();
        let affected_copy_definition_ids = self.module_function_copies.copy_ids_for_visibility(visibility_definition_id);
        self.module_function_copies.detach_document_owned_visibility(visibility_definition_id);
        self.module_function_copies.detach_alias_dependent_visibility(visibility_definition_id);
        self.module_function_copies.detach_ancestor_dependent_visibility(visibility_definition_id);
        let ghost s1 = *self;
        proof {
            Self::lemma_withdrawal_deps_only(&s0, &s1, Seq::empty());
        }
        self.withdraw_visibility_copies(visibility_definition_id, &mut work);
        let ghost mid = *self;
        proof {
            Self::lemma_withdrawal_trans(&s0, &s1, &mid, Seq::empty(), seq![visibility_definition_id], Seq::empty(), Seq::empty(), work.ids_view());
            assert(Seq::<DefinitionId>::empty() + seq![visibility_definition_id] =~= seq![visibility_definition_id]);
        }
        let mut affected_declaration_ids: Vec<DeclarationId> = Vec::new();
        let mut i: usize = 0;
        while i < affected_copy_definition_ids.len()
            invariant
                i <= affected_copy_definition_ids@.len(),
                *self == mid,
                affected_declaration_ids@ == affected_declarations(&mid, affected_copy_definition_ids@.take(i as int)),
            decreases affected_copy_definition_ids@.len() - i,
        {
            let copy_definition_id = affected_copy_definition_ids[i];
            proof {
                assert(affected_copy_definition_ids@.take(i + 1).drop_last() =~= affected_copy_definition_ids@.take(i as int));
            }
            if self.definitions.contains_key(&copy_definition_id) {
                if let Some(declaration_id) = self.definition_declarations.get(&copy_definition_id) {
                    affected_declaration_ids.push(*declaration_id);
                }
            }
            i = i + 1;
        }
        proof {
            assert(affected_copy_definition_ids@.take(i as int) =~= affected_copy_definition_ids@);
        }
        let ghost mut gs: Seq<Graph> = seq![mid];
        let mut j: usize = 0;
        while j < affected_declaration_ids.len()
            invariant
                j <= affected_declaration_ids@.len(),
                gs.len() == j + 1,
                gs[0] == mid,
                gs.last() == *self,
                declarations_requeued_in_turn(gs, affected_declaration_ids@.take(j as int)),
                self.wf(),
                s0.wf(),
                mid.withdrawal(&s0, seq![visibility_definition_id], Seq::empty(), work.ids_view()),
                self.defs() == mid.defs(),
                self.docs() == mid.docs(),
                self.copies() == mid.copies(),
                self.unresolved() == mid.unresolved(),
                self.decls().dom() == mid.decls().dom(),
                forall|k: u64, d: DefinitionId| self.decls().contains_key(k) && #[trigger] self.decls()[k].definitions@.contains(d)
                    ==> mid.decls()[k].definitions@.contains(d),
                forall|k: u64| #[trigger] self.def_decl().contains_key(k)
                    ==> mid.def_decl().contains_key(k) && self.def_decl()[k] == mid.def_decl()[k],
                mid.applied() == s0.applied(),
                forall|k: u128, v: u64| #[trigger] self.applied().index().relates(k, v) ==> s0.applied().index().relates(k, v),
                self.work().len() >= mid.work().len(),
                self.work().take(mid.work().len() as int) == mid.work(),
                forall|k: int| mid.work().len() <= k < self.work().len()
                    ==> (#[trigger] self.work()[k] matches Unit::Definition(d) && mid.is_visibility_def(d.value)),
            decreases affected_declaration_ids@.len() - j,
        {
            let ghost before = *self;
            self.requeue_method_visibility_definitions_for_declaration(affected_declaration_ids[j]);
            proof {
                let gs0 = gs;
                gs = gs.push(*self);
                let t = affected_declaration_ids@.take(j + 1);
                assert forall|q: int| #![trigger t[q]] 0 <= q < t.len() implies gs[q + 1].visibility_definitions_requeued(&gs[q], t[q]) by {
                    if q < j {
                        assert(t[q] == affected_declaration_ids@.take(j as int)[q]);
                        assert(gs[q + 1] == gs0[q + 1] && gs[q] == gs0[q]);
                    }
                }
                let ids = before.visibility_definitions_of(affected_declaration_ids@[j as int]);
                let added = ids.map_values(|d: DefinitionId| Unit::Definition(d));
                assert(self.work().take(mid.work().len() as int) =~= before.work().take(mid.work().len() as int));
                assert forall|k: int| mid.work().len() <= k < self.work().len()
                    implies (#[trigger] self.work()[k] matches Unit::Definition(d) && mid.is_visibility_def(d.value)) by {
                    if k >= before.work().len() {
                        let q = k - before.work().len();
                        assert(self.work()[k] == added[q]);
                        crate::seqs::lemma_filter_contains(before.decls()[affected_declaration_ids@[j as int].value].definitions@,
                            |d: DefinitionId| before.is_visibility_def(d.value));
                        assert(ids.contains(ids[q]));
                    } else {
                        assert(self.work()[k] == before.work()[k]);
                    }
                }
            }
            j = j + 1;
        }
        proof {
            assert(affected_declaration_ids@.take(j as int) =~= affected_declaration_ids@);
            assert(affected_copy_definition_ids@ == s0.copies().copies().triggered(visibility_definition_id.value));
        }
        let r = work.into_vec();
        proof {
            assert forall|i: int| 0 <= i < r@.len() implies s0.defs().contains_key((#[trigger] r@[i]).value) by {}
            assert forall|k: int| s0.work().len() <= k < self.work().len()
                implies (#[trigger] self.work()[k] matches Unit::Definition(d) && s0.is_visibility_def(d.value)) by {
                if let Unit::Definition(d) = self.work()[k] {
                    assert(mid.is_visibility_def(d.value));
                    assert(mid.defs()[d.value] == s0.defs()[d.value]);
                }
            }
            assert(mid.work() == s0.work());
            assert(copies_left_declarations(&mid, self));
            lemma_copies_left_trans(&s0, &mid, self);
            if requests_no_copy(&s0) && !s0.copies().copies().has(visibility_definition_id.value) {
                assert forall|i: int| 0 <= i < r@.len() implies self.defs().contains_key((#[trigger] r@[i]).value) by {
                    let x = r@[i].value;
                    if released(&s0, &mid, x) {
                        let g = choose|g: u64| s0.copies().copies().has(g) && !mid.copies().copies().has(g)
                            && #[trigger] s0.copies().copies().triggers_of(g).contains(x);
                        assert(!s0.copies().copies().has(x));
                    } else {
                        assert(seq![visibility_definition_id].contains(r@[i]));
                        assert(seq![visibility_definition_id][0] == visibility_definition_id);
                    }
                    assert(!removed_copy(&s0, self, x));
                }
            }
        }
        r
    }
}

impl Graph {
    /// The effect of forgetting that visibility operation `v` was applied, from `old`: the applied
    /// index loses `v`; nothing else changes.
    pub open spec fn visibility_unapplied(&self, old: &Graph, v: DefinitionId) -> bool {
        &&& forall|k: u128, x: u64| #[trigger] self.applied().index().relates(k, x) <==> (old.applied().index().relates(k, x) && x != v.value)
        &&& forall|k: u128| #[trigger] self.applied().index().fwd(k) == without(old.applied().index().fwd(k), v.value)
        &&& self.frame(old, false, false, false, false, false, false, false, true, false)
    }

    /// Undoes everything that visibility operation `visibility_definition_id` caused: its
    /// applications, its tracking as unresolved with its diagnostic, and its copies (see
    /// `remove_module_function_copy_for_visibility`); returns the operations to resolve again.
    /// Nothing happens for a definition that is not a visibility operation.
    pub fn remove_method_visibility_side_effects(&mut self, visibility_definition_id: DefinitionId) -> (r: Vec<DefinitionId>)
        requires
            old(self).wf(),
        ensures
            final(self).wf(),
            !old(self).is_visibility_def(visibility_definition_id.value) ==> r@.len() == 0 && *final(self) == *old(self),
            old(self).is_visibility_def(visibility_definition_id.value) ==> exists|g1: Graph, g2: Graph| {
                &&& #[trigger] g1.visibility_unapplied(old(self), visibility_definition_id)
                &&& #[trigger] g2.visibility_marked_resolved(&g1, visibility_definition_id)
                &&& final(self).copies_removed_for_visibility(&g2, visibility_definition_id, r@)
            },
            old(self).is_visibility_def(visibility_definition_id.value) ==> {
                &&& forall|k: u128| !#[trigger] final(self).applied().index().relates(k, visibility_definition_id.value)
                &&& !final(self).unresolved().keys().contains_key(visibility_definition_id.value)
                &&& forall|g: u64| #[trigger] final(self).copies().copies().has(g)
                    ==> !final(self).copies().copies().triggers_of(g).contains(visibility_definition_id.value)
                &&& forall|k: u128| !#[trigger] final(self).copies().alias_deps().relates(k, visibility_definition_id.value)
                &&& forall|k: u128| !#[trigger] final(self).copies().ancestor_deps().relates(k, visibility_definition_id.value)
                &&& forall|k: u128| !#[trigger] final(self).copies().member_deps().relates(k, visibility_definition_id.value)
                &&& forall|k: u128| !#[trigger] final(self).copies().document_deps().relates(k, visibility_definition_id.value)
            },
            r@.no_duplicates(),
            forall|i: int| 0 <= i < r@.len() ==> old(self).defs().contains_key((#[trigger] r@[i]).value),
    {
        let is_visibility = match self.definitions.get(&visibility_definition_id.value) {
            Some(definition) => definition.is_method_visibility_exec(),
            None => false,
        };
        if !is_visibility {
            return Vec::new();
        }
        self.applied_method_visibilities.detach(visibility_definition_id);
        let ghost s1 = *self;
        self.mark_method_visibility_resolved(visibility_definition_id);
        let ghost s2 = *self;
        let r = self.remove_module_function_copy_for_visibility(visibility_definition_id);
        proof {
            assert(s1.visibility_unapplied(old(self), visibility_definition_id));
            assert(s2.visibility_marked_resolved(&s1, visibility_definition_id));
            assert forall|k: u128| !#[trigger] self.applied().index().relates(k, visibility_definition_id.value) by {
                assert(!s1.applied().index().relates(k, visibility_definition_id.value));
            }
            assert(!s2.unresolved().keys().contains_key(visibility_definition_id.value));
        }
        r
    }
}

/// `w` extended, in turn, with those of each `idss[k]` that exist in `defs` (see
/// `extend_existing`).
pub open spec fn extend_all(defs: Map<u64, Definition>, w: Seq<DefinitionId>, idss: Seq<Seq<DefinitionId>>) -> Seq<DefinitionId>
    decreases idss.len(),
{
    if idss.len() == 0 {
        w
    } else {
        extend_existing(defs, extend_all(defs, w, idss.drop_last()), idss.last())
    }
}

/// Whether each graph of `gs` is the one before it with the unresolved visibility operations of
/// member `str_id` of `owners[k]` taken, `idss[k]` being taken (see `unresolved_member_taken`).
pub open spec fn unresolved_taken_in_turn(gs: Seq<Graph>, owners: Seq<DeclarationId>, str_id: StringId, idss: Seq<Seq<DefinitionId>>) -> bool {
    &&& gs.len() == owners.len() + 1
    &&& idss.len() == owners.len()
    &&& forall|k: int| #![trigger owners[k]] 0 <= k < owners.len() ==> gs[k + 1].unresolved_member_taken(&gs[k], owners[k], str_id, idss[k])
}

/// Whether each graph of `gs` is the one before it with the applications of the visibility
/// operations of member `str_id` of `owners[k]` undone, `idss[k]` being those operations (see
/// `applied_member_invalidated`).
pub open spec fn applied_invalidated_in_turn(gs: Seq<Graph>, owners: Seq<DeclarationId>, str_id: StringId, idss: Seq<Seq<DefinitionId>>) -> bool {
    &&& gs.len() == owners.len() + 1
    &&& idss.len() == owners.len()
    &&& forall|k: int| #![trigger owners[k]] 0 <= k < owners.len() ==> gs[k + 1].applied_member_invalidated(&gs[k], owners[k], str_id, idss[k])
}

/// `w` extended, after each of the first `n` steps of `gs`, with those of `rs[k]` that exist in
/// the graph after that step (see `extend_existing`).
pub open spec fn extend_along(gs: Seq<Graph>, w: Seq<DefinitionId>, rs: Seq<Seq<DefinitionId>>, n: int) -> Seq<DefinitionId>
    decreases n,
{
    if n <= 0 {
        w
    } else {
        extend_existing(gs[n].defs(), extend_along(gs, w, rs, n - 1), rs[n - 1])
    }
}

/// Whether each graph of `gs` is the one before it with the copies depending on member `str_id`
/// of `owners[k]` withdrawn, `rs[k]` being returned (see `member_copies_withdrawn`).
pub open spec fn copies_withdrawn_in_turn(gs: Seq<Graph>, owners: Seq<DeclarationId>, str_id: StringId, rs: Seq<Seq<DefinitionId>>) -> bool {
    &&& gs.len() == owners.len() + 1
    &&& rs.len() == owners.len()
    &&& forall|k: int| #![trigger owners[k]] 0 <= k < owners.len() ==> gs[k + 1].member_copies_withdrawn(&gs[k], owners[k], str_id, rs[k])
}

proof fn lemma_extend_along_prefix(gs0: Seq<Graph>, gs: Seq<Graph>, w: Seq<DefinitionId>, rs0: Seq<Seq<DefinitionId>>, rs: Seq<Seq<DefinitionId>>, n: int)
    requires
        0 <= n < gs0.len(),
        gs0.len() <= gs.len(),
        n <= rs0.len(),
        rs0.len() <= rs.len(),
        forall|q: int| 0 <= q < gs0.len() ==> gs[q] == gs0[q],
        forall|q: int| 0 <= q < rs0.len() ==> rs[q] == rs0[q],
    ensures
        extend_along(gs, w, rs, n) == extend_along(gs0, w, rs0, n),
    decreases n,
{
    if n > 0 {
        lemma_extend_along_prefix(gs0, gs, w, rs0, rs, n - 1);
        assert(gs[n] == gs0[n]);
        assert(rs[n - 1] == rs0[n - 1]);
    }
}

/// The declarations of the copies `copies` that `g` still holds, in order.
pub open spec fn affected_declarations(g: &Graph, copies: Seq<u64>) -> Seq<DeclarationId>
    decreases copies.len(),
{
    if copies.len() == 0 {
        Seq::empty()
    } else {
        let rest = affected_declarations(g, copies.drop_last());
        let c = copies.last();
        if g.defs().contains_key(c) && g.def_decl().contains_key(c) {
            rest.push(g.def_decl()[c])
        } else {
            rest
        }
    }
}

/// Whether each graph of `gs` is the one before it with the visibility operations of `decls[k]`
/// requeued (see `visibility_definitions_requeued`).
pub open spec fn declarations_requeued_in_turn(gs: Seq<Graph>, decls: Seq<DeclarationId>) -> bool {
    &&& gs.len() == decls.len() + 1
    &&& forall|k: int| #![trigger decls[k]] 0 <= k < decls.len() ==> gs[k + 1].visibility_definitions_requeued(&gs[k], decls[k])
}

/// The work that removing the copies of the operations `ids` gathers, after the first `n` of
/// them (see `copies_removed_for_visibility`, with `gs[k]` the graph before the `k`-th and
/// `deps[k]` what it returned): the existing `ids` first, then, in turn, the existing operations
/// returned for each.
pub open spec fn alias_work(gs: Seq<Graph>, ids: Seq<DefinitionId>, deps: Seq<Seq<DefinitionId>>, n: int) -> Seq<DefinitionId>
    decreases n,
{
    if n <= 0 {
        extend_existing(gs[0].defs(), Seq::empty(), ids)
    } else {
        extend_existing(gs[n].defs(), alias_work(gs, ids, deps, n - 1), deps[n - 1])
    }
}

proof fn lemma_alias_work_prefix(
    gs0: Seq<Graph>,
    gs: Seq<Graph>,
    ids: Seq<DefinitionId>,
    deps0: Seq<Seq<DefinitionId>>,
    deps: Seq<Seq<DefinitionId>>,
    n: int,
)
    requires
        0 <= n < gs0.len(),
        gs0.len() <= gs.len(),
        n <= deps0.len(),
        deps0.len() <= deps.len(),
        forall|q: int| 0 <= q < gs0.len() ==> gs[q] == gs0[q],
        forall|q: int| 0 <= q < deps0.len() ==> deps[q] == deps0[q],
    ensures
        alias_work(gs, ids, deps, n) == alias_work(gs0, ids, deps0, n),
    decreases n,
{
    if n > 0 {
        lemma_alias_work_prefix(gs0, gs, ids, deps0, deps, n - 1);
        assert(gs[n] == gs0[n]);
        assert(deps[n - 1] == deps0[n - 1]);
    } else {
        assert(gs[0] == gs0[0]);
    }
}

/// Whether each graph of `gs` is the one before it with the copies of operation `ids[k]`
/// removed, `deps[k]` being returned (see `copies_removed_for_visibility`).
pub open spec fn removed_in_turn(gs: Seq<Graph>, ids: Seq<DefinitionId>, deps: Seq<Seq<DefinitionId>>) -> bool {
    &&& gs.len() == ids.len() + 1
    &&& deps.len() == ids.len()
    &&& forall|k: int| #![trigger ids[k]] 0 <= k < ids.len() ==> gs[k + 1].copies_removed_for_visibility(&gs[k], ids[k], deps[k])
}

impl Graph {
    /// The effect of taking the visibility operations whose copies the document of source
    /// definition `source` owns, from `old`: the document dependencies lose `source`; nothing
    /// else changes.
    pub open spec fn document_owned_taken(&self, old: &Graph, source: DefinitionId) -> bool {
        &&& forall|k: u128, v: u64| #[trigger] self.copies().document_deps().relates(k, v)
            <==> (old.copies().document_deps().relates(k, v) && k != source.value as u128)
        &&& self.copies().copies() == old.copies().copies()
        &&& self.copies().alias_deps() == old.copies().alias_deps()
        &&& self.copies().ancestor_deps() == old.copies().ancestor_deps()
        &&& self.copies().member_deps() == old.copies().member_deps()
        &&& self.frame(old, false, false, false, false, false, false, true, false, false)
    }

    /// The effect of taking the visibility operations that resolved through alias `alias`, from
    /// `old`: the alias dependencies lose `alias`; nothing else changes.
    pub open spec fn alias_owned_taken(&self, old: &Graph, alias: DefinitionId) -> bool {
        &&& forall|k: u128, v: u64| #[trigger] self.copies().alias_deps().relates(k, v)
            <==> (old.copies().alias_deps().relates(k, v) && k != alias.value as u128)
        &&& self.copies().copies() == old.copies().copies()
        &&& self.copies().document_deps() == old.copies().document_deps()
        &&& self.copies().ancestor_deps() == old.copies().ancestor_deps()
        &&& self.copies().member_deps() == old.copies().member_deps()
        &&& self.frame(old, false, false, false, false, false, false, true, false, false)
    }

    /// Removes every copy made from `source_definition_id` (with the copies made from them) and
    /// forgets the visibility operations that reused a definition of its document; returns
    /// those operations and the ones that requested a removed copy, when they still exist.
    pub fn remove_module_function_copies_for_source(&mut self, source_definition_id: DefinitionId) -> (r: Vec<DefinitionId>)
        requires
            old(self).wf(),
        ensures
            final(self).wf(),
            r@.no_duplicates(),
            forall|i: int| 0 <= i < r@.len() ==> old(self).defs().contains_key((#[trigger] r@[i]).value),
            forall|g: u64| #[trigger] final(self).copies().copies().has(g)
                ==> final(self).copies().copies().source_of(g) != source_definition_id.value,
            forall|v: u64| !#[trigger] final(self).copies().document_deps().relates(source_definition_id.value as u128, v),
            forall|k: u64| #[trigger] final(self).defs().contains_key(k)
                ==> old(self).defs().contains_key(k) && final(self).defs()[k] == old(self).defs()[k],
            final(self).docs() == old(self).docs(),
            final(self).work() == old(self).work(),
            copies_left_declarations(old(self), final(self)),
            exists|s1: Graph, visited: Set<u64>| {
                &&& #[trigger] s1.document_owned_taken(old(self), source_definition_id)
                &&& #[trigger] final(self).removal_step(
                    &s1,
                    Set::<u64>::empty(),
                    visited,
                    extend_existing(old(self).defs(), Seq::empty(), as_definition_ids(old(self).copies().document_deps().fwd(source_definition_id.value as u128))),
                    r@,
                )
                &&& forall|g: u64| #[trigger] s1.copies().copies().sources(source_definition_id.value).contains(g) ==> visited.contains(g)
                &&& visits_justified(s1.copies().copies(), Set::<u64>::empty(), visited,
                    Set::new(|g: u64| s1.copies().copies().sources(source_definition_id.value).contains(g)))
            },
    {
        let ghost s0 = *old(self);
        let mut work = VisibilityWork::new();
        let document_owned = self.module_function_copies.take_document_owned_visibility_ids_for_source(source_definition_id);
        let ghost owned = as_definition_ids(document_owned@);
        let mut i: usize = 0;
        while i < document_owned.len()
            invariant
                i <= document_owned@.len(),
                work.wf(),
                forall|j: int| 0 <= j < work.ids_view().len() ==> self.defs().contains_key((#[trigger] work.ids_view()[j]).value),
                owned == as_definition_ids(document_owned@),
                self.defs() == s0.defs(),
                work.ids_view() == extend_existing(s0.defs(), Seq::empty(), owned.take(i as int)),
            decreases document_owned@.len() - i,
        {
            let ghost w = work.ids_view();
            self.push_existing_visibility_work(DefinitionId::new(document_owned[i]), &mut work);
            proof {
                let t = owned.take(i + 1);
                assert(t.drop_last() =~= owned.take(i as int));
                assert(t.last() == DefinitionId { value: document_owned@[i as int] });
                assert(seq![t.last()].drop_last() =~= Seq::<DefinitionId>::empty());
                assert(extend_existing(s0.defs(), w, Seq::<DefinitionId>::empty()) == w);
                assert(extend_existing(s0.defs(), w, seq![t.last()]) == (if s0.defs().contains_key(t.last().value) {
                    pushed_unique(w, t.last())
                } else {
                    w
                }));
                assert(extend_existing(s0.defs(), Seq::empty(), t) == (if s0.defs().contains_key(t.last().value) {
                    pushed_unique(w, t.last())
                } else {
                    w
                }));
                lemma_extend_existing(self.defs(), w, seq![DefinitionId { value: document_owned@[i as int] }]);
                assert forall|j: int| 0 <= j < work.ids_view().len() implies self.defs().contains_key((#[trigger] work.ids_view()[j]).value) by {
                    if j < w.len() {
                        assert(work.ids_view()[j] == work.ids_view().take(w.len() as int)[j]);
                    }
                }
            }
            i = i + 1;
        }
        let ghost s1 = *self;
        let ghost w1 = work.ids_view();
        proof {
            assert(owned.take(i as int) =~= owned);
            assert(s1.document_owned_taken(&s0, source_definition_id));
        }
        let copy_ids = self.module_function_copies.copy_ids_for_source(source_definition_id);
        let mut visited: HashSet<u64> = HashSet::new();
        proof {
            self.lemma_removal_step_refl(visited@, w1);
            assert(visited@ =~= Set::<u64>::empty());
        }
        let mut j: usize = 0;
        while j < copy_ids.len()
            invariant
                j <= copy_ids@.len(),
                self.wf(),
                s1.wf(),
                work.wf(),
                copy_ids@ == s1.copies().copies().sources(source_definition_id.value),
                self.removal_step(&s1, Set::<u64>::empty(), visited@, w1, work.ids_view()),
                forall|q: int| 0 <= q < w1.len() ==> s1.defs().contains_key((#[trigger] w1[q]).value),
                forall|q: int| 0 <= q < j ==> visited@.contains(#[trigger] copy_ids@[q]),
                visits_justified(s1.copies().copies(), Set::<u64>::empty(), visited@,
                    Set::new(|g: u64| s1.copies().copies().sources(source_definition_id.value).contains(g))),
            decreases copy_ids@.len() - j,
        {
            let copy = copy_ids[j];
            let ghost sa = *self;
            let ghost va = visited@;
            let ghost wa = work.ids_view();
            proof {
                s1.copies().copies().lemma_consistent();
                assert(s1.copies().copies().sources(source_definition_id.value).contains(copy));
                assert(s1.copies().copies().has(copy));
                if !sa.copies().copies().has(copy) {
                    assert(removed_copy(&s1, &sa, copy));
                }
            }
            self.remove_module_function_copy_and_collect_visibility_work(DefinitionId::new(copy), &mut work, &mut visited);
            proof {
                Self::lemma_removal_step_trans(&s1, &sa, self, Set::<u64>::empty(), va, visited@, w1, wa, work.ids_view());
                let c1 = s1.copies().copies();
                let ca = sa.copies().copies();
                let roots = Set::new(|g: u64| c1.sources(source_definition_id.value).contains(g));
                let vb = visited@;
                assert forall|g: u64| #[trigger] vb.contains(g) && !Set::<u64>::empty().contains(g) implies {
                    &&& c1.has(g)
                    &&& roots.contains(g) || (vb.contains(c1.source_of(g)) && !Set::<u64>::empty().contains(c1.source_of(g)))
                } by {
                    if !va.contains(g) {
                        assert(ca.has(g));
                        assert(ca.same_entry(&c1, g));
                        if g == copy {
                            assert(roots.contains(g));
                        } else {
                            assert(vb.contains(ca.source_of(g)));
                        }
                    } else {
                        assert(va.contains(g) && !Set::<u64>::empty().contains(g));
                    }
                }
                assert forall|q: int| 0 <= q < j + 1 implies visited@.contains(#[trigger] copy_ids@[q]) by {
                    if q < j {
                        assert(va.contains(copy_ids@[q]));
                    }
                }
            }
            j = j + 1;
        }
        let ghost work_final = work.ids_view();
        let r = work.into_vec();
        proof {
            let c1 = s1.copies().copies();
            let c2 = self.copies().copies();
            c1.lemma_consistent();
            assert forall|g: u64| #[trigger] c2.has(g) implies c2.source_of(g) != source_definition_id.value by {
                assert(c1.has(g));
                if c2.source_of(g) == source_definition_id.value {
                    assert(c1.sources(source_definition_id.value).contains(g));
                    let q = choose|q: int| 0 <= q < copy_ids@.len() && copy_ids@[q] == g;
                    assert(visited@.contains(copy_ids@[q]));
                }
            }
            assert forall|i: int| 0 <= i < r@.len() implies s0.defs().contains_key((#[trigger] r@[i]).value) by {
                if i < w1.len() {
                    assert(r@[i] == r@.take(w1.len() as int)[i]);
                    assert(s1.defs().contains_key(w1[i].value));
                }
            }
        }
        proof {
            assert forall|g: u64| #[trigger] s1.copies().copies().sources(source_definition_id.value).contains(g) implies visited@.contains(g) by {
                let q = choose|q: int| 0 <= q < copy_ids@.len() && copy_ids@[q] == g;
                assert(visited@.contains(copy_ids@[q]));
            }
            assert(r@ == work_final);
            assert(copies_left_declarations(&s1, self));
            assert forall|g: u64| #[trigger] removed_copy(&s0, self, g) && self.decls().contains_key(s0.copies().copies().decl_of(g))
                implies !self.decls()[s0.copies().copies().decl_of(g)].definitions@.contains(DefinitionId { value: g }) by {
                assert(removed_copy(&s1, self, g));
            }
            assert forall|g: u64| #[trigger] removed_copy(&s0, self, g) && s0.def_decl().contains_key(g)
                && s0.def_decl()[g].value == s0.copies().copies().decl_of(g) implies !self.def_decl().contains_key(g) by {
                assert(removed_copy(&s1, self, g));
            }
        }
        r
    }

    /// Forgets the visibility operations that resolved through alias `alias_definition_id` and
    /// undoes their copies (see `remove_module_function_copy_for_visibility`); returns them and
    /// the operations to resolve again, when they still exist.
    pub fn remove_module_function_copies_for_alias(&mut self, alias_definition_id: DefinitionId) -> (r: Vec<DefinitionId>)
        requires
            old(self).wf(),
        ensures
            final(self).wf(),
            exists|s1: Graph, gs: Seq<Graph>, deps: Seq<Seq<DefinitionId>>| {
                &&& #[trigger] s1.alias_owned_taken(old(self), alias_definition_id)
                &&& #[trigger] removed_in_turn(gs, as_definition_ids(old(self).copies().alias_deps().fwd(alias_definition_id.value as u128)), deps)
                &&& gs[0] == s1
                &&& *final(self) == gs.last()
                &&& r@ == alias_work(gs, as_definition_ids(old(self).copies().alias_deps().fwd(alias_definition_id.value as u128)), deps,
                    old(self).copies().alias_deps().fwd(alias_definition_id.value as u128).len() as int)
            },
            copies_left_declarations(old(self), final(self)),
            r@.no_duplicates(),
            forall|i: int| 0 <= i < r@.len() ==> old(self).defs().contains_key((#[trigger] r@[i]).value),
            forall|v: u64| !#[trigger] final(self).copies().alias_deps().relates(alias_definition_id.value as u128, v),
            forall|v: u64, g: u64| #[trigger] old(self).copies().alias_deps().relates(alias_definition_id.value as u128, v)
                && #[trigger] final(self).copies().copies().has(g) ==> !final(self).copies().copies().triggers_of(g).contains(v),
            final(self).docs() == old(self).docs(),
    {
        let ghost s0 = *old(self);
        let mut work = VisibilityWork::new();
        let alias_visibility_ids = self.module_function_copies.take_alias_dependent_visibility_ids_for_alias(alias_definition_id);
        let ghost s1 = *self;
        let ghost ids = as_definition_ids(alias_visibility_ids@);
        let mut i: usize = 0;
        while i < alias_visibility_ids.len()
            invariant
                i <= alias_visibility_ids@.len(),
                work.wf(),
                forall|j: int| 0 <= j < work.ids_view().len() ==> self.defs().contains_key((#[trigger] work.ids_view()[j]).value),
                *self == s1,
                ids == as_definition_ids(alias_visibility_ids@),
                work.ids_view() == extend_existing(s1.defs(), Seq::empty(), ids.take(i as int)),
            decreases alias_visibility_ids@.len() - i,
        {
            let ghost w = work.ids_view();
            self.push_existing_visibility_work(DefinitionId::new(alias_visibility_ids[i]), &mut work);
            proof {
                let t = ids.take(i + 1);
                assert(t.drop_last() =~= ids.take(i as int));
                assert(t.last() == DefinitionId { value: alias_visibility_ids@[i as int] });
                assert(seq![t.last()].drop_last() =~= Seq::<DefinitionId>::empty());
                assert(extend_existing(s1.defs(), w, Seq::<DefinitionId>::empty()) == w);
                assert(extend_existing(s1.defs(), w, seq![t.last()]) == (if s1.defs().contains_key(t.last().value) {
                    pushed_unique(w, t.last())
                } else {
                    w
                }));
                assert(extend_existing(s1.defs(), Seq::empty(), t) == (if s1.defs().contains_key(t.last().value) {
                    pushed_unique(w, t.last())
                } else {
                    w
                }));
                lemma_extend_existing(self.defs(), w, seq![DefinitionId { value: alias_visibility_ids@[i as int] }]);
                assert forall|j: int| 0 <= j < work.ids_view().len() implies self.defs().contains_key((#[trigger] work.ids_view()[j]).value) by {
                    if j < w.len() {
                        assert(work.ids_view()[j] == work.ids_view().take(w.len() as int)[j]);
                    }
                }
            }
            i = i + 1;
        }
        proof {
            assert(ids.take(i as int) =~= ids);
            assert(s1.alias_owned_taken(&s0, alias_definition_id));
        }
        let ghost mut gs: Seq<Graph> = seq![s1];
        let ghost mut deps: Seq<Seq<DefinitionId>> = Seq::empty();
        let mut j: usize = 0;
        while j < alias_visibility_ids.len()
            invariant
                j <= alias_visibility_ids@.len(),
                ids == as_definition_ids(alias_visibility_ids@),
                gs.len() == j + 1,
                deps.len() == j,
                gs[0] == s1,
                gs.last() == *self,
                forall|q: int| #![trigger ids[q]] 0 <= q < j ==> gs[q + 1].copies_removed_for_visibility(&gs[q], ids[q], deps[q]),
                work.ids_view() == alias_work(gs, ids, deps, j as int),
                self.wf(),
                work.wf(),
                s0.wf(),
                forall|q: int| 0 <= q < work.ids_view().len() ==> s0.defs().contains_key((#[trigger] work.ids_view()[q]).value),
                forall|k: u64| #[trigger] self.defs().contains_key(k) ==> s0.defs().contains_key(k),
                forall|v: u64| !#[trigger] self.copies().alias_deps().relates(alias_definition_id.value as u128, v),
                forall|q: int, g: u64| 0 <= q < j && #[trigger] self.copies().copies().has(g)
                    ==> !self.copies().copies().triggers_of(g).contains(#[trigger] alias_visibility_ids@[q]),
                self.docs() == s0.docs(),
                copies_left_declarations(&s0, self),
                forall|g: u64| #[trigger] self.copies().copies().has(g) ==> s0.copies().copies().has(g)
                    && self.copies().copies().decl_of(g) == s0.copies().copies().decl_of(g),
                self.decls().dom() == s0.decls().dom(),
                forall|k: u64, d: DefinitionId| self.decls().contains_key(k) && #[trigger] self.decls()[k].definitions@.contains(d)
                    ==> s0.decls()[k].definitions@.contains(d),
                forall|k: u64| #[trigger] self.def_decl().contains_key(k)
                    ==> s0.def_decl().contains_key(k) && self.def_decl()[k] == s0.def_decl()[k],
            decreases alias_visibility_ids@.len() - j,
        {
            let ghost before = *self;
            let ghost w_before = work.ids_view();
            let dependents = self.remove_module_function_copy_for_visibility(DefinitionId::new(alias_visibility_ids[j]));
            let ghost after = *self;
            proof {
                assert(ids[j as int] == DefinitionId { value: alias_visibility_ids@[j as int] });
                let gs0 = gs;
                let deps0 = deps;
                gs = gs.push(after);
                deps = deps.push(dependents@);
                assert forall|q: int| #![trigger ids[q]] 0 <= q < j + 1 implies gs[q + 1].copies_removed_for_visibility(&gs[q], ids[q], deps[q]) by {
                    if q < j {
                        assert(gs[q + 1] == gs0[q + 1] && gs[q] == gs0[q] && deps[q] == deps0[q]);
                    }
                }
                assert forall|n: int| 0 <= n <= j implies alias_work(gs, ids, deps, n) == alias_work(gs0, ids, deps0, n) by {
                    lemma_alias_work_prefix(gs0, gs, ids, deps0, deps, n);
                }
            }
            proof {
                let mid = choose|mid: Graph| #[trigger] mid.withdrawal(&before, seq![DefinitionId { value: alias_visibility_ids@[j as int] }], Seq::empty(), dependents@)
                    && after.defs() == mid.defs() && after.copies() == mid.copies()
                    && after.docs() == before.docs() && after.unresolved() == before.unresolved();
                assert forall|k: u64| #[trigger] after.defs().contains_key(k) implies before.defs().contains_key(k) by {
                    assert(mid.defs().contains_key(k));
                }
                assert forall|v: u64| !#[trigger] after.copies().alias_deps().relates(alias_definition_id.value as u128, v) by {
                    if after.copies().alias_deps().relates(alias_definition_id.value as u128, v) {
                        assert(mid.copies().alias_deps().relates(alias_definition_id.value as u128, v));
                    }
                }
                assert forall|g: u64| #[trigger] before.copies().copies().has(g) implies s0.copies().copies().has(g)
                    && before.copies().copies().decl_of(g) == s0.copies().copies().decl_of(g) by {}
                assert forall|g: u64| #[trigger] after.copies().copies().has(g) implies before.copies().copies().has(g)
                    && after.copies().copies().decl_of(g) == before.copies().copies().decl_of(g) by {
                    assert(mid.copies().copies().has(g));
                }
                lemma_copies_left_trans(&s0, &before, &after);
                assert forall|k: u64, d: DefinitionId| after.decls().contains_key(k) && #[trigger] after.decls()[k].definitions@.contains(d)
                    implies s0.decls()[k].definitions@.contains(d) by {
                    assert(before.decls()[k].definitions@.contains(d));
                }
                assert forall|q: int, g: u64| 0 <= q < j + 1 && #[trigger] after.copies().copies().has(g)
                    implies !after.copies().copies().triggers_of(g).contains(#[trigger] alias_visibility_ids@[q]) by {
                    if q < j {
                        assert(mid.copies().copies().has(g));
                        assert(before.copies().copies().has(g));
                        let t0 = before.copies().copies().triggers_of(g);
                        assert(!t0.contains(alias_visibility_ids@[q]));
                        lemma_not_listed_contains(t0, seq![DefinitionId { value: alias_visibility_ids@[j as int] }]);
                    }
                }
            }
            let mut k: usize = 0;
            while k < dependents.len()
                invariant
                    k <= dependents@.len(),
                    *self == after,
                    work.ids_view() == extend_existing(after.defs(), w_before, dependents@.take(k as int)),
                    work.wf(),
                    forall|q: int| 0 <= q < work.ids_view().len() ==> s0.defs().contains_key((#[trigger] work.ids_view()[q]).value),
                    forall|x: u64| #[trigger] self.defs().contains_key(x) ==> s0.defs().contains_key(x),
                decreases dependents@.len() - k,
            {
                let ghost w = work.ids_view();
                self.push_existing_visibility_work(dependents[k], &mut work);
                proof {
                    let t = dependents@.take(k + 1);
                    assert(t.drop_last() =~= dependents@.take(k as int));
                    assert(seq![t.last()].drop_last() =~= Seq::<DefinitionId>::empty());
                    assert(extend_existing(after.defs(), w, Seq::<DefinitionId>::empty()) == w);
                    assert(extend_existing(after.defs(), w_before, t) == extend_existing(after.defs(), w, seq![t.last()]));
                    lemma_extend_existing(self.defs(), w, seq![dependents@[k as int]]);
                    assert forall|q: int| 0 <= q < work.ids_view().len() implies s0.defs().contains_key((#[trigger] work.ids_view()[q]).value) by {
                        if q < w.len() {
                            assert(work.ids_view()[q] == work.ids_view().take(w.len() as int)[q]);
                        }
                    }
                }
                k = k + 1;
            }
            proof {
                assert(dependents@.take(k as int) =~= dependents@);
                assert(gs[j + 1] == after);
                assert(alias_work(gs, ids, deps, j + 1) == extend_existing(after.defs(), alias_work(gs, ids, deps, j as int), deps[j as int]));
            }
            j = j + 1;
        }
        proof {
            assert forall|v: u64, g: u64| #[trigger] s0.copies().alias_deps().relates(alias_definition_id.value as u128, v)
                && #[trigger] self.copies().copies().has(g) implies !self.copies().copies().triggers_of(g).contains(v) by {
                s0.copies().alias_deps().lemma_wf_facts();
                assert(alias_visibility_ids@.contains(v));
                let q = choose|q: int| 0 <= q < alias_visibility_ids@.len() && alias_visibility_ids@[q] == v;
                assert(!self.copies().copies().triggers_of(g).contains(alias_visibility_ids@[q]));
            }
            assert(removed_in_turn(gs, ids, deps));
        }
        work.into_vec()
    }
}

/// `w1` is `w0` followed by definitions that `defs` holds.
pub open spec fn extends_with_existing(w0: Seq<DefinitionId>, w1: Seq<DefinitionId>, defs: Map<u64, Definition>) -> bool {
    &&& w0.len() <= w1.len()
    &&& w1.take(w0.len() as int) == w0
    &&& forall|i: int| w0.len() <= i < w1.len() ==> defs.contains_key((#[trigger] w1[i]).value)
}

proof fn lemma_extends_trans(w0: Seq<DefinitionId>, w1: Seq<DefinitionId>, w2: Seq<DefinitionId>, d0: Map<u64, Definition>, d1: Map<u64, Definition>)
    requires
        extends_with_existing(w0, w1, d0),
        extends_with_existing(w1, w2, d1),
        forall|k: u64| #[trigger] d1.contains_key(k) ==> d0.contains_key(k),
    ensures
        extends_with_existing(w0, w2, d0),
{
    assert(w2.take(w0.len() as int) =~= w2.take(w1.len() as int).take(w0.len() as int));
    assert forall|i: int| w0.len() <= i < w2.len() implies d0.contains_key((#[trigger] w2[i]).value) by {
        if i < w1.len() {
            assert(w2[i] == w2.take(w1.len() as int)[i]);
        }
    }
}

proof fn lemma_extend_existing_extends(defs: Map<u64, Definition>, w: Seq<DefinitionId>, ids: Seq<DefinitionId>)
    ensures
        extends_with_existing(w, extend_existing(defs, w, ids), defs),
{
    lemma_extend_existing(defs, w, ids);
}

impl Graph {
    /// The effect of taking, for each of `owners` in turn, the unresolved visibility operations
    /// of member `str_id` (see `unresolved_taken_in_turn`), from `old`, with `w0` extended into
    /// `w1` by those that exist.
    pub open spec fn unresolved_collected(&self, old: &Graph, owners: Seq<DeclarationId>, str_id: StringId, w0: Seq<DefinitionId>, w1: Seq<DefinitionId>) -> bool {
        exists|gs: Seq<Graph>, idss: Seq<Seq<DefinitionId>>| {
            &&& #[trigger] unresolved_taken_in_turn(gs, owners, str_id, idss)
            &&& gs[0] == *old
            &&& gs.last() == *self
            &&& w1 == extend_all(old.defs(), w0, idss)
        }
    }

    /// The effect of undoing, for each of `owners` in turn, the visibility operations applied to
    /// member `str_id` (see `applied_invalidated_in_turn`), from `old`, with `w0` extended into
    /// `w1` by those that exist.
    pub open spec fn applied_collected(&self, old: &Graph, owners: Seq<DeclarationId>, str_id: StringId, w0: Seq<DefinitionId>, w1: Seq<DefinitionId>) -> bool {
        exists|gs: Seq<Graph>, idss: Seq<Seq<DefinitionId>>| {
            &&& #[trigger] applied_invalidated_in_turn(gs, owners, str_id, idss)
            &&& gs[0] == *old
            &&& gs.last() == *self
            &&& w1 == extend_all(old.defs(), w0, idss)
        }
    }

    /// The effect of withdrawing, for each of `owners` in turn, the copies that depended on
    /// member `str_id` (see `copies_withdrawn_in_turn`), from `old`, with `w0` extended into `w1`
    /// by the operations returned that still exist.
    pub open spec fn copies_collected(&self, old: &Graph, owners: Seq<DeclarationId>, str_id: StringId, w0: Seq<DefinitionId>, w1: Seq<DefinitionId>) -> bool {
        exists|gs: Seq<Graph>, rs: Seq<Seq<DefinitionId>>| {
            &&& #[trigger] copies_withdrawn_in_turn(gs, owners, str_id, rs)
            &&& gs[0] == *old
            &&& gs.last() == *self
            &&& w1 == extend_along(gs, w0, rs, owners.len() as int)
        }
    }

    /// Takes the unresolved visibility operations of member `member_str_id` of each of
    /// `owner_ids` (their diagnostics dropped) and lists those that exist.
    fn collect_unresolved_visibility_work_for_member_change(&mut self, owner_ids: &Vec<DeclarationId>, member_str_id: StringId, visibility_ids: &mut VisibilityWork)
        requires
            old(self).wf(),
            old(visibility_ids).wf(),
        ensures
            final(self).wf(),
            final(visibility_ids).wf(),
            final(self).unresolved_collected(old(self), owner_ids@, member_str_id, old(visibility_ids).ids_view(), final(visibility_ids).ids_view()),
            extends_with_existing(old(visibility_ids).ids_view(), final(visibility_ids).ids_view(), old(self).defs()),
            forall|i: int| 0 <= i < owner_ids@.len() ==> final(self).unresolved().for_member(pair_key((#[trigger] owner_ids@[i]).value, member_str_id.value)).len() == 0,
            final(self).defs() == old(self).defs(),
            final(self).copies() == old(self).copies(),
            final(self).applied() == old(self).applied(),
            final(self).work() == old(self).work(),
    {
        assert(old(visibility_ids).ids_view().take(old(visibility_ids).ids_view().len() as int) =~= old(visibility_ids).ids_view());
        let ghost mut gs: Seq<Graph> = seq![*old(self)];
        let ghost mut idss: Seq<Seq<DefinitionId>> = Seq::empty();
        let mut i: usize = 0;
        while i < owner_ids.len()
            invariant
                i <= owner_ids@.len(),
                self.wf(),
                visibility_ids.wf(),
                extends_with_existing(old(visibility_ids).ids_view(), visibility_ids.ids_view(), old(self).defs()),
                forall|j: int| 0 <= j < i ==> self.unresolved().for_member(pair_key((#[trigger] owner_ids@[j]).value, member_str_id.value)).len() == 0,
                self.defs() == old(self).defs(),
                self.copies() == old(self).copies(),
                self.applied() == old(self).applied(),
                self.work() == old(self).work(),
                gs.len() == i + 1,
                idss.len() == i,
                gs[0] == *old(self),
                gs.last() == *self,
                forall|k: int| #![trigger owner_ids@[k]] 0 <= k < i ==> gs[k + 1].unresolved_member_taken(&gs[k], owner_ids@[k], member_str_id, idss[k]),
                visibility_ids.ids_view() == extend_all(old(self).defs(), old(visibility_ids).ids_view(), idss),
            decreases owner_ids@.len() - i,
        {
            let ghost w = visibility_ids.ids_view();
            let ghost before = *self;
            let unresolved_visibility_ids = self.take_unresolved_method_visibilities_for_owner_and_member(owner_ids[i], member_str_id);
            let ghost taken = unresolved_visibility_ids@;
            self.push_unique_visibility_work(unresolved_visibility_ids, visibility_ids);
            proof {
                let gs0 = gs;
                let idss0 = idss;
                gs = gs.push(*self);
                idss = idss.push(taken);
                assert forall|k: int| #![trigger owner_ids@[k]] 0 <= k < i + 1 implies gs[k + 1].unresolved_member_taken(&gs[k], owner_ids@[k], member_str_id, idss[k]) by {
                    if k < i {
                        assert(gs[k + 1] == gs0[k + 1] && gs[k] == gs0[k] && idss[k] == idss0[k]);
                    }
                }
                assert(idss.drop_last() =~= idss0);
                lemma_extend_existing_extends(self.defs(), w, unresolved_visibility_ids@);
                lemma_extends_trans(old(visibility_ids).ids_view(), w, visibility_ids.ids_view(), old(self).defs(), self.defs());
                assert forall|j: int| 0 <= j < i + 1 implies self.unresolved().for_member(pair_key((#[trigger] owner_ids@[j]).value, member_str_id.value)).len() == 0 by {
                    if j < i {
                        assert(before.unresolved().for_member(pair_key(owner_ids@[j].value, member_str_id.value)).len() == 0);
                    }
                }
            }
            i = i + 1;
        }
        assert(unresolved_taken_in_turn(gs, owner_ids@, member_str_id, idss));
        assert(self.unresolved_collected(old(self), owner_ids@, member_str_id, old(visibility_ids).ids_view(), visibility_ids.ids_view()));
    }

    /// The effect of taking the visibility operations `ids` applied to member `str_id` of
    /// `owner` from the applied index, from `old`; nothing else changes.
    pub open spec fn applied_member_taken(&self, old: &Graph, owner: DeclarationId, str_id: StringId, ids: Seq<DefinitionId>) -> bool {
        &&& ids == as_definition_ids(old.applied().index().fwd(pair_key(owner.value, str_id.value)))
        &&& forall|k: u128, v: u64| #[trigger] self.applied().index().relates(k, v)
            <==> (old.applied().index().relates(k, v) && k != pair_key(owner.value, str_id.value))
        &&& self.frame(old, false, false, false, false, false, false, false, true, false)
    }

    /// The effect of undoing the applications of the visibility operations of member `str_id` of
    /// `owner`, from `old`: they leave the applied index (`ids`, see `applied_member_taken`),
    /// then each is undone in turn (see `detached_in_turn`).
    pub open spec fn applied_member_invalidated(&self, old: &Graph, owner: DeclarationId, str_id: StringId, ids: Seq<DefinitionId>) -> bool {
        exists|mid: Graph, chain: Seq<Graph>| {
            &&& #[trigger] mid.applied_member_taken(old, owner, str_id, ids)
            &&& #[trigger] detached_in_turn(chain, ids)
            &&& chain[0] == mid
            &&& chain.last() == *self
        }
    }

    /// Takes the visibility operations applied to member `member_str_id` of each of
    /// `owner_ids`, undoes them, and lists those that exist.
    fn collect_applied_visibility_work_for_member_change(&mut self, owner_ids: &Vec<DeclarationId>, member_str_id: StringId, visibility_ids: &mut VisibilityWork)
        requires
            old(self).wf(),
            old(visibility_ids).wf(),
        ensures
            final(self).wf(),
            final(visibility_ids).wf(),
            final(self).applied_collected(old(self), owner_ids@, member_str_id, old(visibility_ids).ids_view(), final(visibility_ids).ids_view()),
            extends_with_existing(old(visibility_ids).ids_view(), final(visibility_ids).ids_view(), old(self).defs()),
            forall|i: int, v: u64| 0 <= i < owner_ids@.len()
                ==> !#[trigger] final(self).applied().index().relates(pair_key((#[trigger] owner_ids@[i]).value, member_str_id.value), v),
            final(self).defs() == old(self).defs(),
            final(self).copies() == old(self).copies(),
            final(self).unresolved() == old(self).unresolved(),
            final(self).work() == old(self).work(),
    {
        assert(old(visibility_ids).ids_view().take(old(visibility_ids).ids_view().len() as int) =~= old(visibility_ids).ids_view());
        let ghost mut gs: Seq<Graph> = seq![*old(self)];
        let ghost mut idss: Seq<Seq<DefinitionId>> = Seq::empty();
        let mut i: usize = 0;
        while i < owner_ids.len()
            invariant
                i <= owner_ids@.len(),
                self.wf(),
                visibility_ids.wf(),
                extends_with_existing(old(visibility_ids).ids_view(), visibility_ids.ids_view(), old(self).defs()),
                forall|j: int, v: u64| 0 <= j < i
                    ==> !#[trigger] self.applied().index().relates(pair_key((#[trigger] owner_ids@[j]).value, member_str_id.value), v),
                self.defs() == old(self).defs(),
                self.copies() == old(self).copies(),
                self.unresolved() == old(self).unresolved(),
                self.work() == old(self).work(),
                gs.len() == i + 1,
                idss.len() == i,
                gs[0] == *old(self),
                gs.last() == *self,
                forall|k: int| #![trigger owner_ids@[k]] 0 <= k < i ==> gs[k + 1].applied_member_invalidated(&gs[k], owner_ids@[k], member_str_id, idss[k]),
                visibility_ids.ids_view() == extend_all(old(self).defs(), old(visibility_ids).ids_view(), idss),
            decreases owner_ids@.len() - i,
        {
            let ghost s_owner = *self;
            let ghost w_owner = visibility_ids.ids_view();
            let member_visibility_ids = self.applied_method_visibilities.take_for_owner_and_member(owner_ids[i], member_str_id);
            let ghost s_taken = *self;
            let ghost ids = as_definition_ids(member_visibility_ids@);
            proof {
                assert(s_taken.applied_member_taken(&s_owner, owner_ids@[i as int], member_str_id, ids));
            }
            let ghost mut chain: Seq<Graph> = seq![s_taken];
            let mut j: usize = 0;
            while j < member_visibility_ids.len()
                invariant
                    j <= member_visibility_ids@.len(),
                    ids == as_definition_ids(member_visibility_ids@),
                    chain.len() == j + 1,
                    chain[0] == s_taken,
                    chain.last() == *self,
                    detached_in_turn(chain, ids.take(j as int)),
                    visibility_ids.ids_view() == extend_existing(old(self).defs(), w_owner, ids.take(j as int)),
                    self.wf(),
                    visibility_ids.wf(),
                    extends_with_existing(old(visibility_ids).ids_view(), visibility_ids.ids_view(), old(self).defs()),
                    forall|k: u128, v: u64| #[trigger] self.applied().index().relates(k, v) ==> s_taken.applied().index().relates(k, v),
                    self.defs() == old(self).defs(),
                    self.copies() == old(self).copies(),
                    self.unresolved() == old(self).unresolved(),
                    self.work() == old(self).work(),
                decreases member_visibility_ids@.len() - j,
            {
                let visibility_id = DefinitionId::new(member_visibility_ids[j]);
                let ghost w = visibility_ids.ids_view();
                self.detach_method_visibility_declaration(visibility_id);
                self.push_existing_visibility_work(visibility_id, visibility_ids);
                proof {
                    let chain0 = chain;
                    chain = chain.push(*self);
                    let t = ids.take(j + 1);
                    assert(t[j as int] == visibility_id);
                    assert forall|q: int| 0 <= q < t.len() implies #[trigger] chain[q + 1].visibility_declaration_detached(&chain[q], t[q]) by {
                        if q < j {
                            assert(t[q] == ids.take(j as int)[q]);
                            assert(chain[q + 1] == chain0[q + 1] && chain[q] == chain0[q]);
                        }
                    }
                    assert(t.drop_last() =~= ids.take(j as int));
                    assert(seq![t.last()].drop_last() =~= Seq::<DefinitionId>::empty());
                    assert(extend_existing(old(self).defs(), w, Seq::<DefinitionId>::empty()) == w);
                    assert(extend_existing(old(self).defs(), w_owner, t) == extend_existing(old(self).defs(), w, seq![t.last()]));
                    lemma_extend_existing_extends(self.defs(), w, seq![visibility_id]);
                    lemma_extends_trans(old(visibility_ids).ids_view(), w, visibility_ids.ids_view(), old(self).defs(), self.defs());
                }
                j = j + 1;
            }
            proof {
                assert forall|q: int, v: u64| 0 <= q < i + 1
                    implies !#[trigger] self.applied().index().relates(pair_key((#[trigger] owner_ids@[q]).value, member_str_id.value), v) by {
                    if q < i {
                        assert(!s_owner.applied().index().relates(pair_key(owner_ids@[q].value, member_str_id.value), v));
                    }
                }
                assert(ids.take(j as int) =~= ids);
                assert(self.applied_member_invalidated(&s_owner, owner_ids@[i as int], member_str_id, ids));
                let gs0 = gs;
                let idss0 = idss;
                gs = gs.push(*self);
                idss = idss.push(ids);
                assert forall|k: int| #![trigger owner_ids@[k]] 0 <= k < i + 1 implies gs[k + 1].applied_member_invalidated(&gs[k], owner_ids@[k], member_str_id, idss[k]) by {
                    if k < i {
                        assert(gs[k + 1] == gs0[k + 1] && gs[k] == gs0[k] && idss[k] == idss0[k]);
                    }
                }
                assert(idss.drop_last() =~= idss0);
            }
            i = i + 1;
        }
        assert(applied_invalidated_in_turn(gs, owner_ids@, member_str_id, idss));
        assert(self.applied_collected(old(self), owner_ids@, member_str_id, old(visibility_ids).ids_view(), visibility_ids.ids_view()));
    }

    /// Withdraws the copy requests of the visibility operations that depend on member
    /// `member_str_id` of the ancestors of each of `owner_ids`, and lists the operations to
    /// resolve again.
    fn collect_module_function_copy_work_for_member_change(&mut self, owner_ids: Vec<DeclarationId>, member_str_id: StringId, visibility_ids: &mut VisibilityWork)
        requires
            old(self).wf(),
            old(visibility_ids).wf(),
        ensures
            final(self).wf(),
            final(visibility_ids).wf(),
            final(self).copies_collected(old(self), owner_ids@, member_str_id, old(visibility_ids).ids_view(), final(visibility_ids).ids_view()),
            extends_with_existing(old(visibility_ids).ids_view(), final(visibility_ids).ids_view(), old(self).defs()),
            forall|i: int, v: u64| 0 <= i < owner_ids@.len()
                ==> !#[trigger] final(self).copies().member_deps().relates(pair_key((#[trigger] owner_ids@[i]).value, member_str_id.value), v),
            forall|k: u64| #[trigger] final(self).defs().contains_key(k) ==> old(self).defs().contains_key(k),
            final(self).applied() == old(self).applied(),
            final(self).unresolved() == old(self).unresolved(),
            final(self).work() == old(self).work(),
            copies_left_declarations(old(self), final(self)),
            forall|k: u64| #[trigger] final(self).defs().contains_key(k)
                <==> (old(self).defs().contains_key(k) && !removed_copy(old(self), final(self), k)),
    {
        assert(old(visibility_ids).ids_view().take(old(visibility_ids).ids_view().len() as int) =~= old(visibility_ids).ids_view());
        let ghost mut gs: Seq<Graph> = seq![*old(self)];
        let ghost mut rs: Seq<Seq<DefinitionId>> = Seq::empty();
        let mut i: usize = 0;
        while i < owner_ids.len()
            invariant
                i <= owner_ids@.len(),
                self.wf(),
                visibility_ids.wf(),
                extends_with_existing(old(visibility_ids).ids_view(), visibility_ids.ids_view(), old(self).defs()),
                forall|j: int, v: u64| 0 <= j < i
                    ==> !#[trigger] self.copies().member_deps().relates(pair_key((#[trigger] owner_ids@[j]).value, member_str_id.value), v),
                forall|k: u64| #[trigger] self.defs().contains_key(k) ==> old(self).defs().contains_key(k),
                self.applied() == old(self).applied(),
                self.unresolved() == old(self).unresolved(),
                self.work() == old(self).work(),
                gs.len() == i + 1,
                rs.len() == i,
                gs[0] == *old(self),
                gs.last() == *self,
                forall|k: int| #![trigger owner_ids@[k]] 0 <= k < i ==> gs[k + 1].member_copies_withdrawn(&gs[k], owner_ids@[k], member_str_id, rs[k]),
                visibility_ids.ids_view() == extend_along(gs, old(visibility_ids).ids_view(), rs, i as int),
                copies_left_declarations(old(self), self),
                forall|k: u64| #[trigger] self.defs().contains_key(k)
                    <==> (old(self).defs().contains_key(k) && !removed_copy(old(self), self, k)),
                forall|g: u64| #[trigger] self.copies().copies().has(g) ==> old(self).copies().copies().has(g)
                    && self.copies().copies().decl_of(g) == old(self).copies().copies().decl_of(g),
                self.decls().dom() == old(self).decls().dom(),
                forall|k: u64, d: DefinitionId| self.decls().contains_key(k) && #[trigger] self.decls()[k].definitions@.contains(d)
                    ==> old(self).decls()[k].definitions@.contains(d),
                forall|k: u64| #[trigger] self.def_decl().contains_key(k)
                    ==> old(self).def_decl().contains_key(k) && self.def_decl()[k] == old(self).def_decl()[k],
            decreases owner_ids@.len() - i,
        {
            let ghost before = *self;
            let ghost w = visibility_ids.ids_view();
            let module_function_visibility_ids = self.take_module_function_copy_work_for_owner_and_member(owner_ids[i], member_str_id);
            let ghost returned = module_function_visibility_ids@;
            self.push_unique_visibility_work(module_function_visibility_ids, visibility_ids);
            proof {
                let gs0 = gs;
                let rs0 = rs;
                gs = gs.push(*self);
                rs = rs.push(returned);
                assert forall|k: int| #![trigger owner_ids@[k]] 0 <= k < i + 1 implies gs[k + 1].member_copies_withdrawn(&gs[k], owner_ids@[k], member_str_id, rs[k]) by {
                    if k < i {
                        assert(gs[k + 1] == gs0[k + 1] && gs[k] == gs0[k] && rs[k] == rs0[k]);
                    }
                }
                lemma_extend_along_prefix(gs0, gs, old(visibility_ids).ids_view(), rs0, rs, i as int);
                assert(gs[i + 1] == *self);
                let s0 = *old(self);
                assert(self.withdrawal(&before, as_definition_ids(before.copies().member_deps().fwd(pair_key(owner_ids@[i as int].value, member_str_id.value))), Seq::empty(), returned));
                assert forall|g: u64| #[trigger] before.copies().copies().has(g) implies s0.copies().copies().has(g)
                    && before.copies().copies().decl_of(g) == s0.copies().copies().decl_of(g) by {}
                assert forall|g: u64| #[trigger] self.copies().copies().has(g) implies before.copies().copies().has(g) by {}
                lemma_copies_left_trans(&s0, &before, self);
                assert forall|k: u64, d: DefinitionId| self.decls().contains_key(k) && #[trigger] self.decls()[k].definitions@.contains(d)
                    implies s0.decls()[k].definitions@.contains(d) by {
                    assert(before.decls()[k].definitions@.contains(d));
                }
                assert forall|k: u64| #[trigger] self.defs().contains_key(k)
                    <==> (s0.defs().contains_key(k) && !removed_copy(&s0, self, k)) by {
                    assert(self.defs().contains_key(k) <==> (before.defs().contains_key(k) && !removed_copy(&before, self, k)));
                    assert(before.defs().contains_key(k) <==> (s0.defs().contains_key(k) && !removed_copy(&s0, &before, k)));
                }
                lemma_extend_existing_extends(self.defs(), w, module_function_visibility_ids@);
                lemma_extends_trans(old(visibility_ids).ids_view(), w, visibility_ids.ids_view(), old(self).defs(), self.defs());
                assert forall|k: u64| #[trigger] self.defs().contains_key(k) implies old(self).defs().contains_key(k) by {
                    assert(before.defs().contains_key(k));
                }
                assert forall|q: int, v: u64| 0 <= q < i + 1
                    implies !#[trigger] self.copies().member_deps().relates(pair_key((#[trigger] owner_ids@[q]).value, member_str_id.value), v) by {
                    if q < i && self.copies().member_deps().relates(pair_key(owner_ids@[q].value, member_str_id.value), v) {
                        assert(before.copies().member_deps().relates(pair_key(owner_ids@[q].value, member_str_id.value), v));
                    }
                }
            }
            i = i + 1;
        }
        assert(copies_withdrawn_in_turn(gs, owner_ids@, member_str_id, rs));
        assert(self.copies_collected(old(self), owner_ids@, member_str_id, old(visibility_ids).ids_view(), visibility_ids.ids_view()));
    }

    /// The effect of invalidating what depends on member `member_str_id` of `owner_id`, from
    /// `old`, with `r` the visibility operations to resolve again.
    pub open spec fn dependents_invalidated(&self, old: &Graph, owner_id: DeclarationId, member_str_id: StringId, r: Seq<DefinitionId>) -> bool {
        &&& r.no_duplicates()
        &&& forall|i: int| 0 <= i < r.len() ==> old.defs().contains_key((#[trigger] r[i]).value)
        &&& forall|i: int| 0 <= i < r.len() ==> self.defs().contains_key((#[trigger] r[i]).value) || removed_copy(old, self, r[i].value)
        &&& self.work() == old.work()
        &&& (!old.unresolved().keys().dom().is_empty() || !old.applied().index().is_empty_spec()
            || !old.copies().ancestor_deps().is_empty_spec()) ==> {
            let owners = owner_dependents(old, owner_id);
            &&& forall|i: int| 0 <= i < owners.len()
                ==> self.unresolved().for_member(pair_key((#[trigger] owners[i]).value, member_str_id.value)).len() == 0
            &&& forall|i: int, v: u64| 0 <= i < owners.len()
                ==> !#[trigger] self.applied().index().relates(pair_key((#[trigger] owners[i]).value, member_str_id.value), v)
            &&& forall|i: int, v: u64| 0 <= i < owners.len()
                ==> !#[trigger] self.copies().member_deps().relates(pair_key((#[trigger] owners[i]).value, member_str_id.value), v)
            &&& exists|s1: Graph, s2: Graph, w1: Seq<DefinitionId>, w2: Seq<DefinitionId>| {
                &&& #[trigger] s1.unresolved_collected(old, owners, member_str_id, Seq::empty(), w1)
                &&& #[trigger] s2.applied_collected(&s1, owners, member_str_id, w1, w2)
                &&& self.copies_collected(&s2, owners, member_str_id, w2, r)
                &&& s2.copies() == old.copies()
                &&& copies_left_declarations(&s2, self)
            }
        }
        &&& !(!old.unresolved().keys().dom().is_empty() || !old.applied().index().is_empty_spec()
            || !old.copies().ancestor_deps().is_empty_spec()) ==> r.len() == 0 && *self == *old
    }

    /// The visibility operations to resolve again after member `member_str_id` of `owner_id`
    /// changed: for the owner and each of its descendants, the unresolved operations of that
    /// member (diagnostics dropped), the operations applied to it (undone) and those whose
    /// copies depended on it (requests withdrawn). Each is listed once, when it exists; it still
    /// exists afterwards unless it was itself one of the removed copies.
    pub fn invalidate_method_visibility_dependents_for_member_change(&mut self, owner_id: DeclarationId, member_str_id: StringId) -> (r: Vec<DefinitionId>)
        requires
            old(self).wf(),
        ensures
            final(self).wf(),
            final(self).dependents_invalidated(old(self), owner_id, member_str_id, r@),
    {
        if !self.has_method_visibility_member_change_dependents() {
            return Vec::new();
        }
        let mut visibility_ids = VisibilityWork::new();
        let owner_ids = self.method_visibility_owner_dependents(owner_id);
        let ghost s0 = *self;
        let ghost w0 = visibility_ids.ids_view();
        self.collect_unresolved_visibility_work_for_member_change(&owner_ids, member_str_id, &mut visibility_ids);
        let ghost s1 = *self;
        let ghost w1 = visibility_ids.ids_view();
        self.collect_applied_visibility_work_for_member_change(&owner_ids, member_str_id, &mut visibility_ids);
        let ghost s2 = *self;
        let ghost w2 = visibility_ids.ids_view();
        let ghost owners = owner_ids@;
        self.collect_module_function_copy_work_for_member_change(owner_ids, member_str_id, &mut visibility_ids);
        proof {
            lemma_extends_trans(w0, w1, w2, s0.defs(), s1.defs());
            lemma_extends_trans(w0, w2, visibility_ids.ids_view(), s0.defs(), s2.defs());
            assert(w0.len() == 0);
            assert forall|i: int| 0 <= i < owners.len()
                implies self.unresolved().for_member(pair_key((#[trigger] owners[i]).value, member_str_id.value)).len() == 0 by {
                assert(s1.unresolved().for_member(pair_key(owners[i].value, member_str_id.value)).len() == 0);
            }
            assert forall|i: int, v: u64| 0 <= i < owners.len()
                implies !#[trigger] self.applied().index().relates(pair_key((#[trigger] owners[i]).value, member_str_id.value), v) by {
                assert(!s2.applied().index().relates(pair_key(owners[i].value, member_str_id.value), v));
            }
        }
        proof {
            assert(w0 == Seq::<DefinitionId>::empty());
            assert(s1.unresolved_collected(&s0, owners, member_str_id, Seq::empty(), w1));
            assert(s2.applied_collected(&s1, owners, member_str_id, w1, w2));
            assert(self.copies_collected(&s2, owners, member_str_id, w2, visibility_ids.ids_view()));
        }
        visibility_ids.into_vec()
    }

    /// A change of a member of `owner_id` reaches the owner and every namespace that descends
    /// from it: afterwards none of them has an unresolved operation, an applied operation or a
    /// copy dependency left under that member (when the graph held any such record at all).
    pub proof fn lemma_member_change_reaches_descendants(old: &Graph, new: &Graph, owner_id: DeclarationId, member_str_id: StringId, r: Seq<DefinitionId>, d: DeclarationId)
        requires
            new.dependents_invalidated(old, owner_id, member_str_id, r),
            !old.unresolved().keys().dom().is_empty() || !old.applied().index().is_empty_spec()
                || !old.copies().ancestor_deps().is_empty_spec(),
            d == owner_id || (old.decls().contains_key(owner_id.value) && old.decls()[owner_id.value].is_namespace()
                && old.decls()[owner_id.value].descendants@.contains(d)),
        ensures
            new.unresolved().for_member(pair_key(d.value, member_str_id.value)).len() == 0,
            forall|v: u64| !#[trigger] new.applied().index().relates(pair_key(d.value, member_str_id.value), v),
            forall|v: u64| !#[trigger] new.copies().member_deps().relates(pair_key(d.value, member_str_id.value), v),
    {
        lemma_owner_dependents_are_owner_and_descendants(old, owner_id);
        let owners = owner_dependents(old, owner_id);
        assert(owners.contains(d));
        let i = choose|i: int| 0 <= i < owners.len() && owners[i] == d;
        assert(new.unresolved().for_member(pair_key(owners[i].value, member_str_id.value)).len() == 0);
        assert forall|v: u64| !#[trigger] new.applied().index().relates(pair_key(d.value, member_str_id.value), v) by {
            assert(!new.applied().index().relates(pair_key(owners[i].value, member_str_id.value), v));
        }
        assert forall|v: u64| !#[trigger] new.copies().member_deps().relates(pair_key(d.value, member_str_id.value), v) by {
            assert(!new.copies().member_deps().relates(pair_key(owners[i].value, member_str_id.value), v));
        }
    }

    /// Queues for resolution the visibility operations that a change of member `member_str_id`
    /// of `owner_id` invalidates (see `invalidate_method_visibility_dependents_for_member_change`).
    pub fn requeue_method_visibility_dependents_for_member_change(&mut self, owner_id: DeclarationId, member_str_id: StringId)
        requires
            old(self).wf(),
        ensures
            final(self).wf(),
            exists|mid: Graph, r: Seq<DefinitionId>| {
                &&& #[trigger] mid.dependents_invalidated(old(self), owner_id, member_str_id, r)
                &&& final(self).work() == old(self).work() + definition_units(r)
                &&& final(self).frame(&mid, false, false, false, false, false, true, false, false, false)
            },
    {
        let ids = self.invalidate_method_visibility_dependents_for_member_change(owner_id, member_str_id);
        let ghost mid = *self;
        let mut i: usize = 0;
        while i < ids.len()
            invariant
                i <= ids@.len(),
                self.wf(),
                self.frame(&mid, false, false, false, false, false, true, false, false, false),
                self.work() == mid.work() + ids@.take(i as int).map_values(|d: DefinitionId| Unit::Definition(d)),
                mid.work() == old(self).work(),
                forall|j: int| 0 <= j < ids@.len() ==> old(self).defs().contains_key((#[trigger] ids@[j]).value),
            decreases ids@.len() - i,
        {
            self.push_work(Unit::Definition(ids[i]));
            assert(ids@.take(i + 1).map_values(|d: DefinitionId| Unit::Definition(d))
                =~= ids@.take(i as int).map_values(|d: DefinitionId| Unit::Definition(d)).push(Unit::Definition(ids@[i as int])));
            i = i + 1;
        }
        proof {
            assert(ids@.take(i as int) =~= ids@);
            assert(mid.dependents_invalidated(old(self), owner_id, member_str_id, ids@));
        }
    }
}

} // verus!
