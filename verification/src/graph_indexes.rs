//! Reverse indexes that keep method visibility operations and generated `module_function` copies
//! consistent under incremental changes.
//!
//! Keys and values are raw identifier values: definition and declaration identifiers are 64-bit,
//! and an owner/member pair is packed into a 128-bit key (see [`MethodVisibilityDependencyKey`]).

use std::collections::HashMap;
use vstd::prelude::*;
use crate::ids::{DeclarationId, DefinitionId, StringId};
use crate::seqs::{lemma_filter_contains, lemma_filter_not_in_empty, lemma_filter_not_in_take_succ, lemma_pushed_unique, lemma_take_succ_contains, lemma_without, push_unique, pushed_unique, remove_all, without};

verus! {

broadcast use vstd::std_specs::hash::group_hash_axioms, vstd::laws_eq::group_laws_eq;

/// A copy of `values`.
fn copy_values(values: &Vec<u64>) -> (r: Vec<u64>)
    ensures
        r@ == values@,
{
    let mut r: Vec<u64> = Vec::new();
    let mut i: usize = 0;
    while i < values.len()
        invariant
            i <= values@.len(),
            r@ == values@.take(i as int),
        decreases values@.len() - i,
    {
        r.push(values[i]);
        i = i + 1;
        assert(r@ =~= values@.take(i as int));
    }
    assert(values@.take(i as int) =~= values@);
    r
}

/// Small bidirectional multi-map from 128-bit keys to 64-bit values.
///
/// Values are stored in `Vec`s because the expected fanout is tiny: a method visibility usually
/// depends on one alias, one owner, or one source method.
#[derive(Debug)]
pub struct BiMultiMap {
    forward: HashMap<u128, Vec<u64>>,
    reverse: HashMap<u64, Vec<u128>>,
}

impl BiMultiMap {
    /// The values related to `k`, in insertion order.
    pub closed spec fn fwd(&self, k: u128) -> Seq<u64> {
        if self.forward@.contains_key(k) {
            self.forward@[k]@
        } else {
            Seq::empty()
        }
    }

    /// The keys related to `v`, in insertion order.
    pub closed spec fn rev(&self, v: u64) -> Seq<u128> {
        if self.reverse@.contains_key(v) {
            self.reverse@[v]@
        } else {
            Seq::empty()
        }
    }

    /// Whether `k` and `v` are related.
    pub open spec fn relates(&self, k: u128, v: u64) -> bool {
        self.fwd(k).contains(v)
    }

    /// Both directions hold the same pairs, without duplicates and without empty lists.
    pub closed spec fn wf(&self) -> bool {
        &&& forall|k: u128| #[trigger] self.forward@.contains_key(k) ==> self.forward@[k]@.len() > 0
        &&& forall|v: u64| #[trigger] self.reverse@.contains_key(v) ==> self.reverse@[v]@.len() > 0
        &&& forall|k: u128| #[trigger] self.fwd(k).no_duplicates()
        &&& forall|v: u64| #[trigger] self.rev(v).no_duplicates()
        &&& forall|k: u128, v: u64|
            #![trigger self.fwd(k).contains(v)]
            #![trigger self.rev(v).contains(k)]
            self.fwd(k).contains(v) <==> self.rev(v).contains(k)
    }

    /// Whether no pair is stored.
    pub closed spec fn is_empty_spec(&self) -> bool {
        self.forward@.dom().is_empty()
    }

    /// The values related to `key`, in insertion order.
    pub fn values_for_key(&self, key: u128) -> (r: Vec<u64>)
        ensures
            r@ == self.fwd(key),
    {
        match self.forward.get(&key) {
            Some(values) => copy_values(values),
            None => Vec::new(),
        }
    }

    pub proof fn lemma_wf_facts(&self)
        requires
            self.wf(),
        ensures
            forall|k: u128| #[trigger] self.fwd(k).no_duplicates(),
            forall|v: u64| #[trigger] self.rev(v).no_duplicates(),
            forall|k: u128, v: u64|
                #![trigger self.fwd(k).contains(v)]
                #![trigger self.rev(v).contains(k)]
                self.fwd(k).contains(v) <==> self.rev(v).contains(k),
            self.is_empty_spec() <==> forall|k: u128, v: u64| !self.relates(k, v),
    {
        if !self.is_empty_spec() {
            let k = self.forward@.dom().choose();
            assert(self.forward@.contains_key(k));
            assert(self.fwd(k).contains(self.fwd(k)[0]));
            assert(self.relates(k, self.fwd(k)[0]));
        } else {
            assert forall|k: u128, v: u64| !self.relates(k, v) by {
                assert(!self.forward@.dom().contains(k));
            }
        }
    }

    pub fn new() -> (m: Self)
        ensures
            m.wf(),
            forall|k: u128| #[trigger] m.fwd(k) == Seq::<u64>::empty(),
            forall|v: u64| #[trigger] m.rev(v) == Seq::<u128>::empty(),
            m.is_empty_spec(),
    {
        let m = BiMultiMap { forward: HashMap::new(), reverse: HashMap::new() };
        assert(m.forward@.dom() =~= Set::empty());
        m
    }

    /// Relates `key` and `value`; a pair already present is kept once.
    pub fn insert(&mut self, key: u128, value: u64)
        requires
            old(self).wf(),
        ensures
            final(self).wf(),
            forall|k: u128| #[trigger] final(self).fwd(k) == if k == key {
                pushed_unique(old(self).fwd(k), value)
            } else {
                old(self).fwd(k)
            },
            forall|v: u64| #[trigger] final(self).rev(v) == if v == value {
                pushed_unique(old(self).rev(v), key)
            } else {
                old(self).rev(v)
            },
            forall|k: u128, v: u64| #[trigger] final(self).relates(k, v) <==> (old(self).relates(k, v) || (k == key && v == value)),
    {
        let ghost old_self = *old(self);
        let mut values = match self.forward.remove(&key) {
            Some(values) => values,
            None => Vec::new(),
        };
        push_unique(&mut values, value);
        self.forward.insert(key, values);
        let mut keys = match self.reverse.remove(&value) {
            Some(keys) => keys,
            None => Vec::new(),
        };
        push_unique(&mut keys, key);
        self.reverse.insert(value, keys);
        proof {
            lemma_pushed_unique(old_self.fwd(key), value);
            lemma_pushed_unique(old_self.rev(value), key);
            assert forall|k: u128| #[trigger] self.fwd(k) == if k == key {
                pushed_unique(old_self.fwd(k), value)
            } else {
                old_self.fwd(k)
            } by {}
            assert forall|v: u64| #[trigger] self.rev(v) == if v == value {
                pushed_unique(old_self.rev(v), key)
            } else {
                old_self.rev(v)
            } by {}
            assert forall|k: u128, v: u64|
                #![trigger self.fwd(k).contains(v)]
                #![trigger self.rev(v).contains(k)]
                self.fwd(k).contains(v) <==> self.rev(v).contains(k) by {
                assert(old_self.fwd(k).contains(v) <==> old_self.rev(v).contains(k));
            }
        }
    }

    /// Removes `key` with all its pairs and returns the values it was related to.
    pub fn remove_key(&mut self, key: u128) -> (values: Vec<u64>)
        requires
            old(self).wf(),
        ensures
            final(self).wf(),
            values@ == old(self).fwd(key),
            values@.no_duplicates(),
            forall|k: u128| #[trigger] final(self).fwd(k) == if k == key {
                Seq::<u64>::empty()
            } else {
                old(self).fwd(k)
            },
            forall|v: u64| #[trigger] final(self).rev(v) == without(old(self).rev(v), key),
            forall|k: u128, v: u64| #[trigger] final(self).relates(k, v) <==> (old(self).relates(k, v) && k != key),
    {
        let ghost old_self = *old(self);
        let values = match self.forward.remove(&key) {
            Some(values) => values,
            None => Vec::new(),
        };
        proof {
            old_self.lemma_wf_facts();
            assert(old_self.fwd(key).no_duplicates());
        }
        let mut i: usize = 0;
        while i < values.len()
            invariant
                i <= values@.len(),
                values@ == old_self.fwd(key),
                values@.no_duplicates(),
                self.forward@ == old_self.forward@.remove(key),
                forall|v: u64| #[trigger] self.rev(v) == if values@.take(i as int).contains(v) {
                    without(old_self.rev(v), key)
                } else {
                    old_self.rev(v)
                },
                forall|v: u64| #[trigger] self.reverse@.contains_key(v) ==> self.reverse@[v]@.len() > 0,
            decreases values@.len() - i,
        {
            let value = values[i];
            let ghost before = *self;
            proof {
                assert(!values@.take(i as int).contains(value)) by {
                    if values@.take(i as int).contains(value) {
                        let j = choose|j: int| 0 <= j < i && values@.take(i as int)[j] == value;
                        assert(values@[j] == values@[i as int]);
                    }
                }
            }
            proof {
                assert(before.rev(value) == old_self.rev(value));
            }
            match self.reverse.remove(&value) {
                Some(keys) => {
                    let remaining = remove_all(&keys, key);
                    if remaining.len() > 0 {
                        self.reverse.insert(value, remaining);
                    }
                    proof {
                        lemma_without(keys@, key);
                        if remaining.len() == 0 {
                            assert(remaining@ =~= Seq::<u128>::empty());
                        }
                        assert(self.rev(value) == without(before.rev(value), key));
                    }
                },
                None => {
                    proof {
                        assert(before.rev(value) == Seq::<u128>::empty());
                        assert(without(Seq::<u128>::empty(), key) =~= Seq::<u128>::empty());
                    }
                },
            }
            proof {
                assert forall|v: u64| #[trigger] self.rev(v) == if values@.take(i + 1).contains(v) {
                    without(old_self.rev(v), key)
                } else {
                    old_self.rev(v)
                } by {
                    lemma_take_succ_contains(values@, i as int, v);
                    if v == value {
                        assert(values@.take(i + 1)[i as int] == v);
                    } else {
                        assert(self.reverse@.contains_key(v) == before.reverse@.contains_key(v));
                        assert(self.rev(v) == before.rev(v));
                        lemma_take_succ_contains(values@, i as int, v);
                    }
                }
            }
            i = i + 1;
        }
        proof {
            assert(values@.take(i as int) =~= values@);
            assert forall|v: u64| #[trigger] self.rev(v) == without(old_self.rev(v), key) by {
                lemma_without(old_self.rev(v), key);
                if !values@.contains(v) {
                    assert(!old_self.rev(v).contains(key));
                }
            }
            assert forall|k: u128| #[trigger] self.fwd(k) == if k == key {
                Seq::<u64>::empty()
            } else {
                old_self.fwd(k)
            } by {}
            assert forall|v: u64| #[trigger] self.rev(v).no_duplicates() by {
                lemma_without(old_self.rev(v), key);
            }
            assert forall|k: u128, v: u64|
                #![trigger self.fwd(k).contains(v)]
                #![trigger self.rev(v).contains(k)]
                self.fwd(k).contains(v) <==> self.rev(v).contains(k) by {
                lemma_without(old_self.rev(v), key);
                assert(old_self.fwd(k).contains(v) <==> old_self.rev(v).contains(k));
            }
        }
        values
    }

    /// Removes `value` with all its pairs and returns the keys it was related to.
    pub fn remove_value(&mut self, value: u64) -> (keys: Vec<u128>)
        requires
            old(self).wf(),
        ensures
            final(self).wf(),
            keys@ == old(self).rev(value),
            keys@.no_duplicates(),
            forall|v: u64| #[trigger] final(self).rev(v) == if v == value {
                Seq::<u128>::empty()
            } else {
                old(self).rev(v)
            },
            forall|k: u128| #[trigger] final(self).fwd(k) == without(old(self).fwd(k), value),
            forall|k: u128, v: u64| #[trigger] final(self).relates(k, v) <==> (old(self).relates(k, v) && v != value),
    {
        let ghost old_self = *old(self);
        let keys = match self.reverse.remove(&value) {
            Some(keys) => keys,
            None => Vec::new(),
        };
        proof {
            old_self.lemma_wf_facts();
            assert(old_self.rev(value).no_duplicates());
        }
        let mut i: usize = 0;
        while i < keys.len()
            invariant
                i <= keys@.len(),
                keys@ == old_self.rev(value),
                keys@.no_duplicates(),
                self.reverse@ == old_self.reverse@.remove(value),
                forall|k: u128| #[trigger] self.fwd(k) == if keys@.take(i as int).contains(k) {
                    without(old_self.fwd(k), value)
                } else {
                    old_self.fwd(k)
                },
                forall|k: u128| #[trigger] self.forward@.contains_key(k) ==> self.forward@[k]@.len() > 0,
            decreases keys@.len() - i,
        {
            let key = keys[i];
            let ghost before = *self;
            proof {
                assert(!keys@.take(i as int).contains(key)) by {
                    if keys@.take(i as int).contains(key) {
                        let j = choose|j: int| 0 <= j < i && keys@.take(i as int)[j] == key;
                        assert(keys@[j] == keys@[i as int]);
                    }
                }
            }
            proof {
                assert(before.fwd(key) == old_self.fwd(key));
            }
            match self.forward.remove(&key) {
                Some(values) => {
                    let remaining = remove_all(&values, value);
                    if remaining.len() > 0 {
                        self.forward.insert(key, remaining);
                    }
                    proof {
                        lemma_without(values@, value);
                        if remaining.len() == 0 {
                            assert(remaining@ =~= Seq::<u64>::empty());
                        }
                        assert(self.fwd(key) == without(before.fwd(key), value));
                    }
                },
                None => {
                    proof {
                        assert(before.fwd(key) == Seq::<u64>::empty());
                        assert(without(Seq::<u64>::empty(), value) =~= Seq::<u64>::empty());
                    }
                },
            }
            proof {
                assert forall|k: u128| #[trigger] self.fwd(k) == if keys@.take(i + 1).contains(k) {
                    without(old_self.fwd(k), value)
                } else {
                    old_self.fwd(k)
                } by {
                    lemma_take_succ_contains(keys@, i as int, k);
                    if k == key {
                        assert(keys@.take(i + 1)[i as int] == k);
                    } else {
                        assert(self.forward@.contains_key(k) == before.forward@.contains_key(k));
                        assert(self.fwd(k) == before.fwd(k));
                        lemma_take_succ_contains(keys@, i as int, k);
                    }
                }
            }
            i = i + 1;
        }
        proof {
            assert(keys@.take(i as int) =~= keys@);
            assert forall|k: u128| #[trigger] self.fwd(k) == without(old_self.fwd(k), value) by {
                lemma_without(old_self.fwd(k), value);
                if !keys@.contains(k) {
                    assert(!old_self.fwd(k).contains(value));
                }
            }
            assert forall|v: u64| #[trigger] self.rev(v) == if v == value {
                Seq::<u128>::empty()
            } else {
                old_self.rev(v)
            } by {}
            assert forall|k: u128| #[trigger] self.fwd(k).no_duplicates() by {
                lemma_without(old_self.fwd(k), value);
            }
            assert forall|k: u128, v: u64|
                #![trigger self.fwd(k).contains(v)]
                #![trigger self.rev(v).contains(k)]
                self.fwd(k).contains(v) <==> self.rev(v).contains(k) by {
                lemma_without(old_self.fwd(k), value);
                assert(old_self.fwd(k).contains(v) <==> old_self.rev(v).contains(k));
            }
        }
        keys
    }

    /// Whether no pair is stored.
    pub fn is_empty(&self) -> (r: bool)
        requires
            self.wf(),
        ensures
            r == self.is_empty_spec(),
            r <==> forall|k: u128, v: u64| !self.relates(k, v),
    {
        proof {
            self.lemma_wf_facts();
        }
        self.forward.is_empty()
    }
}

} // verus!

verus! {

/// A method definition generated by copying a source method body.
#[derive(Debug)]
pub struct GeneratedMethodCopy {
    pub source_definition_id: DefinitionId,
    /// The raw identifiers of the definitions that requested this copy.
    pub trigger_definition_ids: Vec<u64>,
    pub declaration_id: DeclarationId,
}

/// Generated method copies keyed by generated definition id, with reverse indexes by source
/// definition id and by trigger definition id.
#[derive(Debug)]
pub struct GeneratedMethodCopies {
    definitions: HashMap<u64, GeneratedMethodCopy>,
    by_source: HashMap<u64, Vec<u64>>,
    by_trigger: HashMap<u64, Vec<u64>>,
}

impl GeneratedMethodCopies {
    /// Whether `g` is a tracked generated definition.
    pub closed spec fn has(&self, g: u64) -> bool {
        self.definitions@.contains_key(g)
    }

    /// The source definition that `g` copies.
    pub closed spec fn source_of(&self, g: u64) -> u64 {
        self.definitions@[g].source_definition_id.value
    }

    /// The declaration that `g` belongs to.
    pub closed spec fn decl_of(&self, g: u64) -> u64 {
        self.definitions@[g].declaration_id.value
    }

    /// The definitions that requested `g`, in order of request.
    pub closed spec fn triggers_of(&self, g: u64) -> Seq<u64> {
        self.definitions@[g].trigger_definition_ids@
    }

    /// The generated definitions copied from source `s`, in order of creation.
    pub closed spec fn sources(&self, s: u64) -> Seq<u64> {
        if self.by_source@.contains_key(s) {
            self.by_source@[s]@
        } else {
            Seq::empty()
        }
    }

    /// The generated definitions requested by `t`, in order of request.
    pub closed spec fn triggered(&self, t: u64) -> Seq<u64> {
        if self.by_trigger@.contains_key(t) {
            self.by_trigger@[t]@
        } else {
            Seq::empty()
        }
    }

    /// Every generated definition appears exactly once under its source and under each trigger,
    /// and nowhere else.
    pub closed spec fn wf(&self) -> bool {
        &&& forall|s: u64| #[trigger] self.by_source@.contains_key(s) ==> self.by_source@[s]@.len() > 0
        &&& forall|t: u64| #[trigger] self.by_trigger@.contains_key(t) ==> self.by_trigger@[t]@.len() > 0
        &&& forall|s: u64| #[trigger] self.sources(s).no_duplicates()
        &&& forall|t: u64| #[trigger] self.triggered(t).no_duplicates()
        &&& forall|g: u64| #[trigger] self.has(g) ==> self.triggers_of(g).no_duplicates()
        &&& forall|g: u64| #[trigger] self.has(g) ==> self.sources(self.source_of(g)).contains(g)
        &&& forall|s: u64, g: u64| #[trigger] self.sources(s).contains(g) ==> self.has(g) && self.source_of(g) == s
        &&& forall|t: u64, g: u64|
            #![trigger self.triggered(t).contains(g)]
            #![trigger self.triggers_of(g).contains(t)]
            self.triggered(t).contains(g) <==> (self.has(g) && self.triggers_of(g).contains(t))
    }

    /// The consistency checks of the index: each generated definition is listed under its source
    /// and under each of its triggers, and each listed entry exists, matches, and is listed once.
    pub proof fn lemma_consistent(&self)
        requires
            self.wf(),
        ensures
            forall|g: u64| #[trigger] self.has(g) ==> self.sources(self.source_of(g)).contains(g),
            forall|g: u64, t: u64| self.has(g) && #[trigger] self.triggers_of(g).contains(t) ==> self.triggered(t).contains(g),
            forall|s: u64, g: u64| #[trigger] self.sources(s).contains(g) ==> self.has(g) && self.source_of(g) == s,
            forall|t: u64, g: u64| #[trigger] self.triggered(t).contains(g) ==> self.has(g) && self.triggers_of(g).contains(t),
            forall|s: u64| #[trigger] self.sources(s).no_duplicates(),
            forall|t: u64| #[trigger] self.triggered(t).no_duplicates(),
    {
    }

    pub fn new() -> (m: Self)
        ensures
            m.wf(),
            forall|g: u64| !(#[trigger] m.has(g)),
            forall|s: u64| #[trigger] m.sources(s) == Seq::<u64>::empty(),
            forall|t: u64| #[trigger] m.triggered(t) == Seq::<u64>::empty(),
    {
        GeneratedMethodCopies { definitions: HashMap::new(), by_source: HashMap::new(), by_trigger: HashMap::new() }
    }

    /// The generated copy `generated_definition_id`, if tracked.
    pub fn get(&self, generated_definition_id: DefinitionId) -> (r: Option<&GeneratedMethodCopy>)
        ensures
            match r {
                Some(c) => self.has(generated_definition_id.value)
                    && c.source_definition_id.value == self.source_of(generated_definition_id.value)
                    && c.declaration_id.value == self.decl_of(generated_definition_id.value)
                    && c.trigger_definition_ids@ == self.triggers_of(generated_definition_id.value),
                None => !self.has(generated_definition_id.value),
            },
    {
        self.definitions.get(&generated_definition_id.value)
    }

    /// The first copy of `source_definition_id` that belongs to `declaration_id`.
    pub fn find(&self, source_definition_id: DefinitionId, declaration_id: DeclarationId) -> (r: Option<DefinitionId>)
        requires
            self.wf(),
        ensures
            match r {
                Some(g) => exists|i: int|
                    0 <= i < self.sources(source_definition_id.value).len()
                        && #[trigger] self.sources(source_definition_id.value)[i] == g.value
                        && self.decl_of(g.value) == declaration_id.value
                        && forall|j: int| 0 <= j < i ==> self.decl_of(#[trigger] self.sources(source_definition_id.value)[j]) != declaration_id.value,
                None => forall|g: u64|
                    #[trigger] self.has(g) && self.source_of(g) == source_definition_id.value ==> self.decl_of(g) != declaration_id.value,
            },
    {
        let ids = match self.by_source.get(&source_definition_id.value) {
            Some(ids) => ids,
            None => {
                proof {
                    assert forall|g: u64| #[trigger] self.has(g) && self.source_of(g) == source_definition_id.value implies self.decl_of(g) != declaration_id.value by {
                        assert(self.sources(self.source_of(g)).contains(g));
                    }
                }
                return None;
            },
        };
        let ghost list = self.sources(source_definition_id.value);
        let mut i: usize = 0;
        while i < ids.len()
            invariant
                self.wf(),
                ids@ == list,
                list == self.sources(source_definition_id.value),
                i <= ids@.len(),
                forall|j: int| 0 <= j < i ==> self.decl_of(#[trigger] list[j]) != declaration_id.value,
            decreases ids@.len() - i,
        {
            let g = ids[i];
            assert(list.contains(g));
            let copy = self.definitions.get(&g).unwrap();
            if copy.declaration_id.value == declaration_id.value {
                return Some(DefinitionId::new(g));
            }
            i = i + 1;
        }
        proof {
            assert forall|g: u64| #[trigger] self.has(g) && self.source_of(g) == source_definition_id.value implies self.decl_of(g) != declaration_id.value by {
                assert(list.contains(g));
                let j = choose|j: int| 0 <= j < list.len() && list[j] == g;
                assert(self.decl_of(list[j]) != declaration_id.value);
            }
        }
        None
    }

    /// The tracked generated definitions.
    pub closed spec fn live(&self) -> Set<u64> {
        self.definitions@.dom()
    }

    pub proof fn lemma_live(&self)
        ensures
            self.live().finite(),
            forall|g: u64| #[trigger] self.live().contains(g) == self.has(g),
    {
    }

    /// Entry `x` is the same in `self` and `other`.
    pub open spec fn same_entry(&self, other: &Self, x: u64) -> bool {
        &&& self.has(x) == other.has(x)
        &&& self.has(x) ==> {
            &&& self.source_of(x) == other.source_of(x)
            &&& self.decl_of(x) == other.decl_of(x)
            &&& self.triggers_of(x) == other.triggers_of(x)
        }
    }

    /// The copies requested by `t` that have no other request.
    pub open spec fn orphans_for(&self, t: u64) -> Seq<u64> {
        self.triggered(t).filter(|g: u64| without(self.triggers_of(g), t).len() == 0)
    }

    /// A copy lives as long as a definition requests it: withdrawing request `t` orphans a
    /// copy that `t` requested exactly when no other definition requests it.
    pub proof fn lemma_orphaned_without_other_request(&self, g: u64, t: u64)
        requires
            self.wf(),
            self.has(g),
            self.triggers_of(g).contains(t),
        ensures
            self.orphans_for(t).contains(g) <==> forall|u: u64| #[trigger] self.triggers_of(g).contains(u) ==> u == t,
    {
        let pred = |x: u64| without(self.triggers_of(x), t).len() == 0;
        crate::seqs::lemma_filter_contains(self.triggered(t), pred);
        assert(self.orphans_for(t) =~= self.triggered(t).filter(pred));
        assert(self.triggered(t).contains(g));
        assert(self.orphans_for(t).contains(g) <==> pred(g));
        lemma_without(self.triggers_of(g), t);
        let w = without(self.triggers_of(g), t);
        if forall|u: u64| #[trigger] self.triggers_of(g).contains(u) ==> u == t {
            if w.len() > 0 {
                assert(w.contains(w[0]));
                assert(self.triggers_of(g).contains(w[0]));
            }
            assert(pred(g));
        } else {
            let u = choose|u: u64| #[trigger] self.triggers_of(g).contains(u) && u != t;
            assert(w.contains(u));
            assert(!pred(g));
        }
    }

    /// Records that `trigger_definition_id` requested the copy `generated_definition_id`.
    pub fn attach_trigger(&mut self, generated_definition_id: DefinitionId, trigger_definition_id: DefinitionId)
        requires
            old(self).wf(),
            old(self).has(generated_definition_id.value),
        ensures
            final(self).wf(),
            forall|x: u64| #[trigger] final(self).has(x) == old(self).has(x),
            forall|x: u64| x != generated_definition_id.value ==> #[trigger] final(self).same_entry(old(self), x),
            final(self).source_of(generated_definition_id.value) == old(self).source_of(generated_definition_id.value),
            final(self).decl_of(generated_definition_id.value) == old(self).decl_of(generated_definition_id.value),
            final(self).triggers_of(generated_definition_id.value)
                == pushed_unique(old(self).triggers_of(generated_definition_id.value), trigger_definition_id.value),
            forall|s: u64| #[trigger] final(self).sources(s) == old(self).sources(s),
            forall|t: u64| #[trigger] final(self).triggered(t) == if t == trigger_definition_id.value {
                pushed_unique(old(self).triggered(t), generated_definition_id.value)
            } else {
                old(self).triggered(t)
            },
    {
        let ghost old_self = *old(self);
        let g = generated_definition_id.value;
        let t = trigger_definition_id.value;
        let mut copy = self.definitions.remove(&g).unwrap();
        push_unique(&mut copy.trigger_definition_ids, t);
        self.definitions.insert(g, copy);
        let mut ids = match self.by_trigger.remove(&t) {
            Some(ids) => ids,
            None => Vec::new(),
        };
        push_unique(&mut ids, g);
        self.by_trigger.insert(t, ids);
        proof {
            lemma_pushed_unique(old_self.triggers_of(g), t);
            lemma_pushed_unique(old_self.triggered(t), g);
            assert forall|x: u64| x != g implies #[trigger] self.same_entry(&old_self, x) by {}
            assert forall|s: u64| #[trigger] self.sources(s) == old_self.sources(s) by {}
            assert forall|y: u64| #[trigger] self.triggered(y) == if y == t {
                pushed_unique(old_self.triggered(y), g)
            } else {
                old_self.triggered(y)
            } by {}
            assert forall|x: u64| #[trigger] self.has(x) implies self.sources(self.source_of(x)).contains(x) by {
                assert(self.same_entry(&old_self, x) || x == g);
            }
            assert forall|y: u64, x: u64|
                #![trigger self.triggered(y).contains(x)]
                #![trigger self.triggers_of(x).contains(y)]
                self.triggered(y).contains(x) <==> (self.has(x) && self.triggers_of(x).contains(y)) by {
                assert(old_self.triggered(y).contains(x) <==> (old_self.has(x) && old_self.triggers_of(x).contains(y)));
                if x != g {
                    assert(self.same_entry(&old_self, x));
                }
            }
            assert forall|x: u64| #[trigger] self.has(x) implies self.triggers_of(x).no_duplicates() by {
                if x != g {
                    assert(self.same_entry(&old_self, x));
                }
            }
        }
    }

    /// Tracks a new copy `generated_definition_id` of `source_definition_id`, requested by
    /// `trigger_definition_id` and belonging to `declaration_id`.
    pub fn insert(
        &mut self,
        generated_definition_id: DefinitionId,
        source_definition_id: DefinitionId,
        trigger_definition_id: DefinitionId,
        declaration_id: DeclarationId,
    )
        requires
            old(self).wf(),
            !old(self).has(generated_definition_id.value),
        ensures
            final(self).wf(),
            forall|x: u64| #[trigger] final(self).has(x) == (old(self).has(x) || x == generated_definition_id.value),
            forall|x: u64| x != generated_definition_id.value ==> #[trigger] final(self).same_entry(old(self), x),
            final(self).source_of(generated_definition_id.value) == source_definition_id.value,
            final(self).decl_of(generated_definition_id.value) == declaration_id.value,
            final(self).triggers_of(generated_definition_id.value) == seq![trigger_definition_id.value],
            forall|s: u64| #[trigger] final(self).sources(s) == if s == source_definition_id.value {
                old(self).sources(s).push(generated_definition_id.value)
            } else {
                old(self).sources(s)
            },
            forall|t: u64| #[trigger] final(self).triggered(t) == if t == trigger_definition_id.value {
                old(self).triggered(t).push(generated_definition_id.value)
            } else {
                old(self).triggered(t)
            },
    {
        let ghost old_self = *old(self);
        let g = generated_definition_id.value;
        let s = source_definition_id.value;
        self.definitions.insert(
            g,
            GeneratedMethodCopy { source_definition_id, trigger_definition_ids: Vec::new(), declaration_id },
        );
        let mut ids = match self.by_source.remove(&s) {
            Some(ids) => ids,
            None => Vec::new(),
        };
        push_unique(&mut ids, g);
        self.by_source.insert(s, ids);
        proof {
            lemma_pushed_unique(old_self.sources(s), g);
            assert(!old_self.sources(s).contains(g));
            assert forall|x: u64| x != g implies #[trigger] self.same_entry(&old_self, x) by {}
            assert forall|y: u64| #[trigger] self.triggered(y) == old_self.triggered(y) by {}
            assert forall|y: u64| #[trigger] self.sources(y) == if y == s {
                old_self.sources(y).push(g)
            } else {
                old_self.sources(y)
            } by {}
            assert(self.triggers_of(g) =~= Seq::<u64>::empty());
            assert forall|x: u64| #[trigger] self.has(x) implies self.sources(self.source_of(x)).contains(x) by {
                if x != g {
                    assert(self.same_entry(&old_self, x));
                    assert(old_self.sources(old_self.source_of(x)).contains(x));
                } else {
                    assert(self.sources(s)[old_self.sources(s).len() as int] == g);
                }
            }
            assert forall|y: u64, x: u64| #[trigger] self.sources(y).contains(x) implies self.has(x) && self.source_of(x) == y by {
                if x != g {
                    assert(self.same_entry(&old_self, x));
                    if y == s {
                        assert(old_self.sources(y).contains(x));
                    }
                }
            }
            assert forall|y: u64, x: u64|
                #![trigger self.triggered(y).contains(x)]
                #![trigger self.triggers_of(x).contains(y)]
                self.triggered(y).contains(x) <==> (self.has(x) && self.triggers_of(x).contains(y)) by {
                assert(old_self.triggered(y).contains(x) <==> (old_self.has(x) && old_self.triggers_of(x).contains(y)));
                if x != g {
                    assert(self.same_entry(&old_self, x));
                }
            }
            assert forall|x: u64| #[trigger] self.has(x) implies self.triggers_of(x).no_duplicates() by {
                if x != g {
                    assert(self.same_entry(&old_self, x));
                }
            }
        }
        let ghost mid = *self;
        self.attach_trigger(generated_definition_id, trigger_definition_id);
        proof {
            assert(!old_self.triggered(trigger_definition_id.value).contains(g));
            assert(self.triggers_of(g) =~= seq![trigger_definition_id.value]);
            assert forall|x: u64| x != g implies #[trigger] self.same_entry(&old_self, x) by {
                assert(self.same_entry(&mid, x));
                assert(mid.same_entry(&old_self, x));
            }
        }
    }

    /// Withdraws every request made by `trigger_definition_id` and returns the copies that no
    /// longer have any request.
    pub fn detach_trigger(&mut self, trigger_definition_id: DefinitionId) -> (orphaned: Vec<u64>)
        requires
            old(self).wf(),
        ensures
            final(self).wf(),
            orphaned@ == old(self).orphans_for(trigger_definition_id.value),
            forall|x: u64| #[trigger] final(self).has(x) == old(self).has(x),
            forall|x: u64| #[trigger] final(self).has(x) ==> {
                &&& final(self).source_of(x) == old(self).source_of(x)
                &&& final(self).decl_of(x) == old(self).decl_of(x)
                &&& final(self).triggers_of(x) == without(old(self).triggers_of(x), trigger_definition_id.value)
            },
            forall|s: u64| #[trigger] final(self).sources(s) == old(self).sources(s),
            forall|t: u64| #[trigger] final(self).triggered(t) == if t == trigger_definition_id.value {
                Seq::<u64>::empty()
            } else {
                old(self).triggered(t)
            },
    {
        let ghost old_self = *old(self);
        let t = trigger_definition_id.value;
        let ghost pred = |g: u64| without(old_self.triggers_of(g), t).len() == 0;
        if !self.by_trigger.contains_key(&t) {
            proof {
                assert(old_self.triggered(t) =~= Seq::<u64>::empty());
                reveal(Seq::filter);
                assert(old_self.orphans_for(t) =~= Seq::<u64>::empty());
                assert forall|x: u64| #[trigger] self.has(x) implies self.triggers_of(x) == without(old_self.triggers_of(x), t) by {
                    lemma_without(old_self.triggers_of(x), t);
                    assert(!old_self.triggered(t).contains(x));
                }
            }
            return Vec::new();
        }
        let ids = self.by_trigger.remove(&t).unwrap();
        proof {
            assert(old_self.triggered(t).no_duplicates());
        }
        let mut orphaned: Vec<u64> = Vec::new();
        let mut i: usize = 0;
        while i < ids.len()
            invariant
                old_self.wf(),
                i <= ids@.len(),
                ids@ == old_self.triggered(t),
                ids@.no_duplicates(),
                orphaned@ == ids@.take(i as int).filter(pred),
                pred == (|g: u64| without(old_self.triggers_of(g), t).len() == 0),
                self.by_trigger@ == old_self.by_trigger@.remove(t),
                self.by_source@ == old_self.by_source@,
                forall|x: u64| #[trigger] self.has(x) == old_self.has(x),
                forall|x: u64| #[trigger] self.has(x) ==> {
                    &&& self.source_of(x) == old_self.source_of(x)
                    &&& self.decl_of(x) == old_self.decl_of(x)
                    &&& self.triggers_of(x) == if ids@.take(i as int).contains(x) {
                        without(old_self.triggers_of(x), t)
                    } else {
                        old_self.triggers_of(x)
                    }
                },
            decreases ids@.len() - i,
        {
            let g = ids[i];
            let ghost before = *self;
            proof {
                assert(old_self.triggered(t).contains(g));
                assert(!ids@.take(i as int).contains(g)) by {
                    if ids@.take(i as int).contains(g) {
                        let j = choose|j: int| 0 <= j < i && ids@.take(i as int)[j] == g;
                        assert(ids@[j] == ids@[i as int]);
                    }
                }
                assert(ids@.take(i + 1).drop_last() =~= ids@.take(i as int));
                reveal(Seq::filter);
                assert(ids@.take(i + 1).filter(pred) == if pred(ids@[i as int]) {
                    ids@.take(i as int).filter(pred).push(ids@[i as int])
                } else {
                    ids@.take(i as int).filter(pred)
                });
                assert(before.has(g));
                assert(before.triggers_of(g) == old_self.triggers_of(g));
            }
            match self.definitions.remove(&g) {
                Some(mut copy) => {
                    copy.trigger_definition_ids = remove_all(&copy.trigger_definition_ids, t);
                    let is_orphaned = copy.trigger_definition_ids.len() == 0;
                    self.definitions.insert(g, copy);
                    if is_orphaned {
                        orphaned.push(g);
                    }
                },
                None => {},
            }
            proof {
                assert forall|x: u64| #[trigger] self.has(x) implies {
                    &&& self.source_of(x) == old_self.source_of(x)
                    &&& self.decl_of(x) == old_self.decl_of(x)
                    &&& self.triggers_of(x) == if ids@.take(i + 1).contains(x) {
                        without(old_self.triggers_of(x), t)
                    } else {
                        old_self.triggers_of(x)
                    }
                } by {
                    lemma_take_succ_contains(ids@, i as int, x);
                    if x != g {
                        assert(before.has(x));
                    }
                }
                assert forall|x: u64| #[trigger] self.has(x) == old_self.has(x) by {
                    assert(before.has(x) == old_self.has(x));
                }
            }
            i = i + 1;
        }
        proof {
            assert(ids@.take(i as int) =~= ids@);
            assert forall|x: u64| #[trigger] self.has(x) implies self.triggers_of(x) == without(old_self.triggers_of(x), t) by {
                lemma_without(old_self.triggers_of(x), t);
                if !ids@.contains(x) {
                    assert(!old_self.triggers_of(x).contains(t));
                }
            }
            assert forall|y: u64| #[trigger] self.triggered(y) == if y == t {
                Seq::<u64>::empty()
            } else {
                old_self.triggered(y)
            } by {}
            assert forall|y: u64| #[trigger] self.sources(y) == old_self.sources(y) by {}
            assert forall|x: u64| #[trigger] self.has(x) implies self.sources(self.source_of(x)).contains(x) by {
                assert(old_self.has(x));
            }
            assert forall|y: u64, x: u64| #[trigger] self.sources(y).contains(x) implies self.has(x) && self.source_of(x) == y by {
                assert(old_self.sources(y).contains(x));
            }
            assert forall|y: u64, x: u64|
                #![trigger self.triggered(y).contains(x)]
                #![trigger self.triggers_of(x).contains(y)]
                self.triggered(y).contains(x) <==> (self.has(x) && self.triggers_of(x).contains(y)) by {
                assert(old_self.triggered(y).contains(x) <==> (old_self.has(x) && old_self.triggers_of(x).contains(y)));
                if self.has(x) {
                    lemma_without(old_self.triggers_of(x), t);
                }
            }
            assert forall|x: u64| #[trigger] self.has(x) implies self.triggers_of(x).no_duplicates() by {
                lemma_without(old_self.triggers_of(x), t);
            }
        }
        orphaned
    }

    /// Stops tracking the copy `generated_definition_id` and returns it.
    pub fn remove(&mut self, generated_definition_id: DefinitionId) -> (r: Option<GeneratedMethodCopy>)
        requires
            old(self).wf(),
        ensures
            final(self).wf(),
            match r {
                Some(c) => old(self).has(generated_definition_id.value)
                    && c.source_definition_id.value == old(self).source_of(generated_definition_id.value)
                    && c.declaration_id.value == old(self).decl_of(generated_definition_id.value)
                    && c.trigger_definition_ids@ == old(self).triggers_of(generated_definition_id.value),
                None => !old(self).has(generated_definition_id.value),
            },
            forall|x: u64| #[trigger] final(self).has(x) == (old(self).has(x) && x != generated_definition_id.value),
            forall|x: u64| x != generated_definition_id.value ==> #[trigger] final(self).same_entry(old(self), x),
            forall|s: u64| #[trigger] final(self).sources(s) == without(old(self).sources(s), generated_definition_id.value),
            forall|t: u64| #[trigger] final(self).triggered(t) == without(old(self).triggered(t), generated_definition_id.value),
    {
        let ghost old_self = *old(self);
        let g = generated_definition_id.value;
        if !self.definitions.contains_key(&g) {
            proof {
                assert forall|z: u64| #[trigger] self.sources(z) == without(old_self.sources(z), g) by {
                    lemma_without(old_self.sources(z), g);
                }
                assert forall|y: u64| #[trigger] self.triggered(y) == without(old_self.triggered(y), g) by {
                    lemma_without(old_self.triggered(y), g);
                }
            }
            return None;
        }
        let copy = self.definitions.remove(&g).unwrap();
        proof {
            assert(old_self.has(g));
            assert(old_self.triggers_of(g).no_duplicates());
        }
        let triggers = &copy.trigger_definition_ids;
        let mut i: usize = 0;
        while i < triggers.len()
            invariant
                old_self.wf(),
                old_self.has(g),
                i <= triggers@.len(),
                triggers@ == old_self.triggers_of(g),
                triggers@.no_duplicates(),
                self.definitions@ == old_self.definitions@.remove(g),
                self.by_source@ == old_self.by_source@,
                forall|y: u64| #[trigger] self.by_trigger@.contains_key(y) ==> self.by_trigger@[y]@.len() > 0,
                forall|y: u64| #[trigger] self.triggered(y) == if triggers@.take(i as int).contains(y) {
                    without(old_self.triggered(y), g)
                } else {
                    old_self.triggered(y)
                },
            decreases triggers@.len() - i,
        {
            let y = triggers[i];
            let ghost before = *self;
            proof {
                assert(!triggers@.take(i as int).contains(y)) by {
                    if triggers@.take(i as int).contains(y) {
                        let j = choose|j: int| 0 <= j < i && triggers@.take(i as int)[j] == y;
                        assert(triggers@[j] == triggers@[i as int]);
                    }
                }
                assert(before.triggered(y) == old_self.triggered(y));
            }
            match self.by_trigger.remove(&y) {
                Some(ids) => {
                    let remaining = remove_all(&ids, g);
                    if remaining.len() > 0 {
                        self.by_trigger.insert(y, remaining);
                    }
                    proof {
                        if remaining.len() == 0 {
                            assert(remaining@ =~= Seq::<u64>::empty());
                        }
                        assert(self.triggered(y) == without(before.triggered(y), g));
                    }
                },
                None => {
                    proof {
                        assert(before.triggered(y) == Seq::<u64>::empty());
                        assert(without(Seq::<u64>::empty(), g) =~= Seq::<u64>::empty());
                    }
                },
            }
            proof {
                assert forall|z: u64| #[trigger] self.triggered(z) == if triggers@.take(i + 1).contains(z) {
                    without(old_self.triggered(z), g)
                } else {
                    old_self.triggered(z)
                } by {
                    lemma_take_succ_contains(triggers@, i as int, z);
                    if z != y {
                        assert(self.by_trigger@.contains_key(z) == before.by_trigger@.contains_key(z));
                        assert(self.triggered(z) == before.triggered(z));
                    }
                }
            }
            i = i + 1;
        }
        let s = copy.source_definition_id.value;
        let ghost mid = *self;
        match self.by_source.remove(&s) {
            Some(ids) => {
                let remaining = remove_all(&ids, g);
                if remaining.len() > 0 {
                    self.by_source.insert(s, remaining);
                }
                proof {
                    if remaining.len() == 0 {
                        assert(remaining@ =~= Seq::<u64>::empty());
                    }
                    assert(self.sources(s) == without(mid.sources(s), g));
                }
            },
            None => {
                proof {
                    assert(mid.sources(s) == Seq::<u64>::empty());
                    assert(without(Seq::<u64>::empty(), g) =~= Seq::<u64>::empty());
                }
            },
        }
        proof {
            assert(triggers@.take(i as int) =~= triggers@);
            assert forall|y: u64| #[trigger] self.triggered(y) == without(old_self.triggered(y), g) by {
                lemma_without(old_self.triggered(y), g);
                if !triggers@.contains(y) {
                    assert(!old_self.triggered(y).contains(g));
                }
                assert(self.triggered(y) == mid.triggered(y));
            }
            assert forall|z: u64| #[trigger] self.sources(z) == without(old_self.sources(z), g) by {
                lemma_without(old_self.sources(z), g);
                if z != s {
                    assert(self.by_source@.contains_key(z) == mid.by_source@.contains_key(z));
                    assert(!old_self.sources(z).contains(g));
                }
            }
            assert forall|x: u64| x != g implies #[trigger] self.same_entry(&old_self, x) by {}
            assert forall|z: u64| #[trigger] self.sources(z).no_duplicates() by {
                lemma_without(old_self.sources(z), g);
            }
            assert forall|y: u64| #[trigger] self.triggered(y).no_duplicates() by {
                lemma_without(old_self.triggered(y), g);
            }
            assert forall|x: u64| #[trigger] self.has(x) implies self.sources(self.source_of(x)).contains(x) by {
                assert(old_self.has(x));
                assert(old_self.sources(old_self.source_of(x)).contains(x));
                lemma_without(old_self.sources(old_self.source_of(x)), g);
            }
            assert forall|z: u64, x: u64| #[trigger] self.sources(z).contains(x) implies self.has(x) && self.source_of(x) == z by {
                lemma_without(old_self.sources(z), g);
                assert(old_self.sources(z).contains(x));
                assert(x != g);
                assert(self.same_entry(&old_self, x));
            }
            assert forall|y: u64, x: u64|
                #![trigger self.triggered(y).contains(x)]
                #![trigger self.triggers_of(x).contains(y)]
                self.triggered(y).contains(x) <==> (self.has(x) && self.triggers_of(x).contains(y)) by {
                lemma_without(old_self.triggered(y), g);
                assert(old_self.triggered(y).contains(x) <==> (old_self.has(x) && old_self.triggers_of(x).contains(y)));
            }
            assert forall|y: u64| #[trigger] self.by_source@.contains_key(y) implies self.by_source@[y]@.len() > 0 by {
                if y != s {
                    assert(mid.by_source@.contains_key(y));
                }
            }
            assert forall|x: u64| #[trigger] self.has(x) implies self.triggers_of(x).no_duplicates() by {
                assert(old_self.has(x));
            }
            assert forall|y: u64| #[trigger] self.by_trigger@.contains_key(y) implies self.by_trigger@[y]@.len() > 0 by {
                assert(mid.by_trigger@.contains_key(y));
            }
        }
        Some(copy)
    }

    /// The copies of `source_definition_id`.
    pub fn ids_for_source(&self, source_definition_id: DefinitionId) -> (r: Vec<u64>)
        ensures
            r@ == self.sources(source_definition_id.value),
    {
        match self.by_source.get(&source_definition_id.value) {
            Some(ids) => ids.clone(),
            None => Vec::new(),
        }
    }

    /// The copies requested by `trigger_definition_id`.
    pub fn ids_for_trigger(&self, trigger_definition_id: DefinitionId) -> (r: Vec<u64>)
        ensures
            r@ == self.triggered(trigger_definition_id.value),
    {
        match self.by_trigger.get(&trigger_definition_id.value) {
            Some(ids) => ids.clone(),
            None => Vec::new(),
        }
    }
}

} // verus!

verus! {

/// The 128-bit packing of an owner/member pair: the owner in the high half, the member in the
/// low half.
pub open spec fn pair_key(owner: u64, member: u64) -> u128 {
    (owner as int * 0x1_0000_0000_0000_0000 + member as int) as u128
}

pub proof fn lemma_pair_key_injective(a: u64, b: u64, c: u64, d: u64)
    ensures
        pair_key(a, b) == pair_key(c, d) ==> a == c && b == d,
{
    assert(0 <= a as int * 0x1_0000_0000_0000_0000 + b as int <= u128::MAX) by (nonlinear_arith);
    assert(0 <= c as int * 0x1_0000_0000_0000_0000 + d as int <= u128::MAX) by (nonlinear_arith);
    if pair_key(a, b) == pair_key(c, d) {
        assert(a as int * 0x1_0000_0000_0000_0000 + b as int == c as int * 0x1_0000_0000_0000_0000 + d as int);
        if a < c {
            assert(a as int * 0x1_0000_0000_0000_0000 + 0x1_0000_0000_0000_0000 <= c as int * 0x1_0000_0000_0000_0000)
                by (nonlinear_arith)
                requires a < c;
        }
        if c < a {
            assert(c as int * 0x1_0000_0000_0000_0000 + 0x1_0000_0000_0000_0000 <= a as int * 0x1_0000_0000_0000_0000)
                by (nonlinear_arith)
                requires c < a;
        }
    }
}

/// A method member of an owner namespace: the owner declaration and the member's name.
#[derive(Clone, Copy, Debug, PartialEq, Eq, Structural, Hash)]
pub struct MethodVisibilityDependencyKey {
    pub owner_id: DeclarationId,
    pub str_id: StringId,
}

impl MethodVisibilityDependencyKey {
    pub open spec fn raw_spec(&self) -> u128 {
        pair_key(self.owner_id.value, self.str_id.value)
    }

    pub fn new(owner_id: DeclarationId, str_id: StringId) -> (k: Self)
        ensures
            k.owner_id == owner_id,
            k.str_id == str_id,
    {
        Self { owner_id, str_id }
    }

    /// The 128-bit index key of this pair.
    pub fn raw(&self) -> (r: u128)
        ensures
            r == self.raw_spec(),
    {
        let owner = self.owner_id.value as u128;
        let member = self.str_id.value as u128;
        assert(owner * 0x1_0000_0000_0000_0000 + member <= u128::MAX) by (nonlinear_arith)
            requires owner <= u64::MAX, member <= u64::MAX;
        owner * 0x1_0000_0000_0000_0000u128 + member
    }
}

} // verus!

verus! {

/// Removes every value of `values` from `map`.
fn remove_values(map: &mut BiMultiMap, values: &Vec<u64>)
    requires
        old(map).wf(),
    ensures
        final(map).wf(),
        forall|k: u128, v: u64| #[trigger] final(map).relates(k, v) <==> (old(map).relates(k, v) && !values@.contains(v)),
{
    let ghost start = *old(map);
    let mut i: usize = 0;
    while i < values.len()
        invariant
            map.wf(),
            i <= values@.len(),
            forall|k: u128, v: u64| #[trigger] map.relates(k, v) <==> (start.relates(k, v) && !values@.take(i as int).contains(v)),
        decreases values@.len() - i,
    {
        let ghost before = *map;
        map.remove_value(values[i]);
        proof {
            assert forall|k: u128, v: u64| #[trigger] map.relates(k, v) <==> (start.relates(k, v) && !values@.take(i + 1).contains(v)) by {
                lemma_take_succ_contains(values@, i as int, v);
                assert(before.relates(k, v) <==> (start.relates(k, v) && !values@.take(i as int).contains(v)));
            }
        }
        i = i + 1;
    }
    assert(values@.take(i as int) =~= values@);
}

/// Reverse indexes for generated methods created by retroactive `module_function :name`.
///
/// The generated definition's source location belongs to the copied source method, while its
/// lifetime depends on both the source definition and the visibility definition that requested the
/// copy.
#[derive(Debug)]
pub struct ModuleFunctionCopies {
    generated: GeneratedMethodCopies,
    alias_dependent_visibilities: BiMultiMap,
    ancestor_dependent_visibilities: BiMultiMap,
    ancestor_dependent_visibilities_by_member: BiMultiMap,
    document_owned_visibilities: BiMultiMap,
}

impl ModuleFunctionCopies {
    /// The generated copies.
    pub closed spec fn copies(&self) -> GeneratedMethodCopies {
        self.generated
    }

    /// Visibility definitions that depend on an alias definition.
    pub closed spec fn alias_deps(&self) -> BiMultiMap {
        self.alias_dependent_visibilities
    }

    /// Visibility definitions that depend on an owner's ancestors.
    pub closed spec fn ancestor_deps(&self) -> BiMultiMap {
        self.ancestor_dependent_visibilities
    }

    /// Visibility definitions that depend on one member of an owner's ancestors.
    pub closed spec fn member_deps(&self) -> BiMultiMap {
        self.ancestor_dependent_visibilities_by_member
    }

    /// Visibility definitions that reuse a copy owned by the source document.
    pub closed spec fn document_deps(&self) -> BiMultiMap {
        self.document_owned_visibilities
    }

    /// All indexes are consistent.
    pub open spec fn wf(&self) -> bool {
        &&& self.copies().wf()
        &&& self.alias_deps().wf()
        &&& self.ancestor_deps().wf()
        &&& self.member_deps().wf()
        &&& self.document_deps().wf()
    }

    pub fn new() -> (m: Self)
        ensures
            m.wf(),
            forall|g: u64| !(#[trigger] m.copies().has(g)),
            forall|s: u64| #[trigger] m.copies().sources(s) == Seq::<u64>::empty(),
            forall|t: u64| #[trigger] m.copies().triggered(t) == Seq::<u64>::empty(),
            m.alias_deps().is_empty_spec(),
            m.ancestor_deps().is_empty_spec(),
            m.member_deps().is_empty_spec(),
            m.document_deps().is_empty_spec(),
            forall|k: u128, v: u64| !(#[trigger] m.alias_deps().relates(k, v)),
            forall|k: u128, v: u64| !(#[trigger] m.ancestor_deps().relates(k, v)),
            forall|k: u128, v: u64| !(#[trigger] m.member_deps().relates(k, v)),
            forall|k: u128, v: u64| !(#[trigger] m.document_deps().relates(k, v)),
    {
        let m = ModuleFunctionCopies {
            generated: GeneratedMethodCopies::new(),
            alias_dependent_visibilities: BiMultiMap::new(),
            ancestor_dependent_visibilities: BiMultiMap::new(),
            ancestor_dependent_visibilities_by_member: BiMultiMap::new(),
            document_owned_visibilities: BiMultiMap::new(),
        };
        proof {
            m.alias_deps().lemma_wf_facts();
            m.ancestor_deps().lemma_wf_facts();
            m.member_deps().lemma_wf_facts();
            m.document_deps().lemma_wf_facts();
        }
        m
    }

    pub fn get(&self, copy_definition_id: DefinitionId) -> (r: Option<&GeneratedMethodCopy>)
        ensures
            match r {
                Some(c) => self.copies().has(copy_definition_id.value)
                    && c.source_definition_id.value == self.copies().source_of(copy_definition_id.value)
                    && c.declaration_id.value == self.copies().decl_of(copy_definition_id.value)
                    && c.trigger_definition_ids@ == self.copies().triggers_of(copy_definition_id.value),
                None => !self.copies().has(copy_definition_id.value),
            },
    {
        self.generated.get(copy_definition_id)
    }

    pub fn find(&self, source_definition_id: DefinitionId, copy_declaration_id: DeclarationId) -> (r: Option<DefinitionId>)
        requires
            self.wf(),
        ensures
            match r {
                Some(g) => exists|i: int|
                    0 <= i < self.copies().sources(source_definition_id.value).len()
                        && #[trigger] self.copies().sources(source_definition_id.value)[i] == g.value
                        && self.copies().decl_of(g.value) == copy_declaration_id.value
                        && forall|j: int| 0 <= j < i ==> self.copies().decl_of(#[trigger] self.copies().sources(source_definition_id.value)[j]) != copy_declaration_id.value,
                None => forall|g: u64|
                    #[trigger] self.copies().has(g) && self.copies().source_of(g) == source_definition_id.value ==> self.copies().decl_of(g) != copy_declaration_id.value,
            },
    {
        self.generated.find(source_definition_id, copy_declaration_id)
    }

    pub fn insert(
        &mut self,
        copy_definition_id: DefinitionId,
        source_definition_id: DefinitionId,
        visibility_definition_id: DefinitionId,
        copy_declaration_id: DeclarationId,
    )
        requires
            old(self).wf(),
            !old(self).copies().has(copy_definition_id.value),
        ensures
            final(self).wf(),
            forall|x: u64| #[trigger] final(self).copies().has(x) == (old(self).copies().has(x) || x == copy_definition_id.value),
            forall|x: u64| x != copy_definition_id.value ==> #[trigger] final(self).copies().same_entry(&old(self).copies(), x),
            final(self).copies().source_of(copy_definition_id.value) == source_definition_id.value,
            final(self).copies().decl_of(copy_definition_id.value) == copy_declaration_id.value,
            final(self).copies().triggers_of(copy_definition_id.value) == seq![visibility_definition_id.value],
            forall|s: u64| #[trigger] final(self).copies().sources(s) == if s == source_definition_id.value {
                old(self).copies().sources(s).push(copy_definition_id.value)
            } else {
                old(self).copies().sources(s)
            },
            forall|t: u64| #[trigger] final(self).copies().triggered(t) == if t == visibility_definition_id.value {
                old(self).copies().triggered(t).push(copy_definition_id.value)
            } else {
                old(self).copies().triggered(t)
            },
            final(self).alias_deps() == old(self).alias_deps(),
            final(self).ancestor_deps() == old(self).ancestor_deps(),
            final(self).member_deps() == old(self).member_deps(),
            final(self).document_deps() == old(self).document_deps(),
    {
        self.generated.insert(copy_definition_id, source_definition_id, visibility_definition_id, copy_declaration_id);
    }

    pub fn attach_visibility(&mut self, copy_definition_id: DefinitionId, visibility_definition_id: DefinitionId)
        requires
            old(self).wf(),
            old(self).copies().has(copy_definition_id.value),
        ensures
            final(self).wf(),
            forall|x: u64| #[trigger] final(self).copies().has(x) == old(self).copies().has(x),
            forall|x: u64| x != copy_definition_id.value ==> #[trigger] final(self).copies().same_entry(&old(self).copies(), x),
            final(self).copies().source_of(copy_definition_id.value) == old(self).copies().source_of(copy_definition_id.value),
            final(self).copies().decl_of(copy_definition_id.value) == old(self).copies().decl_of(copy_definition_id.value),
            final(self).copies().triggers_of(copy_definition_id.value)
                == pushed_unique(old(self).copies().triggers_of(copy_definition_id.value), visibility_definition_id.value),
            forall|s: u64| #[trigger] final(self).copies().sources(s) == old(self).copies().sources(s),
            forall|t: u64| #[trigger] final(self).copies().triggered(t) == if t == visibility_definition_id.value {
                pushed_unique(old(self).copies().triggered(t), copy_definition_id.value)
            } else {
                old(self).copies().triggered(t)
            },
            final(self).alias_deps() == old(self).alias_deps(),
            final(self).ancestor_deps() == old(self).ancestor_deps(),
            final(self).member_deps() == old(self).member_deps(),
            final(self).document_deps() == old(self).document_deps(),
    {
        self.generated.attach_trigger(copy_definition_id, visibility_definition_id);
    }

    pub fn track_alias_dependent_visibility(&mut self, alias_definition_id: DefinitionId, visibility_definition_id: DefinitionId)
        requires
            old(self).wf(),
        ensures
            final(self).wf(),
            forall|k: u128, v: u64| #[trigger] final(self).alias_deps().relates(k, v)
                <==> (old(self).alias_deps().relates(k, v) || (k == alias_definition_id.value as u128 && v == visibility_definition_id.value)),
            forall|k: u128| #[trigger] final(self).alias_deps().fwd(k) == if k == alias_definition_id.value as u128 {
                pushed_unique(old(self).alias_deps().fwd(k), visibility_definition_id.value)
            } else {
                old(self).alias_deps().fwd(k)
            },
            final(self).copies() == old(self).copies(),
            final(self).ancestor_deps() == old(self).ancestor_deps(),
            final(self).member_deps() == old(self).member_deps(),
            final(self).document_deps() == old(self).document_deps(),
    {
        self.alias_dependent_visibilities.insert(alias_definition_id.value as u128, visibility_definition_id.value);
    }

    pub fn take_alias_dependent_visibility_ids_for_alias(&mut self, alias_definition_id: DefinitionId) -> (ids: Vec<u64>)
        requires
            old(self).wf(),
        ensures
            final(self).wf(),
            ids@ == old(self).alias_deps().fwd(alias_definition_id.value as u128),
            ids@.no_duplicates(),
            forall|k: u128, v: u64| #[trigger] final(self).alias_deps().relates(k, v)
                <==> (old(self).alias_deps().relates(k, v) && k != alias_definition_id.value as u128),
            forall|k: u128| #[trigger] final(self).alias_deps().fwd(k) == if k == alias_definition_id.value as u128 {
                Seq::<u64>::empty()
            } else {
                old(self).alias_deps().fwd(k)
            },
            final(self).copies() == old(self).copies(),
            final(self).ancestor_deps() == old(self).ancestor_deps(),
            final(self).member_deps() == old(self).member_deps(),
            final(self).document_deps() == old(self).document_deps(),
    {
        self.alias_dependent_visibilities.remove_key(alias_definition_id.value as u128)
    }

    pub fn detach_alias_dependent_visibility(&mut self, visibility_definition_id: DefinitionId)
        requires
            old(self).wf(),
        ensures
            final(self).wf(),
            forall|k: u128, v: u64| #[trigger] final(self).alias_deps().relates(k, v)
                <==> (old(self).alias_deps().relates(k, v) && v != visibility_definition_id.value),
            forall|k: u128| #[trigger] final(self).alias_deps().fwd(k) == without(old(self).alias_deps().fwd(k), visibility_definition_id.value),
            final(self).copies() == old(self).copies(),
            final(self).ancestor_deps() == old(self).ancestor_deps(),
            final(self).member_deps() == old(self).member_deps(),
            final(self).document_deps() == old(self).document_deps(),
    {
        self.alias_dependent_visibilities.remove_value(visibility_definition_id.value);
    }

    pub fn track_ancestor_dependent_visibility(
        &mut self,
        owner_id: DeclarationId,
        str_id: StringId,
        visibility_definition_id: DefinitionId,
    )
        requires
            old(self).wf(),
        ensures
            final(self).wf(),
            forall|k: u128| #[trigger] final(self).ancestor_deps().fwd(k) == if k == owner_id.value as u128 {
                pushed_unique(old(self).ancestor_deps().fwd(k), visibility_definition_id.value)
            } else {
                old(self).ancestor_deps().fwd(k)
            },
            forall|k: u128| #[trigger] final(self).member_deps().fwd(k) == if k == pair_key(owner_id.value, str_id.value) {
                pushed_unique(old(self).member_deps().fwd(k), visibility_definition_id.value)
            } else {
                old(self).member_deps().fwd(k)
            },
            forall|k: u128, v: u64| #[trigger] final(self).ancestor_deps().relates(k, v)
                <==> (old(self).ancestor_deps().relates(k, v) || (k == owner_id.value as u128 && v == visibility_definition_id.value)),
            forall|k: u128, v: u64| #[trigger] final(self).member_deps().relates(k, v)
                <==> (old(self).member_deps().relates(k, v) || (k == pair_key(owner_id.value, str_id.value) && v == visibility_definition_id.value)),
            final(self).copies() == old(self).copies(),
            final(self).alias_deps() == old(self).alias_deps(),
            final(self).document_deps() == old(self).document_deps(),
    {
        self.ancestor_dependent_visibilities.insert(owner_id.value as u128, visibility_definition_id.value);
        let key = MethodVisibilityDependencyKey::new(owner_id, str_id);
        self.ancestor_dependent_visibilities_by_member.insert(key.raw(), visibility_definition_id.value);
    }

    pub fn take_ancestor_dependent_visibility_ids_for_owner(&mut self, owner_id: DeclarationId) -> (ids: Vec<u64>)
        requires
            old(self).wf(),
        ensures
            final(self).wf(),
            ids@ == old(self).ancestor_deps().fwd(owner_id.value as u128),
            ids@.no_duplicates(),
            forall|k: u128| #[trigger] final(self).ancestor_deps().fwd(k) == if k == owner_id.value as u128 {
                Seq::<u64>::empty()
            } else {
                old(self).ancestor_deps().fwd(k)
            },
            forall|k: u128, v: u64| #[trigger] final(self).ancestor_deps().relates(k, v)
                <==> (old(self).ancestor_deps().relates(k, v) && k != owner_id.value as u128),
            forall|k: u128, v: u64| #[trigger] final(self).member_deps().relates(k, v)
                <==> (old(self).member_deps().relates(k, v) && !ids@.contains(v)),
            final(self).copies() == old(self).copies(),
            final(self).alias_deps() == old(self).alias_deps(),
            final(self).document_deps() == old(self).document_deps(),
    {
        let ids = self.ancestor_dependent_visibilities.remove_key(owner_id.value as u128);
        remove_values(&mut self.ancestor_dependent_visibilities_by_member, &ids);
        ids
    }

    pub fn take_ancestor_dependent_visibility_ids_for_owner_and_member(
        &mut self,
        owner_id: DeclarationId,
        str_id: StringId,
    ) -> (ids: Vec<u64>)
        requires
            old(self).wf(),
        ensures
            final(self).wf(),
            ids@ == old(self).member_deps().fwd(pair_key(owner_id.value, str_id.value)),
            ids@.no_duplicates(),
            forall|k: u128| #[trigger] final(self).member_deps().fwd(k) == if k == pair_key(owner_id.value, str_id.value) {
                Seq::<u64>::empty()
            } else {
                old(self).member_deps().fwd(k)
            },
            forall|k: u128, v: u64| #[trigger] final(self).member_deps().relates(k, v)
                <==> (old(self).member_deps().relates(k, v) && k != pair_key(owner_id.value, str_id.value)),
            forall|k: u128, v: u64| #[trigger] final(self).ancestor_deps().relates(k, v)
                <==> (old(self).ancestor_deps().relates(k, v) && !ids@.contains(v)),
            final(self).copies() == old(self).copies(),
            final(self).alias_deps() == old(self).alias_deps(),
            final(self).document_deps() == old(self).document_deps(),
    {
        let key = MethodVisibilityDependencyKey::new(owner_id, str_id);
        let ids = self.ancestor_dependent_visibilities_by_member.remove_key(key.raw());
        remove_values(&mut self.ancestor_dependent_visibilities, &ids);
        ids
    }

    pub fn detach_ancestor_dependent_visibility(&mut self, visibility_definition_id: DefinitionId)
        requires
            old(self).wf(),
        ensures
            final(self).wf(),
            forall|k: u128, v: u64| #[trigger] final(self).ancestor_deps().relates(k, v)
                <==> (old(self).ancestor_deps().relates(k, v) && v != visibility_definition_id.value),
            forall|k: u128, v: u64| #[trigger] final(self).member_deps().relates(k, v)
                <==> (old(self).member_deps().relates(k, v) && v != visibility_definition_id.value),
            forall|k: u128| #[trigger] final(self).ancestor_deps().fwd(k) == without(old(self).ancestor_deps().fwd(k), visibility_definition_id.value),
            forall|k: u128| #[trigger] final(self).member_deps().fwd(k) == without(old(self).member_deps().fwd(k), visibility_definition_id.value),
            final(self).copies() == old(self).copies(),
            final(self).alias_deps() == old(self).alias_deps(),
            final(self).document_deps() == old(self).document_deps(),
    {
        self.ancestor_dependent_visibilities.remove_value(visibility_definition_id.value);
        self.ancestor_dependent_visibilities_by_member.remove_value(visibility_definition_id.value);
    }

    pub fn attach_document_owned_visibility(&mut self, source_definition_id: DefinitionId, visibility_definition_id: DefinitionId)
        requires
            old(self).wf(),
        ensures
            final(self).wf(),
            forall|k: u128, v: u64| #[trigger] final(self).document_deps().relates(k, v)
                <==> (old(self).document_deps().relates(k, v) || (k == source_definition_id.value as u128 && v == visibility_definition_id.value)),
            forall|k: u128| #[trigger] final(self).document_deps().fwd(k) == if k == source_definition_id.value as u128 {
                pushed_unique(old(self).document_deps().fwd(k), visibility_definition_id.value)
            } else {
                old(self).document_deps().fwd(k)
            },
            final(self).copies() == old(self).copies(),
            final(self).alias_deps() == old(self).alias_deps(),
            final(self).ancestor_deps() == old(self).ancestor_deps(),
            final(self).member_deps() == old(self).member_deps(),
    {
        self.document_owned_visibilities.insert(source_definition_id.value as u128, visibility_definition_id.value);
    }

    pub fn copy_ids_for_source(&self, source_definition_id: DefinitionId) -> (r: Vec<u64>)
        ensures
            r@ == self.copies().sources(source_definition_id.value),
    {
        self.generated.ids_for_source(source_definition_id)
    }

    pub fn copy_ids_for_visibility(&self, visibility_definition_id: DefinitionId) -> (r: Vec<u64>)
        ensures
            r@ == self.copies().triggered(visibility_definition_id.value),
    {
        self.generated.ids_for_trigger(visibility_definition_id)
    }

    pub fn take_document_owned_visibility_ids_for_source(&mut self, source_definition_id: DefinitionId) -> (ids: Vec<u64>)
        requires
            old(self).wf(),
        ensures
            final(self).wf(),
            ids@ == old(self).document_deps().fwd(source_definition_id.value as u128),
            ids@.no_duplicates(),
            forall|k: u128, v: u64| #[trigger] final(self).document_deps().relates(k, v)
                <==> (old(self).document_deps().relates(k, v) && k != source_definition_id.value as u128),
            forall|k: u128| #[trigger] final(self).document_deps().fwd(k) == if k == source_definition_id.value as u128 {
                Seq::<u64>::empty()
            } else {
                old(self).document_deps().fwd(k)
            },
            final(self).copies() == old(self).copies(),
            final(self).alias_deps() == old(self).alias_deps(),
            final(self).ancestor_deps() == old(self).ancestor_deps(),
            final(self).member_deps() == old(self).member_deps(),
    {
        self.document_owned_visibilities.remove_key(source_definition_id.value as u128)
    }

    pub fn detach_visibility(&mut self, visibility_definition_id: DefinitionId) -> (orphaned: Vec<u64>)
        requires
            old(self).wf(),
        ensures
            final(self).wf(),
            orphaned@ == old(self).copies().orphans_for(visibility_definition_id.value),
            forall|x: u64| #[trigger] final(self).copies().has(x) == old(self).copies().has(x),
            forall|x: u64| #[trigger] final(self).copies().has(x) ==> {
                &&& final(self).copies().source_of(x) == old(self).copies().source_of(x)
                &&& final(self).copies().decl_of(x) == old(self).copies().decl_of(x)
                &&& final(self).copies().triggers_of(x) == without(old(self).copies().triggers_of(x), visibility_definition_id.value)
            },
            forall|s: u64| #[trigger] final(self).copies().sources(s) == old(self).copies().sources(s),
            forall|t: u64| #[trigger] final(self).copies().triggered(t) == if t == visibility_definition_id.value {
                Seq::<u64>::empty()
            } else {
                old(self).copies().triggered(t)
            },
            final(self).alias_deps() == old(self).alias_deps(),
            final(self).ancestor_deps() == old(self).ancestor_deps(),
            final(self).member_deps() == old(self).member_deps(),
            final(self).document_deps() == old(self).document_deps(),
    {
        self.generated.detach_trigger(visibility_definition_id)
    }

    pub fn detach_document_owned_visibility(&mut self, visibility_definition_id: DefinitionId)
        requires
            old(self).wf(),
        ensures
            final(self).wf(),
            forall|k: u128, v: u64| #[trigger] final(self).document_deps().relates(k, v)
                <==> (old(self).document_deps().relates(k, v) && v != visibility_definition_id.value),
            forall|k: u128| #[trigger] final(self).document_deps().fwd(k) == without(old(self).document_deps().fwd(k), visibility_definition_id.value),
            final(self).copies() == old(self).copies(),
            final(self).alias_deps() == old(self).alias_deps(),
            final(self).ancestor_deps() == old(self).ancestor_deps(),
            final(self).member_deps() == old(self).member_deps(),
    {
        self.document_owned_visibilities.remove_value(visibility_definition_id.value);
    }

    pub fn remove(&mut self, copy_definition_id: DefinitionId) -> (r: Option<GeneratedMethodCopy>)
        requires
            old(self).wf(),
        ensures
            final(self).wf(),
            match r {
                Some(c) => old(self).copies().has(copy_definition_id.value)
                    && c.source_definition_id.value == old(self).copies().source_of(copy_definition_id.value)
                    && c.declaration_id.value == old(self).copies().decl_of(copy_definition_id.value)
                    && c.trigger_definition_ids@ == old(self).copies().triggers_of(copy_definition_id.value),
                None => !old(self).copies().has(copy_definition_id.value),
            },
            forall|x: u64| #[trigger] final(self).copies().has(x) == (old(self).copies().has(x) && x != copy_definition_id.value),
            forall|x: u64| x != copy_definition_id.value ==> #[trigger] final(self).copies().same_entry(&old(self).copies(), x),
            forall|s: u64| #[trigger] final(self).copies().sources(s) == without(old(self).copies().sources(s), copy_definition_id.value),
            forall|t: u64| #[trigger] final(self).copies().triggered(t) == without(old(self).copies().triggered(t), copy_definition_id.value),
            final(self).alias_deps() == old(self).alias_deps(),
            final(self).ancestor_deps() == old(self).ancestor_deps(),
            final(self).member_deps() == old(self).member_deps(),
            final(self).document_deps() == old(self).document_deps(),
    {
        self.generated.remove(copy_definition_id)
    }

    /// Whether some visibility definition depends on an owner's ancestors.
    pub fn has_ancestor_dependent_visibilities(&self) -> (r: bool)
        requires
            self.wf(),
        ensures
            r == !self.ancestor_deps().is_empty_spec(),
            r <==> exists|k: u128, v: u64| self.ancestor_deps().relates(k, v),
    {
        !self.ancestor_dependent_visibilities.is_empty()
    }
}

} // verus!

verus! {

/// Visibility definitions that were applied to a method member, keyed by owner and member name.
#[derive(Debug)]
pub struct AppliedMethodVisibilities {
    by_owner_and_member: BiMultiMap,
}

impl AppliedMethodVisibilities {
    /// The index from member keys to visibility definitions.
    pub closed spec fn index(&self) -> BiMultiMap {
        self.by_owner_and_member
    }

    pub open spec fn wf(&self) -> bool {
        self.index().wf()
    }

    pub fn new() -> (m: Self)
        ensures
            m.wf(),
            m.index().is_empty_spec(),
            forall|k: u128, v: u64| !(#[trigger] m.index().relates(k, v)),
    {
        let m = AppliedMethodVisibilities { by_owner_and_member: BiMultiMap::new() };
        proof {
            m.index().lemma_wf_facts();
        }
        m
    }

    /// Records that `visibility_definition_id` was applied to the member `str_id` of `owner_id`.
    pub fn track(&mut self, owner_id: DeclarationId, str_id: StringId, visibility_definition_id: DefinitionId)
        requires
            old(self).wf(),
        ensures
            final(self).wf(),
            forall|k: u128, v: u64| #[trigger] final(self).index().relates(k, v)
                <==> (old(self).index().relates(k, v) || (k == pair_key(owner_id.value, str_id.value) && v == visibility_definition_id.value)),
            forall|k: u128| #[trigger] final(self).index().fwd(k) == if k == pair_key(owner_id.value, str_id.value) {
                pushed_unique(old(self).index().fwd(k), visibility_definition_id.value)
            } else {
                old(self).index().fwd(k)
            },
    {
        let key = MethodVisibilityDependencyKey::new(owner_id, str_id);
        self.by_owner_and_member.insert(key.raw(), visibility_definition_id.value);
    }

    /// Removes and returns the visibility definitions applied to member `str_id` of `owner_id`.
    pub fn take_for_owner_and_member(&mut self, owner_id: DeclarationId, str_id: StringId) -> (ids: Vec<u64>)
        requires
            old(self).wf(),
        ensures
            final(self).wf(),
            ids@ == old(self).index().fwd(pair_key(owner_id.value, str_id.value)),
            ids@.no_duplicates(),
            forall|k: u128, v: u64| #[trigger] final(self).index().relates(k, v)
                <==> (old(self).index().relates(k, v) && k != pair_key(owner_id.value, str_id.value)),
            forall|k: u128| #[trigger] final(self).index().fwd(k) == if k == pair_key(owner_id.value, str_id.value) {
                Seq::<u64>::empty()
            } else {
                old(self).index().fwd(k)
            },
    {
        let key = MethodVisibilityDependencyKey::new(owner_id, str_id);
        self.by_owner_and_member.remove_key(key.raw())
    }

    /// The visibility definitions applied to member `str_id` of `owner_id`, in order.
    pub fn visibility_ids_for(&self, owner_id: DeclarationId, str_id: StringId) -> (ids: Vec<u64>)
        ensures
            ids@ == self.index().fwd(pair_key(owner_id.value, str_id.value)),
    {
        let key = MethodVisibilityDependencyKey::new(owner_id, str_id);
        self.by_owner_and_member.values_for_key(key.raw())
    }

    /// Forgets every application of `visibility_definition_id`.
    pub fn detach(&mut self, visibility_definition_id: DefinitionId)
        requires
            old(self).wf(),
        ensures
            final(self).wf(),
            forall|k: u128, v: u64| #[trigger] final(self).index().relates(k, v)
                <==> (old(self).index().relates(k, v) && v != visibility_definition_id.value),
            forall|k: u128| #[trigger] final(self).index().fwd(k) == without(old(self).index().fwd(k), visibility_definition_id.value),
    {
        self.by_owner_and_member.remove_value(visibility_definition_id.value);
    }

    pub fn is_empty(&self) -> (r: bool)
        requires
            self.wf(),
        ensures
            r == self.index().is_empty_spec(),
            r <==> forall|k: u128, v: u64| !self.index().relates(k, v),
    {
        self.by_owner_and_member.is_empty()
    }
}

/// The visibility list of `k` in `m`, empty when absent.
pub open spec fn list_at<K>(m: Map<K, Vec<u64>>, k: K) -> Seq<u64> {
    if m.contains_key(k) {
        m[k]@
    } else {
        Seq::empty()
    }
}

/// Reverse index for method visibility definitions that failed because their target did not exist
/// yet.
///
/// These are retried when the owning namespace or one of its ancestors changes, because a
/// previously missing inherited method can become available incrementally.
#[derive(Debug)]
pub struct UnresolvedMethodVisibilities {
    by_owner: HashMap<u64, Vec<u64>>,
    by_owner_and_member: HashMap<u128, Vec<u64>>,
    owner_by_visibility: HashMap<u64, MethodVisibilityDependencyKey>,
}

impl UnresolvedMethodVisibilities {
    /// The owner and member each unresolved visibility definition targets.
    pub closed spec fn keys(&self) -> Map<u64, MethodVisibilityDependencyKey> {
        self.owner_by_visibility@
    }

    /// The unresolved visibility definitions of owner `o`, in order.
    pub closed spec fn owned(&self, o: u64) -> Seq<u64> {
        list_at(self.by_owner@, o)
    }

    /// The unresolved visibility definitions of member key `k`, in order.
    pub closed spec fn for_member(&self, k: u128) -> Seq<u64> {
        list_at(self.by_owner_and_member@, k)
    }

    /// The two lists hold exactly the tracked visibility definitions, each once, under its key.
    pub closed spec fn wf(&self) -> bool {
        &&& forall|o: u64| #[trigger] self.by_owner@.contains_key(o) ==> self.by_owner@[o]@.len() > 0
        &&& forall|k: u128| #[trigger] self.by_owner_and_member@.contains_key(k) ==> self.by_owner_and_member@[k]@.len() > 0
        &&& forall|o: u64| #[trigger] self.owned(o).no_duplicates()
        &&& forall|k: u128| #[trigger] self.for_member(k).no_duplicates()
        &&& forall|v: u64| #[trigger] self.keys().contains_key(v) ==> {
            &&& self.owned(self.keys()[v].owner_id.value).contains(v)
            &&& self.for_member(self.keys()[v].raw_spec()).contains(v)
        }
        &&& forall|o: u64, v: u64| #[trigger] self.owned(o).contains(v)
            ==> self.keys().contains_key(v) && self.keys()[v].owner_id.value == o
        &&& forall|k: u128, v: u64| #[trigger] self.for_member(k).contains(v)
            ==> self.keys().contains_key(v) && self.keys()[v].raw_spec() == k
    }

    /// The owner and member that unresolved visibility definition `visibility_definition_id`
    /// targets, if it is tracked.
    pub fn key_of(&self, visibility_definition_id: DefinitionId) -> (r: Option<MethodVisibilityDependencyKey>)
        ensures
            match r {
                Some(k) => self.keys().contains_key(visibility_definition_id.value) && k == self.keys()[visibility_definition_id.value],
                None => !self.keys().contains_key(visibility_definition_id.value),
            },
    {
        match self.owner_by_visibility.get(&visibility_definition_id.value) {
            Some(k) => Some(*k),
            None => None,
        }
    }

    /// The consistency checks of the index: each listed visibility definition is tracked under
    /// the listing key, and each tracked one is listed under its owner and its member key.
    pub proof fn lemma_consistent(&self)
        requires
            self.wf(),
        ensures
            forall|o: u64, v: u64| #[trigger] self.owned(o).contains(v)
                ==> self.keys().contains_key(v) && self.keys()[v].owner_id.value == o,
            forall|k: u128, v: u64| #[trigger] self.for_member(k).contains(v)
                ==> self.keys().contains_key(v) && self.keys()[v].raw_spec() == k,
            forall|v: u64| #[trigger] self.keys().contains_key(v) ==> {
                &&& self.owned(self.keys()[v].owner_id.value).contains(v)
                &&& self.for_member(self.keys()[v].raw_spec()).contains(v)
            },
    {
    }

    pub fn new() -> (m: Self)
        ensures
            m.wf(),
            m.keys() == Map::<u64, MethodVisibilityDependencyKey>::empty(),
    {
        let m = UnresolvedMethodVisibilities {
            by_owner: HashMap::new(),
            by_owner_and_member: HashMap::new(),
            owner_by_visibility: HashMap::new(),
        };
        assert(m.keys() =~= Map::empty());
        m
    }

    /// Removes `visibility_definition_id` from the list of `owner_id`, dropping an emptied list.
    fn remove_from_owner_map(by_owner: &mut HashMap<u64, Vec<u64>>, owner_id: DeclarationId, visibility_definition_id: DefinitionId)
        requires
            forall|o: u64| #[trigger] old(by_owner)@.contains_key(o) ==> old(by_owner)@[o]@.len() > 0,
        ensures
            forall|o: u64| #[trigger] final(by_owner)@.contains_key(o) ==> final(by_owner)@[o]@.len() > 0,
            forall|o: u64| #[trigger] list_at(final(by_owner)@, o) == if o == owner_id.value {
                without(list_at(old(by_owner)@, o), visibility_definition_id.value)
            } else {
                list_at(old(by_owner)@, o)
            },
    {
        let ghost start = old(by_owner)@;
        if let Some(ids) = by_owner.remove(&owner_id.value) {
            let remaining = remove_all(&ids, visibility_definition_id.value);
            if remaining.len() > 0 {
                by_owner.insert(owner_id.value, remaining);
            }
            proof {
                if remaining.len() == 0 {
                    assert(remaining@ =~= Seq::<u64>::empty());
                }
            }
        } else {
            assert(without(Seq::<u64>::empty(), visibility_definition_id.value) =~= Seq::<u64>::empty());
        }
        proof {
            assert forall|o: u64| #[trigger] list_at(by_owner@, o) == if o == owner_id.value {
                without(list_at(start, o), visibility_definition_id.value)
            } else {
                list_at(start, o)
            } by {
                if o != owner_id.value {
                    assert(by_owner@.contains_key(o) == start.contains_key(o));
                }
            }
        }
    }

    /// Removes `visibility_definition_id` from the list of `key`, dropping an emptied list.
    fn remove_from_owner_and_member_map(
        by_owner_and_member: &mut HashMap<u128, Vec<u64>>,
        key: MethodVisibilityDependencyKey,
        visibility_definition_id: DefinitionId,
    )
        requires
            forall|k: u128| #[trigger] old(by_owner_and_member)@.contains_key(k) ==> old(by_owner_and_member)@[k]@.len() > 0,
        ensures
            forall|k: u128| #[trigger] final(by_owner_and_member)@.contains_key(k) ==> final(by_owner_and_member)@[k]@.len() > 0,
            forall|k: u128| #[trigger] list_at(final(by_owner_and_member)@, k) == if k == key.raw_spec() {
                without(list_at(old(by_owner_and_member)@, k), visibility_definition_id.value)
            } else {
                list_at(old(by_owner_and_member)@, k)
            },
    {
        let ghost start = old(by_owner_and_member)@;
        let raw = key.raw();
        if let Some(ids) = by_owner_and_member.remove(&raw) {
            let remaining = remove_all(&ids, visibility_definition_id.value);
            if remaining.len() > 0 {
                by_owner_and_member.insert(raw, remaining);
            }
            proof {
                if remaining.len() == 0 {
                    assert(remaining@ =~= Seq::<u64>::empty());
                }
            }
        } else {
            assert(without(Seq::<u64>::empty(), visibility_definition_id.value) =~= Seq::<u64>::empty());
        }
        proof {
            assert forall|k: u128| #[trigger] list_at(by_owner_and_member@, k) == if k == key.raw_spec() {
                without(list_at(start, k), visibility_definition_id.value)
            } else {
                list_at(start, k)
            } by {
                if k != raw {
                    assert(by_owner_and_member@.contains_key(k) == start.contains_key(k));
                }
            }
        }
    }

    /// Whether tracking `v` under `key` moves it away from a different earlier key.
    pub open spec fn moves(&self, v: u64, key: MethodVisibilityDependencyKey) -> bool {
        self.keys().contains_key(v) && self.keys()[v] != key
    }

    /// Tracks `visibility_definition_id` as targeting member `str_id` of `owner_id`. When it was
    /// tracked under a different key, it is moved, and the previous owner is returned.
    pub fn track(&mut self, owner_id: DeclarationId, str_id: StringId, visibility_definition_id: DefinitionId) -> (previous_owner: Option<DeclarationId>)
        requires
            old(self).wf(),
        ensures
            final(self).wf(),
            final(self).keys() == old(self).keys().insert(
                visibility_definition_id.value,
                MethodVisibilityDependencyKey { owner_id, str_id },
            ),
            previous_owner == if old(self).moves(visibility_definition_id.value, MethodVisibilityDependencyKey { owner_id, str_id }) {
                Some(old(self).keys()[visibility_definition_id.value].owner_id)
            } else {
                None
            },
            forall|o: u64| #[trigger] final(self).owned(o) == {
                let mid = if old(self).moves(visibility_definition_id.value, MethodVisibilityDependencyKey { owner_id, str_id }) {
                    without(old(self).owned(o), visibility_definition_id.value)
                } else {
                    old(self).owned(o)
                };
                if o == owner_id.value { pushed_unique(mid, visibility_definition_id.value) } else { mid }
            },
            forall|k: u128| #[trigger] final(self).for_member(k) == {
                let mid = if old(self).moves(visibility_definition_id.value, MethodVisibilityDependencyKey { owner_id, str_id }) {
                    without(old(self).for_member(k), visibility_definition_id.value)
                } else {
                    old(self).for_member(k)
                };
                if k == pair_key(owner_id.value, str_id.value) { pushed_unique(mid, visibility_definition_id.value) } else { mid }
            },
    {
        let ghost old_self = *old(self);
        let v = visibility_definition_id.value;
        let key = MethodVisibilityDependencyKey::new(owner_id, str_id);
        let ghost moves = old_self.moves(v, key);
        let previous = self.owner_by_visibility.insert(v, key);
        let old_key = match previous {
            Some(previous_key) => if previous_key != key { Some(previous_key) } else { None },
            None => None,
        };
        if let Some(old_key) = old_key {
            Self::remove_from_owner_map(&mut self.by_owner, old_key.owner_id, visibility_definition_id);
            Self::remove_from_owner_and_member_map(&mut self.by_owner_and_member, old_key, visibility_definition_id);
        }
        let ghost mid = *self;
        proof {
            assert(moves == old_key.is_some());
            assert forall|o: u64| #[trigger] mid.owned(o) == if moves {
                without(old_self.owned(o), v)
            } else {
                old_self.owned(o)
            } by {
                lemma_without(old_self.owned(o), v);
                if moves && o != old_key.unwrap().owner_id.value {
                    assert(!old_self.owned(o).contains(v));
                }
            }
            assert forall|k: u128| #[trigger] mid.for_member(k) == if moves {
                without(old_self.for_member(k), v)
            } else {
                old_self.for_member(k)
            } by {
                lemma_without(old_self.for_member(k), v);
                if moves && k != old_key.unwrap().raw_spec() {
                    assert(!old_self.for_member(k).contains(v));
                }
            }
        }
        let mut owned = match self.by_owner.remove(&owner_id.value) {
            Some(ids) => ids,
            None => Vec::new(),
        };
        push_unique(&mut owned, v);
        self.by_owner.insert(owner_id.value, owned);
        let raw = key.raw();
        let mut members = match self.by_owner_and_member.remove(&raw) {
            Some(ids) => ids,
            None => Vec::new(),
        };
        push_unique(&mut members, v);
        self.by_owner_and_member.insert(raw, members);
        proof {
            assert forall|o: u64| #[trigger] self.owned(o) == if o == owner_id.value { pushed_unique(mid.owned(o), v) } else { mid.owned(o) } by {
                if o != owner_id.value {
                    assert(self.by_owner@.contains_key(o) == mid.by_owner@.contains_key(o));
                }
            }
            assert forall|k: u128| #[trigger] self.for_member(k) == if k == raw { pushed_unique(mid.for_member(k), v) } else { mid.for_member(k) } by {
                if k != raw {
                    assert(self.by_owner_and_member@.contains_key(k) == mid.by_owner_and_member@.contains_key(k));
                }
            }
            assert forall|o: u64| #[trigger] self.owned(o).no_duplicates() by {
                lemma_without(old_self.owned(o), v);
                lemma_pushed_unique(mid.owned(o), v);
            }
            assert forall|k: u128| #[trigger] self.for_member(k).no_duplicates() by {
                lemma_without(old_self.for_member(k), v);
                lemma_pushed_unique(mid.for_member(k), v);
            }
            assert forall|o: u64, x: u64| #[trigger] self.owned(o).contains(x)
                implies self.keys().contains_key(x) && self.keys()[x].owner_id.value == o by {
                lemma_without(old_self.owned(o), v);
                lemma_pushed_unique(mid.owned(o), v);
                if x != v {
                    assert(old_self.owned(o).contains(x));
                }
            }
            assert forall|k: u128, x: u64| #[trigger] self.for_member(k).contains(x)
                implies self.keys().contains_key(x) && self.keys()[x].raw_spec() == k by {
                lemma_without(old_self.for_member(k), v);
                lemma_pushed_unique(mid.for_member(k), v);
                if x != v {
                    assert(old_self.for_member(k).contains(x));
                }
            }
            assert forall|x: u64| #[trigger] self.keys().contains_key(x) implies {
                &&& self.owned(self.keys()[x].owner_id.value).contains(x)
                &&& self.for_member(self.keys()[x].raw_spec()).contains(x)
            } by {
                if x == v {
                    lemma_pushed_unique(mid.owned(owner_id.value), v);
                    lemma_pushed_unique(mid.for_member(raw), v);
                } else {
                    assert(old_self.keys().contains_key(x));
                    let ox = old_self.keys()[x].owner_id.value;
                    let kx = old_self.keys()[x].raw_spec();
                    assert(old_self.owned(ox).contains(x));
                    assert(old_self.for_member(kx).contains(x));
                    lemma_without(old_self.owned(ox), v);
                    lemma_without(old_self.for_member(kx), v);
                    lemma_pushed_unique(mid.owned(ox), v);
                    lemma_pushed_unique(mid.for_member(kx), v);
                }
            }
            assert forall|o: u64| #[trigger] self.by_owner@.contains_key(o) implies self.by_owner@[o]@.len() > 0 by {
                if o != owner_id.value {
                    assert(mid.by_owner@.contains_key(o));
                } else {
                    lemma_pushed_unique(mid.owned(o), v);
                }
            }
            assert forall|k: u128| #[trigger] self.by_owner_and_member@.contains_key(k) implies self.by_owner_and_member@[k]@.len() > 0 by {
                if k != raw {
                    assert(mid.by_owner_and_member@.contains_key(k));
                } else {
                    lemma_pushed_unique(mid.for_member(k), v);
                }
            }
        }
        match old_key {
            Some(k) => Some(k.owner_id),
            None => None,
        }
    }

    /// Stops tracking `visibility_definition_id`; returns the owner it was tracked under.
    pub fn remove(&mut self, visibility_definition_id: DefinitionId) -> (owner: Option<DeclarationId>)
        requires
            old(self).wf(),
        ensures
            final(self).wf(),
            owner == if old(self).keys().contains_key(visibility_definition_id.value) {
                Some(old(self).keys()[visibility_definition_id.value].owner_id)
            } else {
                None
            },
            final(self).keys() == old(self).keys().remove(visibility_definition_id.value),
            forall|o: u64| #[trigger] final(self).owned(o) == without(old(self).owned(o), visibility_definition_id.value),
            forall|k: u128| #[trigger] final(self).for_member(k) == without(old(self).for_member(k), visibility_definition_id.value),
    {
        let ghost old_self = *old(self);
        let v = visibility_definition_id.value;
        if !self.owner_by_visibility.contains_key(&v) {
            proof {
                assert(self.keys() =~= old_self.keys().remove(v));
                assert forall|o: u64| #[trigger] self.owned(o) == without(old_self.owned(o), v) by {
                    lemma_without(old_self.owned(o), v);
                }
                assert forall|k: u128| #[trigger] self.for_member(k) == without(old_self.for_member(k), v) by {
                    lemma_without(old_self.for_member(k), v);
                }
            }
            return None;
        }
        let key = self.owner_by_visibility.remove(&v).unwrap();
        Self::remove_from_owner_map(&mut self.by_owner, key.owner_id, visibility_definition_id);
        Self::remove_from_owner_and_member_map(&mut self.by_owner_and_member, key, visibility_definition_id);
        proof {
            assert forall|o: u64| #[trigger] self.owned(o) == without(old_self.owned(o), v) by {
                lemma_without(old_self.owned(o), v);
                if o != key.owner_id.value {
                    assert(!old_self.owned(o).contains(v));
                }
            }
            assert forall|k: u128| #[trigger] self.for_member(k) == without(old_self.for_member(k), v) by {
                lemma_without(old_self.for_member(k), v);
                if k != key.raw_spec() {
                    assert(!old_self.for_member(k).contains(v));
                }
            }
            assert forall|o: u64| #[trigger] self.owned(o).no_duplicates() by {
                lemma_without(old_self.owned(o), v);
            }
            assert forall|k: u128| #[trigger] self.for_member(k).no_duplicates() by {
                lemma_without(old_self.for_member(k), v);
            }
            assert forall|o: u64, x: u64| #[trigger] self.owned(o).contains(x)
                implies self.keys().contains_key(x) && self.keys()[x].owner_id.value == o by {
                lemma_without(old_self.owned(o), v);
                assert(old_self.owned(o).contains(x));
            }
            assert forall|k: u128, x: u64| #[trigger] self.for_member(k).contains(x)
                implies self.keys().contains_key(x) && self.keys()[x].raw_spec() == k by {
                lemma_without(old_self.for_member(k), v);
                assert(old_self.for_member(k).contains(x));
            }
            assert forall|x: u64| #[trigger] self.keys().contains_key(x) implies {
                &&& self.owned(self.keys()[x].owner_id.value).contains(x)
                &&& self.for_member(self.keys()[x].raw_spec()).contains(x)
            } by {
                assert(old_self.keys().contains_key(x));
                lemma_without(old_self.owned(old_self.keys()[x].owner_id.value), v);
                lemma_without(old_self.for_member(old_self.keys()[x].raw_spec()), v);
            }
        }
        Some(key.owner_id)
    }

    /// Stops tracking every unresolved visibility definition of `owner_id` and returns them.
    pub fn take_for_owner(&mut self, owner_id: DeclarationId) -> (ids: Vec<u64>)
        requires
            old(self).wf(),
        ensures
            final(self).wf(),
            ids@ == old(self).owned(owner_id.value),
            ids@.no_duplicates(),
            forall|v: u64| #[trigger] final(self).keys().contains_key(v)
                <==> (old(self).keys().contains_key(v) && old(self).keys()[v].owner_id != owner_id),
            forall|v: u64| #[trigger] final(self).keys().contains_key(v) ==> final(self).keys()[v] == old(self).keys()[v],
            forall|o: u64| #[trigger] final(self).owned(o) == if o == owner_id.value {
                Seq::<u64>::empty()
            } else {
                old(self).owned(o)
            },
            forall|k: u128| #[trigger] final(self).for_member(k) == old(self).for_member(k).filter(|v: u64| !ids@.contains(v)),
    {
        let ghost old_self = *old(self);
        let ids = match self.by_owner.remove(&owner_id.value) {
            Some(ids) => ids,
            None => Vec::new(),
        };
        proof {
            assert(ids@ == old_self.owned(owner_id.value));
            assert forall|k: u128| #[trigger] self.for_member(k) == old_self.for_member(k).filter(|v: u64| !ids@.take(0).contains(v)) by {
                lemma_filter_not_in_empty(old_self.for_member(k), ids@);
            }
        }
        let mut i: usize = 0;
        while i < ids.len()
            invariant
                old_self.wf(),
                i <= ids@.len(),
                ids@ == old_self.owned(owner_id.value),
                self.by_owner@ == old_self.by_owner@.remove(owner_id.value),
                forall|v: u64| #[trigger] self.keys().contains_key(v)
                    <==> (old_self.keys().contains_key(v) && !ids@.take(i as int).contains(v)),
                forall|v: u64| #[trigger] self.keys().contains_key(v) ==> self.keys()[v] == old_self.keys()[v],
                forall|k: u128| #[trigger] self.for_member(k) == old_self.for_member(k).filter(|v: u64| !ids@.take(i as int).contains(v)),
                forall|k: u128| #[trigger] self.by_owner_and_member@.contains_key(k) ==> self.by_owner_and_member@[k]@.len() > 0,
            decreases ids@.len() - i,
        {
            let id = ids[i];
            let ghost before = *self;
            proof {
                assert(old_self.owned(owner_id.value).no_duplicates());
                assert(!ids@.take(i as int).contains(id)) by {
                    if ids@.take(i as int).contains(id) {
                        let j = choose|j: int| 0 <= j < i && ids@.take(i as int)[j] == id;
                        assert(ids@[j] == ids@[i as int]);
                    }
                }
                assert(old_self.owned(owner_id.value).contains(id));
                assert(before.keys().contains_key(id));
            }
            match self.owner_by_visibility.remove(&id) {
                Some(key) => {
                    Self::remove_from_owner_and_member_map(&mut self.by_owner_and_member, key, DefinitionId::new(id));
                    proof {
                        assert(key == old_self.keys()[id]);
                        assert forall|k: u128| #[trigger] self.for_member(k) == old_self.for_member(k).filter(|v: u64| !ids@.take(i + 1).contains(v)) by {
                            lemma_filter_not_in_take_succ(old_self.for_member(k), ids@, i as int);
                            let cur = old_self.for_member(k).filter(|v: u64| !ids@.take(i as int).contains(v));
                            lemma_filter_contains(old_self.for_member(k), |v: u64| !ids@.take(i as int).contains(v));
                            lemma_without(cur, id);
                            assert(before.for_member(k) == cur);
                            if k != key.raw_spec() {
                                assert(!old_self.for_member(k).contains(id));
                                assert(!cur.contains(id));
                            }
                        }
                    }
                },
                None => {},
            }
            proof {
                assert forall|v: u64| #[trigger] self.keys().contains_key(v)
                    <==> (old_self.keys().contains_key(v) && !ids@.take(i + 1).contains(v)) by {
                    lemma_take_succ_contains(ids@, i as int, v);
                }
            }
            i = i + 1;
        }
        proof {
            assert(ids@.take(i as int) =~= ids@);
            old_self.lemma_consistent();
            assert forall|v: u64| #[trigger] ids@.contains(v) <==> (old_self.keys().contains_key(v) && old_self.keys()[v].owner_id == owner_id) by {
                if old_self.keys().contains_key(v) && old_self.keys()[v].owner_id == owner_id {
                    assert(old_self.owned(old_self.keys()[v].owner_id.value).contains(v));
                }
            }
            assert forall|o: u64| #[trigger] self.owned(o) == if o == owner_id.value {
                Seq::<u64>::empty()
            } else {
                old_self.owned(o)
            } by {}
            assert forall|k: u128| #[trigger] self.for_member(k).no_duplicates() by {
                lemma_filter_contains(old_self.for_member(k), |v: u64| !ids@.contains(v));
            }
            assert forall|o: u64| #[trigger] self.owned(o).no_duplicates() by {}
            assert forall|o: u64, x: u64| #[trigger] self.owned(o).contains(x)
                implies self.keys().contains_key(x) && self.keys()[x].owner_id.value == o by {
                assert(o != owner_id.value);
                assert(old_self.owned(o).contains(x));
                assert(!ids@.contains(x));
                assert(self.keys().contains_key(x));
            }
            assert forall|k: u128, x: u64| #[trigger] self.for_member(k).contains(x)
                implies self.keys().contains_key(x) && self.keys()[x].raw_spec() == k by {
                lemma_filter_contains(old_self.for_member(k), |v: u64| !ids@.contains(v));
                assert(old_self.for_member(k).contains(x));
            }
            assert forall|x: u64| #[trigger] self.keys().contains_key(x) implies {
                &&& self.owned(self.keys()[x].owner_id.value).contains(x)
                &&& self.for_member(self.keys()[x].raw_spec()).contains(x)
            } by {
                let kx = old_self.keys()[x];
                assert(old_self.owned(kx.owner_id.value).contains(x));
                assert(old_self.for_member(kx.raw_spec()).contains(x));
                lemma_filter_contains(old_self.for_member(kx.raw_spec()), |v: u64| !ids@.contains(v));
            }
            assert forall|o: u64| #[trigger] self.by_owner@.contains_key(o) implies self.by_owner@[o]@.len() > 0 by {
                assert(old_self.by_owner@.contains_key(o));
            }
        }
        ids
    }

    /// Stops tracking every unresolved visibility definition of member `str_id` of `owner_id` and
    /// returns them.
    pub fn take_for_owner_and_member(&mut self, owner_id: DeclarationId, str_id: StringId) -> (ids: Vec<u64>)
        requires
            old(self).wf(),
        ensures
            final(self).wf(),
            ids@ == old(self).for_member(pair_key(owner_id.value, str_id.value)),
            ids@.no_duplicates(),
            forall|v: u64| #[trigger] final(self).keys().contains_key(v)
                <==> (old(self).keys().contains_key(v) && old(self).keys()[v] != MethodVisibilityDependencyKey { owner_id, str_id }),
            forall|v: u64| #[trigger] final(self).keys().contains_key(v) ==> final(self).keys()[v] == old(self).keys()[v],
            forall|k: u128| #[trigger] final(self).for_member(k) == if k == pair_key(owner_id.value, str_id.value) {
                Seq::<u64>::empty()
            } else {
                old(self).for_member(k)
            },
            forall|o: u64| #[trigger] final(self).owned(o) == old(self).owned(o).filter(|v: u64| !ids@.contains(v)),
    {
        let ghost old_self = *old(self);
        let key = MethodVisibilityDependencyKey::new(owner_id, str_id);
        let raw = key.raw();
        let ids = match self.by_owner_and_member.remove(&raw) {
            Some(ids) => ids,
            None => Vec::new(),
        };
        proof {
            assert(ids@ == old_self.for_member(raw));
            assert forall|o: u64| #[trigger] self.owned(o) == old_self.owned(o).filter(|v: u64| !ids@.take(0).contains(v)) by {
                lemma_filter_not_in_empty(old_self.owned(o), ids@);
            }
        }
        let mut i: usize = 0;
        while i < ids.len()
            invariant
                old_self.wf(),
                i <= ids@.len(),
                raw == pair_key(owner_id.value, str_id.value),
                ids@ == old_self.for_member(raw),
                self.by_owner_and_member@ == old_self.by_owner_and_member@.remove(raw),
                forall|v: u64| #[trigger] self.keys().contains_key(v)
                    <==> (old_self.keys().contains_key(v) && !ids@.take(i as int).contains(v)),
                forall|v: u64| #[trigger] self.keys().contains_key(v) ==> self.keys()[v] == old_self.keys()[v],
                forall|o: u64| #[trigger] self.owned(o) == old_self.owned(o).filter(|v: u64| !ids@.take(i as int).contains(v)),
                forall|o: u64| #[trigger] self.by_owner@.contains_key(o) ==> self.by_owner@[o]@.len() > 0,
            decreases ids@.len() - i,
        {
            let id = ids[i];
            let ghost before = *self;
            proof {
                assert(old_self.for_member(raw).no_duplicates());
                assert(!ids@.take(i as int).contains(id)) by {
                    if ids@.take(i as int).contains(id) {
                        let j = choose|j: int| 0 <= j < i && ids@.take(i as int)[j] == id;
                        assert(ids@[j] == ids@[i as int]);
                    }
                }
                assert(old_self.for_member(raw).contains(id));
                assert(before.keys().contains_key(id));
                let kid = old_self.keys()[id];
                lemma_pair_key_injective(kid.owner_id.value, kid.str_id.value, owner_id.value, str_id.value);
            }
            if self.owner_by_visibility.remove(&id).is_some() {
                Self::remove_from_owner_map(&mut self.by_owner, owner_id, DefinitionId::new(id));
                proof {
                    assert forall|o: u64| #[trigger] self.owned(o) == old_self.owned(o).filter(|v: u64| !ids@.take(i + 1).contains(v)) by {
                        lemma_filter_not_in_take_succ(old_self.owned(o), ids@, i as int);
                        let cur = old_self.owned(o).filter(|v: u64| !ids@.take(i as int).contains(v));
                        lemma_filter_contains(old_self.owned(o), |v: u64| !ids@.take(i as int).contains(v));
                        lemma_without(cur, id);
                        assert(before.owned(o) == cur);
                        if o != owner_id.value {
                            assert(!old_self.owned(o).contains(id));
                            assert(!cur.contains(id));
                        }
                    }
                }
            }
            proof {
                assert forall|v: u64| #[trigger] self.keys().contains_key(v)
                    <==> (old_self.keys().contains_key(v) && !ids@.take(i + 1).contains(v)) by {
                    lemma_take_succ_contains(ids@, i as int, v);
                }
            }
            i = i + 1;
        }
        proof {
            assert(ids@.take(i as int) =~= ids@);
            old_self.lemma_consistent();
            assert forall|v: u64| #[trigger] ids@.contains(v) <==> (old_self.keys().contains_key(v) && old_self.keys()[v] == key) by {
                if old_self.keys().contains_key(v) {
                    let kv = old_self.keys()[v];
                    lemma_pair_key_injective(kv.owner_id.value, kv.str_id.value, owner_id.value, str_id.value);
                    if kv == key {
                        assert(old_self.for_member(kv.raw_spec()).contains(v));
                    }
                }
            }
            assert forall|k: u128| #[trigger] self.for_member(k) == if k == raw {
                Seq::<u64>::empty()
            } else {
                old_self.for_member(k)
            } by {}
            assert forall|o: u64| #[trigger] self.owned(o).no_duplicates() by {
                lemma_filter_contains(old_self.owned(o), |v: u64| !ids@.contains(v));
            }
            assert forall|k: u128| #[trigger] self.for_member(k).no_duplicates() by {}
            assert forall|k: u128, x: u64| #[trigger] self.for_member(k).contains(x)
                implies self.keys().contains_key(x) && self.keys()[x].raw_spec() == k by {
                assert(k != raw);
                assert(old_self.for_member(k).contains(x));
                let kx = old_self.keys()[x];
                lemma_pair_key_injective(kx.owner_id.value, kx.str_id.value, owner_id.value, str_id.value);
                assert(!ids@.contains(x));
                assert(self.keys().contains_key(x));
            }
            assert forall|o: u64, x: u64| #[trigger] self.owned(o).contains(x)
                implies self.keys().contains_key(x) && self.keys()[x].owner_id.value == o by {
                lemma_filter_contains(old_self.owned(o), |v: u64| !ids@.contains(v));
                assert(old_self.owned(o).contains(x));
            }
            assert forall|x: u64| #[trigger] self.keys().contains_key(x) implies {
                &&& self.owned(self.keys()[x].owner_id.value).contains(x)
                &&& self.for_member(self.keys()[x].raw_spec()).contains(x)
            } by {
                let kx = old_self.keys()[x];
                assert(old_self.owned(kx.owner_id.value).contains(x));
                assert(old_self.for_member(kx.raw_spec()).contains(x));
                lemma_filter_contains(old_self.owned(kx.owner_id.value), |v: u64| !ids@.contains(v));
                lemma_pair_key_injective(kx.owner_id.value, kx.str_id.value, owner_id.value, str_id.value);
            }
            assert forall|k: u128| #[trigger] self.by_owner_and_member@.contains_key(k) implies self.by_owner_and_member@[k]@.len() > 0 by {
                assert(old_self.by_owner_and_member@.contains_key(k));
            }
        }
        ids
    }

    /// Whether nothing is tracked.
    pub fn is_empty(&self) -> (r: bool)
        requires
            self.wf(),
        ensures
            r == self.keys().dom().is_empty(),
    {
        let r = self.by_owner.is_empty();
        proof {
            if !r {
                let o = self.by_owner@.dom().choose();
                assert(self.by_owner@.contains_key(o));
                assert(self.owned(o).contains(self.owned(o)[0]));
                assert(self.keys().contains_key(self.owned(o)[0]));
            }
            if !self.keys().dom().is_empty() {
                let v = self.keys().dom().choose();
                assert(self.keys().contains_key(v));
                assert(self.owned(self.keys()[v].owner_id.value).contains(v));
                assert(self.by_owner@.contains_key(self.keys()[v].owner_id.value));
            }
        }
        r
    }
}

} // verus!
