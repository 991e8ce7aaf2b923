//! References found in source code: constants, methods and instance variables.

use vstd::prelude::*;
use crate::ids::{
    hash_str, reference_key, reference_key_string, ConstantReferenceId, DeclarationId, DefinitionId,
    InstanceVariableReferenceId, MethodReferenceId, NameId, StringId, UriId,
};
use crate::offset::Offset;

verus! {

/// A reference to a constant.
#[derive(Debug)]
pub struct ConstantReference {
    /// The name ID of this reference
    name_id: NameId,
    /// The document where we found the reference
    uri_id: UriId,
    /// The offsets inside of the document where we found the reference
    offset: Offset,
}

/// The identifier of a reference: the hash of `"{name}:{uri}:{start}-{end}"`.
pub open spec fn reference_id_value(name: u64, uri_id: UriId, offset: Offset) -> u64 {
    hash_str(reference_key(name, uri_id.value, offset.start_spec(), offset.end_spec()))
}

impl ConstantReference {
    pub closed spec fn name_id_spec(&self) -> NameId {
        self.name_id
    }

    pub closed spec fn uri_id_spec(&self) -> UriId {
        self.uri_id
    }

    pub closed spec fn offset_spec(&self) -> Offset {
        self.offset
    }

    pub fn new(name_id: NameId, uri_id: UriId, offset: Offset) -> (r: Self)
        ensures
            r.name_id_spec() == name_id,
            r.uri_id_spec() == uri_id,
            r.offset_spec() == offset,
    {
        Self { name_id, uri_id, offset }
    }

    pub fn name_id(&self) -> (r: &NameId)
        ensures
            *r == self.name_id_spec(),
    {
        &self.name_id
    }

    pub fn uri_id(&self) -> (r: UriId)
        ensures
            r == self.uri_id_spec(),
    {
        self.uri_id
    }

    pub fn offset(&self) -> (r: &Offset)
        ensures
            *r == self.offset_spec(),
    {
        &self.offset
    }

    /// The identifier of this reference, derived from its name, document and range.
    pub fn id(&self) -> (r: ConstantReferenceId)
        ensures
            r.value == reference_id_value(self.name_id_spec().value, self.uri_id_spec(), self.offset_spec()),
    {
        let key = reference_key_string(self.name_id.get(), self.uri_id.get(), self.offset.start(), self.offset.end());
        ConstantReferenceId::from_str(key.as_str())
    }
}

/// A reference to a method.
#[derive(Debug)]
pub struct MethodRef {
    /// The unqualified name of the method
    str: StringId,
    /// The document where we found the reference
    uri_id: UriId,
    /// The offsets inside of the document where we found the reference
    offset: Offset,
    /// The receiver of the method call if it's a constant
    receiver: Option<NameId>,
}

impl MethodRef {
    pub closed spec fn str_spec(&self) -> StringId {
        self.str
    }

    pub closed spec fn uri_id_spec(&self) -> UriId {
        self.uri_id
    }

    pub closed spec fn offset_spec(&self) -> Offset {
        self.offset
    }

    pub closed spec fn receiver_spec(&self) -> Option<NameId> {
        self.receiver
    }

    pub fn new(str: StringId, uri_id: UriId, offset: Offset, receiver: Option<NameId>) -> (r: Self)
        ensures
            r.str_spec() == str,
            r.uri_id_spec() == uri_id,
            r.offset_spec() == offset,
            r.receiver_spec() == receiver,
    {
        Self { str, uri_id, offset, receiver }
    }

    pub fn str(&self) -> (r: &StringId)
        ensures
            *r == self.str_spec(),
    {
        &self.str
    }

    pub fn uri_id(&self) -> (r: UriId)
        ensures
            r == self.uri_id_spec(),
    {
        self.uri_id
    }

    pub fn offset(&self) -> (r: &Offset)
        ensures
            *r == self.offset_spec(),
    {
        &self.offset
    }

    pub fn receiver(&self) -> (r: Option<NameId>)
        ensures
            r == self.receiver_spec(),
    {
        self.receiver
    }

    /// The identifier of this reference, derived from its name, document and range.
    pub fn id(&self) -> (r: MethodReferenceId)
        ensures
            r.value == reference_id_value(self.str_spec().value, self.uri_id_spec(), self.offset_spec()),
    {
        let key = reference_key_string(self.str.get(), self.uri_id.get(), self.offset.start(), self.offset.end());
        MethodReferenceId::from_str(key.as_str())
    }
}

/// A reference to an instance variable.
#[derive(Debug)]
pub struct InstanceVariableRef {
    /// The interned name of the instance variable (e.g., "@foo")
    str_id: StringId,
    /// The document where we found the reference
    uri_id: UriId,
    /// The offsets inside of the document where we found the reference
    offset: Offset,
    /// The lexical nesting at the point of the read, used to determine the owner during resolution
    lexical_nesting_id: Option<DefinitionId>,
}

impl InstanceVariableRef {
    pub closed spec fn str_id_spec(&self) -> StringId {
        self.str_id
    }

    pub closed spec fn uri_id_spec(&self) -> UriId {
        self.uri_id
    }

    pub closed spec fn offset_spec(&self) -> Offset {
        self.offset
    }

    pub closed spec fn lexical_nesting_id_spec(&self) -> Option<DefinitionId> {
        self.lexical_nesting_id
    }

    /// The identifier value of this reference.
    pub open spec fn id_spec(&self) -> u64 {
        reference_id_value(self.str_id_spec().value, self.uri_id_spec(), self.offset_spec())
    }

    pub fn new(str_id: StringId, uri_id: UriId, offset: Offset, lexical_nesting_id: Option<DefinitionId>) -> (r: Self)
        ensures
            r.str_id_spec() == str_id,
            r.uri_id_spec() == uri_id,
            r.offset_spec() == offset,
            r.lexical_nesting_id_spec() == lexical_nesting_id,
    {
        Self { str_id, uri_id, offset, lexical_nesting_id }
    }

    pub fn str_id(&self) -> (r: &StringId)
        ensures
            *r == self.str_id_spec(),
    {
        &self.str_id
    }

    pub fn uri_id(&self) -> (r: UriId)
        ensures
            r == self.uri_id_spec(),
    {
        self.uri_id
    }

    pub fn offset(&self) -> (r: &Offset)
        ensures
            *r == self.offset_spec(),
    {
        &self.offset
    }

    pub fn lexical_nesting_id(&self) -> (r: Option<DefinitionId>)
        ensures
            r == self.lexical_nesting_id_spec(),
    {
        self.lexical_nesting_id
    }

    /// The identifier of this reference, derived from its name, document and range.
    pub fn id(&self) -> (r: InstanceVariableReferenceId)
        ensures
            r.value == self.id_spec(),
    {
        let key = reference_key_string(self.str_id.get(), self.uri_id.get(), self.offset.start(), self.offset.end());
        InstanceVariableReferenceId::from_str(key.as_str())
    }
}

/// An instance variable reference that has been resolved to its target declaration.
#[derive(Debug)]
pub struct ResolvedInstanceVariableRef {
    inner: InstanceVariableRef,
    declaration_id: DeclarationId,
}

impl ResolvedInstanceVariableRef {
    pub closed spec fn inner_spec(&self) -> InstanceVariableRef {
        self.inner
    }

    pub closed spec fn declaration_id_spec(&self) -> DeclarationId {
        self.declaration_id
    }

    pub fn new(inner: InstanceVariableRef, declaration_id: DeclarationId) -> (r: Self)
        ensures
            r.inner_spec() == inner,
            r.declaration_id_spec() == declaration_id,
    {
        Self { inner, declaration_id }
    }

    pub fn inner(&self) -> (r: &InstanceVariableRef)
        ensures
            *r == self.inner_spec(),
    {
        &self.inner
    }

    pub fn declaration_id(&self) -> (r: &DeclarationId)
        ensures
            *r == self.declaration_id_spec(),
    {
        &self.declaration_id
    }
}

/// A usage of an instance variable. The resolved variant carries the `DeclarationId` directly so
/// that going from a reference to its target declaration takes one step.
#[derive(Debug)]
pub enum InstanceVariableReference {
    /// Not yet linked to a declaration.
    Unresolved(Box<InstanceVariableRef>),
    /// Linked to a declaration in the graph.
    Resolved(Box<ResolvedInstanceVariableRef>),
}

impl InstanceVariableReference {
    /// The underlying reference, resolved or not.
    pub open spec fn reference(&self) -> InstanceVariableRef {
        match self {
            InstanceVariableReference::Unresolved(it) => **it,
            InstanceVariableReference::Resolved(it) => it.inner_spec(),
        }
    }

    pub fn str_id(&self) -> (r: &StringId)
        ensures
            *r == self.reference().str_id_spec(),
    {
        match self {
            InstanceVariableReference::Unresolved(it) => it.str_id(),
            InstanceVariableReference::Resolved(it) => it.inner().str_id(),
        }
    }

    pub fn uri_id(&self) -> (r: UriId)
        ensures
            r == self.reference().uri_id_spec(),
    {
        match self {
            InstanceVariableReference::Unresolved(it) => it.uri_id(),
            InstanceVariableReference::Resolved(it) => it.inner().uri_id(),
        }
    }

    pub fn offset(&self) -> (r: &Offset)
        ensures
            *r == self.reference().offset_spec(),
    {
        match self {
            InstanceVariableReference::Unresolved(it) => it.offset(),
            InstanceVariableReference::Resolved(it) => it.inner().offset(),
        }
    }

    pub fn lexical_nesting_id(&self) -> (r: Option<DefinitionId>)
        ensures
            r == self.reference().lexical_nesting_id_spec(),
    {
        match self {
            InstanceVariableReference::Unresolved(it) => it.lexical_nesting_id(),
            InstanceVariableReference::Resolved(it) => it.inner().lexical_nesting_id(),
        }
    }

    pub fn id(&self) -> (r: InstanceVariableReferenceId)
        ensures
            r.value == self.reference().id_spec(),
    {
        match self {
            InstanceVariableReference::Unresolved(it) => it.id(),
            InstanceVariableReference::Resolved(it) => it.inner().id(),
        }
    }

    /// The declaration this reference resolves to, if it was resolved.
    pub fn declaration_id(&self) -> (r: Option<&DeclarationId>)
        ensures
            match self {
                InstanceVariableReference::Unresolved(_) => r is None,
                InstanceVariableReference::Resolved(it) => r == Some(&it.declaration_id_spec()),
            },
    {
        match self {
            InstanceVariableReference::Unresolved(_) => None,
            InstanceVariableReference::Resolved(it) => Some(it.declaration_id()),
        }
    }
}

} // verus!
