//! Identifiers of the graph's entities. Each is a 64-bit value, usually derived from a string by
//! hashing its UTF-8 bytes.

use vstd::prelude::*;
use vstd::utf8::encode_utf8;
use crate::text::{decimal, push_decimal};

verus! {

pub const HASH_OFFSET_BASIS: u64 = 0xcbf2_9ce4_8422_2325u64;

pub const HASH_PRIME: u64 = 0x0000_0100_0000_01b3u64;

/// FNV-1a hash of a byte sequence.
pub open spec fn hash_bytes(bytes: Seq<u8>) -> u64
    decreases bytes.len(),
{
    if bytes.len() == 0 {
        HASH_OFFSET_BASIS
    } else {
        (hash_bytes(bytes.drop_last()) ^ (bytes.last() as u64)).wrapping_mul(HASH_PRIME)
    }
}

/// The hash of a string: the hash of its UTF-8 encoding.
pub open spec fn hash_str(s: Seq<char>) -> u64 {
    hash_bytes(encode_utf8(s))
}

/// Hashes the UTF-8 bytes of `s`.
pub fn hash_string(s: &str) -> (h: u64)
    ensures
        h == hash_str(s@),
{
    let bytes = s.as_bytes();
    let mut h: u64 = HASH_OFFSET_BASIS;
    let mut i: usize = 0;
    while i < bytes.len()
        invariant
            i <= bytes@.len(),
            bytes@ == encode_utf8(s@),
            h == hash_bytes(bytes@.take(i as int)),
        decreases bytes@.len() - i,
    {
        assert(bytes@.take(i + 1).drop_last() =~= bytes@.take(i as int));
        h = (h ^ (bytes[i] as u64)).wrapping_mul(HASH_PRIME);
        i = i + 1;
    }
    assert(bytes@.take(i as int) =~= bytes@);
    h
}

/// Identifies a definition: one place in the source code that defines something.
#[derive(Clone, Copy, Debug, PartialEq, Eq, Structural, Hash)]
pub struct DefinitionId {
    pub value: u64,
}

/// Identifies a declaration: the global concept that one or more definitions contribute to.
#[derive(Clone, Copy, Debug, PartialEq, Eq, Structural, Hash)]
pub struct DeclarationId {
    pub value: u64,
}

/// Identifies an interned string.
#[derive(Clone, Copy, Debug, PartialEq, Eq, Structural, Hash)]
pub struct StringId {
    pub value: u64,
}

/// Identifies a constant name (a possibly qualified constant path).
#[derive(Clone, Copy, Debug, PartialEq, Eq, Structural, Hash)]
pub struct NameId {
    pub value: u64,
}

/// Identifies a document by its URI.
#[derive(Clone, Copy, Debug, PartialEq, Eq, Structural, Hash)]
pub struct UriId {
    pub value: u64,
}

/// Identifies a reference to a constant.
#[derive(Clone, Copy, Debug, PartialEq, Eq, Structural, Hash)]
pub struct ConstantReferenceId {
    pub value: u64,
}

/// Identifies a reference to a method.
#[derive(Clone, Copy, Debug, PartialEq, Eq, Structural, Hash)]
pub struct MethodReferenceId {
    pub value: u64,
}

/// Identifies a reference to an instance variable.
#[derive(Clone, Copy, Debug, PartialEq, Eq, Structural, Hash)]
pub struct InstanceVariableReferenceId {
    pub value: u64,
}

impl DefinitionId {
    /// Wraps a raw value.
    pub fn new(value: u64) -> (id: Self)
        ensures
            id.value == value,
    {
        DefinitionId { value }
    }

    /// The raw value.
    pub fn get(&self) -> (v: u64)
        ensures
            v == self.value,
    {
        self.value
    }

    /// The identifier derived from a string.
    pub fn from_str(s: &str) -> (id: Self)
        ensures
            id.value == hash_str(s@),
    {
        DefinitionId { value: hash_string(s) }
    }
}

impl DeclarationId {
    /// Wraps a raw value.
    pub fn new(value: u64) -> (id: Self)
        ensures
            id.value == value,
    {
        DeclarationId { value }
    }

    /// The raw value.
    pub fn get(&self) -> (v: u64)
        ensures
            v == self.value,
    {
        self.value
    }

    /// The identifier derived from a string, such as a fully qualified name.
    pub fn from_str(s: &str) -> (id: Self)
        ensures
            id.value == hash_str(s@),
    {
        DeclarationId { value: hash_string(s) }
    }
}

impl StringId {
    /// Wraps a raw value.
    pub fn new(value: u64) -> (id: Self)
        ensures
            id.value == value,
    {
        StringId { value }
    }

    /// The raw value.
    pub fn get(&self) -> (v: u64)
        ensures
            v == self.value,
    {
        self.value
    }

    /// The identifier of an interned string.
    pub fn from_str(s: &str) -> (id: Self)
        ensures
            id.value == hash_str(s@),
    {
        StringId { value: hash_string(s) }
    }
}

impl NameId {
    /// Wraps a raw value.
    pub fn new(value: u64) -> (id: Self)
        ensures
            id.value == value,
    {
        NameId { value }
    }

    /// The raw value.
    pub fn get(&self) -> (v: u64)
        ensures
            v == self.value,
    {
        self.value
    }

    /// The identifier derived from a constant name.
    pub fn from_str(s: &str) -> (id: Self)
        ensures
            id.value == hash_str(s@),
    {
        NameId { value: hash_string(s) }
    }
}

impl UriId {
    /// Wraps a raw value.
    pub fn new(value: u64) -> (id: Self)
        ensures
            id.value == value,
    {
        UriId { value }
    }

    /// The raw value.
    pub fn get(&self) -> (v: u64)
        ensures
            v == self.value,
    {
        self.value
    }

    /// The identifier of a document URI.
    pub fn from_str(s: &str) -> (id: Self)
        ensures
            id.value == hash_str(s@),
    {
        UriId { value: hash_string(s) }
    }
}

impl ConstantReferenceId {
    /// The identifier derived from a string key.
    pub fn from_str(s: &str) -> (id: Self)
        ensures
            id.value == hash_str(s@),
    {
        ConstantReferenceId { value: hash_string(s) }
    }
}

impl MethodReferenceId {
    /// The identifier derived from a string key.
    pub fn from_str(s: &str) -> (id: Self)
        ensures
            id.value == hash_str(s@),
    {
        MethodReferenceId { value: hash_string(s) }
    }
}

impl InstanceVariableReferenceId {
    /// The identifier derived from a string key.
    pub fn from_str(s: &str) -> (id: Self)
        ensures
            id.value == hash_str(s@),
    {
        InstanceVariableReferenceId { value: hash_string(s) }
    }
}

/// The key text of a reference: `"{a}:{b}:{start}-{end}"` in decimal.
pub open spec fn reference_key(a: u64, b: u64, start: u32, end: u32) -> Seq<char> {
    decimal(a as nat) + seq![':'] + decimal(b as nat) + seq![':'] + decimal(start as nat) + seq!['-']
        + decimal(end as nat)
}

/// Builds the key text of a reference.
pub fn reference_key_string(a: u64, b: u64, start: u32, end: u32) -> (s: String)
    ensures
        s@ == reference_key(a, b, start, end),
{
    let mut s = String::new();
    push_decimal(&mut s, a);
    crate::text::push_char(&mut s, ':');
    push_decimal(&mut s, b);
    crate::text::push_char(&mut s, ':');
    push_decimal(&mut s, start as u64);
    crate::text::push_char(&mut s, '-');
    push_decimal(&mut s, end as u64);
    assert(s@ =~= reference_key(a, b, start, end));
    s
}

} // verus!
