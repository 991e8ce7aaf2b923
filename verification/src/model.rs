//! The entities of the graph: documents, definitions, declarations and diagnostics.

use vstd::prelude::*;
use crate::ids::{ConstantReferenceId, DeclarationId, DefinitionId, NameId, StringId, UriId};
use crate::offset::Offset;

verus! {

/// The visibility of a method.
#[derive(Clone, Copy, Debug, PartialEq, Eq, Structural)]
pub enum Visibility {
    Public,
    Private,
    Protected,
    /// `module_function`: a private instance method plus a public singleton copy.
    ModuleFunction,
}

/// The name and position of a method parameter.
#[derive(Clone, Copy, Debug, PartialEq, Eq, Structural)]
pub struct ParameterStruct {
    pub offset: Offset,
    pub str: StringId,
}

impl ParameterStruct {
    pub fn new(offset: Offset, str: StringId) -> (p: Self)
        ensures
            p.offset == offset,
            p.str == str,
    {
        ParameterStruct { offset, str }
    }
}

/// A method parameter.
#[derive(Clone, Copy, Debug, PartialEq, Eq, Structural)]
pub enum Parameter {
    RequiredPositional(ParameterStruct),
    OptionalPositional(ParameterStruct),
    RestPositional(ParameterStruct),
    Post(ParameterStruct),
    RequiredKeyword(ParameterStruct),
    OptionalKeyword(ParameterStruct),
    RestKeyword(ParameterStruct),
    Forward(ParameterStruct),
    Block(ParameterStruct),
}

impl Parameter {
    pub open spec fn inner_spec(&self) -> ParameterStruct {
        match self {
            Parameter::RequiredPositional(p) => *p,
            Parameter::OptionalPositional(p) => *p,
            Parameter::RestPositional(p) => *p,
            Parameter::Post(p) => *p,
            Parameter::RequiredKeyword(p) => *p,
            Parameter::OptionalKeyword(p) => *p,
            Parameter::RestKeyword(p) => *p,
            Parameter::Forward(p) => *p,
            Parameter::Block(p) => *p,
        }
    }

    /// The name and position of the parameter.
    pub fn inner(&self) -> (p: ParameterStruct)
        ensures
            p == self.inner_spec(),
    {
        match self {
            Parameter::RequiredPositional(p) => *p,
            Parameter::OptionalPositional(p) => *p,
            Parameter::RestPositional(p) => *p,
            Parameter::Post(p) => *p,
            Parameter::RequiredKeyword(p) => *p,
            Parameter::OptionalKeyword(p) => *p,
            Parameter::RestKeyword(p) => *p,
            Parameter::Forward(p) => *p,
            Parameter::Block(p) => *p,
        }
    }
}

/// A mixin operation inside a namespace body.
#[derive(Clone, Copy, Debug, PartialEq, Eq, Structural)]
pub enum Mixin {
    Include(ConstantReferenceId),
    Prepend(ConstantReferenceId),
    Extend(ConstantReferenceId),
}

impl Mixin {
    pub open spec fn reference_spec(&self) -> ConstantReferenceId {
        match self {
            Mixin::Include(r) => *r,
            Mixin::Prepend(r) => *r,
            Mixin::Extend(r) => *r,
        }
    }

    /// The reference to the mixed-in constant.
    pub fn constant_reference_id(&self) -> (r: ConstantReferenceId)
        ensures
            r == self.reference_spec(),
    {
        match self {
            Mixin::Include(r) => *r,
            Mixin::Prepend(r) => *r,
            Mixin::Extend(r) => *r,
        }
    }
}

/// The explicit receiver of a method definition (`def self.foo` or `def Foo.foo`).
#[derive(Clone, Copy, Debug, PartialEq, Eq, Structural)]
pub enum Receiver {
    /// `self`, inside the namespace definition given.
    SelfReceiver(DefinitionId),
    /// A constant.
    ConstantReceiver(NameId),
}

/// Flags of a definition.
#[derive(Clone, Copy, Debug, PartialEq, Eq, Structural)]
pub struct DefinitionFlags {
    /// The definition was generated by the analysis, not written in the source.
    pub generated: bool,
    /// A visibility operation on singleton methods (`private_class_method :foo`).
    pub singleton_method_visibility: bool,
}

/// What a definition defines, with the data of its kind.
#[derive(Debug)]
pub enum DefinitionKind {
    Class { members: Vec<DefinitionId>, superclass_ref: Option<ConstantReferenceId>, mixins: Vec<Mixin> },
    SingletonClass { members: Vec<DefinitionId>, mixins: Vec<Mixin> },
    Module { members: Vec<DefinitionId>, mixins: Vec<Mixin> },
    Constant { str_id: StringId },
    Method { str_id: StringId, visibility: Visibility, receiver: Option<Receiver>, signatures: Vec<Vec<Parameter>> },
    AttrAccessor { str_id: StringId, visibility: Visibility },
    AttrReader { str_id: StringId, visibility: Visibility },
    AttrWriter { str_id: StringId, visibility: Visibility },
    MethodAlias { new_name_str_id: StringId, old_name_str_id: StringId },
    MethodVisibility { str_id: StringId, visibility: Visibility },
}

/// A comment written just before a definition: where it stands and its text.
#[derive(Debug)]
pub struct Comment {
    pub offset: Offset,
    pub text: String,
}

/// The position and text of each comment of a list.
pub open spec fn comment_views(comments: Seq<Comment>) -> Seq<(Offset, Seq<char>)> {
    comments.map_values(|c: Comment| (c.offset, c.text@))
}

/// A copy of a list of comments, each with the same position and text.
pub fn copy_comments(comments: &Vec<Comment>) -> (r: Vec<Comment>)
    ensures
        comment_views(r@) == comment_views(comments@),
{
    let mut r: Vec<Comment> = Vec::new();
    let mut i: usize = 0;
    while i < comments.len()
        invariant
            i <= comments@.len(),
            r@.len() == i,
            forall|k: int| 0 <= k < i ==> (#[trigger] r@[k]).offset == comments@[k].offset && r@[k].text@ == comments@[k].text@,
        decreases comments@.len() - i,
    {
        let c = &comments[i];
        let text = c.text.clone();
        r.push(Comment { offset: c.offset, text });
        i = i + 1;
    }
    assert(comment_views(r@) =~= comment_views(comments@));
    r
}

/// One place in the source that defines something.
#[derive(Debug)]
pub struct Definition {
    pub id: DefinitionId,
    pub uri_id: UriId,
    pub offset: Offset,
    pub lexical_nesting_id: Option<DefinitionId>,
    pub comments: Vec<Comment>,
    pub flags: DefinitionFlags,
    pub kind: DefinitionKind,
}

/// The name of a definition kind, as shown to users.
pub open spec fn definition_kind_name(kind: &DefinitionKind) -> Seq<char> {
    match kind {
        DefinitionKind::Class { .. } => "Class"@,
        DefinitionKind::SingletonClass { .. } => "SingletonClass"@,
        DefinitionKind::Module { .. } => "Module"@,
        DefinitionKind::Constant { .. } => "Constant"@,
        DefinitionKind::Method { .. } => "Method"@,
        DefinitionKind::AttrAccessor { .. } => "AttrAccessor"@,
        DefinitionKind::AttrReader { .. } => "AttrReader"@,
        DefinitionKind::AttrWriter { .. } => "AttrWriter"@,
        DefinitionKind::MethodAlias { .. } => "MethodAlias"@,
        DefinitionKind::MethodVisibility { .. } => "MethodVisibility"@,
    }
}

impl Definition {
    pub open spec fn is_method_visibility(&self) -> bool {
        self.kind is MethodVisibility
    }

    /// The name of this definition's kind.
    pub fn kind_name(&self) -> (s: &'static str)
        ensures
            s@ == definition_kind_name(&self.kind),
    {
        match &self.kind {
            DefinitionKind::Class { .. } => "Class",
            DefinitionKind::SingletonClass { .. } => "SingletonClass",
            DefinitionKind::Module { .. } => "Module",
            DefinitionKind::Constant { .. } => "Constant",
            DefinitionKind::Method { .. } => "Method",
            DefinitionKind::AttrAccessor { .. } => "AttrAccessor",
            DefinitionKind::AttrReader { .. } => "AttrReader",
            DefinitionKind::AttrWriter { .. } => "AttrWriter",
            DefinitionKind::MethodAlias { .. } => "MethodAlias",
            DefinitionKind::MethodVisibility { .. } => "MethodVisibility",
        }
    }

    /// The visibility that this definition gives its method, if it gives one: methods,
    /// attribute methods and visibility operations do; `module_function` makes the instance
    /// method private.
    pub open spec fn effective_visibility(&self) -> Option<Visibility> {
        let v = match self.kind {
            DefinitionKind::Method { visibility, .. } => Some(visibility),
            DefinitionKind::AttrAccessor { visibility, .. } => Some(visibility),
            DefinitionKind::AttrReader { visibility, .. } => Some(visibility),
            DefinitionKind::AttrWriter { visibility, .. } => Some(visibility),
            DefinitionKind::MethodVisibility { visibility, .. } => Some(visibility),
            _ => None,
        };
        match v {
            Some(Visibility::ModuleFunction) => Some(Visibility::Private),
            _ => v,
        }
    }

    /// The visibility that this definition gives its method, if it gives one.
    pub fn method_effective_visibility(&self) -> (r: Option<Visibility>)
        ensures
            r == self.effective_visibility(),
    {
        let v = match &self.kind {
            DefinitionKind::Method { visibility, .. } => Some(*visibility),
            DefinitionKind::AttrAccessor { visibility, .. } => Some(*visibility),
            DefinitionKind::AttrReader { visibility, .. } => Some(*visibility),
            DefinitionKind::AttrWriter { visibility, .. } => Some(*visibility),
            DefinitionKind::MethodVisibility { visibility, .. } => Some(*visibility),
            _ => None,
        };
        match v {
            Some(Visibility::ModuleFunction) => Some(Visibility::Private),
            _ => v,
        }
    }

    /// Whether this definition makes a method exist: a method, an attribute method or an alias.
    pub open spec fn establishes_member(&self) -> bool {
        ||| self.kind is Method
        ||| self.kind is AttrAccessor
        ||| self.kind is AttrReader
        ||| self.kind is AttrWriter
        ||| self.kind is MethodAlias
    }

    /// Whether this definition makes a method exist.
    pub fn establishes_method_member(&self) -> (r: bool)
        ensures
            r == self.establishes_member(),
    {
        match &self.kind {
            DefinitionKind::Method { .. } | DefinitionKind::AttrAccessor { .. } | DefinitionKind::AttrReader { .. }
            | DefinitionKind::AttrWriter { .. } | DefinitionKind::MethodAlias { .. } => true,
            _ => false,
        }
    }

    /// Whether this definition has a method body that `module_function` can copy: a method or an
    /// attribute method.
    pub open spec fn copyable_body(&self) -> bool {
        ||| self.kind is Method
        ||| self.kind is AttrAccessor
        ||| self.kind is AttrReader
        ||| self.kind is AttrWriter
    }

    /// Whether this definition has a method body that `module_function` can copy.
    pub fn is_copyable_method_body(&self) -> (r: bool)
        ensures
            r == self.copyable_body(),
    {
        match &self.kind {
            DefinitionKind::Method { .. } | DefinitionKind::AttrAccessor { .. } | DefinitionKind::AttrReader { .. }
            | DefinitionKind::AttrWriter { .. } => true,
            _ => false,
        }
    }

    /// Whether this is a visibility operation (`private :foo` and the like).
    pub fn is_method_visibility_exec(&self) -> (r: bool)
        ensures
            r == self.is_method_visibility(),
    {
        match &self.kind {
            DefinitionKind::MethodVisibility { .. } => true,
            _ => false,
        }
    }
}

/// What a declaration declares.
#[derive(Clone, Copy, Debug, PartialEq, Eq, Structural)]
pub enum DeclarationKind {
    Class,
    SingletonClass,
    Module,
    Constant,
    Method,
}

/// The name of a declaration kind, as shown to users.
pub open spec fn declaration_kind_name(kind: DeclarationKind) -> Seq<char> {
    match kind {
        DeclarationKind::Class => "Class"@,
        DeclarationKind::SingletonClass => "SingletonClass"@,
        DeclarationKind::Module => "Module"@,
        DeclarationKind::Constant => "Constant"@,
        DeclarationKind::Method => "Method"@,
    }
}

/// One entry of a namespace's ancestor chain.
#[derive(Clone, Copy, Debug, PartialEq, Eq, Structural)]
pub enum Ancestor {
    /// A resolved ancestor.
    Complete(DeclarationId),
    /// An ancestor whose constant is not resolved yet.
    Partial(NameId),
}

/// The rule a diagnostic reports.
#[derive(Clone, Copy, Debug, PartialEq, Eq, Structural)]
pub enum Rule {
    /// A visibility operation names a method that does not exist at that point.
    UndefinedMethodVisibilityTarget,
    /// Any other rule.
    Other,
}

/// A problem found in the source.
#[derive(Debug)]
pub struct Diagnostic {
    pub rule: Rule,
    pub uri_id: UriId,
    pub offset: Offset,
    pub message: String,
}

impl Diagnostic {
    pub fn new(rule: Rule, uri_id: UriId, offset: Offset, message: String) -> (d: Self)
        ensures
            d.rule == rule,
            d.uri_id == uri_id,
            d.offset == offset,
            d.message@ == message@,
    {
        Diagnostic { rule, uri_id, offset, message }
    }
}

/// The global concept that one or more definitions contribute to.
#[derive(Debug)]
pub struct Declaration {
    pub name: String,
    pub kind: DeclarationKind,
    pub owner_id: DeclarationId,
    /// The definitions of this declaration, in effect order.
    pub definitions: Vec<DefinitionId>,
    pub diagnostics: Vec<Diagnostic>,
    /// For namespaces: members by name.
    pub members: Vec<(StringId, DeclarationId)>,
    /// For namespaces: the linearized ancestor chain, starting with the namespace itself.
    pub ancestors: Vec<Ancestor>,
    /// For namespaces: the namespaces that have this one among their ancestors.
    pub descendants: Vec<DeclarationId>,
}

impl Declaration {
    pub open spec fn is_namespace(&self) -> bool {
        self.kind == DeclarationKind::Class || self.kind == DeclarationKind::SingletonClass
            || self.kind == DeclarationKind::Module
    }

    /// A new declaration without definitions, members or ancestors.
    pub fn new(name: String, kind: DeclarationKind, owner_id: DeclarationId) -> (d: Self)
        ensures
            d.name@ == name@,
            d.kind == kind,
            d.owner_id == owner_id,
            d.definitions@ == Seq::<DefinitionId>::empty(),
            d.diagnostics@.len() == 0,
            d.members@ == Seq::<(StringId, DeclarationId)>::empty(),
            d.ancestors@ == Seq::<Ancestor>::empty(),
            d.descendants@ == Seq::<DeclarationId>::empty(),
    {
        Declaration {
            name,
            kind,
            owner_id,
            definitions: Vec::new(),
            diagnostics: Vec::new(),
            members: Vec::new(),
            ancestors: Vec::new(),
            descendants: Vec::new(),
        }
    }

    /// Whether this declaration is a class, module or singleton class.
    pub fn is_namespace_exec(&self) -> (r: bool)
        ensures
            r == self.is_namespace(),
    {
        match self.kind {
            DeclarationKind::Class | DeclarationKind::SingletonClass | DeclarationKind::Module => true,
            _ => false,
        }
    }

    /// The name of this declaration's kind.
    pub fn kind_name(&self) -> (s: &'static str)
        ensures
            s@ == declaration_kind_name(self.kind),
    {
        match self.kind {
            DeclarationKind::Class => "Class",
            DeclarationKind::SingletonClass => "SingletonClass",
            DeclarationKind::Module => "Module",
            DeclarationKind::Constant => "Constant",
            DeclarationKind::Method => "Method",
        }
    }
}

/// A source file.
#[derive(Debug)]
pub struct Document {
    pub uri: String,
    /// The definitions found in this document, in source order.
    pub definitions: Vec<DefinitionId>,
    pub diagnostics: Vec<Diagnostic>,
}

/// A unit of resolution work.
#[derive(Clone, Copy, Debug, PartialEq, Eq, Structural)]
pub enum Unit {
    /// Resolve the definition again.
    Definition(DefinitionId),
}

} // verus!
