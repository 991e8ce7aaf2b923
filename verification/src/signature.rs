//! Method signatures as plain values: each parameter's name, kind and position.

use vstd::prelude::*;
use crate::graph::Graph;
use crate::model::{Definition, DefinitionKind, Parameter};
use crate::offset::Offset;

verus! {

/// The kind of a parameter, as exposed to foreign callers.
#[derive(Clone, Copy, Debug, PartialEq, Eq, Structural)]
pub enum ParameterKind {
    RequiredPositional,
    OptionalPositional,
    RestPositional,
    Post,
    RequiredKeyword,
    OptionalKeyword,
    RestKeyword,
    Forward,
    Block,
}

impl ParameterKind {
    /// The numeric code of the kind in the foreign interface.
    pub open spec fn code_spec(self) -> u32 {
        match self {
            ParameterKind::RequiredPositional => 0,
            ParameterKind::OptionalPositional => 1,
            ParameterKind::RestPositional => 2,
            ParameterKind::Post => 3,
            ParameterKind::RequiredKeyword => 4,
            ParameterKind::OptionalKeyword => 5,
            ParameterKind::RestKeyword => 6,
            ParameterKind::Forward => 7,
            ParameterKind::Block => 8,
        }
    }

    /// The numeric code of the kind in the foreign interface.
    pub fn code(self) -> (c: u32)
        ensures
            c == self.code_spec(),
    {
        match self {
            ParameterKind::RequiredPositional => 0,
            ParameterKind::OptionalPositional => 1,
            ParameterKind::RestPositional => 2,
            ParameterKind::Post => 3,
            ParameterKind::RequiredKeyword => 4,
            ParameterKind::OptionalKeyword => 5,
            ParameterKind::RestKeyword => 6,
            ParameterKind::Forward => 7,
            ParameterKind::Block => 8,
        }
    }
}

/// The kind of a parameter.
pub open spec fn parameter_kind(param: Parameter) -> ParameterKind {
    match param {
        Parameter::RequiredPositional(_) => ParameterKind::RequiredPositional,
        Parameter::Post(_) => ParameterKind::Post,
        Parameter::OptionalPositional(_) => ParameterKind::OptionalPositional,
        Parameter::RestPositional(_) => ParameterKind::RestPositional,
        Parameter::RequiredKeyword(_) => ParameterKind::RequiredKeyword,
        Parameter::OptionalKeyword(_) => ParameterKind::OptionalKeyword,
        Parameter::RestKeyword(_) => ParameterKind::RestKeyword,
        Parameter::Block(_) => ParameterKind::Block,
        Parameter::Forward(_) => ParameterKind::Forward,
    }
}

/// The kind of `param`.
pub fn map_parameter_kind(param: &Parameter) -> (k: ParameterKind)
    ensures
        k == parameter_kind(*param),
{
    match param {
        Parameter::RequiredPositional(_) => ParameterKind::RequiredPositional,
        Parameter::Post(_) => ParameterKind::Post,
        Parameter::OptionalPositional(_) => ParameterKind::OptionalPositional,
        Parameter::RestPositional(_) => ParameterKind::RestPositional,
        Parameter::RequiredKeyword(_) => ParameterKind::RequiredKeyword,
        Parameter::OptionalKeyword(_) => ParameterKind::OptionalKeyword,
        Parameter::RestKeyword(_) => ParameterKind::RestKeyword,
        Parameter::Block(_) => ParameterKind::Block,
        Parameter::Forward(_) => ParameterKind::Forward,
    }
}

/// One parameter of a signature: its name, kind and position.
#[derive(Debug)]
pub struct ParameterEntry {
    pub name: String,
    pub kind: ParameterKind,
    pub offset: Offset,
}

/// The signatures of a method definition.
pub open spec fn method_signatures(def: &Definition) -> Seq<Vec<Parameter>> {
    match def.kind {
        DefinitionKind::Method { signatures, .. } => signatures@,
        _ => Seq::empty(),
    }
}

/// Whether the graph holds the document of method definition `def` and every parameter name.
pub open spec fn signatures_resolvable(graph: &Graph, def: &Definition) -> bool {
    &&& def.kind is Method
    &&& graph.docs().contains_key(def.uri_id.value)
    &&& forall|i: int, j: int| 0 <= i < method_signatures(def).len() && 0 <= j < method_signatures(def)[i]@.len()
        ==> graph.strs().contains_key((#[trigger] method_signatures(def)[i]@[j]).inner_spec().str.value)
}

/// Whether `entry` describes `param` of a method in `graph`.
pub open spec fn describes(graph: &Graph, entry: ParameterEntry, param: Parameter) -> bool {
    &&& entry.name@ == graph.strs()[param.inner_spec().str.value]@
    &&& entry.kind == parameter_kind(param)
    &&& entry.offset == param.inner_spec().offset
}

/// The parameters of every signature of the method definition `method_def`: each parameter's
/// name (from the graph's strings), kind and position, in order.
pub fn collect_method_signatures(graph: &Graph, method_def: &Definition) -> (r: Vec<Vec<ParameterEntry>>)
    requires
        signatures_resolvable(graph, method_def),
    ensures
        r@.len() == method_signatures(method_def).len(),
        forall|i: int| 0 <= i < r@.len() ==> (#[trigger] r@[i])@.len() == method_signatures(method_def)[i]@.len(),
        forall|i: int, j: int| 0 <= i < r@.len() && 0 <= j < r@[i]@.len()
            ==> describes(graph, #[trigger] r@[i]@[j], method_signatures(method_def)[i]@[j]),
{
    let signatures = match &method_def.kind {
        DefinitionKind::Method { signatures, .. } => signatures,
        _ => {
            return Vec::new();
        },
    };
    let mut r: Vec<Vec<ParameterEntry>> = Vec::new();
    let mut i: usize = 0;
    while i < signatures.len()
        invariant
            i <= signatures@.len(),
            signatures@ == method_signatures(method_def),
            signatures_resolvable(graph, method_def),
            r@.len() == i,
            forall|k: int| 0 <= k < i ==> (#[trigger] r@[k])@.len() == signatures@[k]@.len(),
            forall|k: int, j: int| 0 <= k < i && 0 <= j < r@[k]@.len()
                ==> describes(graph, #[trigger] r@[k]@[j], signatures@[k]@[j]),
        decreases signatures@.len() - i,
    {
        let signature = &signatures[i];
        let mut entries: Vec<ParameterEntry> = Vec::new();
        let mut j: usize = 0;
        while j < signature.len()
            invariant
                j <= signature@.len(),
                *signature == signatures@[i as int],
                signatures@ == method_signatures(method_def),
                signatures_resolvable(graph, method_def),
                i < signatures@.len(),
                entries@.len() == j,
                forall|k: int| 0 <= k < j ==> describes(graph, #[trigger] entries@[k], signature@[k]),
            decreases signature@.len() - j,
        {
            let param = &signature[j];
            let param_struct = param.inner();
            assert(graph.strs().contains_key(method_signatures(method_def)[i as int]@[j as int].inner_spec().str.value));
            let name = match graph.string(param_struct.str) {
                Some(s) => s.clone(),
                None => {
                    return Vec::new();
                },
            };
            entries.push(ParameterEntry { name, kind: map_parameter_kind(param), offset: param_struct.offset });
            j = j + 1;
        }
        let ghost before = r@;
        r.push(entries);
        proof {
            assert forall|k: int, j2: int| 0 <= k < i + 1 && 0 <= j2 < r@[k]@.len()
                implies describes(graph, #[trigger] r@[k]@[j2], signatures@[k]@[j2]) by {
                if k < i {
                    assert(r@[k] == before[k]);
                }
            }
        }
        i = i + 1;
    }
    r
}

} // verus!
