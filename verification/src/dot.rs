//! Graphviz DOT rendering of the graph: documents, the definitions they hold, the declarations
//! those definitions contribute to, and the edges between them.

use std::collections::HashSet;
use vstd::prelude::*;
use crate::graph::Graph;
use crate::ids::{ConstantReferenceId, DeclarationId, DefinitionId, UriId};
use crate::model::{declaration_kind_name, definition_kind_name, Declaration, Definition, DefinitionKind, Document, Mixin};
use crate::text::{chars_of, decimal, push_char, push_decimal, push_str, sort_by_text_key, text_equal, text_le};

verus! {

broadcast use vstd::std_specs::hash::group_hash_axioms;

/// The URI of the document that holds the built-in declarations.
pub open spec fn built_in_uri() -> Seq<char> {
    "rubydex:built-in"@
}

/// The characters of the texts in `parts`, one after the other.
pub open spec fn concat(parts: Seq<Seq<char>>) -> Seq<char>
    decreases parts.len(),
{
    if parts.len() == 0 {
        Seq::empty()
    } else {
        concat(parts.drop_last()) + parts.last()
    }
}

/// A character in HTML text: `&`, `<` and `>` become entities.
pub open spec fn escape_char(c: char) -> Seq<char> {
    if c == '&' {
        "&amp;"@
    } else if c == '<' {
        "&lt;"@
    } else if c == '>' {
        "&gt;"@
    } else {
        seq![c]
    }
}

/// A text escaped for an HTML label.
pub open spec fn html_escaped(s: Seq<char>) -> Seq<char>
    decreases s.len(),
{
    if s.len() == 0 {
        Seq::empty()
    } else {
        html_escaped(s.drop_last()) + escape_char(s.last())
    }
}

/// Whether `char::is_alphanumeric` holds of `c` (Unicode's Alphabetic or Numeric property).
pub uninterp spec fn char_is_alphanumeric(c: char) -> bool;

/// Whether `c` is an ASCII letter or digit.
pub open spec fn ascii_alphanumeric(c: char) -> bool {
    ('a' <= c && c <= 'z') || ('A' <= c && c <= 'Z') || ('0' <= c && c <= '9')
}

/// A text with every character that is not alphanumeric replaced by `_`.
pub open spec fn sanitized(s: Seq<char>) -> Seq<char> {
    s.map_values(|c: char| if char_is_alphanumeric(c) { c } else { '_' })
}

/// The part of a text after its last `/`; the whole text when it holds no `/`.
pub open spec fn after_last_slash(s: Seq<char>) -> Seq<char>
    decreases s.len(),
{
    if s.len() == 0 {
        s
    } else if s.last() == '/' {
        Seq::empty()
    } else {
        after_last_slash(s.drop_last()).push(s.last())
    }
}

/// The HTML label of a node: a small colored type line above the escaped name in bold.
pub open spec fn label_text(kind_label: Seq<char>, name: Seq<char>, color: Seq<char>) -> Seq<char> {
    "<<table border=\"0\" cellborder=\"0\" cellspacing=\"0\" align=\"center\"><tr><td align=\"center\"><font point-size=\"8\" color=\""@
        + color + "\">"@ + kind_label + "</font></td></tr><tr><td align=\"center\"><b>"@ + html_escaped(name)
        + "</b></td></tr></table>>"@
}

/// The node identifier of the document with URI `uri`.
pub open spec fn doc_node_text(uri: Seq<char>) -> Seq<char> {
    "\"doc_"@ + sanitized(uri) + "\""@
}

/// The node identifier of the declaration named `name`.
pub open spec fn decl_node_text(name: Seq<char>) -> Seq<char> {
    "\"decl_"@ + sanitized(name) + "\""@
}

/// The node identifier of the definition `id`.
pub open spec fn def_node_text(id: u64) -> Seq<char> {
    "\"def_"@ + decimal(id as nat) + "\""@
}

/// Whether `c` is `char::is_alphanumeric`: it has Unicode's Alphabetic property or a number
/// category. Among ASCII characters that holds of the letters and the digits and of nothing else.
#[verifier::external_body]
fn is_alphanumeric(c: char) -> (r: bool)
    ensures
        r == char_is_alphanumeric(c),
        ascii_alphanumeric(c) ==> r,
        (c as u32) < 128 && !ascii_alphanumeric(c) ==> !r,
{
    c.is_alphanumeric()
}

/// Appends `s`, escaped for HTML, to `out`.
fn push_escaped(out: &mut String, s: &str)
    ensures
        final(out)@ == old(out)@ + html_escaped(s@),
{
    let chars = chars_of(s);
    let mut i: usize = 0;
    while i < chars.len()
        invariant
            i <= chars@.len(),
            chars@ == s@,
            out@ == old(out)@ + html_escaped(chars@.take(i as int)),
        decreases chars@.len() - i,
    {
        let c = chars[i];
        assert(chars@.take(i + 1).drop_last() =~= chars@.take(i as int));
        if c == '&' {
            push_str(out, "&amp;");
        } else if c == '<' {
            push_str(out, "&lt;");
        } else if c == '>' {
            push_str(out, "&gt;");
        } else {
            push_char(out, c);
            assert(old(out)@ + html_escaped(chars@.take(i as int)) + seq![c]
                =~= old(out)@ + html_escaped(chars@.take(i as int)).push(c));
        }
        assert(out@ =~= old(out)@ + html_escaped(chars@.take(i + 1)));
        i = i + 1;
    }
    assert(chars@.take(i as int) =~= s@);
}

/// Appends `s` with every character that is not alphanumeric replaced by `_`.
fn push_sanitized(out: &mut String, s: &str)
    ensures
        final(out)@ == old(out)@ + sanitized(s@),
{
    let chars = chars_of(s);
    let mut i: usize = 0;
    while i < chars.len()
        invariant
            i <= chars@.len(),
            chars@ == s@,
            out@ == old(out)@ + sanitized(chars@.take(i as int)),
        decreases chars@.len() - i,
    {
        let c = chars[i];
        if is_alphanumeric(c) {
            push_char(out, c);
        } else {
            push_char(out, '_');
        }
        assert(sanitized(chars@.take(i + 1)) =~= sanitized(chars@.take(i as int)).push(
            if char_is_alphanumeric(c) { c } else { '_' },
        ));
        assert(out@ =~= old(out)@ + sanitized(chars@.take(i + 1)));
        i = i + 1;
    }
    assert(chars@.take(i as int) =~= s@);
}

/// Appends the part of `s` after its last `/` (all of `s` when it holds no `/`).
fn push_after_last_slash(out: &mut String, s: &str)
    ensures
        final(out)@ == old(out)@ + after_last_slash(s@),
{
    let chars = chars_of(s);
    let mut start: usize = 0;
    let mut i: usize = 0;
    while i < chars.len()
        invariant
            start <= i <= chars@.len(),
            chars@ == s@,
            after_last_slash(chars@.take(i as int)) == chars@.subrange(start as int, i as int),
        decreases chars@.len() - i,
    {
        assert(chars@.take(i + 1).drop_last() =~= chars@.take(i as int));
        if chars[i] == '/' {
            start = i + 1;
            assert(chars@.subrange(start as int, i + 1) =~= Seq::<char>::empty());
        } else {
            assert(chars@.subrange(start as int, i + 1) =~= chars@.subrange(start as int, i as int).push(chars@[i as int]));
        }
        i = i + 1;
    }
    assert(chars@.take(i as int) =~= s@);
    let mut j: usize = start;
    while j < chars.len()
        invariant
            start <= j <= chars@.len(),
            out@ == old(out)@ + chars@.subrange(start as int, j as int),
        decreases chars@.len() - j,
    {
        push_char(out, chars[j]);
        assert(chars@.subrange(start as int, j + 1) =~= chars@.subrange(start as int, j as int).push(chars@[j as int]));
        assert(out@ =~= old(out)@ + chars@.subrange(start as int, j + 1));
        j = j + 1;
    }
}

/// Appends the HTML label of a node.
fn push_label(out: &mut String, kind_label: &str, kind_suffix: &str, name: &str, color: &str)
    ensures
        final(out)@ == old(out)@ + label_text(kind_label@ + kind_suffix@, name@, color@),
{
    push_str(out, "<<table border=\"0\" cellborder=\"0\" cellspacing=\"0\" align=\"center\"><tr><td align=\"center\"><font point-size=\"8\" color=\"");
    push_str(out, color);
    push_str(out, "\">");
    push_str(out, kind_label);
    push_str(out, kind_suffix);
    push_str(out, "</font></td></tr><tr><td align=\"center\"><b>");
    push_escaped(out, name);
    push_str(out, "</b></td></tr></table>>");
    assert(out@ =~= old(out)@ + label_text(kind_label@ + kind_suffix@, name@, color@));
}

/// The node of the document with URI `uri`.
pub open spec fn doc_line(uri: Seq<char>) -> Seq<char> {
    "  "@ + doc_node_text(uri) + " [label="@ + label_text("Document"@, after_last_slash(uri), "#4a90d9"@)
        + " shape=note color=\"#4a90d9\" fillcolor=\"#dce8f5\" style=filled]\n"@
}

/// The node of definition `id`, of kind `kind`, contributing to the declaration named `name`.
pub open spec fn def_line(id: u64, kind: Seq<char>, name: Seq<char>) -> Seq<char> {
    "  "@ + def_node_text(id) + " [label="@ + label_text(kind + "Def"@, name, "#e8912d"@)
        + " style=rounded color=\"#e8912d\" fillcolor=\"#fdf0e0\" style=\"rounded,filled\"]\n"@
}

/// The node of the declaration named `name`, of kind `kind`.
pub open spec fn decl_line(kind: Seq<char>, name: Seq<char>) -> Seq<char> {
    "  "@ + decl_node_text(name) + " [label="@ + label_text(kind + "Decl"@, name, "#5ba55b"@)
        + " color=\"#5ba55b\" fillcolor=\"#e0f0e0\" style=filled]\n"@
}

/// Whether definition `id` contributes to a declaration that `g` holds.
pub open spec fn declared(g: &Graph, id: u64) -> bool {
    g.def_decl().contains_key(id) && g.decls().contains_key(g.def_decl()[id].value)
}

/// The declaration that definition `id` contributes to.
pub open spec fn decl_of(g: &Graph, id: u64) -> Declaration {
    g.decls()[g.def_decl()[id].value]
}

/// Builds the DOT text of a graph.
pub struct DotBuilder<'a> {
    output: String,
    graph: &'a Graph,
}

impl<'a> DotBuilder<'a> {
    /// The text written so far.
    pub closed spec fn text(&self) -> Seq<char> {
        self.output@
    }

    /// The graph being rendered.
    pub closed spec fn source(&self) -> Graph {
        *self.graph
    }

    fn new(graph: &'a Graph) -> (b: Self)
        ensures
            b.text() == Seq::<char>::empty(),
            b.source() == *graph,
    {
        DotBuilder { output: String::new(), graph }
    }

    fn graph(&self) -> (g: &'a Graph)
        ensures
            *g == self.source(),
    {
        self.graph
    }

    fn writeln(&mut self, s: &str)
        ensures
            final(self).text() == old(self).text() + s@ + seq!['\n'],
            final(self).source() == old(self).source(),
    {
        push_str(&mut self.output, s);
        push_char(&mut self.output, '\n');
    }

    /// `s` escaped for an HTML label: `&`, `<` and `>` become entities.
    fn html_escape(s: &str) -> (r: String)
        ensures
            r@ == html_escaped(s@),
    {
        let mut r = String::new();
        push_escaped(&mut r, s);
        r
    }

    /// The HTML label of a node of type `kind_label` named `name`, in `color`.
    fn label(kind_label: &str, name: &str, color: &str) -> (r: String)
        ensures
            r@ == label_text(kind_label@, name@, color@),
    {
        let mut r = String::new();
        push_label(&mut r, kind_label, "", name, color);
        proof {
            reveal_strlit("");
            assert(kind_label@ + ""@ =~= kind_label@);
        }
        r
    }

    /// The node identifier of the document with URI `uri`.
    fn doc_node_id(uri: &str) -> (r: String)
        ensures
            r@ == doc_node_text(uri@),
    {
        let mut r = String::new();
        push_str(&mut r, "\"doc_");
        push_sanitized(&mut r, uri);
        push_str(&mut r, "\"");
        assert(r@ =~= doc_node_text(uri@));
        r
    }

    /// The node identifier of the declaration named `name`.
    fn decl_node_id(name: &str) -> (r: String)
        ensures
            r@ == decl_node_text(name@),
    {
        let mut r = String::new();
        push_str(&mut r, "\"decl_");
        push_sanitized(&mut r, name);
        push_str(&mut r, "\"");
        assert(r@ =~= decl_node_text(name@));
        r
    }
}

/// Appends the node identifier of definition `id`.
fn push_def_node(out: &mut String, id: DefinitionId)
    ensures
        final(out)@ == old(out)@ + def_node_text(id.value),
{
    push_str(out, "\"def_");
    push_decimal(out, id.value);
    push_str(out, "\"");
    assert(out@ =~= old(out)@ + def_node_text(id.value));
}

/// An entity of the graph that is drawn as a node.
pub trait ToDot {
    /// The DOT text of this entity's node in graph `g`.
    spec fn dot_node(&self, g: &Graph) -> Seq<char>;

    /// Appends this entity's node to `builder`.
    fn to_dot(&self, builder: &mut DotBuilder)
        ensures
            final(builder).text() == old(builder).text() + self.dot_node(&old(builder).source()),
            final(builder).source() == old(builder).source(),
    ;
}

impl ToDot for Document {
    open spec fn dot_node(&self, g: &Graph) -> Seq<char> {
        doc_line(self.uri@)
    }

    fn to_dot(&self, builder: &mut DotBuilder) {
        let uri = self.uri.as_str();
        let out = &mut builder.output;
        push_str(out, "  ");
        push_str(out, &DotBuilder::doc_node_id(uri));
        push_str(out, " [label=");
        let mut name = String::new();
        push_after_last_slash(&mut name, uri);
        push_str(out, &DotBuilder::label("Document", name.as_str(), "#4a90d9"));
        push_str(out, " shape=note color=\"#4a90d9\" fillcolor=\"#dce8f5\" style=filled]\n");
        assert(builder.output@ =~= old(builder).output@ + doc_line(self.uri@));
    }
}

impl ToDot for Definition {
    open spec fn dot_node(&self, g: &Graph) -> Seq<char> {
        if declared(g, self.id.value) {
            def_line(self.id.value, definition_kind_name(&self.kind), decl_of(g, self.id.value).name@)
        } else {
            Seq::empty()
        }
    }

    fn to_dot(&self, builder: &mut DotBuilder) {
        let graph = builder.graph();
        let decl_id = match graph.definition_id_to_declaration_id(self.id) {
            Some(d) => d,
            None => return,
        };
        let declaration = match graph.declaration(decl_id) {
            Some(d) => d,
            None => return,
        };
        let out = &mut builder.output;
        push_str(out, "  ");
        push_def_node(out, self.id);
        push_str(out, " [label=");
        push_label(out, self.kind_name(), "Def", declaration.name.as_str(), "#e8912d");
        push_str(out, " style=rounded color=\"#e8912d\" fillcolor=\"#fdf0e0\" style=\"rounded,filled\"]\n");
        assert(builder.output@ =~= old(builder).output@
            + def_line(self.id.value, definition_kind_name(&self.kind), declaration.name@));
    }
}

impl ToDot for Declaration {
    open spec fn dot_node(&self, g: &Graph) -> Seq<char> {
        decl_line(declaration_kind_name(self.kind), self.name@)
    }

    fn to_dot(&self, builder: &mut DotBuilder) {
        let name = self.name.as_str();
        let out = &mut builder.output;
        push_str(out, "  ");
        push_str(out, &DotBuilder::decl_node_id(name));
        push_str(out, " [label=");
        push_label(out, self.kind_name(), "Decl", name, "#5ba55b");
        push_str(out, " color=\"#5ba55b\" fillcolor=\"#e0f0e0\" style=filled]\n");
        assert(builder.output@ =~= old(builder).output@ + decl_line(declaration_kind_name(self.kind), self.name@));
    }
}

/// The `defines` edge from the document with URI `uri` to definition `id`.
pub open spec fn defines_edge(uri: Seq<char>, id: u64) -> Seq<char> {
    "  "@ + doc_node_text(uri) + " -> "@ + def_node_text(id) + " [label=\"defines\" color=\"#e8912d\" fontcolor=\"#e8912d\"]\n"@
}

/// The `declares` edge from definition `id` to the declaration named `name`.
pub open spec fn declares_edge(id: u64, name: Seq<char>) -> Seq<char> {
    "  "@ + def_node_text(id) + " -> "@ + decl_node_text(name) + " [label=\"declares\" color=\"#5ba55b\" fontcolor=\"#5ba55b\"]\n"@
}

/// The `contains` edge from namespace definition `parent` to its member definition `child`.
pub open spec fn contains_edge(parent: u64, child: u64) -> Seq<char> {
    "  "@ + def_node_text(parent) + " -> "@ + def_node_text(child)
        + " [label=\"contains\" style=dashed arrowhead=onormal color=\"#f0c08a\" fontcolor=\"#f0c08a\"]\n"@
}

/// An edge between the declarations named `from` and `to`, with the attributes `attrs`.
pub open spec fn decl_edge(from: Seq<char>, to: Seq<char>, attrs: Seq<char>) -> Seq<char> {
    "  "@ + decl_node_text(from) + " -> "@ + decl_node_text(to) + attrs
}

/// The attributes of an `inherits` edge.
pub open spec fn inherits_attrs() -> Seq<char> {
    " [label=\"inherits\" color=\"#d94a7a\" fontcolor=\"#d94a7a\"]\n"@
}

/// The label of a mixin edge.
pub open spec fn mixin_label(m: Mixin) -> Seq<char> {
    match m {
        Mixin::Include(_) => "includes"@,
        Mixin::Prepend(_) => "prepends"@,
        Mixin::Extend(_) => "extends"@,
    }
}

/// The attributes of a mixin edge.
pub open spec fn mixin_attrs(m: Mixin) -> Seq<char> {
    " [label=\""@ + mixin_label(m) + "\" color=\"#8b5fc7\" fontcolor=\"#8b5fc7\"]\n"@
}

/// The attributes of an `owns` edge.
pub open spec fn owns_attrs() -> Seq<char> {
    " [label=\"owns\" style=dashed arrowhead=onormal color=\"#a3d9a3\" fontcolor=\"#a3d9a3\"]\n"@
}

/// The member definitions of a namespace definition; none for other kinds.
pub open spec fn def_members(kind: &DefinitionKind) -> Seq<DefinitionId> {
    match kind {
        DefinitionKind::Class { members, .. } => members@,
        DefinitionKind::SingletonClass { members, .. } => members@,
        DefinitionKind::Module { members, .. } => members@,
        _ => Seq::empty(),
    }
}

/// The mixins of a namespace definition; none for other kinds.
pub open spec fn def_mixins(kind: &DefinitionKind) -> Seq<Mixin> {
    match kind {
        DefinitionKind::Class { mixins, .. } => mixins@,
        DefinitionKind::SingletonClass { mixins, .. } => mixins@,
        DefinitionKind::Module { mixins, .. } => mixins@,
        _ => Seq::empty(),
    }
}

/// The declaration that the constant reference `r` resolved to, if any.
pub open spec fn resolved(g: &Graph, r: u64) -> Option<DeclarationId> {
    if g.const_refs().contains_key(r) && g.names().contains_key(g.const_refs()[r].name_id_spec().value) {
        Some(g.names()[g.const_refs()[r].name_id_spec().value])
    } else {
        None
    }
}

/// Whether one of the documents `docs` lists definition `id`.
pub open spec fn listed(g: &Graph, docs: Seq<u64>, id: u64) -> bool {
    exists|i: int| 0 <= i < docs.len() && (#[trigger] g.docs()[docs[i]]).definitions@.contains(DefinitionId { value: id })
}

/// The nodes of the documents `docs`.
pub open spec fn doc_nodes(g: &Graph, docs: Seq<u64>) -> Seq<char>
    decreases docs.len(),
{
    if docs.len() == 0 {
        Seq::empty()
    } else {
        doc_nodes(g, docs.drop_last()) + g.docs()[docs.last()].dot_node(g)
    }
}

/// The nodes of the definitions `defs`.
pub open spec fn def_nodes(g: &Graph, defs: Seq<u64>) -> Seq<char>
    decreases defs.len(),
{
    if defs.len() == 0 {
        Seq::empty()
    } else {
        def_nodes(g, defs.drop_last()) + g.defs()[defs.last()].dot_node(g)
    }
}

/// The nodes of the declarations `decls`.
pub open spec fn decl_nodes(g: &Graph, decls: Seq<u64>) -> Seq<char>
    decreases decls.len(),
{
    if decls.len() == 0 {
        Seq::empty()
    } else {
        decl_nodes(g, decls.drop_last()) + g.decls()[decls.last()].dot_node(g)
    }
}

/// The `defines` edges from the document with URI `uri` to the definitions `ids`.
pub open spec fn defines_lines(uri: Seq<char>, ids: Seq<DefinitionId>) -> Seq<char>
    decreases ids.len(),
{
    if ids.len() == 0 {
        Seq::empty()
    } else {
        defines_lines(uri, ids.drop_last()) + defines_edge(uri, ids.last().value)
    }
}

/// The `defines` edges of the documents `docs`.
pub open spec fn defines_edges(g: &Graph, docs: Seq<u64>) -> Seq<char>
    decreases docs.len(),
{
    if docs.len() == 0 {
        Seq::empty()
    } else {
        defines_edges(g, docs.drop_last()) + defines_lines(g.docs()[docs.last()].uri@, g.docs()[docs.last()].definitions@)
    }
}

/// The `declares` edges of the definitions `defs`.
pub open spec fn declares_edges(g: &Graph, defs: Seq<u64>) -> Seq<char>
    decreases defs.len(),
{
    if defs.len() == 0 {
        Seq::empty()
    } else {
        declares_edges(g, defs.drop_last()) + declares_edge(defs.last(), decl_of(g, defs.last()).name@)
    }
}

/// The `contains` edges from definition `parent` to those of `children` that `docs` list.
pub open spec fn contains_lines(g: &Graph, docs: Seq<u64>, parent: u64, children: Seq<DefinitionId>) -> Seq<char>
    decreases children.len(),
{
    if children.len() == 0 {
        Seq::empty()
    } else {
        contains_lines(g, docs, parent, children.drop_last()) + if listed(g, docs, children.last().value) {
            contains_edge(parent, children.last().value)
        } else {
            Seq::empty()
        }
    }
}

/// The `contains` edges of the definitions `defs`.
pub open spec fn contains_edges(g: &Graph, docs: Seq<u64>, defs: Seq<u64>) -> Seq<char>
    decreases defs.len(),
{
    if defs.len() == 0 {
        Seq::empty()
    } else {
        contains_edges(g, docs, defs.drop_last()) + contains_lines(g, docs, defs.last(), def_members(&g.defs()[defs.last()].kind))
    }
}

/// The `inherits` edge of definition `id`, if its superclass resolved to one of `decls`.
pub open spec fn inherits_line(g: &Graph, decls: Seq<u64>, id: u64) -> Seq<char> {
    match g.defs()[id].kind {
        DefinitionKind::Class { superclass_ref: Some(r), .. } => match resolved(g, r.value) {
            Some(t) => if decls.contains(t.value) && g.decls().contains_key(t.value) {
                decl_edge(decl_of(g, id).name@, g.decls()[t.value].name@, inherits_attrs())
            } else {
                Seq::empty()
            },
            None => Seq::empty(),
        },
        _ => Seq::empty(),
    }
}

/// The `inherits` edges of the definitions `defs`.
pub open spec fn inherits_edges(g: &Graph, decls: Seq<u64>, defs: Seq<u64>) -> Seq<char>
    decreases defs.len(),
{
    if defs.len() == 0 {
        Seq::empty()
    } else {
        inherits_edges(g, decls, defs.drop_last()) + inherits_line(g, decls, defs.last())
    }
}

/// The mixin edges from the declaration named `from` for `mixins` that resolved to one of `decls`.
pub open spec fn mixin_lines(g: &Graph, decls: Seq<u64>, from: Seq<char>, mixins: Seq<Mixin>) -> Seq<char>
    decreases mixins.len(),
{
    if mixins.len() == 0 {
        Seq::empty()
    } else {
        let m = mixins.last();
        mixin_lines(g, decls, from, mixins.drop_last()) + match resolved(g, m.reference_spec().value) {
            Some(t) => if decls.contains(t.value) && g.decls().contains_key(t.value) {
                decl_edge(from, g.decls()[t.value].name@, mixin_attrs(m))
            } else {
                Seq::empty()
            },
            None => Seq::empty(),
        }
    }
}

/// The mixin edges of the definitions `defs`.
pub open spec fn mixin_edges(g: &Graph, decls: Seq<u64>, defs: Seq<u64>) -> Seq<char>
    decreases defs.len(),
{
    if defs.len() == 0 {
        Seq::empty()
    } else {
        mixin_edges(g, decls, defs.drop_last()) + mixin_lines(g, decls, decl_of(g, defs.last()).name@, def_mixins(&g.defs()[defs.last()].kind))
    }
}

/// The order of declaration identifiers.
pub open spec fn id_le(a: u64, b: u64) -> bool {
    a <= b
}

/// The members of declaration `k` that are among `decls`, in increasing identifier order.
pub open spec fn shown_members(g: &Graph, decls: Seq<u64>, k: u64) -> Seq<u64> {
    g.decls()[k].members@.map_values(|p: (crate::ids::StringId, DeclarationId)| p.1.value).filter(|v: u64| decls.contains(v)).sort_by(
        |a: u64, b: u64| id_le(a, b),
    )
}

/// The `owns` edges from the declaration named `from` to the declarations `members`.
pub open spec fn owns_lines(g: &Graph, from: Seq<char>, members: Seq<u64>) -> Seq<char>
    decreases members.len(),
{
    if members.len() == 0 {
        Seq::empty()
    } else {
        owns_lines(g, from, members.drop_last()) + if g.decls().contains_key(members.last()) {
            decl_edge(from, g.decls()[members.last()].name@, owns_attrs())
        } else {
            Seq::empty()
        }
    }
}

/// The `owns` edges of the declarations `decls`.
pub open spec fn owns_edges(g: &Graph, decls: Seq<u64>, shown: Seq<u64>) -> Seq<char>
    decreases decls.len(),
{
    if decls.len() == 0 {
        Seq::empty()
    } else {
        owns_edges(g, decls.drop_last(), shown) + if g.decls()[decls.last()].is_namespace() {
            owns_lines(g, g.decls()[decls.last()].name@, shown_members(g, shown, decls.last()))
        } else {
            Seq::empty()
        }
    }
}

/// The first lines: the graph's header and default attributes, then a blank line.
pub open spec fn header_text() -> Seq<char> {
    "digraph rubydex {"@ + seq!['\n'] + "  rankdir=TB"@ + seq!['\n'] + "  node [fontname=\"Courier\" fontsize=10 shape=box]"@
        + seq!['\n'] + "  edge [fontsize=9 fontname=\"Courier\"]"@ + seq!['\n'] + seq!['\n']
}

/// The whole DOT text, given the documents, definitions and declarations drawn, in order.
pub open spec fn dot_text(g: &Graph, docs: Seq<u64>, defs: Seq<u64>, decls: Seq<u64>) -> Seq<char> {
    header_text() + doc_nodes(g, docs) + seq!['\n'] + def_nodes(g, defs) + seq!['\n'] + decl_nodes(g, decls) + seq!['\n']
        + defines_edges(g, docs) + seq!['\n'] + declares_edges(g, defs) + seq!['\n'] + contains_edges(g, docs, defs)
        + seq!['\n'] + inherits_edges(g, decls, defs) + seq!['\n'] + mixin_edges(g, decls, defs) + seq!['\n']
        + owns_edges(g, decls, decls) + "}"@ + seq!['\n']
}

/// The key by which definitions are ordered: `Kind(Name)`.
pub open spec fn def_key(g: &Graph, id: u64) -> Seq<char> {
    definition_kind_name(&g.defs()[id].kind) + "("@ + decl_of(g, id).name@ + ")"@
}

/// Whether the DOT text draws document `k`: all documents, or all but the built-in one.
pub open spec fn doc_shown(g: &Graph, show_builtins: bool, k: u64) -> bool {
    g.docs().contains_key(k) && (show_builtins || g.docs()[k].uri@ != built_in_uri())
}

/// Whether the DOT text draws definition `k`: listed by a drawn document, and declared.
pub open spec fn def_shown(g: &Graph, docs: Seq<u64>, k: u64) -> bool {
    listed(g, docs, k) && g.defs().contains_key(k) && declared(g, k)
}

/// Whether the DOT text draws declaration `k`: one that a drawn definition contributes to.
pub open spec fn decl_shown(g: &Graph, defs: Seq<u64>, k: u64) -> bool {
    exists|i: int| 0 <= i < defs.len() && (#[trigger] g.def_decl()[defs[i]]).value == k
}

/// What the drawn documents, definitions and declarations are, each once, and their order:
/// documents by URI, definitions by `Kind(Name)`, declarations by name. Ties keep no
/// particular order.
pub open spec fn dot_layout(g: &Graph, show_builtins: bool, docs: Seq<u64>, defs: Seq<u64>, decls: Seq<u64>) -> bool {
    &&& docs.no_duplicates()
    &&& forall|k: u64| #[trigger] docs.contains(k) <==> doc_shown(g, show_builtins, k)
    &&& forall|i: int, j: int| 0 <= i < j < docs.len() ==> text_le(g.docs()[#[trigger] docs[i]].uri@, g.docs()[#[trigger] docs[j]].uri@)
    &&& defs.no_duplicates()
    &&& forall|k: u64| #[trigger] defs.contains(k) <==> def_shown(g, docs, k)
    &&& forall|i: int, j: int| 0 <= i < j < defs.len() ==> text_le(def_key(g, #[trigger] defs[i]), def_key(g, #[trigger] defs[j]))
    &&& decls.no_duplicates()
    &&& forall|k: u64| #[trigger] decls.contains(k) <==> decl_shown(g, defs, k)
    &&& forall|i: int, j: int| 0 <= i < j < decls.len() ==> text_le(g.decls()[#[trigger] decls[i]].name@, g.decls()[#[trigger] decls[j]].name@)
}

/// Whether `part` occurs in `text` as a run of consecutive characters.
pub open spec fn occurs_in(part: Seq<char>, text: Seq<char>) -> bool {
    exists|p: int| 0 <= p && p + part.len() <= text.len() && #[trigger] text.subrange(p, p + part.len()) == part
}

proof fn lemma_inherits_edges_prefix(g: &Graph, decls: Seq<u64>, defs: Seq<u64>, n: int)
    requires
        0 <= n <= defs.len(),
    ensures
        inherits_edges(g, decls, defs.take(n)).len() <= inherits_edges(g, decls, defs).len(),
        inherits_edges(g, decls, defs).subrange(0, inherits_edges(g, decls, defs.take(n)).len() as int)
            == inherits_edges(g, decls, defs.take(n)),
    decreases defs.len() - n,
{
    if n == defs.len() {
        assert(defs.take(n) =~= defs);
    } else {
        lemma_inherits_edges_prefix(g, decls, defs, n + 1);
        assert(defs.take(n + 1).drop_last() =~= defs.take(n));
        let a = inherits_edges(g, decls, defs.take(n));
        let b = inherits_edges(g, decls, defs.take(n + 1));
        let c = inherits_edges(g, decls, defs);
        assert(b == a + inherits_line(g, decls, defs[n]));
        assert(c.subrange(0, a.len() as int) =~= b.subrange(0, a.len() as int));
        assert(b.subrange(0, a.len() as int) =~= a);
    }
}

/// An `inherits` edge goes from the subclass to its superclass: for each drawn class definition
/// whose superclass resolved to a drawn declaration, the DOT text holds the edge from the node of
/// the definition's own declaration to the node of the superclass declaration.
pub proof fn lemma_inherits_edge_goes_to_superclass(
    g: &Graph,
    show_builtins: bool,
    docs: Seq<u64>,
    defs: Seq<u64>,
    decls: Seq<u64>,
    k: int,
    superclass: DeclarationId,
)
    requires
        dot_layout(g, show_builtins, docs, defs, decls),
        0 <= k < defs.len(),
        g.defs()[defs[k]].kind matches DefinitionKind::Class { superclass_ref: Some(r), .. }
            && resolved(g, r.value) == Some(superclass),
        decls.contains(superclass.value),
        g.decls().contains_key(superclass.value),
    ensures
        occurs_in(
            "  "@ + "\"decl_"@ + sanitized(decl_of(g, defs[k]).name@) + "\""@ + " -> "@
                + "\"decl_"@ + sanitized(g.decls()[superclass.value].name@) + "\""@
                + " [label=\"inherits\" color=\"#d94a7a\" fontcolor=\"#d94a7a\"]\n"@,
            dot_text(g, docs, defs, decls),
        ),
{
    let child = decl_of(g, defs[k]).name@;
    let parent = g.decls()[superclass.value].name@;
    let line = "  "@ + "\"decl_"@ + sanitized(child) + "\""@ + " -> "@
        + "\"decl_"@ + sanitized(parent) + "\""@
        + " [label=\"inherits\" color=\"#d94a7a\" fontcolor=\"#d94a7a\"]\n"@;
    assert(inherits_line(g, decls, defs[k]) =~= line);
    lemma_inherits_edges_prefix(g, decls, defs, k);
    lemma_inherits_edges_prefix(g, decls, defs, k + 1);
    assert(defs.take(k + 1).drop_last() =~= defs.take(k));
    let a = inherits_edges(g, decls, defs.take(k));
    let b = inherits_edges(g, decls, defs.take(k + 1));
    let e = inherits_edges(g, decls, defs);
    let al: int = a.len() as int;
    let ll: int = line.len() as int;
    assert(b == a + line);
    assert(e.subrange(al, al + ll) =~= line) by {
        assert(e.subrange(0, b.len() as int) == b);
        assert forall|q: int| 0 <= q < line.len() implies e.subrange(al, al + ll)[q] == line[q] by {
            assert(e.subrange(0, b.len() as int)[al + q] == b[al + q]);
        }
    }
    let pre = header_text() + doc_nodes(g, docs) + seq!['\n'] + def_nodes(g, defs) + seq!['\n'] + decl_nodes(g, decls) + seq!['\n']
        + defines_edges(g, docs) + seq!['\n'] + declares_edges(g, defs) + seq!['\n'] + contains_edges(g, docs, defs) + seq!['\n'];
    let post = seq!['\n'] + mixin_edges(g, decls, defs) + seq!['\n'] + owns_edges(g, decls, decls) + "}"@ + seq!['\n'];
    let text = dot_text(g, docs, defs, decls);
    assert(text =~= pre + e + post);
    let p: int = pre.len() + al;
    assert(text.subrange(p, p + ll) =~= line) by {
        assert forall|q: int| 0 <= q < line.len() implies text.subrange(p, p + ll)[q] == line[q] by {
            assert(text[p + q] == e[al + q]);
            assert(e.subrange(al, al + ll)[q] == line[q]);
        }
    }
}

/// An escaped label text holds no `<` or `>`: a name cannot end the HTML label it stands in.
pub proof fn lemma_escaped_has_no_markup(s: Seq<char>)
    ensures
        !html_escaped(s).contains('<'),
        !html_escaped(s).contains('>'),
    decreases s.len(),
{
    if s.len() > 0 {
        lemma_escaped_has_no_markup(s.drop_last());
        let e = escape_char(s.last());
        let h = html_escaped(s.drop_last());
        assert(!e.contains('<') && !e.contains('>')) by {
            reveal_strlit("&amp;");
            reveal_strlit("&lt;");
            reveal_strlit("&gt;");
            if e.contains('<') || e.contains('>') {
                let i = choose|i: int| 0 <= i < e.len() && (e[i] == '<' || e[i] == '>');
            }
        }
        assert forall|c: char| (c == '<' || c == '>') implies !(h + e).contains(c) by {
            if (h + e).contains(c) {
                let i = choose|i: int| 0 <= i < (h + e).len() && (h + e)[i] == c;
                if i < h.len() {
                    assert(h[i] == c);
                } else {
                    assert(e[i - h.len()] == c);
                }
            }
        }
    }
}

/// The drawn graph is closed: each drawn definition is listed by a drawn document and its
/// declaration is drawn too; each drawn declaration has a drawn definition; and without
/// `show_builtins` the built-in document is not drawn.
pub proof fn lemma_drawn_graph_closed(g: &Graph, show_builtins: bool, docs: Seq<u64>, defs: Seq<u64>, decls: Seq<u64>)
    requires
        dot_layout(g, show_builtins, docs, defs, decls),
    ensures
        forall|k: u64| #[trigger] defs.contains(k) ==> listed(g, docs, k) && declared(g, k) && decls.contains(g.def_decl()[k].value),
        forall|k: u64| #[trigger] decls.contains(k) ==> exists|i: int| 0 <= i < defs.len() && (#[trigger] g.def_decl()[defs[i]]).value == k,
        !show_builtins ==> forall|k: u64| #[trigger] docs.contains(k) ==> g.docs()[k].uri@ != built_in_uri(),
{
    assert forall|k: u64| #[trigger] defs.contains(k) implies listed(g, docs, k) && declared(g, k) && decls.contains(g.def_decl()[k].value) by {
        assert(def_shown(g, docs, k));
        let i = choose|i: int| 0 <= i < defs.len() && defs[i] == k;
        assert(decl_shown(g, defs, g.def_decl()[k].value)) by {
            assert(g.def_decl()[defs[i]].value == g.def_decl()[k].value);
        }
    }
    assert forall|k: u64| #[trigger] decls.contains(k) implies exists|i: int| 0 <= i < defs.len() && (#[trigger] g.def_decl()[defs[i]]).value == k by {
        assert(decl_shown(g, defs, k));
    }
    if !show_builtins {
        assert forall|k: u64| #[trigger] docs.contains(k) implies g.docs()[k].uri@ != built_in_uri() by {
            assert(doc_shown(g, show_builtins, k));
        }
    }
}

impl<'a> DotBuilder<'a> {
    /// The declaration that the constant reference `ref_id` resolved to, if any.
    fn resolve_ref(&self, ref_id: ConstantReferenceId) -> (r: Option<DeclarationId>)
        ensures
            r == resolved(&self.source(), ref_id.value),
    {
        let constant_ref = match self.graph.constant_reference(ref_id) {
            Some(c) => c,
            None => return None,
        };
        self.graph.name_id_to_declaration_id(*constant_ref.name_id())
    }

    fn write_doc_nodes(&mut self, docs: &Vec<u64>)
        requires
            forall|i: int| 0 <= i < docs@.len() ==> old(self).source().docs().contains_key(#[trigger] docs@[i]),
        ensures
            final(self).text() == old(self).text() + doc_nodes(&old(self).source(), docs@),
            final(self).source() == old(self).source(),
    {
        let ghost g = self.source();
        let mut i: usize = 0;
        while i < docs.len()
            invariant
                i <= docs@.len(),
                self.source() == g,
                forall|k: int| 0 <= k < docs@.len() ==> g.docs().contains_key(#[trigger] docs@[k]),
                self.text() == old(self).text() + doc_nodes(&g, docs@.take(i as int)),
            decreases docs@.len() - i,
        {
            assert(docs@.take(i + 1).drop_last() =~= docs@.take(i as int));
            let graph = self.graph();
            if let Some(document) = graph.document(UriId { value: docs[i] }) {
                document.to_dot(self);
            }
            assert(self.text() =~= old(self).text() + doc_nodes(&g, docs@.take(i + 1)));
            i = i + 1;
        }
        assert(docs@.take(i as int) =~= docs@);
    }

    fn write_def_nodes(&mut self, defs: &Vec<u64>)
        requires
            forall|i: int| 0 <= i < defs@.len() ==> old(self).source().defs().contains_key(#[trigger] defs@[i]),
        ensures
            final(self).text() == old(self).text() + def_nodes(&old(self).source(), defs@),
            final(self).source() == old(self).source(),
    {
        let ghost g = self.source();
        let mut i: usize = 0;
        while i < defs.len()
            invariant
                i <= defs@.len(),
                self.source() == g,
                forall|k: int| 0 <= k < defs@.len() ==> g.defs().contains_key(#[trigger] defs@[k]),
                self.text() == old(self).text() + def_nodes(&g, defs@.take(i as int)),
            decreases defs@.len() - i,
        {
            assert(defs@.take(i + 1).drop_last() =~= defs@.take(i as int));
            let graph = self.graph();
            if let Some(definition) = graph.definition(DefinitionId { value: defs[i] }) {
                definition.to_dot(self);
            }
            assert(self.text() =~= old(self).text() + def_nodes(&g, defs@.take(i + 1)));
            i = i + 1;
        }
        assert(defs@.take(i as int) =~= defs@);
    }

    fn write_decl_nodes(&mut self, decls: &Vec<u64>)
        requires
            forall|i: int| 0 <= i < decls@.len() ==> old(self).source().decls().contains_key(#[trigger] decls@[i]),
        ensures
            final(self).text() == old(self).text() + decl_nodes(&old(self).source(), decls@),
            final(self).source() == old(self).source(),
    {
        let ghost g = self.source();
        let mut i: usize = 0;
        while i < decls.len()
            invariant
                i <= decls@.len(),
                self.source() == g,
                forall|k: int| 0 <= k < decls@.len() ==> g.decls().contains_key(#[trigger] decls@[k]),
                self.text() == old(self).text() + decl_nodes(&g, decls@.take(i as int)),
            decreases decls@.len() - i,
        {
            assert(decls@.take(i + 1).drop_last() =~= decls@.take(i as int));
            let graph = self.graph();
            if let Some(declaration) = graph.declaration(DeclarationId { value: decls[i] }) {
                declaration.to_dot(self);
            }
            assert(self.text() =~= old(self).text() + decl_nodes(&g, decls@.take(i + 1)));
            i = i + 1;
        }
        assert(decls@.take(i as int) =~= decls@);
    }

    fn write_defines_edges(&mut self, docs: &Vec<u64>)
        requires
            forall|i: int| 0 <= i < docs@.len() ==> old(self).source().docs().contains_key(#[trigger] docs@[i]),
        ensures
            final(self).text() == old(self).text() + defines_edges(&old(self).source(), docs@),
            final(self).source() == old(self).source(),
    {
        let ghost g = self.source();
        let mut i: usize = 0;
        while i < docs.len()
            invariant
                i <= docs@.len(),
                self.source() == g,
                forall|k: int| 0 <= k < docs@.len() ==> g.docs().contains_key(#[trigger] docs@[k]),
                self.text() == old(self).text() + defines_edges(&g, docs@.take(i as int)),
            decreases docs@.len() - i,
        {
            assert(docs@.take(i + 1).drop_last() =~= docs@.take(i as int));
            let graph = self.graph();
            if let Some(document) = graph.document(UriId { value: docs[i] }) {
                let doc_id = Self::doc_node_id(document.uri.as_str());
                let ghost before = self.text();
                let mut j: usize = 0;
                while j < document.definitions.len()
                    invariant
                        j <= document.definitions@.len(),
                        self.source() == g,
                        doc_id@ == doc_node_text(document.uri@),
                        self.text() == before + defines_lines(document.uri@, document.definitions@.take(j as int)),
                    decreases document.definitions@.len() - j,
                {
                    assert(document.definitions@.take(j + 1).drop_last() =~= document.definitions@.take(j as int));
                    let out = &mut self.output;
                    push_str(out, "  ");
                    push_str(out, doc_id.as_str());
                    push_str(out, " -> ");
                    push_def_node(out, document.definitions[j]);
                    push_str(out, " [label=\"defines\" color=\"#e8912d\" fontcolor=\"#e8912d\"]\n");
                    assert(self.text() =~= before + defines_lines(document.uri@, document.definitions@.take(j + 1)));
                    j = j + 1;
                }
                assert(document.definitions@.take(j as int) =~= document.definitions@);
            }
            assert(self.text() =~= old(self).text() + defines_edges(&g, docs@.take(i + 1)));
            i = i + 1;
        }
        assert(docs@.take(i as int) =~= docs@);
    }

    fn write_declares_edges(&mut self, defs: &Vec<u64>)
        requires
            forall|i: int| 0 <= i < defs@.len() ==> declared(&old(self).source(), #[trigger] defs@[i]),
        ensures
            final(self).text() == old(self).text() + declares_edges(&old(self).source(), defs@),
            final(self).source() == old(self).source(),
    {
        let ghost g = self.source();
        let mut i: usize = 0;
        while i < defs.len()
            invariant
                i <= defs@.len(),
                self.source() == g,
                forall|k: int| 0 <= k < defs@.len() ==> declared(&g, #[trigger] defs@[k]),
                self.text() == old(self).text() + declares_edges(&g, defs@.take(i as int)),
            decreases defs@.len() - i,
        {
            assert(defs@.take(i + 1).drop_last() =~= defs@.take(i as int));
            assert(declared(&g, defs@[i as int]));
            let graph = self.graph();
            let def_id = DefinitionId { value: defs[i] };
            if let Some(decl_id) = graph.definition_id_to_declaration_id(def_id) {
                if let Some(declaration) = graph.declaration(decl_id) {
                    let decl_node = Self::decl_node_id(declaration.name.as_str());
                    let out = &mut self.output;
                    push_str(out, "  ");
                    push_def_node(out, def_id);
                    push_str(out, " -> ");
                    push_str(out, decl_node.as_str());
                    push_str(out, " [label=\"declares\" color=\"#5ba55b\" fontcolor=\"#5ba55b\"]\n");
                }
            }
            assert(self.text() =~= old(self).text() + declares_edges(&g, defs@.take(i + 1)));
            i = i + 1;
        }
        assert(defs@.take(i as int) =~= defs@);
    }

    fn write_contains_edges(&mut self, docs: Ghost<Seq<u64>>, listed_ids: &HashSet<u64>, defs: &Vec<u64>)
        requires
            forall|i: int| 0 <= i < defs@.len() ==> old(self).source().defs().contains_key(#[trigger] defs@[i]),
            forall|x: u64| #[trigger] listed_ids@.contains(x) <==> listed(&old(self).source(), docs@, x),
        ensures
            final(self).text() == old(self).text() + contains_edges(&old(self).source(), docs@, defs@),
            final(self).source() == old(self).source(),
    {
        let ghost g = self.source();
        let mut i: usize = 0;
        while i < defs.len()
            invariant
                i <= defs@.len(),
                self.source() == g,
                forall|k: int| 0 <= k < defs@.len() ==> g.defs().contains_key(#[trigger] defs@[k]),
                forall|x: u64| #[trigger] listed_ids@.contains(x) <==> listed(&g, docs@, x),
                self.text() == old(self).text() + contains_edges(&g, docs@, defs@.take(i as int)),
            decreases defs@.len() - i,
        {
            assert(defs@.take(i + 1).drop_last() =~= defs@.take(i as int));
            let graph = self.graph();
            let parent = DefinitionId { value: defs[i] };
            if let Some(definition) = graph.definition(parent) {
                let children = match &definition.kind {
                    DefinitionKind::Class { members, .. } => members,
                    DefinitionKind::SingletonClass { members, .. } => members,
                    DefinitionKind::Module { members, .. } => members,
                    _ => {
                        assert(self.text() =~= old(self).text() + contains_edges(&g, docs@, defs@.take(i + 1))) by {
                            assert(def_members(&definition.kind) =~= Seq::<DefinitionId>::empty());
                        }
                        i = i + 1;
                        continue;
                    },
                };
                assert(children@ == def_members(&definition.kind));
                let ghost before = self.text();
                let mut j: usize = 0;
                while j < children.len()
                    invariant
                        j <= children@.len(),
                        self.source() == g,
                        forall|x: u64| #[trigger] listed_ids@.contains(x) <==> listed(&g, docs@, x),
                        self.text() == before + contains_lines(&g, docs@, parent.value, children@.take(j as int)),
                    decreases children@.len() - j,
                {
                    assert(children@.take(j + 1).drop_last() =~= children@.take(j as int));
                    let child = children[j];
                    if listed_ids.contains(&child.value) {
                        let out = &mut self.output;
                        push_str(out, "  ");
                        push_def_node(out, parent);
                        push_str(out, " -> ");
                        push_def_node(out, child);
                        push_str(out, " [label=\"contains\" style=dashed arrowhead=onormal color=\"#f0c08a\" fontcolor=\"#f0c08a\"]\n");
                    }
                    assert(self.text() =~= before + contains_lines(&g, docs@, parent.value, children@.take(j + 1)));
                    j = j + 1;
                }
                assert(children@.take(j as int) =~= children@);
            }
            assert(self.text() =~= old(self).text() + contains_edges(&g, docs@, defs@.take(i + 1)));
            i = i + 1;
        }
        assert(defs@.take(i as int) =~= defs@);
    }
}

/// `values` in increasing order.
fn sort_ids(values: Vec<u64>) -> (r: Vec<u64>)
    ensures
        r@ == values@.sort_by(|a: u64, b: u64| id_le(a, b)),
{
    broadcast use vstd::seq_lib::group_to_multiset_ensures;
    let ghost leq = |a: u64, b: u64| id_le(a, b);
    let mut r: Vec<u64> = Vec::new();
    let mut i: usize = 0;
    while i < values.len()
        invariant
            i <= values@.len(),
            r@.to_multiset() == values@.take(i as int).to_multiset(),
            forall|a: int, b: int| 0 <= a < b < r@.len() ==> #[trigger] r@[a] <= #[trigger] r@[b],
        decreases values@.len() - i,
    {
        let x = values[i];
        let mut p: usize = 0;
        while p < r.len() && r[p] <= x
            invariant
                p <= r@.len(),
                forall|q: int| 0 <= q < p ==> #[trigger] r@[q] <= x,
            decreases r@.len() - p,
        {
            p = p + 1;
        }
        proof {
            vstd::seq_lib::to_multiset_insert(r@, p as int, x);
            assert(values@.take(i + 1) =~= values@.take(i as int).push(x));
            vstd::seq_lib::to_multiset_build(values@.take(i as int), x);
        }
        let ghost old_r = r@;
        r.insert(p, x);
        proof {
            assert forall|a: int, b: int| 0 <= a < b < r@.len() implies #[trigger] r@[a] <= #[trigger] r@[b] by {
                if a < p && b > p {
                    assert(r@[a] == old_r[a]);
                    assert(r@[b] == old_r[b - 1]);
                    assert(old_r[p as int] > x);
                } else if a == p && b > p {
                    assert(r@[b] == old_r[b - 1]);
                    assert(old_r[p as int] > x);
                    assert(old_r[p as int] <= old_r[b - 1]);
                } else if a < p && b == p {
                    assert(r@[a] == old_r[a]);
                } else if a > p {
                    assert(r@[a] == old_r[a - 1]);
                    assert(r@[b] == old_r[b - 1]);
                } else {
                    assert(r@[a] == old_r[a]);
                    assert(r@[b] == old_r[b]);
                }
            }
        }
        i = i + 1;
    }
    proof {
        assert(values@.take(i as int) =~= values@);
        assert(vstd::relations::total_ordering(leq));
        values@.lemma_sort_by_ensures(leq);
        assert(vstd::relations::sorted_by(r@, leq));
        vstd::seq_lib::lemma_sorted_unique(r@, values@.sort_by(leq), leq);
    }
    r
}

impl<'a> DotBuilder<'a> {
    fn write_inherits_edges(&mut self, decl_ids: &HashSet<u64>, decls: Ghost<Seq<u64>>, defs: &Vec<u64>)
        requires
            forall|i: int| 0 <= i < defs@.len() ==> old(self).source().defs().contains_key(#[trigger] defs@[i]),
            forall|i: int| 0 <= i < defs@.len() ==> declared(&old(self).source(), #[trigger] defs@[i]),
            forall|x: u64| #[trigger] decl_ids@.contains(x) <==> decls@.contains(x),
        ensures
            final(self).text() == old(self).text() + inherits_edges(&old(self).source(), decls@, defs@),
            final(self).source() == old(self).source(),
    {
        let ghost g = self.source();
        let mut i: usize = 0;
        while i < defs.len()
            invariant
                i <= defs@.len(),
                self.source() == g,
                forall|k: int| 0 <= k < defs@.len() ==> g.defs().contains_key(#[trigger] defs@[k]),
                forall|k: int| 0 <= k < defs@.len() ==> declared(&g, #[trigger] defs@[k]),
                forall|x: u64| #[trigger] decl_ids@.contains(x) <==> decls@.contains(x),
                self.text() == old(self).text() + inherits_edges(&g, decls@, defs@.take(i as int)),
            decreases defs@.len() - i,
        {
            assert(defs@.take(i + 1).drop_last() =~= defs@.take(i as int));
            let def_id = DefinitionId { value: defs[i] };
            assert(declared(&g, def_id.value));
            let graph = self.graph();
            if let Some(definition) = graph.definition(def_id) {
                if let DefinitionKind::Class { superclass_ref: Some(superclass_ref_id), .. } = &definition.kind {
                    if let Some(decl_id) = self.resolve_ref(*superclass_ref_id) {
                        if decl_ids.contains(&decl_id.value) {
                            if let Some(declaration) = graph.declaration(decl_id) {
                                if let Some(child_decl_id) = graph.definition_id_to_declaration_id(def_id) {
                                    if let Some(child_decl) = graph.declaration(child_decl_id) {
                                        let child_node = Self::decl_node_id(child_decl.name.as_str());
                                        let parent_node = Self::decl_node_id(declaration.name.as_str());
                                        let out = &mut self.output;
                                        push_str(out, "  ");
                                        push_str(out, child_node.as_str());
                                        push_str(out, " -> ");
                                        push_str(out, parent_node.as_str());
                                        push_str(out, " [label=\"inherits\" color=\"#d94a7a\" fontcolor=\"#d94a7a\"]\n");
                                    }
                                }
                            }
                        }
                    }
                }
            }
            assert(self.text() =~= old(self).text() + inherits_edges(&g, decls@, defs@.take(i + 1)));
            i = i + 1;
        }
        assert(defs@.take(i as int) =~= defs@);
    }

    fn write_mixin_edges(&mut self, decl_ids: &HashSet<u64>, decls: Ghost<Seq<u64>>, defs: &Vec<u64>)
        requires
            forall|i: int| 0 <= i < defs@.len() ==> old(self).source().defs().contains_key(#[trigger] defs@[i]),
            forall|i: int| 0 <= i < defs@.len() ==> declared(&old(self).source(), #[trigger] defs@[i]),
            forall|x: u64| #[trigger] decl_ids@.contains(x) <==> decls@.contains(x),
        ensures
            final(self).text() == old(self).text() + mixin_edges(&old(self).source(), decls@, defs@),
            final(self).source() == old(self).source(),
    {
        let ghost g = self.source();
        let mut i: usize = 0;
        while i < defs.len()
            invariant
                i <= defs@.len(),
                self.source() == g,
                forall|k: int| 0 <= k < defs@.len() ==> g.defs().contains_key(#[trigger] defs@[k]),
                forall|k: int| 0 <= k < defs@.len() ==> declared(&g, #[trigger] defs@[k]),
                forall|x: u64| #[trigger] decl_ids@.contains(x) <==> decls@.contains(x),
                self.text() == old(self).text() + mixin_edges(&g, decls@, defs@.take(i as int)),
            decreases defs@.len() - i,
        {
            assert(defs@.take(i + 1).drop_last() =~= defs@.take(i as int));
            let def_id = DefinitionId { value: defs[i] };
            assert(declared(&g, def_id.value));
            assert(g.defs().contains_key(def_id.value));
            let graph = self.graph();
            let definition = match graph.definition(def_id) {
                Some(d) => d,
                None => {
                    i = i + 1;
                    continue;
                },
            };
            let mixins = match &definition.kind {
                DefinitionKind::Class { mixins, .. } => mixins,
                DefinitionKind::SingletonClass { mixins, .. } => mixins,
                DefinitionKind::Module { mixins, .. } => mixins,
                _ => {
                    assert(self.text() =~= old(self).text() + mixin_edges(&g, decls@, defs@.take(i + 1))) by {
                        assert(def_mixins(&definition.kind) =~= Seq::<Mixin>::empty());
                    }
                    i = i + 1;
                    continue;
                },
            };
            assert(mixins@ == def_mixins(&definition.kind));
            let decl_id = match graph.definition_id_to_declaration_id(def_id) {
                Some(d) => d,
                None => {
                    i = i + 1;
                    continue;
                },
            };
            let decl = match graph.declaration(decl_id) {
                Some(d) => d,
                None => {
                    i = i + 1;
                    continue;
                },
            };
            let src_node = Self::decl_node_id(decl.name.as_str());
            let ghost before = self.text();
            let ghost from = decl.name@;
            let mut j: usize = 0;
            while j < mixins.len()
                invariant
                    j <= mixins@.len(),
                    self.source() == g,
                    forall|x: u64| #[trigger] decl_ids@.contains(x) <==> decls@.contains(x),
                    src_node@ == decl_node_text(from),
                    self.text() == before + mixin_lines(&g, decls@, from, mixins@.take(j as int)),
                decreases mixins@.len() - j,
            {
                assert(mixins@.take(j + 1).drop_last() =~= mixins@.take(j as int));
                let mixin = mixins[j];
                let label_word: &str = match mixin {
                    Mixin::Include(_) => "includes",
                    Mixin::Prepend(_) => "prepends",
                    Mixin::Extend(_) => "extends",
                };
                assert(label_word@ == mixin_label(mixin));
                if let Some(target_decl_id) = self.resolve_ref(mixin.constant_reference_id()) {
                    if decl_ids.contains(&target_decl_id.value) {
                        if let Some(target_decl) = self.graph().declaration(target_decl_id) {
                            let target_node = Self::decl_node_id(target_decl.name.as_str());
                            let out = &mut self.output;
                            push_str(out, "  ");
                            push_str(out, src_node.as_str());
                            push_str(out, " -> ");
                            push_str(out, target_node.as_str());
                            push_str(out, " [label=\"");
                            push_str(out, label_word);
                            push_str(out, "\" color=\"#8b5fc7\" fontcolor=\"#8b5fc7\"]\n");
                        }
                    }
                }
                assert(self.text() =~= before + mixin_lines(&g, decls@, from, mixins@.take(j + 1)));
                j = j + 1;
            }
            assert(mixins@.take(j as int) =~= mixins@);
            assert(self.text() =~= old(self).text() + mixin_edges(&g, decls@, defs@.take(i + 1)));
            i = i + 1;
        }
        assert(defs@.take(i as int) =~= defs@);
    }

    fn write_owns_edges(&mut self, decl_ids: &HashSet<u64>, decls: &Vec<u64>)
        requires
            forall|i: int| 0 <= i < decls@.len() ==> old(self).source().decls().contains_key(#[trigger] decls@[i]),
            forall|x: u64| #[trigger] decl_ids@.contains(x) <==> decls@.contains(x),
        ensures
            final(self).text() == old(self).text() + owns_edges(&old(self).source(), decls@, decls@),
            final(self).source() == old(self).source(),
    {
        let ghost g = self.source();
        let mut i: usize = 0;
        while i < decls.len()
            invariant
                i <= decls@.len(),
                self.source() == g,
                forall|k: int| 0 <= k < decls@.len() ==> g.decls().contains_key(#[trigger] decls@[k]),
                forall|x: u64| #[trigger] decl_ids@.contains(x) <==> decls@.contains(x),
                self.text() == old(self).text() + owns_edges(&g, decls@.take(i as int), decls@),
            decreases decls@.len() - i,
        {
            assert(decls@.take(i + 1).drop_last() =~= decls@.take(i as int));
            let k = decls[i];
            assert(g.decls().contains_key(k));
            let graph = self.graph();
            if let Some(declaration) = graph.declaration(DeclarationId { value: k }) {
                if declaration.is_namespace_exec() {
                    let owner_node = Self::decl_node_id(declaration.name.as_str());
                    let mut values: Vec<u64> = Vec::new();
                    let mut m: usize = 0;
                    while m < declaration.members.len()
                        invariant
                            m <= declaration.members@.len(),
                            forall|x: u64| #[trigger] decl_ids@.contains(x) <==> decls@.contains(x),
                            values@ == declaration.members@.take(m as int).map_values(
                                |p: (crate::ids::StringId, DeclarationId)| p.1.value,
                            ).filter(|v: u64| decls@.contains(v)),
                        decreases declaration.members@.len() - m,
                    {
                        let v = declaration.members[m].1.value;
                        proof {
                            let f = |p: (crate::ids::StringId, DeclarationId)| p.1.value;
                            let t = declaration.members@.take(m as int).map_values(f);
                            let t1 = declaration.members@.take(m + 1).map_values(f);
                            assert(t1 =~= t.push(v));
                            reveal(Seq::filter);
                            assert(t1.drop_last() =~= t);
                        }
                        if decl_ids.contains(&v) {
                            values.push(v);
                        }
                        m = m + 1;
                    }
                    assert(declaration.members@.take(m as int) =~= declaration.members@);
                    let members = sort_ids(values);
                    assert(members@ == shown_members(&g, decls@, k));
                    let ghost before = self.text();
                    let ghost from = declaration.name@;
                    let mut j: usize = 0;
                    while j < members.len()
                        invariant
                            j <= members@.len(),
                            self.source() == g,
                            owner_node@ == decl_node_text(from),
                            self.text() == before + owns_lines(&g, from, members@.take(j as int)),
                        decreases members@.len() - j,
                    {
                        assert(members@.take(j + 1).drop_last() =~= members@.take(j as int));
                        if let Some(member) = self.graph().declaration(DeclarationId { value: members[j] }) {
                            let member_node = Self::decl_node_id(member.name.as_str());
                            let out = &mut self.output;
                            push_str(out, "  ");
                            push_str(out, owner_node.as_str());
                            push_str(out, " -> ");
                            push_str(out, member_node.as_str());
                            push_str(out, " [label=\"owns\" style=dashed arrowhead=onormal color=\"#a3d9a3\" fontcolor=\"#a3d9a3\"]\n");
                        }
                        assert(self.text() =~= before + owns_lines(&g, from, members@.take(j + 1)));
                        j = j + 1;
                    }
                    assert(members@.take(j as int) =~= members@);
                }
            }
            assert(self.text() =~= old(self).text() + owns_edges(&g, decls@.take(i + 1), decls@));
            i = i + 1;
        }
        assert(decls@.take(i as int) =~= decls@);
    }
}

/// The documents to draw, each once, by URI.
fn select_documents(graph: &Graph, show_builtins: bool) -> (docs: Vec<u64>)
    ensures
        docs@.no_duplicates(),
        forall|k: u64| #[trigger] docs@.contains(k) <==> doc_shown(graph, show_builtins, k),
        forall|i: int, j: int| 0 <= i < j < docs@.len() ==> text_le(graph.docs()[#[trigger] docs@[i]].uri@, graph.docs()[#[trigger] docs@[j]].uri@),
{
    let ids = graph.document_ids();
    let builtin = chars_of("rubydex:built-in");
    let mut doc_ids: Vec<u64> = Vec::new();
    let mut doc_keys: Vec<Vec<char>> = Vec::new();
    let mut i: usize = 0;
    while i < ids.len()
        invariant
            i <= ids@.len(),
            ids@.to_set() == graph.docs().dom(),
            ids@.no_duplicates(),
            builtin@ == built_in_uri(),
            doc_ids@.len() == doc_keys@.len(),
            doc_ids@.no_duplicates(),
            forall|k: int| 0 <= k < doc_ids@.len() ==> (#[trigger] doc_keys@[k])@ == graph.docs()[doc_ids@[k]].uri@,
            forall|x: u64| #[trigger] doc_ids@.contains(x) <==> (ids@.take(i as int).contains(x) && doc_shown(graph, show_builtins, x)),
        decreases ids@.len() - i,
    {
        let id = ids[i];
        proof {
            assert(ids@.to_set().contains(id));
            crate::seqs::lemma_take_succ_contains(ids@, i as int, id);
            assert(!ids@.take(i as int).contains(id)) by {
                if ids@.take(i as int).contains(id) {
                    let q = choose|q: int| 0 <= q < i && ids@.take(i as int)[q] == id;
                    assert(ids@[q] == ids@[i as int]);
                }
            }
            assert(!doc_ids@.contains(id));
        }
        let ghost before = doc_ids@;
        if let Some(document) = graph.document(UriId { value: id }) {
            let uri = chars_of(document.uri.as_str());
            if show_builtins || !text_equal(&uri, &builtin) {
                doc_ids.push(id);
                doc_keys.push(uri);
                assert(doc_shown(graph, show_builtins, id));
            } else {
                assert(!doc_shown(graph, show_builtins, id));
            }
        }
        proof {
            assert forall|x: u64| #[trigger] doc_ids@.contains(x) <==> (ids@.take(i + 1).contains(x) && doc_shown(graph, show_builtins, x)) by {
                crate::seqs::lemma_take_succ_contains(ids@, i as int, x);
                assert(before.contains(x) <==> (ids@.take(i as int).contains(x) && doc_shown(graph, show_builtins, x)));
                if doc_ids@ != before {
                    assert(doc_ids@ == before.push(id));
                    assert(doc_ids@.contains(x) <==> (before.contains(x) || x == id)) by {
                        if doc_ids@.contains(x) && x != id {
                            let q = choose|q: int| 0 <= q < doc_ids@.len() && doc_ids@[q] == x;
                            assert(before[q] == x);
                        }
                        if before.contains(x) {
                            let q = choose|q: int| 0 <= q < before.len() && before[q] == x;
                            assert(doc_ids@[q] == x);
                        }
                        if x == id {
                            assert(doc_ids@[before.len() as int] == x);
                        }
                    }
                }
            }
        }
        i = i + 1;
    }
    assert(ids@.take(i as int) =~= ids@);
    sort_by_text_key(doc_ids, doc_keys, Ghost(|k: u64| graph.docs()[k].uri@))
}

/// The definitions that the documents `docs` list, each once, in order, and the same as a set.
fn listed_definitions(graph: &Graph, docs: &Vec<u64>) -> (r: (HashSet<u64>, Vec<u64>))
    requires
        forall|k: int| 0 <= k < docs@.len() ==> graph.docs().contains_key(#[trigger] docs@[k]),
    ensures
        r.1@.no_duplicates(),
        forall|x: u64| #[trigger] r.0@.contains(x) <==> r.1@.contains(x),
        forall|x: u64| #[trigger] r.0@.contains(x) <==> listed(graph, docs@, x),
{
    let mut listed_ids: HashSet<u64> = HashSet::new();
    let mut candidates: Vec<u64> = Vec::new();
    let mut i: usize = 0;
    while i < docs.len()
        invariant
            i <= docs@.len(),
            forall|k: int| 0 <= k < docs@.len() ==> graph.docs().contains_key(#[trigger] docs@[k]),
            candidates@.no_duplicates(),
            forall|x: u64| #[trigger] listed_ids@.contains(x) <==> candidates@.contains(x),
            forall|x: u64| #[trigger] listed_ids@.contains(x) <==> listed(graph, docs@.take(i as int), x),
        decreases docs@.len() - i,
    {
        let doc_id = docs[i];
        assert(graph.docs().contains_key(doc_id));
        let document = match graph.document(UriId { value: doc_id }) {
            Some(d) => d,
            None => {
                i = i + 1;
                continue;
            },
        };
        let mut j: usize = 0;
        while j < document.definitions.len()
            invariant
                j <= document.definitions@.len(),
                candidates@.no_duplicates(),
                forall|x: u64| #[trigger] listed_ids@.contains(x) <==> candidates@.contains(x),
                forall|x: u64| #[trigger] listed_ids@.contains(x) <==> (listed(graph, docs@.take(i as int), x)
                    || document.definitions@.take(j as int).contains(DefinitionId { value: x })),
            decreases document.definitions@.len() - j,
        {
            let v = document.definitions[j].value;
            let ghost before = candidates@;
            let ghost set_before = listed_ids@;
            if listed_ids.insert(v) {
                assert(!before.contains(v));
                candidates.push(v);
                proof {
                    assert forall|i1: int, i2: int| 0 <= i1 < candidates@.len() && 0 <= i2 < candidates@.len() && i1 != i2
                        implies candidates@[i1] != candidates@[i2] by {
                        if i1 == before.len() {
                            assert(before.contains(before[i2]));
                        } else if i2 == before.len() {
                            assert(before.contains(before[i1]));
                        }
                    }
                    assert forall|x: u64| #[trigger] candidates@.contains(x) <==> (before.contains(x) || x == v) by {
                        if candidates@.contains(x) && x != v {
                            let q = choose|q: int| 0 <= q < candidates@.len() && candidates@[q] == x;
                            assert(before[q] == x);
                        }
                        if before.contains(x) {
                            let q = choose|q: int| 0 <= q < before.len() && before[q] == x;
                            assert(candidates@[q] == x);
                        }
                        if x == v {
                            assert(candidates@[before.len() as int] == x);
                        }
                    }
                }
            }
            proof {
                assert forall|x: u64| #[trigger] listed_ids@.contains(x) <==> (listed(graph, docs@.take(i as int), x)
                    || document.definitions@.take(j + 1).contains(DefinitionId { value: x })) by {
                    crate::seqs::lemma_take_succ_contains(document.definitions@, j as int, DefinitionId { value: x });
                    assert(set_before.contains(x) <==> (listed(graph, docs@.take(i as int), x)
                        || document.definitions@.take(j as int).contains(DefinitionId { value: x })));
                }
            }
            j = j + 1;
        }
        proof {
            assert(document.definitions@.take(j as int) =~= document.definitions@);
            let d1 = docs@.take(i + 1);
            let d0 = docs@.take(i as int);
            assert forall|x: u64| #[trigger] listed_ids@.contains(x) <==> listed(graph, d1, x) by {
                if listed(graph, d1, x) {
                    let k = choose|k: int| 0 <= k < d1.len() && (#[trigger] graph.docs()[d1[k]]).definitions@.contains(DefinitionId { value: x });
                    if k < i {
                        assert(d0[k] == d1[k]);
                        assert(listed(graph, d0, x));
                    }
                }
                if listed(graph, d0, x) {
                    let k = choose|k: int| 0 <= k < d0.len() && (#[trigger] graph.docs()[d0[k]]).definitions@.contains(DefinitionId { value: x });
                    assert(d0[k] == d1[k]);
                }
                if document.definitions@.contains(DefinitionId { value: x }) {
                    assert(d1[i as int] == doc_id);
                    assert(graph.docs()[d1[i as int]].definitions@.contains(DefinitionId { value: x }));
                }
            }
        }
        i = i + 1;
    }
    assert(docs@.take(i as int) =~= docs@);
    (listed_ids, candidates)
}

/// The definitions among `candidates` that contribute to a declaration, by `Kind(Name)`.
fn select_definitions(graph: &Graph, candidates: &Vec<u64>) -> (defs: Vec<u64>)
    requires
        candidates@.no_duplicates(),
    ensures
        defs@.no_duplicates(),
        forall|x: u64| #[trigger] defs@.contains(x) <==> (candidates@.contains(x) && graph.defs().contains_key(x) && declared(graph, x)),
        forall|i: int, j: int| 0 <= i < j < defs@.len() ==> text_le(def_key(graph, #[trigger] defs@[i]), def_key(graph, #[trigger] defs@[j])),
{
    let mut def_ids: Vec<u64> = Vec::new();
    let mut def_keys: Vec<Vec<char>> = Vec::new();
    let mut i: usize = 0;
    while i < candidates.len()
        invariant
            i <= candidates@.len(),
            candidates@.no_duplicates(),
            def_ids@.len() == def_keys@.len(),
            def_ids@.no_duplicates(),
            forall|k: int| 0 <= k < def_ids@.len() ==> (#[trigger] def_keys@[k])@ == def_key(graph, def_ids@[k]),
            forall|x: u64| #[trigger] def_ids@.contains(x) <==> (candidates@.take(i as int).contains(x)
                && graph.defs().contains_key(x) && declared(graph, x)),
        decreases candidates@.len() - i,
    {
        let id = candidates[i];
        proof {
            crate::seqs::lemma_take_succ_contains(candidates@, i as int, id);
            assert(!candidates@.take(i as int).contains(id)) by {
                if candidates@.take(i as int).contains(id) {
                    let q = choose|q: int| 0 <= q < i && candidates@.take(i as int)[q] == id;
                    assert(candidates@[q] == candidates@[i as int]);
                }
            }
            assert(!def_ids@.contains(id));
        }
        let ghost before = def_ids@;
        if let Some(definition) = graph.definition(DefinitionId { value: id }) {
            if let Some(decl_id) = graph.definition_id_to_declaration_id(DefinitionId { value: id }) {
                if let Some(declaration) = graph.declaration(decl_id) {
                    let mut key = String::new();
                    push_str(&mut key, definition.kind_name());
                    push_str(&mut key, "(");
                    push_str(&mut key, declaration.name.as_str());
                    push_str(&mut key, ")");
                    let key_chars = chars_of(key.as_str());
                    assert(key_chars@ =~= def_key(graph, id));
                    def_ids.push(id);
                    def_keys.push(key_chars);
                }
            }
        }
        proof {
            assert forall|x: u64| #[trigger] def_ids@.contains(x) <==> (candidates@.take(i + 1).contains(x)
                && graph.defs().contains_key(x) && declared(graph, x)) by {
                crate::seqs::lemma_take_succ_contains(candidates@, i as int, x);
                assert(before.contains(x) <==> (candidates@.take(i as int).contains(x)
                    && graph.defs().contains_key(x) && declared(graph, x)));
                if def_ids@ != before {
                    assert(def_ids@ == before.push(id));
                    assert(def_ids@.contains(x) <==> (before.contains(x) || x == id)) by {
                        if def_ids@.contains(x) && x != id {
                            let q = choose|q: int| 0 <= q < def_ids@.len() && def_ids@[q] == x;
                            assert(before[q] == x);
                        }
                        if before.contains(x) {
                            let q = choose|q: int| 0 <= q < before.len() && before[q] == x;
                            assert(def_ids@[q] == x);
                        }
                        if x == id {
                            assert(def_ids@[before.len() as int] == x);
                        }
                    }
                }
            }
        }
        i = i + 1;
    }
    assert(candidates@.take(i as int) =~= candidates@);
    sort_by_text_key(def_ids, def_keys, Ghost(|k: u64| def_key(graph, k)))
}

/// The declarations that the definitions `defs` contribute to, each once, by name, and the
/// same as a set.
fn select_declarations(graph: &Graph, defs: &Vec<u64>) -> (r: (HashSet<u64>, Vec<u64>))
    requires
        forall|k: int| 0 <= k < defs@.len() ==> declared(graph, #[trigger] defs@[k]),
    ensures
        r.1@.no_duplicates(),
        forall|x: u64| #[trigger] r.0@.contains(x) <==> r.1@.contains(x),
        forall|x: u64| #[trigger] r.1@.contains(x) <==> decl_shown(graph, defs@, x),
        forall|i: int, j: int| 0 <= i < j < r.1@.len() ==> text_le(graph.decls()[#[trigger] r.1@[i]].name@, graph.decls()[#[trigger] r.1@[j]].name@),
{
    let mut decl_ids: HashSet<u64> = HashSet::new();
    let mut decl_list: Vec<u64> = Vec::new();
    let mut decl_keys: Vec<Vec<char>> = Vec::new();
    let mut i: usize = 0;
    while i < defs.len()
        invariant
            i <= defs@.len(),
            forall|k: int| 0 <= k < defs@.len() ==> declared(graph, #[trigger] defs@[k]),
            decl_list@.len() == decl_keys@.len(),
            decl_list@.no_duplicates(),
            forall|k: int| 0 <= k < decl_list@.len() ==> (#[trigger] decl_keys@[k])@ == graph.decls()[decl_list@[k]].name@,
            forall|x: u64| #[trigger] decl_ids@.contains(x) <==> decl_list@.contains(x),
            forall|x: u64| #[trigger] decl_ids@.contains(x) <==> decl_shown(graph, defs@.take(i as int), x),
        decreases defs@.len() - i,
    {
        let id = defs[i];
        assert(declared(graph, id));
        let ghost before = decl_list@;
        let ghost set_before = decl_ids@;
        if let Some(decl_id) = graph.definition_id_to_declaration_id(DefinitionId { value: id }) {
            if let Some(declaration) = graph.declaration(decl_id) {
                if decl_ids.insert(decl_id.value) {
                    assert(!before.contains(decl_id.value));
                    decl_list.push(decl_id.value);
                    decl_keys.push(chars_of(declaration.name.as_str()));
                    proof {
                        let v = decl_id.value;
                        assert forall|i1: int, i2: int| 0 <= i1 < decl_list@.len() && 0 <= i2 < decl_list@.len() && i1 != i2
                            implies decl_list@[i1] != decl_list@[i2] by {
                            if i1 == before.len() {
                                assert(before.contains(before[i2]));
                            } else if i2 == before.len() {
                                assert(before.contains(before[i1]));
                            }
                        }
                        assert forall|x: u64| #[trigger] decl_list@.contains(x) <==> (before.contains(x) || x == v) by {
                            if decl_list@.contains(x) && x != v {
                                let q = choose|q: int| 0 <= q < decl_list@.len() && decl_list@[q] == x;
                                assert(before[q] == x);
                            }
                            if before.contains(x) {
                                let q = choose|q: int| 0 <= q < before.len() && before[q] == x;
                                assert(decl_list@[q] == x);
                            }
                            if x == v {
                                assert(decl_list@[before.len() as int] == x);
                            }
                        }
                    }
                }
            }
        }
        proof {
            let d1 = defs@.take(i + 1);
            let d0 = defs@.take(i as int);
            assert forall|x: u64| #[trigger] decl_ids@.contains(x) <==> decl_shown(graph, d1, x) by {
                assert(set_before.contains(x) <==> decl_shown(graph, d0, x));
                if decl_shown(graph, d1, x) {
                    let k = choose|k: int| 0 <= k < d1.len() && (#[trigger] graph.def_decl()[d1[k]]).value == x;
                    if k < i {
                        assert(d0[k] == d1[k]);
                        assert(decl_shown(graph, d0, x));
                    }
                }
                if decl_shown(graph, d0, x) {
                    let k = choose|k: int| 0 <= k < d0.len() && (#[trigger] graph.def_decl()[d0[k]]).value == x;
                    assert(d0[k] == d1[k]);
                }
                if x == graph.def_decl()[id].value {
                    assert(d1[i as int] == id);
                }
            }
        }
        i = i + 1;
    }
    assert(defs@.take(i as int) =~= defs@);
    let sorted = sort_by_text_key(decl_list, decl_keys, Ghost(|k: u64| graph.decls()[k].name@));
    proof {
        assert forall|x: u64| #[trigger] sorted@.contains(x) <==> decl_shown(graph, defs@, x) by {
            assert(decl_list@.contains(x) <==> decl_ids@.contains(x));
        }
        assert forall|x: u64| #[trigger] decl_ids@.contains(x) <==> sorted@.contains(x) by {
            assert(decl_list@.contains(x) <==> decl_ids@.contains(x));
        }
    }
    (decl_ids, sorted)
}

impl<'a> DotBuilder<'a> {
    /// The DOT text of `graph`: the documents (all of them, or all but the built-in one), the
    /// definitions they list that contribute to a declaration, and those declarations, as
    /// nodes; then the edges between them, section by section. See `dot_text` and
    /// `dot_layout`.
    pub fn generate(graph: &'a Graph, show_builtins: bool) -> (out: String)
        ensures
            exists|docs: Seq<u64>, defs: Seq<u64>, decls: Seq<u64>|
                dot_layout(graph, show_builtins, docs, defs, decls) && out@ == #[trigger] dot_text(graph, docs, defs, decls),
    {
        let ghost g = *graph;
        let mut builder = Self::new(graph);
        builder.writeln("digraph rubydex {");
        builder.writeln("  rankdir=TB");
        builder.writeln("  node [fontname=\"Courier\" fontsize=10 shape=box]");
        builder.writeln("  edge [fontsize=9 fontname=\"Courier\"]");
        push_char(&mut builder.output, '\n');
        assert(builder.text() =~= header_text());

        let documents = select_documents(graph, show_builtins);
        proof {
            assert forall|k: int| 0 <= k < documents@.len() implies g.docs().contains_key(#[trigger] documents@[k]) by {
                assert(documents@.contains(documents@[k]));
            }
        }
        builder.write_doc_nodes(&documents);
        push_char(&mut builder.output, '\n');

        let (listed_ids, candidates) = listed_definitions(graph, &documents);
        let definitions = select_definitions(graph, &candidates);
        proof {
            assert forall|k: int| 0 <= k < definitions@.len() implies g.defs().contains_key(#[trigger] definitions@[k])
                && declared(&g, definitions@[k]) by {
                assert(definitions@.contains(definitions@[k]));
            }
        }
        builder.write_def_nodes(&definitions);
        push_char(&mut builder.output, '\n');

        let (decl_ids, declarations) = select_declarations(graph, &definitions);
        proof {
            assert forall|k: int| 0 <= k < declarations@.len() implies g.decls().contains_key(#[trigger] declarations@[k]) by {
                assert(declarations@.contains(declarations@[k]));
                let i = choose|i: int| 0 <= i < definitions@.len() && (#[trigger] g.def_decl()[definitions@[i]]).value == declarations@[k];
                assert(declared(&g, definitions@[i]));
            }
        }
        builder.write_decl_nodes(&declarations);
        push_char(&mut builder.output, '\n');

        builder.write_defines_edges(&documents);
        push_char(&mut builder.output, '\n');
        builder.write_declares_edges(&definitions);
        push_char(&mut builder.output, '\n');
        builder.write_contains_edges(Ghost(documents@), &listed_ids, &definitions);
        push_char(&mut builder.output, '\n');
        builder.write_inherits_edges(&decl_ids, Ghost(declarations@), &definitions);
        push_char(&mut builder.output, '\n');
        builder.write_mixin_edges(&decl_ids, Ghost(declarations@), &definitions);
        push_char(&mut builder.output, '\n');
        builder.write_owns_edges(&decl_ids, &declarations);
        builder.writeln("}");
        proof {
            assert(builder.text() =~= dot_text(&g, documents@, definitions@, declarations@));
            assert forall|k: u64| #[trigger] definitions@.contains(k) <==> def_shown(&g, documents@, k) by {
                assert(candidates@.contains(k) <==> listed_ids@.contains(k));
                assert(listed_ids@.contains(k) <==> listed(&g, documents@, k));
            }
            assert(dot_layout(&g, show_builtins, documents@, definitions@, declarations@));
        }
        builder.output
    }
}

} // verus!