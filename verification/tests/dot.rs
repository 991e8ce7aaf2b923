use rubydex::dot::DotBuilder;
use rubydex::graph::Graph;
use rubydex::ids::{DeclarationId, DefinitionId, NameId, StringId, UriId};
use rubydex::model::{DeclarationKind, Definition, DefinitionFlags, DefinitionKind, Mixin};
use rubydex::offset::Offset;
use rubydex::references::ConstantReference;

const FLAGS: DefinitionFlags = DefinitionFlags { generated: false, singleton_method_visibility: false };

fn definition(id: u64, uri_id: UriId, start: u32, nesting: Option<DefinitionId>, kind: DefinitionKind) -> Definition {
    Definition {
        id: DefinitionId::new(id),
        uri_id,
        offset: Offset::new(start, start + 10),
        lexical_nesting_id: nesting,
        comments: Vec::new(),
        flags: FLAGS,
        kind,
    }
}

fn class(members: Vec<DefinitionId>, superclass: Option<rubydex::ids::ConstantReferenceId>, mixins: Vec<Mixin>) -> DefinitionKind {
    DefinitionKind::Class { members, superclass_ref: superclass, mixins }
}

fn module(members: Vec<DefinitionId>, mixins: Vec<Mixin>) -> DefinitionKind {
    DefinitionKind::Module { members, mixins }
}

/// Declares `name` under `owner` and attaches definition `def`; records it as a member.
fn declare(graph: &mut Graph, name: &str, kind: DeclarationKind, owner: DeclarationId, member_name: &str, def: u64) -> DeclarationId {
    let id = graph.add_declaration(name.to_string(), kind, owner);
    graph.add_definition_to_declaration(id, DefinitionId::new(def));
    let str_id: StringId = graph.intern_string(member_name.to_string());
    graph.add_member(&owner, id, str_id);
    id
}

/// A reference to the constant `name`, resolved to `target`.
fn reference(graph: &mut Graph, name: &str, uri_id: UriId, start: u32, target: DeclarationId) -> rubydex::ids::ConstantReferenceId {
    let name_id = NameId::from_str(name);
    let id = graph.add_constant_reference(ConstantReference::new(name_id, uri_id, Offset::new(start, start + 4)));
    graph.resolve_name(name_id, target);
    id
}

fn graph_with_object() -> (Graph, DeclarationId) {
    let mut graph = Graph::new();
    let object = graph.add_declaration("Object".to_string(), DeclarationKind::Class, DeclarationId::from_str("Object"));
    (graph, object)
}

#[test]
fn test_dot_generation() {
    let (mut graph, object) = graph_with_object();
    let uri = graph.add_document("file:///test.rb".to_string());
    graph.add_definition(definition(1, uri, 0, None, class(vec![], None, vec![])));
    graph.add_definition(definition(2, uri, 20, None, module(vec![], vec![])));
    declare(&mut graph, "TestClass", DeclarationKind::Class, object, "TestClass", 1);
    declare(&mut graph, "TestModule", DeclarationKind::Module, object, "TestModule", 2);
    let object_uri = graph.add_document("rubydex:built-in".to_string());
    graph.add_definition(definition(3, object_uri, 0, None, class(vec![], None, vec![])));
    graph.add_definition_to_declaration(object, DefinitionId::new(3));

    let dot_output = DotBuilder::generate(&graph, true);

    assert!(dot_output.contains("digraph rubydex"));

    // Document nodes
    assert!(dot_output.contains("Document"));
    assert!(dot_output.contains("test.rb"));

    // Definition nodes
    assert!(dot_output.contains("ClassDef"));
    assert!(dot_output.contains("ModuleDef"));

    // Declaration nodes
    assert!(dot_output.contains("ClassDecl"));
    assert!(dot_output.contains("ModuleDecl"));

    // Edges
    assert!(dot_output.contains("defines"));
    assert!(dot_output.contains("declares"));
    assert!(dot_output.contains("owns"));
}

#[test]
fn test_dot_nesting_edges() {
    let (mut graph, object) = graph_with_object();
    let uri = graph.add_document("file:///test.rb".to_string());
    graph.add_definition(definition(1, uri, 0, None, module(vec![DefinitionId::new(2)], vec![])));
    graph.add_definition(definition(2, uri, 20, Some(DefinitionId::new(1)), class(vec![], None, vec![])));
    let outer = declare(&mut graph, "Outer", DeclarationKind::Module, object, "Outer", 1);
    declare(&mut graph, "Outer::Inner", DeclarationKind::Class, outer, "Inner", 2);

    let dot_output = DotBuilder::generate(&graph, false);
    assert!(dot_output.contains("contains"));
}

#[test]
fn test_dot_superclass_edges() {
    let (mut graph, object) = graph_with_object();
    let uri = graph.add_document("file:///test.rb".to_string());
    let parent = graph.add_declaration("Parent".to_string(), DeclarationKind::Class, object);
    let superclass = reference(&mut graph, "Parent", uri, 40, parent);
    graph.add_definition(definition(1, uri, 0, None, class(vec![], None, vec![])));
    graph.add_definition(definition(2, uri, 30, None, class(vec![], Some(superclass), vec![])));
    declare(&mut graph, "Parent", DeclarationKind::Class, object, "Parent", 1);
    declare(&mut graph, "Child", DeclarationKind::Class, object, "Child", 2);

    let dot_output = DotBuilder::generate(&graph, false);
    assert!(dot_output.contains("inherits"));
}

#[test]
fn test_dot_mixin_edges() {
    let (mut graph, object) = graph_with_object();
    let uri = graph.add_document("file:///test.rb".to_string());
    let mixin = graph.add_declaration("Mixin".to_string(), DeclarationKind::Module, object);
    let mixin_ref = reference(&mut graph, "Mixin", uri, 50, mixin);
    graph.add_definition(definition(1, uri, 0, None, module(vec![], vec![])));
    graph.add_definition(definition(2, uri, 30, None, class(vec![], None, vec![Mixin::Include(mixin_ref)])));
    declare(&mut graph, "Mixin", DeclarationKind::Module, object, "Mixin", 1);
    declare(&mut graph, "Klass", DeclarationKind::Class, object, "Klass", 2);

    let dot_output = DotBuilder::generate(&graph, false);
    assert!(dot_output.contains("includes"));
}

#[test]
fn test_dot_reopened_builtin_not_hidden() {
    let (mut graph, object) = graph_with_object();
    let builtin = graph.add_document("rubydex:built-in".to_string());
    graph.add_definition(definition(9, builtin, 0, None, class(vec![], None, vec![])));
    graph.add_definition_to_declaration(object, DefinitionId::new(9));
    let uri = graph.add_document("file:///test.rb".to_string());
    let test_str = graph.intern_string("test".to_string());
    graph.add_definition(definition(1, uri, 0, None, class(vec![DefinitionId::new(2)], None, vec![])));
    graph.add_definition(definition(
        2,
        uri,
        15,
        Some(DefinitionId::new(1)),
        DefinitionKind::Method {
            str_id: test_str,
            visibility: rubydex::model::Visibility::Public,
            receiver: None,
            signatures: vec![vec![]],
        },
    ));
    graph.add_definition_to_declaration(object, DefinitionId::new(1));
    declare(&mut graph, "Object#test", DeclarationKind::Method, object, "test", 2);

    let dot_output = DotBuilder::generate(&graph, false);

    assert!(dot_output.contains("ClassDecl"));
    assert!(dot_output.contains("Object"));
}

#[test]
fn dot_output_is_exact_for_one_class() {
    let (mut graph, object) = graph_with_object();
    let uri = graph.add_document("file:///lib/a&b.rb".to_string());
    graph.add_definition(definition(7, uri, 0, None, class(vec![], None, vec![])));
    let a = graph.add_declaration("A<B>".to_string(), DeclarationKind::Class, object);
    graph.add_definition_to_declaration(a, DefinitionId::new(7));

    let dot_output = DotBuilder::generate(&graph, false);
    let expected = [
        "digraph rubydex {\n",
        "  rankdir=TB\n",
        "  node [fontname=\"Courier\" fontsize=10 shape=box]\n",
        "  edge [fontsize=9 fontname=\"Courier\"]\n",
        "\n",
        "  \"doc_file____lib_a_b_rb\" [label=<<table border=\"0\" cellborder=\"0\" cellspacing=\"0\" align=\"center\"><tr><td align=\"center\"><font point-size=\"8\" color=\"#4a90d9\">Document</font></td></tr><tr><td align=\"center\"><b>a&amp;b.rb</b></td></tr></table>> shape=note color=\"#4a90d9\" fillcolor=\"#dce8f5\" style=filled]\n",
        "\n",
        "  \"def_7\" [label=<<table border=\"0\" cellborder=\"0\" cellspacing=\"0\" align=\"center\"><tr><td align=\"center\"><font point-size=\"8\" color=\"#e8912d\">ClassDef</font></td></tr><tr><td align=\"center\"><b>A&lt;B&gt;</b></td></tr></table>> style=rounded color=\"#e8912d\" fillcolor=\"#fdf0e0\" style=\"rounded,filled\"]\n",
        "\n",
        "  \"decl_A_B_\" [label=<<table border=\"0\" cellborder=\"0\" cellspacing=\"0\" align=\"center\"><tr><td align=\"center\"><font point-size=\"8\" color=\"#5ba55b\">ClassDecl</font></td></tr><tr><td align=\"center\"><b>A&lt;B&gt;</b></td></tr></table>> color=\"#5ba55b\" fillcolor=\"#e0f0e0\" style=filled]\n",
        "\n",
        "  \"doc_file____lib_a_b_rb\" -> \"def_7\" [label=\"defines\" color=\"#e8912d\" fontcolor=\"#e8912d\"]\n",
        "\n",
        "  \"def_7\" -> \"decl_A_B_\" [label=\"declares\" color=\"#5ba55b\" fontcolor=\"#5ba55b\"]\n",
        "\n",
        "\n",
        "\n",
        "\n",
        "}\n",
    ]
    .join("");
    assert_eq!(dot_output, expected);
}

#[test]
fn dot_hides_builtin_document_unless_asked() {
    let (mut graph, object) = graph_with_object();
    let builtin = graph.add_document("rubydex:built-in".to_string());
    graph.add_definition(definition(9, builtin, 0, None, class(vec![], None, vec![])));
    graph.add_definition_to_declaration(object, DefinitionId::new(9));

    let hidden = DotBuilder::generate(&graph, false);
    assert!(!hidden.contains("built_in"));
    assert!(!hidden.contains("ClassDecl"));

    let shown = DotBuilder::generate(&graph, true);
    assert!(shown.contains("\"doc_rubydex_built_in\""));
    assert!(shown.contains("\"decl_Object\""));
    assert!(shown.contains("\"def_9\""));
}

#[test]
fn dot_orders_documents_by_uri_and_members_by_id() {
    let (mut graph, object) = graph_with_object();
    let b = graph.add_document("file:///b.rb".to_string());
    let a = graph.add_document("file:///a.rb".to_string());
    graph.add_definition(definition(1, b, 0, None, module(vec![], vec![])));
    graph.add_definition(definition(2, a, 0, None, module(vec![], vec![])));
    graph.add_definition(definition(3, a, 20, None, class(vec![], None, vec![])));
    graph.add_definition_to_declaration(object, DefinitionId::new(3));
    declare(&mut graph, "Zeta", DeclarationKind::Module, object, "Zeta", 1);
    declare(&mut graph, "Alpha", DeclarationKind::Module, object, "Alpha", 2);

    let out = DotBuilder::generate(&graph, false);
    let doc_a = out.find("\"doc_file____a_rb\" [").unwrap();
    let doc_b = out.find("\"doc_file____b_rb\" [").unwrap();
    assert!(doc_a < doc_b);
    // Definitions by "Kind(Name)": Class(Object) < Module(Alpha) < Module(Zeta).
    let def_3 = out.find("\"def_3\" [").unwrap();
    let def_2 = out.find("\"def_2\" [").unwrap();
    let def_1 = out.find("\"def_1\" [").unwrap();
    assert!(def_3 < def_2 && def_2 < def_1);
    // Object owns both modules, in increasing identifier order.
    let alpha = DeclarationId::from_str("Alpha");
    let zeta = DeclarationId::from_str("Zeta");
    let owns_alpha = out.find("\"decl_Object\" -> \"decl_Alpha\" [label=\"owns\"").unwrap();
    let owns_zeta = out.find("\"decl_Object\" -> \"decl_Zeta\" [label=\"owns\"").unwrap();
    assert_eq!(owns_alpha < owns_zeta, alpha.value < zeta.value);
}

#[test]
fn dot_node_ids_keep_unicode_letters_and_digits() {
    let (mut graph, object) = graph_with_object();
    let uri = graph.add_document("file:///café/ß2.rb".to_string());
    graph.add_definition(definition(4, uri, 0, None, class(vec![], None, vec![])));
    declare(&mut graph, "Café٣", DeclarationKind::Class, object, "Café٣", 4);

    let out = DotBuilder::generate(&graph, false);
    assert!(out.contains("\"doc_file____café_ß2_rb\" ["));
    assert!(out.contains("<b>ß2.rb</b>"));
    assert!(out.contains("\"decl_Café٣\" ["));
    assert!(out.contains("\"def_4\" -> \"decl_Café٣\" [label=\"declares\""));
}
