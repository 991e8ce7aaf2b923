use rubydex::graph::Graph;
use rubydex::graph_indexes::GeneratedMethodCopies;
use rubydex::ids::{DeclarationId, DefinitionId, StringId, UriId};
use rubydex::model::{Ancestor, DeclarationKind, Definition, DefinitionFlags, DefinitionKind, Visibility};
use rubydex::offset::Offset;
use rubydex::resolution::{ModuleFunctionSourceKind, Resolver};

const PLAIN: DefinitionFlags = DefinitionFlags { generated: false, singleton_method_visibility: false };

fn id(n: u64) -> DefinitionId {
    DefinitionId::new(n)
}

fn definition(n: u64, uri_id: UriId, start: u32, end: u32, kind: DefinitionKind) -> Definition {
    Definition { id: id(n), uri_id, offset: Offset::new(start, end), lexical_nesting_id: Some(id(1)), comments: Vec::new(), flags: PLAIN, kind }
}

fn method(str_id: StringId, visibility: Visibility) -> DefinitionKind {
    DefinitionKind::Method { str_id, visibility, receiver: None, signatures: vec![vec![]] }
}

fn visibility_op(str_id: StringId, visibility: Visibility) -> DefinitionKind {
    DefinitionKind::MethodVisibility { str_id, visibility }
}

/// A graph with `Object` and a namespace `name` defined by definition 1 in `uri`.
fn namespace(name: &str, kind: DeclarationKind, uri: &str) -> (Graph, DeclarationId, UriId) {
    let mut graph = Graph::new();
    let object = graph.add_declaration("Object".to_string(), DeclarationKind::Class, DeclarationId::from_str("Object"));
    let uri = graph.add_document(uri.to_string());
    let definition_kind = match kind {
        DeclarationKind::Module => DefinitionKind::Module { members: vec![], mixins: vec![] },
        _ => DefinitionKind::Class { members: vec![], superclass_ref: None, mixins: vec![] },
    };
    graph.add_definition(Definition {
        id: id(1),
        uri_id: uri,
        offset: Offset::new(0, 1000),
        lexical_nesting_id: None,
        comments: Vec::new(),
        flags: PLAIN,
        kind: definition_kind,
    });
    let owner = graph.add_declaration(name.to_string(), kind, object);
    graph.add_definition_to_declaration(owner, id(1));
    graph.set_ancestors(owner, vec![Ancestor::Complete(owner), Ancestor::Complete(object)]);
    (graph, owner, uri)
}

/// Declares method `name` of `owner` with the definitions `defs`.
fn declare(graph: &mut Graph, owner: DeclarationId, owner_name: &str, name: &str, defs: &[u64]) -> DeclarationId {
    let str_id = graph.intern_string(name.to_string());
    let decl = graph.add_declaration(format!("{owner_name}#{name}"), DeclarationKind::Method, owner);
    for def in defs {
        graph.add_definition_to_declaration(decl, id(*def));
    }
    graph.add_member(&owner, decl, str_id);
    decl
}

#[test]
fn prior_definition_in_the_same_file_is_preferred() {
    let (mut graph, owner, a) = namespace("Foo", DeclarationKind::Class, "file:///a.rb");
    let b = graph.add_document("file:///b.rb".to_string());
    let foo = graph.intern_string("foo".to_string());
    graph.add_definition(definition(2, b, 5, 9, method(foo, Visibility::Private)));
    graph.add_definition(definition(3, a, 10, 20, method(foo, Visibility::Public)));
    graph.add_definition(definition(4, a, 30, 40, visibility_op(foo, Visibility::Protected)));
    let foo_decl = declare(&mut graph, owner, "Foo", "foo", &[2, 3]);
    let resolver = Resolver::new(graph);

    assert_eq!(resolver.definition_ids_before_visibility(foo_decl, a, Offset::new(30, 40)), Some(vec![id(2), id(3)]));
    assert_eq!(resolver.method_visibility_before_visibility_definition(foo_decl, id(4)), Some(Visibility::Public));
}

#[test]
fn definitions_of_other_files_decide_without_a_prior_one_in_the_file() {
    let (mut graph, owner, a) = namespace("Foo", DeclarationKind::Class, "file:///a.rb");
    let b = graph.add_document("file:///b.rb".to_string());
    let foo = graph.intern_string("foo".to_string());
    graph.add_definition(definition(2, b, 5, 9, method(foo, Visibility::Private)));
    graph.add_definition(definition(3, a, 50, 60, method(foo, Visibility::Public)));
    graph.add_definition(definition(4, a, 30, 40, visibility_op(foo, Visibility::Protected)));
    let foo_decl = declare(&mut graph, owner, "Foo", "foo", &[2, 3]);
    let resolver = Resolver::new(graph);

    // The public definition comes after the operation in its file: only b.rb's counts.
    assert_eq!(resolver.definition_ids_before_visibility(foo_decl, a, Offset::new(30, 40)), Some(vec![id(2)]));
    assert_eq!(resolver.method_visibility_before_visibility_definition(foo_decl, id(4)), Some(Visibility::Private));
}

#[test]
fn a_method_without_earlier_definitions_is_public() {
    let (mut graph, owner, a) = namespace("Foo", DeclarationKind::Class, "file:///a.rb");
    let foo = graph.intern_string("foo".to_string());
    graph.add_definition(definition(2, a, 50, 60, method(foo, Visibility::Private)));
    graph.add_definition(definition(4, a, 30, 40, visibility_op(foo, Visibility::Public)));
    let foo_decl = declare(&mut graph, owner, "Foo", "foo", &[2]);
    let resolver = Resolver::new(graph);

    assert_eq!(resolver.definition_ids_before_visibility(foo_decl, a, Offset::new(30, 40)), Some(vec![]));
    assert_eq!(resolver.method_visibility_before_visibility_definition(foo_decl, id(4)), Some(Visibility::Public));
    assert!(!resolver.method_has_definition_before_visibility(foo_decl, id(4)));
}

#[test]
fn an_alias_keeps_the_visibility_of_its_target_at_the_alias() {
    let (mut graph, owner, a) = namespace("Foo", DeclarationKind::Class, "file:///a.rb");
    let foo = graph.intern_string("foo".to_string());
    let bar = graph.intern_string("bar".to_string());
    graph.add_definition(definition(2, a, 10, 20, method(foo, Visibility::Public)));
    graph.add_definition(definition(
        3,
        a,
        22,
        35,
        DefinitionKind::MethodAlias { new_name_str_id: bar, old_name_str_id: foo },
    ));
    graph.add_definition(definition(4, a, 40, 50, visibility_op(foo, Visibility::Private)));
    graph.add_definition(definition(5, a, 60, 70, visibility_op(bar, Visibility::Public)));
    let foo_decl = declare(&mut graph, owner, "Foo", "foo", &[2, 4]);
    let bar_decl = declare(&mut graph, owner, "Foo", "bar", &[3]);
    let resolver = Resolver::new(graph);

    // `private :foo` after the alias changes `foo`, not `bar`.
    assert_eq!(resolver.method_visibility_before_visibility_definition(foo_decl, id(5)), Some(Visibility::Private));
    assert_eq!(resolver.method_visibility_before_visibility_definition(bar_decl, id(5)), Some(Visibility::Public));
}

#[test]
fn module_function_copies_the_body_before_it() {
    let (mut graph, owner, a) = namespace("Foo", DeclarationKind::Module, "file:///foo.rb");
    let foo = graph.intern_string("foo".to_string());
    graph.add_definition(definition(2, a, 10, 20, method(foo, Visibility::Public)));
    graph.add_definition(definition(3, a, 30, 50, visibility_op(foo, Visibility::ModuleFunction)));
    graph.add_definition(definition(4, a, 60, 70, method(foo, Visibility::Public)));
    let foo_decl = declare(&mut graph, owner, "Foo", "foo", &[2, 4]);
    let resolver = Resolver::new(graph);

    match resolver.module_function_copy_source(foo_decl, id(3), owner, Visibility::Public) {
        Some(source) => {
            assert_eq!(source.definition_id, id(2));
            assert_eq!(source.source_kind, ModuleFunctionSourceKind::DirectMethod);
            assert_eq!(source.target_visibility, Visibility::Public);
        },
        None => panic!("the method defined before the operation is copied"),
    }
}

#[test]
fn module_function_needs_the_exact_method_name() {
    let (mut graph, owner, a) = namespace("Foo", DeclarationKind::Module, "file:///foo.rb");
    let setter = graph.intern_string("bar=".to_string());
    let plain = graph.intern_string("bar".to_string());
    graph.add_definition(definition(2, a, 10, 20, DefinitionKind::AttrWriter { str_id: setter, visibility: Visibility::Public }));
    graph.add_definition(definition(3, a, 30, 50, visibility_op(plain, Visibility::ModuleFunction)));
    declare(&mut graph, owner, "Foo", "bar=", &[2]);
    let mut resolver = Resolver::new(graph);
    resolver.resolve_method_visibilities(vec![id(3)]);
    let graph = resolver.into_graph();

    let owner_decl = graph.declaration(owner).unwrap();
    assert_eq!(owner_decl.diagnostics.len(), 1);
    assert_eq!(owner_decl.diagnostics[0].message, "undefined method `Foo#bar` for visibility change");
    assert!(graph.declaration(DeclarationId::from_str("Foo::<Foo>#bar")).is_none());
}

#[test]
fn private_applies_to_an_inherited_method() {
    let (mut graph, owner, a) = namespace("Child", DeclarationKind::Class, "file:///child.rb");
    let object = DeclarationId::from_str("Object");
    let parent = graph.add_declaration("Parent".to_string(), DeclarationKind::Class, object);
    graph.set_ancestors(owner, vec![Ancestor::Complete(owner), Ancestor::Complete(parent), Ancestor::Complete(object)]);
    let p = graph.add_document("file:///parent.rb".to_string());
    let name = graph.intern_string("inherited_method".to_string());
    graph.add_definition(definition(2, p, 10, 20, method(name, Visibility::Public)));
    graph.add_definition(definition(3, a, 30, 40, visibility_op(name, Visibility::Private)));
    declare(&mut graph, parent, "Parent", "inherited_method", &[2]);
    let resolver = Resolver::new(graph);

    assert!(matches!(
        resolver.method_visibility_resolution(owner, name, Visibility::Private, id(3)),
        rubydex::resolution::MethodVisibilityResolution::ApplyExisting
    ));
}

#[test]
fn recording_a_member_twice_keeps_the_last() {
    let (mut graph, owner, _) = namespace("Foo", DeclarationKind::Class, "file:///a.rb");
    let foo = graph.intern_string("foo".to_string());
    let bar = graph.intern_string("bar".to_string());
    let first = DeclarationId::new(100);
    let second = DeclarationId::new(200);
    let other = DeclarationId::new(300);
    graph.add_member(&owner, first, foo);
    graph.add_member(&owner, other, bar);
    graph.add_member(&owner, second, foo);

    assert_eq!(graph.declaration(owner).unwrap().members, vec![(foo, second), (bar, other)]);
}

#[test]
fn a_copy_lives_while_a_definition_requests_it() {
    let mut copies = GeneratedMethodCopies::new();
    copies.insert(id(100), id(2), id(3), DeclarationId::new(9));
    copies.attach_trigger(id(100), id(4));

    assert_eq!(copies.find(id(2), DeclarationId::new(9)), Some(id(100)));
    assert!(copies.detach_trigger(id(3)).is_empty());
    assert_eq!(copies.get(id(100)).unwrap().trigger_definition_ids, vec![4]);
    assert_eq!(copies.detach_trigger(id(4)), vec![100]);
    assert!(copies.get(id(100)).unwrap().trigger_definition_ids.is_empty());
    let removed = copies.remove(id(100)).unwrap();
    assert_eq!(removed.source_definition_id, id(2));
    assert!(copies.find(id(2), DeclarationId::new(9)).is_none());
    assert!(copies.ids_for_source(id(2)).is_empty());
}

#[test]
fn private_on_an_inherited_method_declares_it_on_the_child() {
    let (mut graph, owner, a) = namespace("Child", DeclarationKind::Class, "file:///child.rb");
    let object = DeclarationId::from_str("Object");
    let parent = graph.add_declaration("Parent".to_string(), DeclarationKind::Class, object);
    graph.set_ancestors(owner, vec![Ancestor::Complete(owner), Ancestor::Complete(parent), Ancestor::Complete(object)]);
    let p = graph.add_document("file:///parent.rb".to_string());
    let name = graph.intern_string("inherited_method".to_string());
    graph.add_definition(definition(2, p, 10, 20, method(name, Visibility::Public)));
    graph.add_definition(definition(3, a, 30, 40, visibility_op(name, Visibility::Private)));
    let parent_method = declare(&mut graph, parent, "Parent", "inherited_method", &[2]);
    let mut resolver = Resolver::new(graph);
    resolver.resolve_method_visibilities(vec![id(3)]);
    let graph = resolver.into_graph();

    let child_method = DeclarationId::from_str("Child#inherited_method");
    let declaration = graph.declaration(child_method).unwrap();
    assert_eq!(declaration.owner_id, owner);
    assert_eq!(declaration.kind, DeclarationKind::Method);
    assert_eq!(declaration.definitions, vec![id(3)]);
    assert_eq!(graph.declaration(owner).unwrap().members, vec![(name, child_method)]);
    assert_eq!(graph.declaration(parent_method).unwrap().definitions, vec![id(2)]);
    assert_eq!(graph.definition_id_to_declaration_id(id(3)), Some(child_method));
}
