use rubydex::graph::Graph;
use rubydex::graph_indexes::MethodVisibilityDependencyKey;
use rubydex::ids::{DeclarationId, DefinitionId, NameId, StringId, UriId};
use rubydex::model::{
    Ancestor, Comment, DeclarationKind, Definition, DefinitionFlags, DefinitionKind, Parameter, ParameterStruct, Receiver, Rule, Unit,
    Visibility,
};
use rubydex::offset::Offset;
use rubydex::resolution::{MethodVisibilityResolution, ModuleFunctionSourceKind, Resolver};

const PLAIN: DefinitionFlags = DefinitionFlags { generated: false, singleton_method_visibility: false };

fn id(n: u64) -> DefinitionId {
    DefinitionId::new(n)
}

fn definition(n: u64, uri_id: UriId, start: u32, end: u32, nesting: Option<u64>, kind: DefinitionKind) -> Definition {
    Definition {
        id: id(n),
        uri_id,
        offset: Offset::new(start, end),
        lexical_nesting_id: nesting.map(id),
        comments: Vec::new(),
        flags: PLAIN,
        kind,
    }
}

fn method(str_id: StringId, visibility: Visibility) -> DefinitionKind {
    DefinitionKind::Method { str_id, visibility, receiver: None, signatures: vec![vec![]] }
}

fn visibility_op(str_id: StringId, visibility: Visibility) -> DefinitionKind {
    DefinitionKind::MethodVisibility { str_id, visibility }
}

/// A graph with `Object` and a namespace `name` (of `kind`) defined by definition 1 in `uri`.
struct Fixture {
    graph: Graph,
    object: DeclarationId,
    owner: DeclarationId,
    uri: UriId,
}

fn fixture(name: &str, kind: DeclarationKind, uri: &str, members: Vec<u64>) -> Fixture {
    let mut graph = Graph::new();
    let object = graph.add_declaration("Object".to_string(), DeclarationKind::Class, DeclarationId::from_str("Object"));
    let uri = graph.add_document(uri.to_string());
    let members: Vec<DefinitionId> = members.into_iter().map(id).collect();
    let namespace_kind = match kind {
        DeclarationKind::Module => DefinitionKind::Module { members, mixins: vec![] },
        _ => DefinitionKind::Class { members, superclass_ref: None, mixins: vec![] },
    };
    graph.add_definition(definition(1, uri, 0, 1000, None, namespace_kind));
    let owner = graph.add_declaration(name.to_string(), kind, object);
    graph.add_definition_to_declaration(owner, id(1));
    let name_str = graph.intern_string(name.to_string());
    graph.add_member(&object, owner, name_str);
    graph.set_ancestors(owner, vec![Ancestor::Complete(owner), Ancestor::Complete(object)]);
    Fixture { graph, object, owner, uri }
}

/// Declares the method member `name` of `owner` with definition `def`.
fn declare_method(graph: &mut Graph, owner: DeclarationId, owner_name: &str, name: &str, def: u64) -> (DeclarationId, StringId) {
    let str_id = graph.intern_string(name.to_string());
    let decl = graph.add_declaration(format!("{owner_name}#{name}"), DeclarationKind::Method, owner);
    graph.add_definition_to_declaration(decl, id(def));
    graph.add_member(&owner, decl, str_id);
    (decl, str_id)
}

#[test]
fn private_applies_to_an_earlier_method() {
    let mut f = fixture("Foo", DeclarationKind::Class, "file:///foo.rb", vec![2, 3]);
    let foo_str = f.graph.intern_string("foo".to_string());
    f.graph.add_definition(definition(2, f.uri, 10, 20, Some(1), method(foo_str, Visibility::Public)));
    f.graph.add_definition(definition(3, f.uri, 30, 42, Some(1), visibility_op(foo_str, Visibility::Private)));
    let (foo_foo, _) = declare_method(&mut f.graph, f.owner, "Foo", "foo", 2);

    let mut resolver = Resolver::new(f.graph);
    resolver.resolve_method_visibilities(vec![id(3)]);
    let graph = resolver.into_graph();

    assert_eq!(graph.declaration(foo_foo).unwrap().definitions, vec![id(2), id(3)]);
    assert_eq!(graph.definition_id_to_declaration_id(id(3)), Some(foo_foo));
    assert_eq!(graph.applied_method_visibilities().visibility_ids_for(f.owner, foo_str), vec![3]);
    assert!(graph.unresolved_method_visibilities().key_of(id(3)).is_none());
    assert!(graph.declaration(f.owner).unwrap().diagnostics.is_empty());
}

#[test]
fn private_before_the_method_in_the_same_file_is_reported() {
    let mut f = fixture("Foo", DeclarationKind::Class, "file:///foo.rb", vec![2, 3]);
    let foo_str = f.graph.intern_string("foo".to_string());
    f.graph.add_definition(definition(3, f.uri, 5, 8, Some(1), visibility_op(foo_str, Visibility::Private)));
    f.graph.add_definition(definition(2, f.uri, 10, 20, Some(1), method(foo_str, Visibility::Public)));
    declare_method(&mut f.graph, f.owner, "Foo", "foo", 2);

    let mut resolver = Resolver::new(f.graph);
    resolver.resolve_method_visibilities(vec![id(3)]);
    let mut graph = resolver.into_graph();

    let owner = graph.declaration(f.owner).unwrap();
    assert_eq!(owner.diagnostics.len(), 1);
    assert_eq!(owner.diagnostics[0].rule, Rule::UndefinedMethodVisibilityTarget);
    assert_eq!(owner.diagnostics[0].message, "undefined method `Foo#foo` for visibility change");
    assert_eq!(owner.diagnostics[0].offset, Offset::new(5, 8));
    assert_eq!(
        graph.unresolved_method_visibilities().key_of(id(3)),
        Some(MethodVisibilityDependencyKey { owner_id: f.owner, str_id: foo_str })
    );
    assert!(graph.take_work().is_empty());
}

#[test]
fn private_targets_a_method_of_another_file() {
    let mut f = fixture("Foo", DeclarationKind::Class, "file:///a.rb", vec![3]);
    let foo_str = f.graph.intern_string("foo".to_string());
    let other = f.graph.add_document("file:///b.rb".to_string());
    f.graph.add_definition(definition(2, other, 50, 60, Some(1), method(foo_str, Visibility::Public)));
    f.graph.add_definition(definition(3, f.uri, 5, 8, Some(1), visibility_op(foo_str, Visibility::Protected)));
    let (foo_foo, _) = declare_method(&mut f.graph, f.owner, "Foo", "foo", 2);

    let mut resolver = Resolver::new(f.graph);
    resolver.resolve_method_visibilities(vec![id(3)]);
    let graph = resolver.into_graph();

    assert_eq!(graph.declaration(foo_foo).unwrap().definitions, vec![id(2), id(3)]);
    assert!(graph.declaration(f.owner).unwrap().diagnostics.is_empty());
}

#[test]
fn unresolved_ancestor_requeues_the_operation() {
    let mut f = fixture("Foo", DeclarationKind::Class, "file:///foo.rb", vec![3]);
    let foo_str = f.graph.intern_string("foo".to_string());
    f.graph.add_definition(definition(3, f.uri, 30, 42, Some(1), visibility_op(foo_str, Visibility::Private)));
    f.graph.set_ancestors(f.owner, vec![Ancestor::Complete(f.owner), Ancestor::Partial(NameId::from_str("Bar"))]);

    let mut resolver = Resolver::new(f.graph);
    assert!(matches!(
        resolver.method_visibility_resolution(f.owner, foo_str, Visibility::Private, id(3)),
        MethodVisibilityResolution::RetryPartial
    ));
    resolver.resolve_method_visibilities(vec![id(3), id(3)]);
    let mut graph = resolver.into_graph();

    assert_eq!(graph.take_work(), vec![Unit::Definition(id(3))]);
    assert!(graph.declaration(f.owner).unwrap().diagnostics.is_empty());
}

#[test]
fn retry_does_not_need_the_member_name() {
    let mut f = fixture("Foo", DeclarationKind::Class, "file:///foo.rb", vec![3]);
    let foo_str = StringId::from_str("foo");
    f.graph.add_definition(definition(3, f.uri, 30, 42, Some(1), visibility_op(foo_str, Visibility::Private)));
    f.graph.set_ancestors(f.owner, vec![Ancestor::Complete(f.owner), Ancestor::Partial(NameId::from_str("Bar"))]);

    let mut resolver = Resolver::new(f.graph);
    resolver.resolve_method_visibilities(vec![id(3)]);
    let mut graph = resolver.into_graph();

    assert!(graph.string(foo_str).is_none());
    assert_eq!(graph.take_work(), vec![Unit::Definition(id(3))]);
}

#[test]
fn missing_target_without_member_name_is_left_as_is() {
    let mut f = fixture("Foo", DeclarationKind::Class, "file:///foo.rb", vec![3]);
    let foo_str = StringId::from_str("foo");
    f.graph.add_definition(definition(3, f.uri, 30, 42, Some(1), visibility_op(foo_str, Visibility::Private)));

    let mut resolver = Resolver::new(f.graph);
    resolver.resolve_method_visibilities(vec![id(3)]);
    let mut graph = resolver.into_graph();

    assert!(graph.declaration(f.owner).unwrap().diagnostics.is_empty());
    assert!(graph.unresolved_method_visibilities().key_of(id(3)).is_none());
    assert!(graph.take_work().is_empty());
}

#[test]
fn resolution_outcomes() {
    let mut f = fixture("Foo", DeclarationKind::Class, "file:///foo.rb", vec![2, 3]);
    let foo_str = f.graph.intern_string("foo".to_string());
    let bar_str = f.graph.intern_string("bar".to_string());
    f.graph.add_definition(definition(2, f.uri, 10, 20, Some(1), method(foo_str, Visibility::Public)));
    f.graph.add_definition(definition(3, f.uri, 30, 42, Some(1), visibility_op(foo_str, Visibility::Private)));
    let (foo_foo, _) = declare_method(&mut f.graph, f.owner, "Foo", "foo", 2);
    let resolver = Resolver::new(f.graph);

    assert!(matches!(
        resolver.method_visibility_resolution(f.owner, foo_str, Visibility::Private, id(3)),
        MethodVisibilityResolution::ApplyExisting
    ));
    assert!(matches!(
        resolver.method_visibility_resolution(f.owner, bar_str, Visibility::Private, id(3)),
        MethodVisibilityResolution::Missing
    ));
    assert!(matches!(
        resolver.method_visibility_resolution(foo_foo, foo_str, Visibility::Private, id(3)),
        MethodVisibilityResolution::Skip
    ));
    assert!(matches!(
        resolver.method_visibility_resolution(f.object, foo_str, Visibility::Private, id(3)),
        MethodVisibilityResolution::Missing
    ));
}

#[test]
fn definitions_before_put_other_files_first() {
    let mut f = fixture("Foo", DeclarationKind::Class, "file:///c.rb", vec![]);
    let foo_str = f.graph.intern_string("foo".to_string());
    let a = f.graph.add_document("file:///a.rb".to_string());
    let b = f.graph.add_document("file:///b.rb".to_string());
    f.graph.add_definition(definition(10, b, 5, 9, None, method(foo_str, Visibility::Public)));
    f.graph.add_definition(definition(11, f.uri, 50, 60, None, method(foo_str, Visibility::Public)));
    f.graph.add_definition(definition(12, f.uri, 1, 4, None, method(foo_str, Visibility::Public)));
    f.graph.add_definition(definition(13, a, 5, 9, None, method(foo_str, Visibility::Public)));
    let (foo_foo, _) = declare_method(&mut f.graph, f.owner, "Foo", "foo", 10);
    for def in [11, 12, 13] {
        f.graph.add_definition_to_declaration(foo_foo, id(def));
    }
    let resolver = Resolver::new(f.graph);

    let before = resolver.definition_ids_before_visibility(foo_foo, f.uri, Offset::new(10, 20)).unwrap();
    assert_eq!(before, vec![id(13), id(10), id(12)]);
    assert!(resolver.definition_ids_before_visibility(DeclarationId::new(7), f.uri, Offset::new(10, 20)).is_none());
    assert!(resolver.method_has_definition_before_visibility(foo_foo, id(10)));
}

#[test]
fn visibility_before_follows_later_operations() {
    let mut f = fixture("Foo", DeclarationKind::Class, "file:///foo.rb", vec![2, 3, 4, 5]);
    let foo_str = f.graph.intern_string("foo".to_string());
    f.graph.add_definition(definition(2, f.uri, 10, 20, Some(1), method(foo_str, Visibility::Public)));
    f.graph.add_definition(definition(3, f.uri, 30, 42, Some(1), visibility_op(foo_str, Visibility::Private)));
    f.graph.add_definition(definition(4, f.uri, 25, 26, Some(1), visibility_op(foo_str, Visibility::Public)));
    f.graph.add_definition(definition(5, f.uri, 50, 60, Some(1), visibility_op(foo_str, Visibility::ModuleFunction)));
    let (foo_foo, _) = declare_method(&mut f.graph, f.owner, "Foo", "foo", 2);
    f.graph.add_definition_to_declaration(foo_foo, id(3));
    let resolver = Resolver::new(f.graph);

    // Before `private :foo` the method is public; at the later operation it is private.
    assert_eq!(resolver.method_visibility_before_visibility_definition(foo_foo, id(4)), Some(Visibility::Public));
    assert_eq!(resolver.method_visibility_before_visibility_definition(foo_foo, id(5)), Some(Visibility::Private));
    assert_eq!(resolver.method_visibility_before_visibility_definition(foo_foo, id(99)), None);
}

#[test]
fn module_function_copies_a_direct_method() {
    let mut f = fixture("Foo", DeclarationKind::Module, "file:///foo.rb", vec![2, 3]);
    let foo_str = f.graph.intern_string("foo".to_string());
    let x_str = f.graph.intern_string("x".to_string());
    let signature = vec![vec![Parameter::RequiredPositional(ParameterStruct::new(Offset::new(16, 17), x_str))]];
    f.graph.add_definition(definition(
        2,
        f.uri,
        10,
        20,
        Some(1),
        DefinitionKind::Method { str_id: foo_str, visibility: Visibility::Public, receiver: None, signatures: signature.clone() },
    ));
    f.graph.add_definition(definition(3, f.uri, 30, 50, Some(1), visibility_op(foo_str, Visibility::ModuleFunction)));
    let (foo_foo, _) = declare_method(&mut f.graph, f.owner, "Foo", "foo", 2);

    let mut resolver = Resolver::new(f.graph);
    match resolver.module_function_copy_source(foo_foo, id(3), f.owner, Visibility::Public) {
        Some(source) => {
            assert_eq!(source.definition_id, id(2));
            assert_eq!(source.source_kind, ModuleFunctionSourceKind::DirectMethod);
            assert!(source.alias_definition_ids.is_empty());
        },
        None => panic!("expected a copy source"),
    }
    resolver.resolve_method_visibilities(vec![id(3)]);
    let graph = resolver.into_graph();

    // The instance method keeps the operation; the singleton class gets a public copy.
    assert_eq!(graph.declaration(foo_foo).unwrap().definitions, vec![id(2), id(3)]);
    let singleton = DeclarationId::from_str("Foo::<Foo>");
    let singleton_decl = graph.declaration(singleton).unwrap();
    assert_eq!(singleton_decl.kind, DeclarationKind::SingletonClass);
    let copy_decl_id = DeclarationId::from_str("Foo::<Foo>#foo");
    assert_eq!(singleton_decl.members, vec![(foo_str, copy_decl_id)]);
    let copy_decl = graph.declaration(copy_decl_id).unwrap();
    assert_eq!(copy_decl.definitions.len(), 1);
    let copy_id = copy_decl.definitions[0];
    assert_eq!(graph.find_module_function_copy(id(2), copy_decl_id), Some(copy_id));
    let copy = graph.definition(copy_id).unwrap();
    assert_eq!(copy.offset, Offset::new(10, 20));
    assert_eq!(copy.lexical_nesting_id, Some(id(1)));
    assert!(!copy.flags.generated);
    match &copy.kind {
        DefinitionKind::Method { str_id, visibility, receiver, signatures } => {
            assert_eq!(*str_id, foo_str);
            assert_eq!(*visibility, Visibility::Public);
            assert_eq!(*receiver, Some(Receiver::SelfReceiver(id(1))));
            assert_eq!(*signatures, signature);
        },
        _ => panic!("a copy is a method"),
    }
}

#[test]
fn module_function_copy_keeps_the_comments() {
    let mut f = fixture("Foo", DeclarationKind::Module, "file:///foo.rb", vec![2, 3]);
    let foo_str = f.graph.intern_string("foo".to_string());
    let mut source = definition(2, f.uri, 10, 20, Some(1), method(foo_str, Visibility::Public));
    source.comments = vec![
        Comment { offset: Offset::new(0, 5), text: "# One".to_string() },
        Comment { offset: Offset::new(6, 11), text: "# Two".to_string() },
    ];
    f.graph.add_definition(source);
    f.graph.add_definition(definition(3, f.uri, 30, 50, Some(1), visibility_op(foo_str, Visibility::ModuleFunction)));
    declare_method(&mut f.graph, f.owner, "Foo", "foo", 2);

    let mut resolver = Resolver::new(f.graph);
    resolver.resolve_method_visibilities(vec![id(3)]);
    let graph = resolver.into_graph();

    let copy_decl = graph.declaration(DeclarationId::from_str("Foo::<Foo>#foo")).unwrap();
    assert_eq!(copy_decl.definitions.len(), 1);
    let copy = graph.definition(copy_decl.definitions[0]).unwrap();
    assert_eq!(copy.comments.len(), 2);
    assert_eq!(copy.comments[0].offset, Offset::new(0, 5));
    assert_eq!(copy.comments[0].text, "# One");
    assert_eq!(copy.comments[1].offset, Offset::new(6, 11));
    assert_eq!(copy.comments[1].text, "# Two");
}

#[test]
fn module_function_on_an_alias_installs_both_copies() {
    let mut f = fixture("Foo", DeclarationKind::Module, "file:///foo.rb", vec![2, 3, 4]);
    let foo_str = f.graph.intern_string("foo".to_string());
    let bar_str = f.graph.intern_string("bar".to_string());
    f.graph.add_definition(definition(2, f.uri, 10, 20, Some(1), method(foo_str, Visibility::Public)));
    f.graph.add_definition(definition(
        3,
        f.uri,
        22,
        35,
        Some(1),
        DefinitionKind::MethodAlias { new_name_str_id: bar_str, old_name_str_id: foo_str },
    ));
    f.graph.add_definition(definition(4, f.uri, 40, 60, Some(1), visibility_op(bar_str, Visibility::ModuleFunction)));
    declare_method(&mut f.graph, f.owner, "Foo", "foo", 2);
    let (foo_bar, _) = declare_method(&mut f.graph, f.owner, "Foo", "bar", 3);

    let mut resolver = Resolver::new(f.graph);
    match resolver.module_function_copy_source(foo_bar, id(4), f.owner, Visibility::Public) {
        Some(source) => {
            assert_eq!(source.definition_id, id(2));
            assert_eq!(source.source_kind, ModuleFunctionSourceKind::DirectAlias);
            assert_eq!(source.alias_definition_ids, vec![id(3)]);
        },
        None => panic!("expected a copy source"),
    }
    resolver.resolve_method_visibilities(vec![id(4)]);
    let graph = resolver.into_graph();

    // A private generated instance copy joins `Foo#bar`; a public copy lands on the singleton.
    let bar_decl = graph.declaration(foo_bar).unwrap();
    assert_eq!(bar_decl.definitions.len(), 2);
    let instance_copy = graph.definition(bar_decl.definitions[1]).unwrap();
    assert!(instance_copy.flags.generated);
    assert!(matches!(instance_copy.kind, DefinitionKind::Method { visibility: Visibility::Private, receiver: None, .. }));
    let singleton_copy = graph.declaration(DeclarationId::from_str("Foo::<Foo>#bar")).unwrap();
    assert_eq!(singleton_copy.definitions.len(), 1);
    assert_ne!(singleton_copy.definitions[0], bar_decl.definitions[1]);
}

#[test]
fn module_function_copies_an_attribute_writer() {
    let mut f = fixture("Foo", DeclarationKind::Module, "file:///foo.rb", vec![2, 3]);
    let setter = f.graph.intern_string("foo=".to_string());
    f.graph.add_definition(definition(
        2,
        f.uri,
        10,
        25,
        Some(1),
        DefinitionKind::AttrWriter { str_id: setter, visibility: Visibility::Public },
    ));
    f.graph.add_definition(definition(3, f.uri, 30, 50, Some(1), visibility_op(setter, Visibility::ModuleFunction)));
    declare_method(&mut f.graph, f.owner, "Foo", "foo=", 2);

    let mut resolver = Resolver::new(f.graph);
    resolver.resolve_method_visibilities(vec![id(3)]);
    let graph = resolver.into_graph();

    let copy_decl = graph.declaration(DeclarationId::from_str("Foo::<Foo>#foo=")).unwrap();
    let copy = graph.definition(copy_decl.definitions[0]).unwrap();
    let arg = StringId::from_str("__rubydex_arg0");
    match &copy.kind {
        DefinitionKind::Method { signatures, .. } => {
            assert_eq!(*signatures, vec![vec![Parameter::RequiredPositional(ParameterStruct::new(Offset::new(10, 25), arg))]]);
        },
        _ => panic!("a copy is a method"),
    }
    assert_eq!(graph.string(arg).unwrap(), "__rubydex_arg0");
}

#[test]
fn module_function_without_a_method_is_reported() {
    let mut f = fixture("Foo", DeclarationKind::Module, "file:///foo.rb", vec![3]);
    let foo_str = f.graph.intern_string("foo".to_string());
    f.graph.add_definition(definition(3, f.uri, 30, 50, Some(1), visibility_op(foo_str, Visibility::ModuleFunction)));

    let mut resolver = Resolver::new(f.graph);
    resolver.resolve_method_visibilities(vec![id(3)]);
    let graph = resolver.into_graph();

    let owner = graph.declaration(f.owner).unwrap();
    assert_eq!(owner.diagnostics.len(), 1);
    assert_eq!(owner.diagnostics[0].message, "undefined method `Foo#foo` for visibility change");
}

#[test]
fn removing_the_operation_removes_its_copies() {
    let mut f = fixture("Foo", DeclarationKind::Module, "file:///foo.rb", vec![2, 3]);
    let foo_str = f.graph.intern_string("foo".to_string());
    f.graph.add_definition(definition(2, f.uri, 10, 20, Some(1), method(foo_str, Visibility::Public)));
    f.graph.add_definition(definition(3, f.uri, 30, 50, Some(1), visibility_op(foo_str, Visibility::ModuleFunction)));
    declare_method(&mut f.graph, f.owner, "Foo", "foo", 2);
    let mut resolver = Resolver::new(f.graph);
    resolver.resolve_method_visibilities(vec![id(3)]);
    let mut graph = resolver.into_graph();
    let copy_decl_id = DeclarationId::from_str("Foo::<Foo>#foo");
    let copy_id = graph.declaration(copy_decl_id).unwrap().definitions[0];

    let work = graph.remove_method_visibility_side_effects(id(3));

    assert!(work.is_empty());
    assert!(graph.definition(copy_id).is_none());
    assert!(graph.find_module_function_copy(id(2), copy_decl_id).is_none());
    assert!(graph.declaration(copy_decl_id).unwrap().definitions.is_empty());
    assert!(graph.definition_id_to_declaration_id(copy_id).is_none());
}

#[test]
fn removing_the_source_removes_its_copies() {
    let mut f = fixture("Foo", DeclarationKind::Module, "file:///foo.rb", vec![2, 3]);
    let foo_str = f.graph.intern_string("foo".to_string());
    f.graph.add_definition(definition(2, f.uri, 10, 20, Some(1), method(foo_str, Visibility::Public)));
    f.graph.add_definition(definition(3, f.uri, 30, 50, Some(1), visibility_op(foo_str, Visibility::ModuleFunction)));
    declare_method(&mut f.graph, f.owner, "Foo", "foo", 2);
    let mut resolver = Resolver::new(f.graph);
    resolver.resolve_method_visibilities(vec![id(3)]);
    let mut graph = resolver.into_graph();
    let copy_decl_id = DeclarationId::from_str("Foo::<Foo>#foo");
    let copy_id = graph.declaration(copy_decl_id).unwrap().definitions[0];

    let work = graph.remove_module_function_copies_for_source(id(2));

    assert_eq!(work, vec![id(3)]);
    assert!(graph.definition(copy_id).is_none());
    assert!(graph.module_function_copies().get(copy_id).is_none());
}

#[test]
fn ordered_visibility_ids_follow_program_order() {
    let mut f = fixture("Foo", DeclarationKind::Class, "file:///b.rb", vec![]);
    let foo_str = f.graph.intern_string("foo".to_string());
    let a = f.graph.add_document("file:///a.rb".to_string());
    f.graph.add_definition(definition(5, f.uri, 30, 40, None, visibility_op(foo_str, Visibility::Private)));
    f.graph.add_definition(definition(6, f.uri, 10, 20, None, visibility_op(foo_str, Visibility::Private)));
    f.graph.add_definition(definition(7, a, 90, 95, None, visibility_op(foo_str, Visibility::Private)));
    let resolver = Resolver::new(f.graph);

    let ordered = resolver.ordered_visibility_ids(&vec![id(5), id(6), id(42), id(7), id(5)]);
    assert_eq!(ordered, vec![id(7), id(6), id(5)]);
}

#[test]
fn source_kind_rules() {
    assert_eq!(ModuleFunctionSourceKind::new(true, false), ModuleFunctionSourceKind::DirectMethod);
    assert_eq!(ModuleFunctionSourceKind::new(true, true), ModuleFunctionSourceKind::DirectAlias);
    assert_eq!(ModuleFunctionSourceKind::new(false, false), ModuleFunctionSourceKind::InheritedMethod);
    assert_eq!(ModuleFunctionSourceKind::new(false, true), ModuleFunctionSourceKind::InheritedAlias);

    assert!(!ModuleFunctionSourceKind::DirectMethod.should_create_instance_copy(Visibility::Public));
    assert!(ModuleFunctionSourceKind::DirectAlias.should_create_instance_copy(Visibility::Private));
    assert!(ModuleFunctionSourceKind::InheritedMethod.should_create_instance_copy(Visibility::Protected));
    assert!(!ModuleFunctionSourceKind::InheritedAlias.should_create_instance_copy(Visibility::Private));

    assert!(ModuleFunctionSourceKind::DirectMethod.is_direct_method());
    assert!(!ModuleFunctionSourceKind::DirectMethod.should_track_ancestor_dependency(false));
    assert!(ModuleFunctionSourceKind::InheritedMethod.should_track_ancestor_dependency(false));
    assert!(!ModuleFunctionSourceKind::InheritedMethod.should_track_ancestor_dependency(true));
}

#[test]
fn singleton_class_and_member_names() {
    let f = fixture("Foo", DeclarationKind::Class, "file:///foo.rb", vec![]);
    let mut graph = f.graph;
    let bar_str = graph.intern_string("bar".to_string());
    let mut resolver = Resolver::new(graph);
    assert_eq!(resolver.member_fully_qualified_name(f.owner, bar_str), "Foo#bar");
    let singleton = resolver.get_or_create_singleton_class(f.owner).unwrap();
    assert_eq!(singleton, DeclarationId::from_str("Foo::<Foo>"));
    assert_eq!(resolver.get_or_create_singleton_class(f.owner), Some(singleton));
    assert_eq!(resolver.graph().declaration(singleton).unwrap().owner_id, f.owner);
    let method_decl = DeclarationId::from_str("Foo#bar");
    assert!(resolver.get_or_create_singleton_class(method_decl).is_none());
    assert_eq!(resolver.resolve_lexical_owner(None), Some(f.object));
    assert_eq!(resolver.resolve_lexical_owner(Some(id(1))), Some(f.owner));
    assert_eq!(resolver.resolve_lexical_owner(Some(id(77))), None);
}
