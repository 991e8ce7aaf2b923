use rubydex::graph::{Graph, VisibilityWork};
use rubydex::graph_indexes::{
    AppliedMethodVisibilities, BiMultiMap, MethodVisibilityDependencyKey, ModuleFunctionCopies, UnresolvedMethodVisibilities,
};
use rubydex::ids::{hash_string, reference_key_string, DeclarationId, DefinitionId, NameId, StringId, UriId};
use rubydex::model::{Definition, DefinitionFlags, DefinitionKind, Parameter, ParameterStruct, Visibility};
use rubydex::offset::Offset;
use rubydex::references::{ConstantReference, MethodRef};
use rubydex::signature::{collect_method_signatures, map_parameter_kind, ParameterKind};
use rubydex::text::{chars_of, decimal_string, text_equal, text_less};

fn id(n: u64) -> DefinitionId {
    DefinitionId::new(n)
}

#[test]
fn bi_multi_map_relates_both_ways() {
    let mut map = BiMultiMap::new();
    assert!(map.is_empty());
    map.insert(1, 10);
    map.insert(1, 11);
    map.insert(1, 10);
    map.insert(2, 10);
    assert_eq!(map.values_for_key(1), vec![10, 11]);
    assert_eq!(map.values_for_key(3), Vec::<u64>::new());

    assert_eq!(map.remove_value(10), vec![1, 2]);
    assert_eq!(map.values_for_key(1), vec![11]);
    assert!(map.values_for_key(2).is_empty());
    assert_eq!(map.remove_key(1), vec![11]);
    assert!(map.is_empty());
}

#[test]
fn dependency_key_packs_owner_and_member() {
    let key = MethodVisibilityDependencyKey::new(DeclarationId::new(3), StringId::new(5));
    assert_eq!(key.raw(), (3u128 << 64) | 5);
    assert_eq!(key.owner_id, DeclarationId::new(3));
    assert_eq!(key.str_id, StringId::new(5));
}

#[test]
fn applied_visibilities_by_owner_and_member() {
    let owner = DeclarationId::new(1);
    let foo = StringId::new(2);
    let bar = StringId::new(3);
    let mut applied = AppliedMethodVisibilities::new();
    applied.track(owner, foo, id(10));
    applied.track(owner, foo, id(11));
    applied.track(owner, bar, id(12));
    assert_eq!(applied.visibility_ids_for(owner, foo), vec![10, 11]);

    applied.detach(id(10));
    assert_eq!(applied.visibility_ids_for(owner, foo), vec![11]);
    assert_eq!(applied.take_for_owner_and_member(owner, foo), vec![11]);
    assert!(applied.visibility_ids_for(owner, foo).is_empty());
    assert!(!applied.is_empty());
    applied.detach(id(12));
    assert!(applied.is_empty());
}

#[test]
fn unresolved_visibilities_move_between_owners() {
    let a = DeclarationId::new(1);
    let b = DeclarationId::new(2);
    let foo = StringId::new(7);
    let mut unresolved = UnresolvedMethodVisibilities::new();
    assert_eq!(unresolved.track(a, foo, id(10)), None);
    assert_eq!(unresolved.track(a, foo, id(11)), None);
    assert_eq!(unresolved.track(b, foo, id(10)), Some(a));
    assert_eq!(unresolved.key_of(id(10)), Some(MethodVisibilityDependencyKey::new(b, foo)));

    assert_eq!(unresolved.take_for_owner(a), vec![11]);
    assert!(unresolved.key_of(id(11)).is_none());
    assert_eq!(unresolved.take_for_owner_and_member(b, foo), vec![10]);
    assert!(unresolved.is_empty());
    assert_eq!(unresolved.remove(id(10)), None);
}

#[test]
fn module_function_copies_track_their_dependencies() {
    let mut copies = ModuleFunctionCopies::new();
    copies.insert(id(100), id(2), id(3), DeclarationId::new(9));
    copies.attach_visibility(id(100), id(4));
    assert_eq!(copies.copy_ids_for_source(id(2)), vec![100]);
    assert_eq!(copies.copy_ids_for_visibility(id(4)), vec![100]);
    assert_eq!(copies.find(id(2), DeclarationId::new(9)), Some(id(100)));

    copies.track_alias_dependent_visibility(id(20), id(3));
    assert_eq!(copies.take_alias_dependent_visibility_ids_for_alias(id(20)), vec![3]);
    assert!(copies.take_alias_dependent_visibility_ids_for_alias(id(20)).is_empty());

    copies.track_ancestor_dependent_visibility(DeclarationId::new(1), StringId::new(5), id(3));
    assert!(copies.has_ancestor_dependent_visibilities());
    assert_eq!(copies.take_ancestor_dependent_visibility_ids_for_owner(DeclarationId::new(1)), vec![3]);
    assert!(!copies.has_ancestor_dependent_visibilities());

    copies.attach_document_owned_visibility(id(2), id(3));
    assert_eq!(copies.take_document_owned_visibility_ids_for_source(id(2)), vec![3]);

    assert!(copies.detach_visibility(id(3)).is_empty());
    assert_eq!(copies.detach_visibility(id(4)), vec![100]);
    let removed = copies.remove(id(100)).unwrap();
    assert_eq!(removed.declaration_id, DeclarationId::new(9));
    assert!(copies.get(id(100)).is_none());
}

#[test]
fn identifiers_hash_utf8_with_fnv1a() {
    assert_eq!(hash_string(""), 0xcbf29ce484222325);
    assert_eq!(hash_string("a"), 0xaf63dc4c8601ec8c);
    assert_eq!(DeclarationId::from_str("a"), DeclarationId::new(0xaf63dc4c8601ec8c));
    assert_eq!(DefinitionId::from_str("").get(), 0xcbf29ce484222325);
}

#[test]
fn reference_ids_hash_their_position() {
    assert_eq!(reference_key_string(7, 3, 10, 25), "7:3:10-25");
    let r = ConstantReference::new(NameId::new(7), UriId::new(3), Offset::new(10, 25));
    assert_eq!(r.id().value, hash_string("7:3:10-25"));
    assert_eq!(r.uri_id(), UriId::new(3));
    let m = MethodRef::new(StringId::new(8), UriId::new(3), Offset::new(1, 2), None);
    assert_eq!(m.id().value, hash_string("8:3:1-2"));
    assert_eq!(m.receiver(), None);
}

#[test]
fn decimal_and_text_order() {
    assert_eq!(decimal_string(0), "0");
    assert_eq!(decimal_string(1234567890), "1234567890");
    assert_eq!(decimal_string(u64::MAX), "18446744073709551615");
    assert!(text_less(&chars_of("abc"), &chars_of("abd")));
    assert!(text_less(&chars_of("ab"), &chars_of("abc")));
    assert!(!text_less(&chars_of("b"), &chars_of("abc")));
    assert!(!text_less(&chars_of("abc"), &chars_of("abc")));
    assert!(text_equal(&chars_of("é"), &chars_of("é")));
    assert_eq!(chars_of("aé"), vec!['a', 'é']);
}

#[test]
fn signatures_list_names_kinds_and_positions() {
    let mut graph = Graph::new();
    let uri = graph.add_document("file:///a.rb".to_string());
    let foo = graph.intern_string("foo".to_string());
    let x = graph.intern_string("x".to_string());
    let rest = graph.intern_string("rest".to_string());
    let blk = graph.intern_string("blk".to_string());
    let definition = Definition {
        id: id(1),
        uri_id: uri,
        offset: Offset::new(0, 40),
        lexical_nesting_id: None,
        comments: Vec::new(),
        flags: DefinitionFlags { generated: false, singleton_method_visibility: false },
        kind: DefinitionKind::Method {
            str_id: foo,
            visibility: Visibility::Public,
            receiver: None,
            signatures: vec![
                vec![
                    Parameter::RequiredPositional(ParameterStruct::new(Offset::new(8, 9), x)),
                    Parameter::RestPositional(ParameterStruct::new(Offset::new(11, 16), rest)),
                ],
                vec![Parameter::Block(ParameterStruct::new(Offset::new(20, 24), blk))],
            ],
        },
    };

    let signatures = collect_method_signatures(&graph, &definition);
    assert_eq!(signatures.len(), 2);
    assert_eq!(signatures[0].len(), 2);
    assert_eq!(signatures[0][0].name, "x");
    assert_eq!(signatures[0][0].kind, ParameterKind::RequiredPositional);
    assert_eq!(signatures[0][0].offset, Offset::new(8, 9));
    assert_eq!(signatures[0][1].name, "rest");
    assert_eq!(signatures[0][1].kind, ParameterKind::RestPositional);
    assert_eq!(signatures[1][0].name, "blk");
    assert_eq!(signatures[1][0].kind.code(), 8);
}

#[test]
fn parameter_kind_codes() {
    let p = ParameterStruct::new(Offset::new(0, 1), StringId::new(1));
    let cases = [
        (Parameter::RequiredPositional(p), 0),
        (Parameter::OptionalPositional(p), 1),
        (Parameter::RestPositional(p), 2),
        (Parameter::Post(p), 3),
        (Parameter::RequiredKeyword(p), 4),
        (Parameter::OptionalKeyword(p), 5),
        (Parameter::RestKeyword(p), 6),
        (Parameter::Forward(p), 7),
        (Parameter::Block(p), 8),
    ];
    for (param, code) in cases {
        assert_eq!(map_parameter_kind(&param).code(), code);
    }
}

#[test]
fn visibility_work_keeps_first_occurrences() {
    let mut work = VisibilityWork::new();
    for n in [5u64, 2, 5, 9, 2, 5, 1] {
        work.push(DefinitionId::new(n));
    }
    assert_eq!(
        work.into_vec(),
        vec![DefinitionId::new(5), DefinitionId::new(2), DefinitionId::new(9), DefinitionId::new(1)]
    );
}
