use electrolyzer_modbus::names::NameMap;
use electrolyzer_modbus::register::{load_definitions, DataType, DefinitionError, RegisterDefinition};

fn def(name: &str, id: u16, type_: &str, bits: u16) -> RegisterDefinition {
    RegisterDefinition { id, name: name.to_string(), type_: type_.to_string(), len: bits }
}

#[test]
fn later_definition_of_a_name_wins() {
    let m = load_definitions(vec![def("t", 1, "UInt16", 16), def("t", 7, "UInt32", 32)]).unwrap();
    assert_eq!(m.len(), 1);
    let r = m.get(&"t".to_string()).unwrap();
    assert_eq!((r.addr, r.len, r.data_type), (7, 2, DataType::UInt32));
}

#[test]
fn length_in_bits_becomes_whole_words() {
    let m = load_definitions(vec![
        def("blob", 0, "Sized+Uint16[31]", 528),
        def("tiny", 40, "boolean", 8),
        def("odd", 50, "UInt64", 70),
    ])
    .unwrap();
    assert_eq!(m.get(&"blob".to_string()).unwrap().len, 33);
    assert_eq!(m.get(&"tiny".to_string()).unwrap().len, 0);
    assert_eq!(m.get(&"odd".to_string()).unwrap().len, 4);
}

#[test]
fn every_tag_is_known() {
    let tags = [
        ("UInt16", DataType::UInt16),
        ("UInt32", DataType::UInt32),
        ("UInt64", DataType::UInt64),
        ("UInt128", DataType::UInt128),
        ("Int32", DataType::Int32),
        ("Enum16", DataType::Enum16),
        ("Sized+Uint16[31]", DataType::Sized),
        ("IEEE-754 float32", DataType::Float32),
        ("boolean", DataType::Boolean),
    ];
    for (tag, t) in tags {
        assert_eq!(DataType::from_tag(&tag.to_string()), Some(t));
    }
    assert_eq!(DataType::from_tag(&"float".to_string()), None);
}

#[test]
fn unknown_tag_is_refused() {
    let r = load_definitions(vec![def("a", 0, "UInt16", 16), def("b", 1, "Float64", 64)]);
    match r {
        Err(DefinitionError::UnknownType(tag)) => assert_eq!(tag, "Float64"),
        Ok(_) => panic!("accepted an unknown tag"),
    }
}

#[test]
fn name_map_replaces_and_lists_names_once() {
    let mut m: NameMap<u32> = NameMap::new();
    m.insert("a".to_string(), 1);
    m.insert("b".to_string(), 2);
    m.insert("a".to_string(), 3);
    assert_eq!(m.len(), 2);
    assert_eq!(m.get(&"a".to_string()), Some(&3));
    assert_eq!(m.names(), vec!["a", "b"]);
    assert_eq!(m.get(&"c".to_string()), None);
}
