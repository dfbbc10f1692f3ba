use pyembed::name_map::{same_bytes, same_name, NameMap};
use pyembed::resource::{same_data, same_files, same_names, EmbeddedResource, FileMap};
use pyembed::state::PythonImporterState;

/// A packed index without blob sections, whose index of resources is
/// `index`, followed by `blobs`.
fn with_index(resources_count: u32, index: &[u8], blobs: &[u8]) -> Vec<u8> {
    let mut data = b"pyembed\x01\x00\x01\x00\x00\x00".to_vec();
    data.extend_from_slice(&resources_count.to_le_bytes());
    data.extend_from_slice(&(index.len() as u32).to_le_bytes());
    data.push(0x00);
    data.extend_from_slice(index);
    data.extend_from_slice(blobs);
    data
}

#[test]
fn default_resource_holds_nothing() {
    let resource = EmbeddedResource::default();
    assert_eq!(resource.name, "");
    assert!(!resource.is_package);
    assert!(!resource.is_namespace_package);
    assert!(!resource.is_builtin);
    assert!(!resource.is_frozen);
    assert!(resource.in_memory_source.is_none());
    assert!(resource.in_memory_bytecode.is_none());
    assert!(resource.in_memory_bytecode_opt1.is_none());
    assert!(resource.in_memory_bytecode_opt2.is_none());
    assert!(resource.in_memory_shared_library_extension_module.is_none());
    assert!(resource.in_memory_resources.is_none());
    assert!(resource.in_memory_package_distribution.is_none());
    assert!(resource.in_memory_shared_library.is_none());
    assert!(resource.shared_library_dependency_names.is_none());
    assert!(!resource.uses_pyembed_importer());
}

#[test]
fn importer_is_used_for_bytecode_and_extension_modules() {
    let data: &[u8] = b"x";
    let plain = EmbeddedResource::default();
    assert!(!plain.uses_pyembed_importer());

    let bytecode = EmbeddedResource {
        in_memory_bytecode: Some(data),
        ..EmbeddedResource::default()
    };
    assert!(bytecode.uses_pyembed_importer());

    let opt1 = EmbeddedResource {
        in_memory_bytecode_opt1: Some(data),
        ..EmbeddedResource::default()
    };
    assert!(opt1.uses_pyembed_importer());

    let opt2 = EmbeddedResource {
        in_memory_bytecode_opt2: Some(data),
        ..EmbeddedResource::default()
    };
    assert!(opt2.uses_pyembed_importer());

    let extension = EmbeddedResource {
        in_memory_shared_library_extension_module: Some(data),
        ..EmbeddedResource::default()
    };
    assert!(extension.uses_pyembed_importer());

    // Source, a shared library and the flags of the interpreter do not
    // count.
    let other = EmbeddedResource {
        is_builtin: true,
        is_frozen: true,
        is_package: true,
        in_memory_source: Some(data),
        in_memory_shared_library: Some(data),
        ..EmbeddedResource::default()
    };
    assert!(!other.uses_pyembed_importer());
}

#[test]
fn bytes_and_names_compare_by_content() {
    assert!(same_bytes(b"", b""));
    assert!(same_bytes(b"abc", b"abc"));
    assert!(!same_bytes(b"abc", b"abd"));
    assert!(!same_bytes(b"abc", b"ab"));
    assert!(!same_bytes(b"", b"a"));
    assert!(same_name("module", "module"));
    assert!(!same_name("module", "Module"));
    assert!(!same_name("a", "a.b"));
}

#[test]
fn name_map_inserts_replaces_and_removes() {
    let mut map: NameMap<u32> = NameMap::new();
    assert!(map.is_empty());
    assert_eq!(map.len(), 0);
    assert_eq!(map.get("a"), None);
    assert!(!map.contains_key("a"));

    map.insert("a", 1);
    map.insert("b", 2);
    assert!(!map.is_empty());
    assert_eq!(map.len(), 2);
    assert_eq!(map.get("a"), Some(&1));
    assert_eq!(map.get("b"), Some(&2));
    assert_eq!(map.get("c"), None);
    assert!(map.contains_key("b"));

    // A second value under a name replaces the first.
    map.insert("a", 3);
    assert_eq!(map.len(), 2);
    assert_eq!(map.get("a"), Some(&3));
    assert_eq!(map.get("b"), Some(&2));

    assert_eq!(map.remove("c"), None);
    assert_eq!(map.len(), 2);
    assert_eq!(map.remove("a"), Some(3));
    assert_eq!(map.len(), 1);
    assert_eq!(map.get("a"), None);
    assert_eq!(map.get("b"), Some(&2));
    assert_eq!(map.remove("a"), None);
}

#[test]
fn name_map_numbers_its_pairs() {
    let mut map: NameMap<u32> = NameMap::new();
    map.insert("x", 10);
    map.insert("y", 20);
    map.insert("z", 30);
    let mut seen = Vec::new();
    for i in 0..map.len() {
        seen.push((map.name_at(i), *map.value_at(i)));
        assert_eq!(map.get(map.name_at(i)), Some(map.value_at(i)));
    }
    seen.sort();
    assert_eq!(seen, vec![("x", 10), ("y", 20), ("z", 30)]);
}

#[test]
fn lookups_do_not_depend_on_the_order_of_insertion() {
    let mut one: NameMap<u32> = NameMap::new();
    one.insert("a", 1);
    one.insert("b", 2);
    one.insert("c", 3);
    let mut other: NameMap<u32> = NameMap::new();
    other.insert("c", 3);
    other.insert("a", 1);
    other.insert("b", 2);
    assert_eq!(one.len(), other.len());
    for name in ["a", "b", "c", "d", ""] {
        assert_eq!(one.get(name), other.get(name));
        assert_eq!(one.contains_key(name), other.contains_key(name));
    }
}

#[test]
fn catalogs_do_not_depend_on_the_order_of_entries() {
    let forward = with_index(2, b"\x01\x03\x01\x00\x04\x02\x01\x03\x02\x00\x02\x00", b"abc");
    let backward = with_index(2, b"\x01\x03\x02\x00\x02\x01\x03\x01\x00\x04\x02\x00", b"bca");
    let mut one = PythonImporterState::default();
    one.load_resources(&forward).unwrap();
    let mut other = PythonImporterState::default();
    other.load_resources(&backward).unwrap();
    assert_eq!(one.resources.len(), 2);
    assert_eq!(other.resources.len(), 2);
    for name in ["a", "bc", "b", "abc"] {
        assert_eq!(one.resources.get(name), other.resources.get(name));
    }
    assert!(one.resources.get("a").unwrap().is_package);
    assert!(!one.resources.get("bc").unwrap().is_package);
}

#[test]
fn default_state_is_empty() {
    let state = PythonImporterState::default();
    assert_eq!(state.resources.len(), 0);
    assert!(state.resources.is_empty());
    assert_eq!(state.packages.len(), 0);
    assert!(state.resources.get("sys").is_none());
}

#[test]
fn builtin_modules_are_registered() {
    let mut state = PythonImporterState::default();
    let names: Vec<&[u8]> = vec![b"sys", b"_io"];
    state.load_interpreter_builtin_modules(&names).unwrap();
    assert_eq!(state.resources.len(), 2);
    assert_eq!(
        state.resources.get("sys").unwrap(),
        &EmbeddedResource {
            name: "sys",
            is_builtin: true,
            ..EmbeddedResource::default()
        }
    );
    assert_eq!(
        state.resources.get("_io").unwrap(),
        &EmbeddedResource {
            name: "_io",
            is_builtin: true,
            ..EmbeddedResource::default()
        }
    );
    assert_eq!(state.packages.len(), 0);
}

#[test]
fn frozen_modules_are_registered() {
    let mut state = PythonImporterState::default();
    let names: Vec<&[u8]> = vec![b"_frozen_importlib"];
    state.load_interpreter_frozen_modules(&names).unwrap();
    assert_eq!(state.resources.len(), 1);
    assert_eq!(
        state.resources.get("_frozen_importlib").unwrap(),
        &EmbeddedResource {
            name: "_frozen_importlib",
            is_frozen: true,
            ..EmbeddedResource::default()
        }
    );
}

#[test]
fn empty_tables_register_nothing() {
    let mut state = PythonImporterState::default();
    let names: Vec<&[u8]> = Vec::new();
    state.load_interpreter_builtin_modules(&names).unwrap();
    state.load_interpreter_frozen_modules(&names).unwrap();
    assert_eq!(state.resources.len(), 0);
}

#[test]
fn registering_marks_a_loaded_resource_and_keeps_the_rest() {
    // An entry "sys" that is a package and has source and bytecode.
    let data = with_index(
        1,
        b"\x01\x03\x03\x00\x04\x06\x02\x00\x00\x00\x07\x01\x00\x00\x00\x02\x00",
        b"sys",
    );
    let builtin: Vec<&[u8]> = vec![b"sys", b"time"];
    let frozen: Vec<&[u8]> = vec![b"sys", b"zipimport"];
    let mut state = PythonImporterState::default();
    state.load(&data, &builtin, &frozen).unwrap();

    assert_eq!(state.resources.len(), 3);
    let sys = state.resources.get("sys").unwrap();
    assert_eq!(sys.name, "sys");
    assert!(sys.is_package);
    assert!(!sys.is_namespace_package);
    assert!(sys.is_builtin);
    assert!(sys.is_frozen);
    assert_eq!(sys.in_memory_source.unwrap(), b"sy");
    assert_eq!(sys.in_memory_bytecode.unwrap(), b"s");
    assert!(sys.uses_pyembed_importer());

    let time = state.resources.get("time").unwrap();
    assert!(time.is_builtin);
    assert!(!time.is_frozen);
    assert!(!time.uses_pyembed_importer());

    let zipimport = state.resources.get("zipimport").unwrap();
    assert!(!zipimport.is_builtin);
    assert!(zipimport.is_frozen);
    assert!(zipimport.in_memory_source.is_none());
}

#[test]
fn loading_after_registering_replaces_the_registered_resource() {
    let data = with_index(1, b"\x01\x03\x03\x00\x02\x00", b"sys");
    let builtin: Vec<&[u8]> = vec![b"sys"];
    let mut state = PythonImporterState::default();
    state.load_interpreter_builtin_modules(&builtin).unwrap();
    state.load_resources(&data).unwrap();
    assert_eq!(state.resources.len(), 1);
    assert!(!state.resources.get("sys").unwrap().is_builtin);
}

#[test]
fn registering_twice_is_registering_once() {
    let data = with_index(1, b"\x01\x03\x03\x00\x05\x02\x00", b"sys");
    let builtin: Vec<&[u8]> = vec![b"sys", b"time", b"sys"];
    let frozen: Vec<&[u8]> = vec![b"time", b"zipimport"];

    let mut once = PythonImporterState::default();
    once.load(&data, &builtin, &frozen).unwrap();

    let mut often = PythonImporterState::default();
    often.load(&data, &builtin, &frozen).unwrap();
    for _ in 0..3 {
        often.load_interpreter_builtin_modules(&builtin).unwrap();
        often.load_interpreter_frozen_modules(&frozen).unwrap();
    }

    assert_eq!(once.resources.len(), 3);
    assert_eq!(often.resources.len(), 3);
    for name in ["sys", "time", "zipimport", "os"] {
        assert_eq!(once.resources.get(name), often.resources.get(name));
    }
    let time = often.resources.get("time").unwrap();
    assert!(time.is_builtin && time.is_frozen);
    let sys = often.resources.get("sys").unwrap();
    assert!(sys.is_builtin && !sys.is_frozen && sys.is_namespace_package);
}

#[test]
fn a_later_entry_replaces_an_earlier_one_of_its_name() {
    let data = with_index(2, b"\x01\x03\x01\x00\x04\x02\x01\x03\x01\x00\x05\x02\x00", b"aa");
    let mut state = PythonImporterState::default();
    state.load_resources(&data).unwrap();
    assert_eq!(state.resources.len(), 1);
    let entry = state.resources.get("a").unwrap();
    assert!(!entry.is_package);
    assert!(entry.is_namespace_package);
}

#[test]
fn every_resource_is_held_under_its_name() {
    let data = with_index(2, b"\x01\x03\x01\x00\x02\x01\x03\x02\x00\x02\x00", b"abc");
    let builtin: Vec<&[u8]> = vec![b"sys"];
    let frozen: Vec<&[u8]> = vec![b"a"];
    let mut state = PythonImporterState::default();
    state.load(&data, &builtin, &frozen).unwrap();
    assert_eq!(state.resources.len(), 3);
    for i in 0..state.resources.len() {
        assert_eq!(state.resources.name_at(i), state.resources.value_at(i).name);
    }
}

#[test]
fn maps_are_equal_whatever_the_order_of_insertion() {
    let mut one: NameMap<u32> = NameMap::new();
    one.insert("a", 1);
    one.insert("b", 2);
    let mut other: NameMap<u32> = NameMap::new();
    other.insert("b", 2);
    other.insert("a", 1);
    assert!(one == other);
    assert_eq!(one, other);

    other.insert("a", 3);
    assert!(one != other);
    other.insert("a", 1);
    assert!(one == other);
    other.insert("c", 1);
    assert!(one != other);
    other.remove("b");
    assert!(one != other);

    let empty: NameMap<u32> = NameMap::new();
    assert!(empty == NameMap::new());
    assert!(empty != one);
}

#[test]
fn catalogs_are_equal_whatever_the_order_of_entries() {
    let forward = with_index(2, b"\x01\x03\x01\x00\x04\x02\x01\x03\x02\x00\x02\x00", b"abc");
    let backward = with_index(2, b"\x01\x03\x02\x00\x02\x01\x03\x01\x00\x04\x02\x00", b"bca");
    let mut one = PythonImporterState::default();
    one.load_resources(&forward).unwrap();
    let mut other = PythonImporterState::default();
    other.load_resources(&backward).unwrap();
    assert!(one.resources == other.resources);
}

#[test]
fn data_files_and_names_compare_by_content() {
    let x: &[u8] = b"x";
    let y: &[u8] = b"y";
    assert!(same_data(&None, &None));
    assert!(same_data(&Some(x), &Some(b"x")));
    assert!(!same_data(&Some(x), &Some(y)));
    assert!(!same_data(&Some(x), &None));
    assert!(!same_data(&None, &Some(y)));
    assert!(same_data(&Some(b""), &Some(b"")));
    assert!(!same_data(&Some(b""), &None));

    let mut one: FileMap = NameMap::new();
    one.insert("a", x);
    one.insert("b", y);
    let mut other: FileMap = NameMap::new();
    other.insert("b", b"y");
    assert!(!same_files(&one, &other));
    other.insert("a", b"x");
    assert!(same_files(&one, &other));
    other.insert("a", b"z");
    assert!(!same_files(&one, &other));
    assert!(same_files(&NameMap::new(), &NameMap::new()));

    assert!(same_names(&vec!["a", "b"], &vec!["a", "b"]));
    assert!(!same_names(&vec!["a", "b"], &vec!["b", "a"]));
    assert!(!same_names(&vec!["a"], &vec!["a", "b"]));
    assert!(same_names(&Vec::new(), &Vec::new()));
}

#[test]
fn resources_are_equal_where_they_hold_the_same() {
    let source = b"source".to_vec();
    let copy = source.clone();
    let mut files: FileMap = NameMap::new();
    files.insert("one", b"1");
    files.insert("two", b"2");
    let mut same: FileMap = NameMap::new();
    same.insert("two", b"2");
    same.insert("one", b"1");

    let left = EmbeddedResource {
        name: "module",
        is_package: true,
        in_memory_source: Some(&source),
        in_memory_package_distribution: Some(files),
        shared_library_dependency_names: Some(vec!["libfoo"]),
        ..EmbeddedResource::default()
    };
    let right = EmbeddedResource {
        name: "module",
        is_package: true,
        in_memory_source: Some(&copy),
        in_memory_package_distribution: Some(same),
        shared_library_dependency_names: Some(vec!["libfoo"]),
        ..EmbeddedResource::default()
    };
    assert!(left == right);
    assert_eq!(left, right);

    let other_name = EmbeddedResource {
        name: "module2",
        ..EmbeddedResource::default()
    };
    assert!(left != other_name);
    assert!(other_name != EmbeddedResource::default());

    let flag = EmbeddedResource {
        is_frozen: true,
        ..EmbeddedResource::default()
    };
    assert!(flag != EmbeddedResource::default());
    let builtin = EmbeddedResource {
        is_builtin: true,
        ..EmbeddedResource::default()
    };
    assert!(flag != builtin);

    let empty_source = EmbeddedResource {
        in_memory_source: Some(b""),
        ..EmbeddedResource::default()
    };
    assert!(empty_source != EmbeddedResource::default());
    let empty_bytecode = EmbeddedResource {
        in_memory_bytecode: Some(b""),
        ..EmbeddedResource::default()
    };
    assert!(empty_source != empty_bytecode);
    assert!(EmbeddedResource::default() == EmbeddedResource::default());
}
