use pyembed::decoder::decode_resources;
use pyembed::error::ResourceError;
use pyembed::state::PythonImporterState;

/// A packed index with the given fixed header, followed by `rest`.
fn packed(
    blob_section_count: u8,
    blob_index_length: u32,
    resources_count: u32,
    resources_index_length: u32,
    rest: &[u8],
) -> Vec<u8> {
    let mut data = b"pyembed\x01".to_vec();
    data.push(blob_section_count);
    data.extend_from_slice(&blob_index_length.to_le_bytes());
    data.extend_from_slice(&resources_count.to_le_bytes());
    data.extend_from_slice(&resources_index_length.to_le_bytes());
    data.extend_from_slice(rest);
    data
}

/// A packed index without blob sections, whose index of resources is
/// `index`, followed by `blobs`.
fn with_index(resources_count: u32, index: &[u8], blobs: &[u8]) -> Vec<u8> {
    let mut rest = vec![0x00];
    rest.extend_from_slice(index);
    rest.extend_from_slice(blobs);
    packed(0, 1, resources_count, index.len() as u32, &rest)
}

fn failure(data: &[u8]) -> ResourceError {
    decode_resources(data).unwrap_err()
}

fn message(data: &[u8]) -> &'static str {
    let mut state = PythonImporterState::default();
    let res = state.load_resources(data);
    assert_eq!(state.resources.len(), 0);
    res.unwrap_err()
}

#[test]
fn short_header_of_seven_bytes() {
    assert_eq!(failure(b"pyembed"), ResourceError::ShortHeader);
    assert_eq!(failure(b""), ResourceError::ShortHeader);
    assert_eq!(message(b"pyembed"), "error reading 8 byte header");
}

#[test]
fn unrecognized_magic() {
    assert_eq!(failure(b"pyembee\x01"), ResourceError::UnrecognizedFormat);
    assert_eq!(failure(b"Pyembed\x01\x00\x00\x00\x00\x00"), ResourceError::UnrecognizedFormat);
    assert_eq!(message(b"pyembed\x03"), "unrecognized file format");
}

#[test]
fn short_blob_section_count() {
    assert_eq!(failure(b"pyembed\x01"), ResourceError::ShortBlobSectionCount);
    assert_eq!(message(b"pyembed\x01"), "failed reading blob section count");
}

#[test]
fn short_blob_index_length() {
    assert_eq!(failure(b"pyembed\x01\x00"), ResourceError::ShortBlobIndexLength);
    assert_eq!(failure(b"pyembed\x01\x00\x00\x00\x00"), ResourceError::ShortBlobIndexLength);
    assert_eq!(message(b"pyembed\x01\x00\x00"), "failed reading blob index length");
}

#[test]
fn short_resources_count() {
    assert_eq!(failure(b"pyembed\x01\x00\x00\x00\x00\x00"), ResourceError::ShortResourcesCount);
    assert_eq!(
        failure(b"pyembed\x01\x00\x00\x00\x00\x00\x00\x00\x00"),
        ResourceError::ShortResourcesCount
    );
    assert_eq!(
        message(b"pyembed\x01\x00\x00\x00\x00\x00\x00"),
        "failed reading resources count"
    );
}

#[test]
fn short_resources_index_length() {
    assert_eq!(
        failure(b"pyembed\x01\x00\x00\x00\x00\x00\x00\x00\x00\x00"),
        ResourceError::ShortResourcesIndexLength
    );
    assert_eq!(
        failure(b"pyembed\x01\x00\x00\x00\x00\x00\x00\x00\x00\x00\x00\x00\x00"),
        ResourceError::ShortResourcesIndexLength
    );
    assert_eq!(
        message(b"pyembed\x01\x00\x00\x00\x00\x00\x00\x00\x00\x00\x00"),
        "failed reading resources index length"
    );
}

#[test]
fn short_blob_field() {
    let data = packed(1, 10, 0, 0, b"");
    assert_eq!(failure(&data), ResourceError::ShortBlobField);
    assert_eq!(message(&data), "failed reading blob length field type");
}

#[test]
fn early_end_of_blob_index() {
    let data = packed(1, 1, 0, 0, b"\x00");
    assert_eq!(failure(&data), ResourceError::EarlyEndOfBlobIndex);
    assert_eq!(message(&data), "unexpected end of blob index");
}

#[test]
fn short_blob_length() {
    let data = packed(1, 10, 0, 0, b"\x03\x01\x00\x00\x00\x00\x00\x00");
    assert_eq!(failure(&data), ResourceError::ShortBlobLength);
    assert_eq!(message(&data), "failed reading field blob length");
}

#[test]
fn blob_length_beyond_usize() {
    let data = packed(1, 10, 0, 0, b"\x03\xff\xff\xff\xff\xff\xff\xff\xff\x00");
    if (usize::MAX as u64) < u64::MAX {
        assert_eq!(failure(&data), ResourceError::BlobLengthTooLarge);
        assert_eq!(message(&data), "failed to convert blob size to usize");
    } else {
        assert_eq!(decode_resources(&data).unwrap().len(), 0);
    }
    assert_eq!(
        ResourceError::BlobLengthTooLarge.message(),
        "failed to convert blob size to usize"
    );
}

#[test]
fn unhandled_blob_field() {
    for field in [0x01u8, 0x02, 0x04, 0x05, 0x0f, 0xff] {
        let mut rest = vec![field];
        rest.extend_from_slice(&[0; 8]);
        rest.push(0x00);
        let data = packed(1, 10, 0, 0, &rest);
        assert_eq!(failure(&data), ResourceError::UnhandledBlobField);
        assert_eq!(message(&data), "unhandled field in blob length index");
    }
}

#[test]
fn short_blob_index_end() {
    let data = packed(0, 1, 0, 0, b"");
    assert_eq!(failure(&data), ResourceError::ShortBlobIndexEnd);
    assert_eq!(message(&data), "failed to read end of blob index field");

    let data = packed(1, 10, 0, 0, b"\x03\x00\x00\x00\x00\x00\x00\x00\x00");
    assert_eq!(failure(&data), ResourceError::ShortBlobIndexEnd);
}

#[test]
fn unclosed_blob_index() {
    let data = packed(0, 1, 0, 0, b"\x07");
    assert_eq!(failure(&data), ResourceError::UnclosedBlobIndex);
    assert_eq!(message(&data), "unexpected value at end of blob index");

    let data = packed(1, 10, 0, 0, b"\x03\x00\x00\x00\x00\x00\x00\x00\x00\x03");
    assert_eq!(failure(&data), ResourceError::UnclosedBlobIndex);
}

#[test]
fn short_field_type() {
    let data = with_index(1, b"\x01\x03\x00\x00\x02", b"");
    assert_eq!(failure(&data), ResourceError::ShortFieldType);
    assert_eq!(message(&data), "failed reading field type");

    let data = packed(0, 0, 1, 1, b"");
    assert_eq!(failure(&data), ResourceError::ShortFieldType);
}

#[test]
fn missing_name() {
    let data = with_index(1, b"\x01\x04\x02\x00", b"");
    assert_eq!(failure(&data), ResourceError::MissingName);
    assert_eq!(message(&data), "resource name field is required");

    // A name does not carry over from one entry to the next.
    let data = with_index(2, b"\x01\x03\x01\x00\x02\x01\x02\x00", b"a");
    assert_eq!(failure(&data), ResourceError::MissingName);
}

#[test]
fn short_name_length() {
    let data = with_index(1, b"\x01\x03\x00", b"");
    assert_eq!(failure(&data), ResourceError::ShortNameLength);
    assert_eq!(message(&data), "failed reading resource name length");
}

#[test]
fn short_source_length() {
    let data = with_index(1, b"\x01\x06\x00\x00\x00", b"");
    assert_eq!(failure(&data), ResourceError::ShortSourceLength);
    assert_eq!(message(&data), "failed reading source length");
}

#[test]
fn short_bytecode_length() {
    for field in [0x07u8, 0x08, 0x09] {
        let data = with_index(1, &[0x01, field, 0x00, 0x00], b"");
        assert_eq!(failure(&data), ResourceError::ShortBytecodeLength);
        assert_eq!(message(&data), "failed reading bytecode length");
    }
}

#[test]
fn short_extension_module_length() {
    let data = with_index(1, b"\x01\x0a", b"");
    assert_eq!(failure(&data), ResourceError::ShortExtensionModuleLength);
    assert_eq!(message(&data), "failed reading extension module length");
}

#[test]
fn short_resources_length() {
    let data = with_index(1, b"\x01\x0b\x01\x00\x00", b"");
    assert_eq!(failure(&data), ResourceError::ShortResourcesLength);
    assert_eq!(message(&data), "failed reading resources length");
}

#[test]
fn short_resource_name() {
    let data = with_index(1, b"\x01\x0b\x01\x00\x00\x00\x00", b"");
    assert_eq!(failure(&data), ResourceError::ShortResourceName);
    assert_eq!(message(&data), "failed reading resource name");
}

#[test]
fn short_resource_length() {
    let data = with_index(1, b"\x01\x0b\x01\x00\x00\x00\x00\x00\x00\x00\x00\x00\x00\x00", b"");
    assert_eq!(failure(&data), ResourceError::ShortResourceLength);
    assert_eq!(message(&data), "failed reading resource length");
}

#[test]
fn short_distribution_length() {
    let data = with_index(1, b"\x01\x0c\x01\x00\x00", b"");
    assert_eq!(failure(&data), ResourceError::ShortDistributionLength);
    assert_eq!(message(&data), "failed reading package distribution length");
}

#[test]
fn short_distribution_name() {
    let data = with_index(1, b"\x01\x0c\x01\x00\x00\x00\x00", b"");
    assert_eq!(failure(&data), ResourceError::ShortDistributionName);
    assert_eq!(message(&data), "failed reading distribution metadata name");
}

#[test]
fn short_distribution_resource_length() {
    let data = with_index(1, b"\x01\x0c\x01\x00\x00\x00\x00\x00\x00\x00\x00\x00\x00\x00", b"");
    assert_eq!(failure(&data), ResourceError::ShortDistributionResourceLength);
    assert_eq!(
        message(&data),
        "failed reading package distribution resource length"
    );
}

#[test]
fn short_shared_library_length() {
    let data = with_index(1, b"\x01\x0d\x00\x00\x00\x00\x00\x00\x00", b"");
    assert_eq!(failure(&data), ResourceError::ShortSharedLibraryLength);
    assert_eq!(message(&data), "failed reading in-memory shared library length");
}

#[test]
fn short_dependency_names_length() {
    let data = with_index(1, b"\x01\x0e\x01", b"");
    assert_eq!(failure(&data), ResourceError::ShortDependencyNamesLength);
    assert_eq!(
        message(&data),
        "failed reading shared library dependency names length"
    );
}

#[test]
fn short_dependency_name_length() {
    let data = with_index(1, b"\x01\x0e\x02\x00\x00\x00\x00", b"");
    assert_eq!(failure(&data), ResourceError::ShortDependencyNameLength);
    assert_eq!(
        message(&data),
        "failed reading shared library dependency name length"
    );
}

#[test]
fn invalid_field_type() {
    for field in [0x0fu8, 0x10, 0x7f, 0xff] {
        let data = with_index(1, &[0x01, field, 0x02, 0x00], b"");
        assert_eq!(failure(&data), ResourceError::InvalidFieldType);
        assert_eq!(message(&data), "invalid field type");
    }
}

#[test]
fn count_mismatch_both_ways() {
    // One entry where two are announced.
    let data = with_index(2, b"\x01\x03\x01\x00\x02\x00", b"a");
    assert_eq!(failure(&data), ResourceError::CountMismatch);
    assert_eq!(
        message(&data),
        "mismatch between advertised index count and actual"
    );

    // Two entries where one is announced.
    let data = with_index(1, b"\x01\x03\x01\x00\x02\x01\x03\x01\x00\x02\x00", b"ab");
    assert_eq!(failure(&data), ResourceError::CountMismatch);

    // As many as announced.
    let data = with_index(2, b"\x01\x03\x01\x00\x02\x01\x03\x01\x00\x02\x00", b"ab");
    assert_eq!(decode_resources(&data).unwrap().len(), 2);
}

#[test]
fn data_beyond_end_of_input() {
    // The name claims two bytes where one is left.
    let data = with_index(1, b"\x01\x03\x02\x00\x02\x00", b"a");
    assert_eq!(failure(&data), ResourceError::OutOfBounds);
    assert_eq!(message(&data), "resource data extends beyond end of input");

    // The source claims the largest length.
    let data = with_index(1, b"\x01\x03\x01\x00\x06\xff\xff\xff\xff\x02\x00", b"a");
    assert_eq!(failure(&data), ResourceError::OutOfBounds);

    // The shared library claims the largest length.
    let data = with_index(
        1,
        b"\x01\x03\x01\x00\x0d\xff\xff\xff\xff\xff\xff\xff\xff\x02\x00",
        b"a",
    );
    assert_eq!(failure(&data), ResourceError::OutOfBounds);

    // The header places the blob sections behind the end of the input.
    let data = packed(0, 1, 1, 100, b"\x00\x01\x03\x00\x00\x02\x00");
    assert_eq!(failure(&data), ResourceError::OutOfBounds);

    // A blob section that is said to start behind the end of the input.
    let mut rest = b"\x06\x05\x00\x00\x00\x00\x00\x00\x00".to_vec();
    rest.extend_from_slice(b"\x03\x01\x00\x00\x00\x00\x00\x00\x00\x00");
    rest.extend_from_slice(b"\x01\x03\x01\x00\x02\x00");
    rest.extend_from_slice(b"a");
    let data = packed(2, 19, 1, 6, &rest);
    assert_eq!(failure(&data), ResourceError::OutOfBounds);
}

#[test]
fn name_that_is_not_utf8() {
    let data = with_index(1, b"\x01\x03\x02\x00\x02\x00", b"\xc3\x28");
    assert_eq!(failure(&data), ResourceError::InvalidName);
    assert_eq!(message(&data), "resource name is not valid UTF-8");

    // The name of a resource file, in a blob section of its own.
    let index = b"\x01\x03\x01\x00\x0b\x01\x00\x00\x00\x01\x00\x00\x00\x00\x00\x00\x00\x00\x00\x02\x00";
    let mut rest = b"\x03\x01\x00\x00\x00\x00\x00\x00\x00".to_vec();
    rest.extend_from_slice(b"\x0b\x01\x00\x00\x00\x00\x00\x00\x00\x00");
    rest.extend_from_slice(index);
    rest.extend_from_slice(b"a\xff");
    let data = packed(2, 19, 1, index.len() as u32, &rest);
    assert_eq!(failure(&data), ResourceError::InvalidName);

    // The name of a library dependency, in a blob section of its own.
    let index = b"\x01\x03\x01\x00\x0e\x01\x00\x01\x00\x02\x00";
    let mut rest = b"\x03\x01\x00\x00\x00\x00\x00\x00\x00".to_vec();
    rest.extend_from_slice(b"\x0e\x01\x00\x00\x00\x00\x00\x00\x00\x00");
    rest.extend_from_slice(index);
    rest.extend_from_slice(b"a\x80");
    let data = packed(2, 19, 1, index.len() as u32, &rest);
    assert_eq!(failure(&data), ResourceError::InvalidName);

    // Two bytes that spell one letter are a name.
    let data = with_index(1, b"\x01\x03\x02\x00\x02\x00", b"\xc3\xa9");
    let found = decode_resources(&data).unwrap();
    assert_eq!(found[0].name, "\u{e9}");
}

#[test]
fn builtin_name_that_is_not_utf8() {
    let mut state = PythonImporterState::default();
    let names: Vec<&[u8]> = vec![b"sys", b"\xff\xfe", b"os"];
    let res = state.load_interpreter_builtin_modules(&names);
    assert_eq!(res, Err("unable to parse PyImport_Inittab"));
    assert_eq!(state.resources.len(), 0);
    assert_eq!(
        ResourceError::InvalidBuiltinName.message(),
        "unable to parse PyImport_Inittab"
    );
}

#[test]
fn frozen_name_that_is_not_utf8() {
    let mut state = PythonImporterState::default();
    let names: Vec<&[u8]> = vec![b"\xc0"];
    let res = state.load_interpreter_frozen_modules(&names);
    assert_eq!(res, Err("unable to parse PyImport_FrozenModules"));
    assert_eq!(state.resources.len(), 0);
    assert_eq!(
        ResourceError::InvalidFrozenName.message(),
        "unable to parse PyImport_FrozenModules"
    );
}

#[test]
fn failure_leaves_the_catalog_as_it_was() {
    let first = with_index(1, b"\x01\x03\x01\x00\x02\x00", b"a");
    // The second entry of this index fails, after the first was read.
    let data = with_index(2, b"\x01\x03\x01\x00\x02\x01\x02\x00", b"b");
    let mut state = PythonImporterState::default();
    state.load_resources(&first).unwrap();
    assert_eq!(state.resources.len(), 1);

    assert_eq!(
        state.load_resources(&data),
        Err("resource name field is required")
    );
    assert_eq!(state.resources.len(), 1);
    assert!(state.resources.get("a").is_some());
    assert!(state.resources.get("b").is_none());
}

#[test]
fn load_reports_the_first_step_that_fails() {
    let good = with_index(1, b"\x01\x03\x01\x00\x02\x00", b"a");
    let fine: Vec<&[u8]> = vec![b"sys"];
    let bad: Vec<&[u8]> = vec![b"\xff"];

    let mut state = PythonImporterState::default();
    assert_eq!(
        state.load(b"foo", &bad, &bad),
        Err("error reading 8 byte header")
    );

    let mut state = PythonImporterState::default();
    assert_eq!(
        state.load(&good, &bad, &bad),
        Err("unable to parse PyImport_Inittab")
    );

    let mut state = PythonImporterState::default();
    assert_eq!(
        state.load(&good, &fine, &bad),
        Err("unable to parse PyImport_FrozenModules")
    );

    let mut state = PythonImporterState::default();
    assert_eq!(state.load(&good, &fine, &fine), Ok(()));
}
