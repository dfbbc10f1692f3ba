use pyembed::decoder::{decode_resources, read_magic};
use pyembed::error::ResourceError;
use pyembed::reader::{read_u16, read_u32, read_u64, read_u8};
use pyembed::state::PythonImporterState;

/// A packed index with the given fixed header, followed by `rest`.
fn packed(
    blob_section_count: u8,
    blob_index_length: u32,
    resources_count: u32,
    resources_index_length: u32,
    rest: &[u8],
) -> Vec<u8> {
    let mut data = b"pyembed\x01".to_vec();
    data.push(blob_section_count);
    data.extend_from_slice(&blob_index_length.to_le_bytes());
    data.extend_from_slice(&resources_count.to_le_bytes());
    data.extend_from_slice(&resources_index_length.to_le_bytes());
    data.extend_from_slice(rest);
    data
}

/// A packed index with the given blob sections, index of resources and
/// blobs.
fn build(sections: &[(u8, u64)], resources_count: u32, index: &[u8], blobs: &[u8]) -> Vec<u8> {
    let mut rest = Vec::new();
    for (field, length) in sections {
        rest.push(*field);
        rest.extend_from_slice(&length.to_le_bytes());
    }
    rest.push(0x00);
    let blob_index_length = rest.len() as u32;
    rest.extend_from_slice(index);
    rest.extend_from_slice(blobs);
    packed(
        sections.len() as u8,
        blob_index_length,
        resources_count,
        index.len() as u32,
        &rest,
    )
}

/// Where `part` lies in `whole`, if it is a part of it.
fn offset_in(whole: &[u8], part: &[u8]) -> Option<usize> {
    let start = whole.as_ptr() as usize;
    let at = part.as_ptr() as usize;
    if at >= start && at + part.len() <= start + whole.len() {
        Some(at - start)
    } else {
        None
    }
}

#[test]
fn numbers_are_read_least_significant_byte_first() {
    let data = [0x01u8, 0x02, 0x03, 0x04, 0x05, 0x06, 0x07, 0x08, 0x09];
    assert_eq!(read_u8(&data, 0), Some(0x01));
    assert_eq!(read_u8(&data, 8), Some(0x09));
    assert_eq!(read_u8(&data, 9), None);
    assert_eq!(read_u16(&data, 0), Some(0x0201));
    assert_eq!(read_u16(&data, 7), Some(0x0908));
    assert_eq!(read_u16(&data, 8), None);
    assert_eq!(read_u32(&data, 0), Some(0x0403_0201));
    assert_eq!(read_u32(&data, 5), Some(0x0908_0706));
    assert_eq!(read_u32(&data, 6), None);
    assert_eq!(read_u64(&data, 0), Some(0x0807_0605_0403_0201));
    assert_eq!(read_u64(&data, 1), Some(0x0908_0706_0504_0302));
    assert_eq!(read_u64(&data, 2), None);
    assert_eq!(read_u64(&data, usize::MAX), None);
    assert_eq!(read_u16(&data, usize::MAX), None);
    assert_eq!(read_u16(&[0xff, 0xff], 0), Some(0xffff));
    assert_eq!(read_u32(&[0xff, 0xff, 0xff, 0xff], 0), Some(0xffff_ffff));
    assert_eq!(read_u64(&[0xff; 8], 0), Some(u64::MAX));
    assert_eq!(read_u16(&[0x00, 0x01], 0), Some(0x0100));
}

#[test]
fn magic_header_is_tested() {
    assert_eq!(read_magic(b"pyembed\x01"), Ok(()));
    assert_eq!(read_magic(b"pyembed\x01 and more"), Ok(()));
    assert_eq!(read_magic(b"pyembed"), Err(ResourceError::ShortHeader));
    assert_eq!(read_magic(b"pyembed\x02"), Err(ResourceError::UnrecognizedFormat));
}

#[test]
fn no_entries_where_none_are_announced() {
    // The index of resources is not read where the header announces no
    // entry or an empty index.
    let data = packed(0, 0, 0, 5, b"\x0f\x0f\x0f\x0f\x0f");
    assert_eq!(decode_resources(&data).unwrap().len(), 0);
    let data = packed(0, 0, 5, 0, b"\x0f\x0f\x0f\x0f\x0f");
    assert_eq!(decode_resources(&data).unwrap().len(), 0);
    // The index of blob sections is read all the same.
    let data = packed(0, 1, 0, 0, b"\x01");
    assert_eq!(decode_resources(&data), Err(ResourceError::UnclosedBlobIndex));
}

#[test]
fn blob_index_is_skipped_where_its_length_is_zero() {
    // Three sections are announced, but the length of their index is zero:
    // the index of resources follows the header at once.
    let data = packed(3, 0, 1, 6, b"\x01\x03\x02\x00\x02\x00ab");
    let found = decode_resources(&data).unwrap();
    assert_eq!(found.len(), 1);
    assert_eq!(found[0].name, "ab");
    assert_eq!(offset_in(&data, found[0].name.as_bytes()), Some(27));
}

#[test]
fn blobs_start_behind_both_indices() {
    // 8 + 13 + 10 + 6: the name is the first blob.
    let data = build(&[(0x03, 3)], 1, b"\x01\x03\x03\x00\x02\x00", b"foo");
    assert_eq!(data.len(), 40);
    let found = decode_resources(&data).unwrap();
    assert_eq!(found.len(), 1);
    assert_eq!(found[0].name, "foo");
    assert_eq!(offset_in(&data, found[0].name.as_bytes()), Some(37));
}

#[test]
fn every_blob_section_has_its_own_cursor() {
    let index = b"\x01\x03\x01\x00\x06\x02\x00\x00\x00\x07\x03\x00\x00\x00\x02\
                  \x01\x03\x02\x00\x07\x01\x00\x00\x00\x06\x04\x00\x00\x00\x02\x00";
    let data = build(
        &[(0x03, 3), (0x06, 6), (0x07, 4)],
        2,
        index,
        b"abcS1S2S2B1XB",
    );
    let blob_start = 8 + 13 + 28 + index.len();
    let found = decode_resources(&data).unwrap();
    assert_eq!(found.len(), 2);

    assert_eq!(found[0].name, "a");
    assert_eq!(found[0].in_memory_source.unwrap(), b"S1");
    assert_eq!(found[0].in_memory_bytecode.unwrap(), b"B1X");
    assert_eq!(found[1].name, "bc");
    assert_eq!(found[1].in_memory_source.unwrap(), b"S2S2");
    assert_eq!(found[1].in_memory_bytecode.unwrap(), b"B");

    // Each run is a part of the input, at the place that the layout gives.
    assert_eq!(offset_in(&data, found[0].name.as_bytes()), Some(blob_start));
    assert_eq!(offset_in(&data, found[1].name.as_bytes()), Some(blob_start + 1));
    assert_eq!(
        offset_in(&data, found[0].in_memory_source.unwrap()),
        Some(blob_start + 3)
    );
    assert_eq!(
        offset_in(&data, found[1].in_memory_source.unwrap()),
        Some(blob_start + 5)
    );
    assert_eq!(
        offset_in(&data, found[0].in_memory_bytecode.unwrap()),
        Some(blob_start + 9)
    );
    assert_eq!(
        offset_in(&data, found[1].in_memory_bytecode.unwrap()),
        Some(blob_start + 12)
    );
}

#[test]
fn a_field_without_blob_section_starts_at_the_first_blob() {
    // Only the name has a section. The source has none: its cursor starts
    // where the blobs start.
    let data = build(
        &[(0x03, 1)],
        1,
        b"\x01\x03\x01\x00\x06\x02\x00\x00\x00\x02\x00",
        b"xyz",
    );
    let found = decode_resources(&data).unwrap();
    assert_eq!(found[0].name, "x");
    assert_eq!(found[0].in_memory_source.unwrap(), b"xy");
}

#[test]
fn a_later_record_of_a_field_moves_its_section() {
    // Two records for the name: the second one says where it starts.
    let data = build(
        &[(0x03, 2), (0x03, 1)],
        1,
        b"\x01\x03\x01\x00\x02\x00",
        b"abc",
    );
    let found = decode_resources(&data).unwrap();
    assert_eq!(found[0].name, "c");
}

#[test]
fn empty_data_is_present_and_empty() {
    let data = build(
        &[(0x03, 1)],
        1,
        b"\x01\x03\x01\x00\x06\x00\x00\x00\x00\x0d\x00\x00\x00\x00\x00\x00\x00\x00\x0b\x00\x00\x00\x00\x0e\x00\x00\x02\x00",
        b"m",
    );
    let found = decode_resources(&data).unwrap();
    assert_eq!(found.len(), 1);
    assert_eq!(found[0].in_memory_source.unwrap(), b"");
    assert_eq!(found[0].in_memory_shared_library.unwrap(), b"");
    assert_eq!(found[0].in_memory_resources.as_ref().unwrap().len(), 0);
    assert_eq!(
        found[0].shared_library_dependency_names.as_ref().unwrap().len(),
        0
    );
    assert!(found[0].in_memory_bytecode.is_none());
    assert!(found[0].in_memory_package_distribution.is_none());
}

#[test]
fn lengths_of_more_than_one_byte() {
    let mut blobs = vec![b'n'; 300];
    blobs.extend_from_slice(&vec![b's'; 70000]);
    let data = build(
        &[(0x03, 300), (0x06, 70000)],
        1,
        b"\x01\x03\x2c\x01\x06\x70\x11\x01\x00\x02\x00",
        &blobs,
    );
    let found = decode_resources(&data).unwrap();
    assert_eq!(found[0].name.len(), 300);
    assert!(found[0].name.bytes().all(|b| b == b'n'));
    let source = found[0].in_memory_source.unwrap();
    assert_eq!(source.len(), 70000);
    assert!(source.iter().all(|b| *b == b's'));
}

#[test]
fn files_are_read_name_by_name() {
    // Two resource files and one distribution file, in sections of their
    // own; the second resource file has the name of the first.
    let index = b"\x01\x03\x01\x00\
                  \x0b\x02\x00\x00\x00\x01\x00\x02\x00\x00\x00\x00\x00\x00\x00\x01\x00\x01\x00\x00\x00\x00\x00\x00\x00\
                  \x0c\x01\x00\x00\x00\x02\x00\x00\x00\x00\x00\x00\x00\x00\x00\
                  \x02\x00";
    let data = build(
        &[(0x03, 1), (0x0b, 5), (0x0c, 2)],
        1,
        index,
        b"pfAAfBdd",
    );
    let found = decode_resources(&data).unwrap();
    let files = found[0].in_memory_resources.as_ref().unwrap();
    assert_eq!(files.len(), 1);
    assert_eq!(files.get("f").unwrap(), b"B");
    let files = found[0].in_memory_package_distribution.as_ref().unwrap();
    assert_eq!(files.len(), 1);
    assert_eq!(files.get("dd").unwrap(), b"");
}

#[test]
fn dependency_names_keep_their_order() {
    let data = build(
        &[(0x03, 1), (0x0e, 6)],
        1,
        b"\x01\x03\x01\x00\x0e\x03\x00\x02\x00\x01\x00\x03\x00\x02\x00",
        b"mzzayyy",
    );
    let found = decode_resources(&data).unwrap();
    assert_eq!(
        found[0].shared_library_dependency_names,
        Some(vec!["zz", "a", "yyy"])
    );
}

#[test]
fn fields_outside_an_entry_are_read_into_the_next_close() {
    // A name and a close without a start: the entry is kept, and no entry
    // has been started.
    let data = build(&[(0x03, 1)], 1, b"\x03\x01\x00\x02\x00", b"a");
    assert_eq!(decode_resources(&data), Err(ResourceError::CountMismatch));

    // A start discards what was read before it.
    let data = build(&[(0x03, 2)], 1, b"\x04\x03\x01\x00\x01\x03\x01\x00\x02\x00", b"ab");
    let found = decode_resources(&data).unwrap();
    assert_eq!(found.len(), 1);
    assert_eq!(found[0].name, "b");
    assert!(!found[0].is_package);
}

#[test]
fn the_index_ends_at_its_first_end_field() {
    let data = build(
        &[(0x03, 2)],
        1,
        b"\x01\x03\x01\x00\x02\x00\x01\x03\x01\x00\x02\x00",
        b"ab",
    );
    let found = decode_resources(&data).unwrap();
    assert_eq!(found.len(), 1);
    assert_eq!(found[0].name, "a");
}

#[test]
fn every_run_of_a_full_entry_lies_in_the_input() {
    let index = b"\x01\x03\x01\x00\x04\x05\
                  \x06\x01\x00\x00\x00\x07\x01\x00\x00\x00\x08\x01\x00\x00\x00\x09\x01\x00\x00\x00\x0a\x01\x00\x00\x00\
                  \x0b\x01\x00\x00\x00\x01\x00\x01\x00\x00\x00\x00\x00\x00\x00\
                  \x0c\x01\x00\x00\x00\x01\x00\x01\x00\x00\x00\x00\x00\x00\x00\
                  \x0d\x01\x00\x00\x00\x00\x00\x00\x00\
                  \x0e\x01\x00\x01\x00\
                  \x02\x00";
    let sections = [
        (0x03u8, 1u64),
        (0x06, 1),
        (0x07, 1),
        (0x08, 1),
        (0x09, 1),
        (0x0a, 1),
        (0x0b, 2),
        (0x0c, 2),
        (0x0d, 1),
        (0x0e, 1),
    ];
    let data = build(&sections, 1, index, b"n6789arRdDld");
    let blob_start = 8 + 13 + 91 + index.len();
    assert_eq!(data.len(), blob_start + 12);
    let found = decode_resources(&data).unwrap();
    let entry = &found[0];
    assert!(entry.is_package && entry.is_namespace_package);
    assert_eq!(offset_in(&data, entry.name.as_bytes()), Some(blob_start));
    assert_eq!(
        offset_in(&data, entry.in_memory_source.unwrap()),
        Some(blob_start + 1)
    );
    assert_eq!(
        offset_in(&data, entry.in_memory_bytecode.unwrap()),
        Some(blob_start + 2)
    );
    assert_eq!(
        offset_in(&data, entry.in_memory_bytecode_opt1.unwrap()),
        Some(blob_start + 3)
    );
    assert_eq!(
        offset_in(&data, entry.in_memory_bytecode_opt2.unwrap()),
        Some(blob_start + 4)
    );
    assert_eq!(
        offset_in(&data, entry.in_memory_shared_library_extension_module.unwrap()),
        Some(blob_start + 5)
    );
    let files = entry.in_memory_resources.as_ref().unwrap();
    assert_eq!(offset_in(&data, files.name_at(0).as_bytes()), Some(blob_start + 6));
    assert_eq!(offset_in(&data, files.value_at(0)), Some(blob_start + 7));
    let files = entry.in_memory_package_distribution.as_ref().unwrap();
    assert_eq!(offset_in(&data, files.name_at(0).as_bytes()), Some(blob_start + 8));
    assert_eq!(offset_in(&data, files.value_at(0)), Some(blob_start + 9));
    assert_eq!(
        offset_in(&data, entry.in_memory_shared_library.unwrap()),
        Some(blob_start + 10)
    );
    let names = entry.shared_library_dependency_names.as_ref().unwrap();
    assert_eq!(offset_in(&data, names[0].as_bytes()), Some(blob_start + 11));
    assert_eq!(names[0], "d");
}

#[test]
fn state_loads_what_the_decoder_reads() {
    let data = build(
        &[(0x03, 3)],
        2,
        b"\x01\x03\x01\x00\x02\x01\x03\x02\x00\x04\x02\x00",
        b"abc",
    );
    let found = decode_resources(&data).unwrap();
    let mut state = PythonImporterState::default();
    state.load_resources(&data).unwrap();
    assert_eq!(state.resources.len(), found.len());
    for entry in &found {
        assert_eq!(state.resources.get(entry.name), Some(entry));
    }
}

/// The packed index of one entry that has every kind of data.
fn full_index() -> Vec<u8> {
    let index = b"\x01\x03\x01\x00\x04\x05\
                  \x06\x01\x00\x00\x00\x07\x01\x00\x00\x00\x08\x01\x00\x00\x00\x09\x01\x00\x00\x00\x0a\x01\x00\x00\x00\
                  \x0b\x01\x00\x00\x00\x01\x00\x01\x00\x00\x00\x00\x00\x00\x00\
                  \x0c\x01\x00\x00\x00\x01\x00\x01\x00\x00\x00\x00\x00\x00\x00\
                  \x0d\x01\x00\x00\x00\x00\x00\x00\x00\
                  \x0e\x01\x00\x01\x00\
                  \x02\x00";
    let sections = [
        (0x03u8, 1u64),
        (0x06, 1),
        (0x07, 1),
        (0x08, 1),
        (0x09, 1),
        (0x0a, 1),
        (0x0b, 2),
        (0x0c, 2),
        (0x0d, 1),
        (0x0e, 1),
    ];
    build(&sections, 1, index, b"n6789arRdDld")
}

#[test]
fn every_truncation_is_read_or_refused() {
    let data = full_index();
    assert_eq!(decode_resources(&data).unwrap().len(), 1);
    for end in 0..data.len() {
        // The last blob is the last byte: every shorter input fails.
        assert!(decode_resources(&data[..end]).is_err());
    }
}

#[test]
fn every_changed_byte_is_read_or_refused() {
    let data = full_index();
    for at in 0..data.len() {
        for change in [0x01u8, 0x02, 0x0f, 0x80, 0xff] {
            let mut changed = data.clone();
            changed[at] ^= change;
            match decode_resources(&changed) {
                Ok(found) => {
                    for entry in &found {
                        assert!(offset_in(&changed, entry.name.as_bytes()).is_some());
                        if let Some(source) = entry.in_memory_source {
                            assert!(offset_in(&changed, source).is_some());
                        }
                    }
                }
                Err(e) => assert!(!e.message().is_empty()),
            }
        }
    }
}

#[test]
fn arbitrary_bytes_are_read_or_refused() {
    let mut seed: u64 = 0x2545_f491_4f6c_dd1d;
    for round in 0..2000 {
        let mut data = b"pyembed\x01".to_vec();
        let length = round % 64;
        for _ in 0..length {
            seed ^= seed << 13;
            seed ^= seed >> 7;
            seed ^= seed << 17;
            // Mostly small bytes, which are field tags and short lengths.
            let byte = if seed % 4 == 0 {
                (seed >> 8) as u8
            } else {
                ((seed >> 8) % 16) as u8
            };
            data.push(byte);
        }
        let mut state = PythonImporterState::default();
        match state.load_resources(&data) {
            Ok(()) => {
                for i in 0..state.resources.len() {
                    let entry = state.resources.value_at(i);
                    assert_eq!(state.resources.name_at(i), entry.name);
                    assert!(offset_in(&data, entry.name.as_bytes()).is_some());
                }
            }
            Err(message) => {
                assert!(!message.is_empty());
                assert_eq!(state.resources.len(), 0);
            }
        }
    }
}
