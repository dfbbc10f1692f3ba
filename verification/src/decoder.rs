//! Reading a packed resource index out of a buffer.

use crate::error::ResourceError;
use crate::format::{claim_data, claim_name, decode, has_magic_v1, initial_cursors, is_blob_field};
use crate::format::short_length;
use crate::format::{no_offsets, parse_blob_index, parse_blob_sections};
use crate::format::{parse_files, parse_header, parse_names, resolve_all, span_bytes, step, walk};
use crate::format::{Cursors, EntrySpans, Header, Span, WalkState};
use crate::format::{FIELD_END_OF_ENTRY, FIELD_END_OF_INDEX, FIELD_IN_MEMORY_BYTECODE};
use crate::format::{FIELD_IN_MEMORY_BYTECODE_OPT1, FIELD_IN_MEMORY_BYTECODE_OPT2};
use crate::format::{FIELD_IN_MEMORY_EXTENSION_MODULE_SHARED_LIBRARY, FIELD_IN_MEMORY_SOURCE};
use crate::format::{FIELD_IN_MEMORY_PACKAGE_DISTRIBUTION, FIELD_IN_MEMORY_RESOURCES_DATA};
use crate::format::{FIELD_IN_MEMORY_SHARED_LIBRARY, FIELD_IS_NAMESPACE_PACKAGE};
use crate::format::{FIELD_IS_PACKAGE, FIELD_LIMIT, FIELD_MODULE_NAME};
use crate::format::{FIELD_SHARED_LIBRARY_DEPENDENCY_NAMES, FIELD_START_OF_ENTRY, HEADER_LENGTH};
use crate::name_map::NameMap;
use crate::reader::{read_u16, read_u32, read_u64, read_u8, utf8_str};
use crate::reader::u8_at;
use crate::resource::{file_bytes, name_bytes, views, EmbeddedResource, FileMap, ResourceView};
use std::sync::Arc;
use vstd::prelude::*;
use vstd::string::*;

verus! {

/// A buffer is no longer than a position can say.
proof fn lemma_len_fits(data: &[u8])
    ensures
        data@.len() <= usize::MAX,
{
    broadcast use vstd::slice::group_slice_axioms;

    assert(data.len() == data@.len());
}

/// The fixed header as it was read.
pub struct RawHeader {
    pub blob_section_count: u8,
    pub blob_index_length: u32,
    pub resources_count: u32,
    pub resources_index_length: u32,
}

impl View for RawHeader {
    type V = Header;

    open spec fn view(&self) -> Header {
        Header {
            blob_section_count: self.blob_section_count as int,
            blob_index_length: self.blob_index_length as int,
            resources_count: self.resources_count as int,
            resources_index_length: self.resources_index_length as int,
        }
    }
}

/// One cursor for each field: where the next bytes of its blob section lie.
pub type CursorTable = [u128; 15];

/// No cursor of a table is beyond this.
pub const CURSOR_BOUND: u128 = 0x1_0000_0000_0000_0000_0000;

/// The cursors of a table as numbers.
pub open spec fn table(cursors: CursorTable) -> Cursors {
    Seq::new(FIELD_LIMIT as nat, |i: int| cursors[i] as int)
}

/// Every cursor of the table is small enough to be moved by the largest
/// length without overflow.
pub open spec fn bounded(cursors: CursorTable) -> bool {
    forall|i: int| 0 <= i < FIELD_LIMIT ==> cursors[i] <= CURSOR_BOUND
}

/// Tests the magic header.
pub fn read_magic(data: &[u8]) -> (r: Result<(), ResourceError>)
    ensures
        match r {
            Ok(_) => has_magic_v1(data@),
            Err(e) => parse_header(data@) == Err::<Header, ResourceError>(e) && (e
                == ResourceError::ShortHeader || e == ResourceError::UnrecognizedFormat),
        },
{
    if data.len() < 8 {
        return Err(ResourceError::ShortHeader);
    }
    if data[0] == 0x70 && data[1] == 0x79 && data[2] == 0x65 && data[3] == 0x6d && data[4] == 0x62
        && data[5] == 0x65 && data[6] == 0x64 && data[7] == 0x01 {
        Ok(())
    } else {
        Err(ResourceError::UnrecognizedFormat)
    }
}

/// Reads the fixed header, which follows the magic header.
pub(crate) fn read_fixed_header(data: &[u8]) -> (r: Result<RawHeader, ResourceError>)
    requires
        has_magic_v1(data@),
    ensures
        match r {
            Ok(header) => parse_header(data@) == Ok::<Header, ResourceError>(header@),
            Err(e) => parse_header(data@) == Err::<Header, ResourceError>(e),
        },
{
    let blob_section_count = match read_u8(data, 8) {
        Some(v) => v,
        None => { return Err(ResourceError::ShortBlobSectionCount); },
    };
    let blob_index_length = match read_u32(data, 9) {
        Some(v) => v,
        None => { return Err(ResourceError::ShortBlobIndexLength); },
    };
    let resources_count = match read_u32(data, 13) {
        Some(v) => v,
        None => { return Err(ResourceError::ShortResourcesCount); },
    };
    let resources_index_length = match read_u32(data, 17) {
        Some(v) => v,
        None => { return Err(ResourceError::ShortResourcesIndexLength); },
    };
    Ok(RawHeader { blob_section_count, blob_index_length, resources_count, resources_index_length })
}

/// Whether the field has a blob section.
pub(crate) fn has_blob_section(field: u8) -> (r: bool)
    ensures
        r == is_blob_field(field as int),
{
    field == FIELD_MODULE_NAME || (FIELD_IN_MEMORY_SOURCE <= field && field
        <= FIELD_SHARED_LIBRARY_DEPENDENCY_NAMES)
}

/// Reads the index of blob sections, if the header announces one. Returns
/// the position behind it and the offset of each blob section.
pub(crate) fn read_blob_sections(data: &[u8], header: &RawHeader) -> (r: Result<
    (usize, CursorTable),
    ResourceError,
>)
    requires
        parse_header(data@) == Ok::<Header, ResourceError>(header@),
    ensures
        match r {
            Ok((pos, offsets)) => parse_blob_sections(data@, header@) == Ok::<
                (int, Seq<int>),
                ResourceError,
            >((pos as int, table(offsets))) && forall|i: int|
                0 <= i < FIELD_LIMIT ==> offsets[i] <= 0xffff_ffff_ffff_ffff * 255,
            Err(e) => parse_blob_sections(data@, header@) == Err::<(int, Seq<int>), ResourceError>(
                e,
            ),
        },
{
    let mut offsets: CursorTable = [0u128; 15];
    proof {
        lemma_len_fits(data);
        assert(table(offsets) == no_offsets());
    }
    let mut pos: usize = HEADER_LENGTH;
    if header.blob_index_length == 0 {
        return Ok((pos, offsets));
    }
    let mut total: u128 = 0;
    let mut done: u8 = 0;
    while done < header.blob_section_count
        invariant
            data@.len() <= usize::MAX,
            header.blob_index_length > 0,
            done <= header.blob_section_count,
            total <= 0xffff_ffff_ffff_ffff * done,
            forall|i: int| 0 <= i < FIELD_LIMIT ==> offsets[i] <= 0xffff_ffff_ffff_ffff * done,
            parse_blob_index(
                data@,
                pos as int,
                (header.blob_section_count - done) as nat,
                total as int,
                table(offsets),
            ) == parse_blob_index(
                data@,
                HEADER_LENGTH as int,
                header.blob_section_count as nat,
                0,
                no_offsets(),
            ),
        decreases header.blob_section_count - done,
    {
        let field = match read_u8(data, pos) {
            Some(v) => v,
            None => { return Err(ResourceError::ShortBlobField); },
        };
        if field == FIELD_END_OF_INDEX {
            return Err(ResourceError::EarlyEndOfBlobIndex);
        }
        let length = match read_u64(data, pos + 1) {
            Some(v) => v,
            None => { return Err(ResourceError::ShortBlobLength); },
        };
        if length > usize::MAX as u64 {
            return Err(ResourceError::BlobLengthTooLarge);
        }
        if !has_blob_section(field) {
            return Err(ResourceError::UnhandledBlobField);
        }
        let ghost before = table(offsets);
        offsets[field as usize] = total;
        assert(table(offsets) == before.update(field as int, total as int));
        total = total + length as u128;
        pos = pos + 9;
        done = done + 1;
    }
    match read_u8(data, pos) {
        None => Err(ResourceError::ShortBlobIndexEnd),
        Some(field) => if field == FIELD_END_OF_INDEX {
            Ok((pos + 1, offsets))
        } else {
            Err(ResourceError::UnclosedBlobIndex)
        },
    }
}

/// Claims the next `n` bytes of the blob section of `field`.
pub(crate) fn claim<'a>(data: &'a [u8], cursors: &mut CursorTable, field: u8, n: u64) -> (r: Result<
    &'a [u8],
    ResourceError,
>)
    requires
        field < FIELD_LIMIT,
        bounded(*old(cursors)),
    ensures
        bounded(*final(cursors)),
        match claim_data(data@.len(), table(*old(cursors)), field as int, n as int) {
            Ok((span, moved)) => r matches Ok(s) && s@ == span.of(data@) && table(*final(cursors))
                == moved,
            Err(e) => r == Err::<&[u8], ResourceError>(e) && *final(cursors) == *old(cursors),
        },
{
    let start: u128 = cursors[field as usize];
    let end: u128 = start + n as u128;
    if end > data.len() as u128 {
        return Err(ResourceError::OutOfBounds);
    }
    let bytes = &data[start as usize..end as usize];
    let ghost before = table(*cursors);
    cursors[field as usize] = end;
    assert(table(*cursors) == before.update(field as int, end as int));
    Ok(bytes)
}

/// Claims the next `n` bytes of the blob section of `field` as a name.
pub(crate) fn claim_str<'a>(data: &'a [u8], cursors: &mut CursorTable, field: u8, n: u16) -> (r: Result<
    &'a str,
    ResourceError,
>)
    requires
        field < FIELD_LIMIT,
        bounded(*old(cursors)),
    ensures
        bounded(*final(cursors)),
        match claim_name(data@, table(*old(cursors)), field as int, n as int) {
            Ok((span, moved)) => r matches Ok(s) && s.spec_bytes() == span.of(data@) && table(
                *final(cursors),
            ) == moved,
            Err(e) => r == Err::<&str, ResourceError>(e),
        },
{
    let bytes = claim(data, cursors, field, n as u64)?;
    match utf8_str(bytes) {
        Some(name) => Ok(name),
        None => Err(ResourceError::InvalidName),
    }
}

/// Putting a file into a map of files puts its bytes into the map of their
/// bytes.
proof fn lemma_file_bytes_insert(files: Map<Seq<u8>, &[u8]>, name: Seq<u8>, content: &[u8])
    ensures
        file_bytes(files.insert(name, content)) == file_bytes(files).insert(name, content@),
{
    assert(file_bytes(files.insert(name, content)) =~= file_bytes(files).insert(name, content@));
}

/// Reads `count` files of the kind `field`, whose lengths stand at `pos`.
/// Returns the files and the position behind their lengths.
pub(crate) fn read_files<'a>(
    data: &'a [u8],
    start: usize,
    cursors: &mut CursorTable,
    field: u8,
    count: u32,
) -> (r: Result<(FileMap<'a>, usize), ResourceError>)
    requires
        field == FIELD_IN_MEMORY_RESOURCES_DATA || field == FIELD_IN_MEMORY_PACKAGE_DISTRIBUTION,
        bounded(*old(cursors)),
    ensures
        bounded(*final(cursors)),
        match parse_files(
            data@,
            start as int,
            table(*old(cursors)),
            field as int,
            count as nat,
            Seq::empty(),
        ) {
            Ok(read) => r matches Ok((files, end)) && end == read.pos && table(*final(cursors))
                == read.cursors && file_bytes(files@) == crate::assoc::assoc_map(
                crate::format::file_pairs(read.items, data@),
            ),
            Err(e) => r matches Err(f) && f == e,
        },
{
    let mut files: FileMap<'a> = NameMap::new();
    let mut pos = start;
    let mut i: u32 = 0;
    let ghost mut items: Seq<(Span, Span)> = Seq::empty();
    proof {
        lemma_len_fits(data);
        assert(file_bytes(files@) =~= Map::<Seq<u8>, Seq<u8>>::empty());
        assert(crate::format::file_pairs(items, data@) =~= Seq::empty());
    }
    while i < count
        invariant
            data@.len() <= usize::MAX,
            field == FIELD_IN_MEMORY_RESOURCES_DATA || field == FIELD_IN_MEMORY_PACKAGE_DISTRIBUTION,
            bounded(*cursors),
            i <= count,
            parse_files(
                data@,
                pos as int,
                table(*cursors),
                field as int,
                (count - i) as nat,
                items,
            ) == parse_files(
                data@,
                start as int,
                table(*old(cursors)),
                field as int,
                count as nat,
                Seq::empty(),
            ),
            file_bytes(files@) == crate::assoc::assoc_map(crate::format::file_pairs(items, data@)),
        decreases count - i,
    {
        let name_length = match read_u16(data, pos) {
            Some(v) => v,
            None => {
                if field == FIELD_IN_MEMORY_RESOURCES_DATA {
                    return Err(ResourceError::ShortResourceName);
                } else {
                    return Err(ResourceError::ShortDistributionName);
                }
            },
        };
        let ghost cursors0 = table(*cursors);
        let name = claim_str(data, cursors, field, name_length)?;
        let ghost cursors1 = table(*cursors);
        let length = match read_u64(data, pos + 2) {
            Some(v) => v,
            None => {
                if field == FIELD_IN_MEMORY_RESOURCES_DATA {
                    return Err(ResourceError::ShortResourceLength);
                } else {
                    return Err(ResourceError::ShortDistributionResourceLength);
                }
            },
        };
        let content = claim(data, cursors, field, length)?;
        proof {
            let name_span = claim_name(data@, cursors0, field as int, name_length as int).unwrap().0;
            let content_span = claim_data(
                data@.len(),
                cursors1,
                field as int,
                length as int,
            ).unwrap().0;
            let pairs = crate::format::file_pairs(items, data@);
            assert(crate::format::file_pairs(items.push((name_span, content_span)), data@)
                == pairs.push((name_span.of(data@), content_span.of(data@))));
            crate::assoc::lemma_assoc_push(pairs, name_span.of(data@), content_span.of(data@));
            lemma_file_bytes_insert(files@, name.spec_bytes(), content);
            items = items.push((name_span, content_span));
        }
        files.insert(name, content);
        pos = pos + 10;
        i = i + 1;
    }
    Ok((files, pos))
}

/// Reads `count` names of library dependencies, whose lengths stand at
/// `pos`. Returns the names and the position behind their lengths.
pub(crate) fn read_names<'a>(data: &'a [u8], start: usize, cursors: &mut CursorTable, count: u16) -> (r:
    Result<(Vec<&'a str>, usize), ResourceError>)
    requires
        bounded(*old(cursors)),
    ensures
        bounded(*final(cursors)),
        match parse_names(data@, start as int, table(*old(cursors)), count as nat, Seq::empty()) {
            Ok(read) => r matches Ok((names, end)) && end == read.pos && table(*final(cursors))
                == read.cursors && name_bytes(names@) == span_bytes(read.items, data@),
            Err(e) => r matches Err(f) && f == e,
        },
{
    let mut names: Vec<&'a str> = Vec::new();
    let mut pos = start;
    let mut i: u16 = 0;
    let ghost mut items: Seq<Span> = Seq::empty();
    proof {
        lemma_len_fits(data);
        assert(name_bytes(names@) =~= span_bytes(items, data@));
    }
    while i < count
        invariant
            data@.len() <= usize::MAX,
            bounded(*cursors),
            i <= count,
            parse_names(data@, pos as int, table(*cursors), (count - i) as nat, items)
                == parse_names(
                data@,
                start as int,
                table(*old(cursors)),
                count as nat,
                Seq::empty(),
            ),
            name_bytes(names@) == span_bytes(items, data@),
        decreases count - i,
    {
        let length = match read_u16(data, pos) {
            Some(v) => v,
            None => { return Err(ResourceError::ShortDependencyNameLength); },
        };
        let ghost cursors0 = table(*cursors);
        let name = claim_str(data, cursors, FIELD_SHARED_LIBRARY_DEPENDENCY_NAMES, length)?;
        proof {
            let span = claim_name(
                data@,
                cursors0,
                FIELD_SHARED_LIBRARY_DEPENDENCY_NAMES as int,
                length as int,
            ).unwrap().0;
            let grown = name_bytes(names@.push(name));
            let wanted = span_bytes(items.push(span), data@);
            assert(name_bytes(names@).len() == span_bytes(items, data@).len());
            assert forall|j: int| 0 <= j < grown.len() implies grown[j] == wanted[j] by {
                if j < names@.len() {
                    assert(name_bytes(names@)[j] == span_bytes(items, data@)[j]);
                }
            }
            assert(grown =~= wanted);
            items = items.push(span);
        }
        names.push(name);
        pos = pos + 2;
        i = i + 1;
    }
    Ok((names, pos))
}

/// The failure where the input ends within the number that follows the tag
/// of `field`.
pub(crate) fn short_length_error(field: u8) -> (r: ResourceError)
    ensures
        r == short_length(field as int),
{
    if field == FIELD_MODULE_NAME {
        ResourceError::ShortNameLength
    } else if field == FIELD_IN_MEMORY_SOURCE {
        ResourceError::ShortSourceLength
    } else if field == FIELD_IN_MEMORY_EXTENSION_MODULE_SHARED_LIBRARY {
        ResourceError::ShortExtensionModuleLength
    } else if field == FIELD_IN_MEMORY_RESOURCES_DATA {
        ResourceError::ShortResourcesLength
    } else if field == FIELD_IN_MEMORY_PACKAGE_DISTRIBUTION {
        ResourceError::ShortDistributionLength
    } else if field == FIELD_IN_MEMORY_SHARED_LIBRARY {
        ResourceError::ShortSharedLibraryLength
    } else if field == FIELD_SHARED_LIBRARY_DEPENDENCY_NAMES {
        ResourceError::ShortDependencyNamesLength
    } else {
        ResourceError::ShortBytecodeLength
    }
}

/// The entry of which nothing is known holds nothing but the empty name.
proof fn lemma_empty_entry(data: Seq<u8>)
    ensures
        EntrySpans::empty().resolve(data) == ResourceView::named(Seq::empty()),
{
    assert(Span::empty().of(data) =~= Seq::<u8>::empty());
}

/// Reads what follows the tag of a field that has a blob section, and puts
/// what the field stands for into the entry. Returns the position behind
/// the field.
fn read_blob_field<'a>(
    data: &'a [u8],
    field: u8,
    pos: usize,
    cursors: &mut CursorTable,
    entry: &mut EmbeddedResource<'a>,
    Ghost(st): Ghost<WalkState>,
) -> (r: Result<usize, ResourceError>)
    requires
        is_blob_field(field as int),
        u8_at(data@, st.pos) == Some(field as int),
        pos == st.pos + 1,
        table(*old(cursors)) == st.cursors,
        bounded(*old(cursors)),
        old(entry)@ == st.scratch.resolve(data@),
    ensures
        bounded(*final(cursors)),
        match step(data@, st) {
            Ok(Some(next)) => r matches Ok(end) && end == next.pos && table(*final(cursors))
                == next.cursors && final(entry)@ == next.scratch.resolve(data@) && next.named == (
            st.named || field == FIELD_MODULE_NAME) && next.started == st.started && next.done
                == st.done,
            Ok(None) => false,
            Err(e) => r matches Err(f) && f == e,
        },
{
    proof {
        lemma_len_fits(data);
    }
    if field == FIELD_MODULE_NAME {
        let length = match read_u16(data, pos) {
            Some(v) => v,
            None => { return Err(short_length_error(field)); },
        };
        let name = claim_str(data, cursors, field, length)?;
        entry.name = name;
        Ok(pos + 2)
    } else if field <= FIELD_IN_MEMORY_EXTENSION_MODULE_SHARED_LIBRARY {
        let length = match read_u32(data, pos) {
            Some(v) => v,
            None => { return Err(short_length_error(field)); },
        };
        let bytes = claim(data, cursors, field, length as u64)?;
        if field == FIELD_IN_MEMORY_SOURCE {
            entry.in_memory_source = Some(bytes);
        } else if field == FIELD_IN_MEMORY_BYTECODE {
            entry.in_memory_bytecode = Some(bytes);
        } else if field == FIELD_IN_MEMORY_BYTECODE_OPT1 {
            entry.in_memory_bytecode_opt1 = Some(bytes);
        } else if field == FIELD_IN_MEMORY_BYTECODE_OPT2 {
            entry.in_memory_bytecode_opt2 = Some(bytes);
        } else {
            entry.in_memory_shared_library_extension_module = Some(bytes);
        }
        Ok(pos + 4)
    } else if field == FIELD_IN_MEMORY_SHARED_LIBRARY {
        let length = match read_u64(data, pos) {
            Some(v) => v,
            None => { return Err(short_length_error(field)); },
        };
        let bytes = claim(data, cursors, field, length)?;
        entry.in_memory_shared_library = Some(bytes);
        Ok(pos + 8)
    } else if field == FIELD_IN_MEMORY_RESOURCES_DATA {
        let count = match read_u32(data, pos) {
            Some(v) => v,
            None => { return Err(short_length_error(field)); },
        };
        let (files, end) = read_files(data, pos + 4, cursors, field, count)?;
        entry.in_memory_resources = Some(Arc::new(Box::new(files)));
        Ok(end)
    } else if field == FIELD_IN_MEMORY_PACKAGE_DISTRIBUTION {
        let count = match read_u32(data, pos) {
            Some(v) => v,
            None => { return Err(short_length_error(field)); },
        };
        let (files, end) = read_files(data, pos + 4, cursors, field, count)?;
        entry.in_memory_package_distribution = Some(files);
        Ok(end)
    } else {
        let count = match read_u16(data, pos) {
            Some(v) => v,
            None => { return Err(short_length_error(field)); },
        };
        let (names, end) = read_names(data, pos + 2, cursors, count)?;
        entry.shared_library_dependency_names = Some(names);
        Ok(end)
    }
}

/// Adding an entry to a list adds what it holds to what the list holds.
proof fn lemma_views_push(
    done: Seq<EmbeddedResource>,
    entry: EmbeddedResource,
    spans: Seq<EntrySpans>,
    span: EntrySpans,
    data: Seq<u8>,
)
    requires
        views(done) == resolve_all(spans, data),
        entry@ == span.resolve(data),
    ensures
        views(done.push(entry)) == resolve_all(spans.push(span), data),
{
    let grown = views(done.push(entry));
    let wanted = resolve_all(spans.push(span), data);
    assert(views(done).len() == done.len());
    assert(resolve_all(spans, data).len() == spans.len());
    assert(grown.len() == wanted.len());
    assert forall|j: int| 0 <= j < grown.len() implies grown[j] == wanted[j] by {
        if j < done.len() {
            assert(views(done)[j] == done[j]@);
            assert(resolve_all(spans, data)[j] == spans[j].resolve(data));
        }
    }
    assert(grown =~= wanted);
}

/// What reading the index of resources has come to.
struct Walker<'a> {
    pos: usize,
    cursors: CursorTable,
    scratch: EmbeddedResource<'a>,
    named: bool,
    started: usize,
    done: Vec<EmbeddedResource<'a>>,
}

impl<'a> Walker<'a> {
    /// Whether the walker stands where `st` says.
    spec fn stands_at(&self, st: WalkState, data: Seq<u8>) -> bool {
        &&& self.pos == st.pos
        &&& table(self.cursors) == st.cursors
        &&& bounded(self.cursors)
        &&& self.scratch@ == st.scratch.resolve(data)
        &&& self.named == st.named
        &&& self.started == st.started
        &&& self.started <= self.pos
        &&& views(self.done@) == resolve_all(st.done, data)
    }

    /// Reads one field. Returns whether the index goes on behind it.
    fn advance(&mut self, data: &'a [u8], Ghost(st): Ghost<WalkState>) -> (r: Result<
        bool,
        ResourceError,
    >)
        requires
            old(self).stands_at(st, data@),
        ensures
            match step(data@, st) {
                Ok(Some(next)) => r matches Ok(more) && more && final(self).stands_at(next, data@),
                Ok(None) => r matches Ok(more) && !more && final(self).stands_at(st, data@),
                Err(e) => r matches Err(f) && f == e,
            },
    {
        let field = match read_u8(data, self.pos) {
            Some(v) => v,
            None => { return Err(ResourceError::ShortFieldType); },
        };
        proof {
            lemma_len_fits(data);
            lemma_empty_entry(data@);
        }
        if field == FIELD_END_OF_INDEX {
            return Ok(false);
        } else if field == FIELD_START_OF_ENTRY {
            self.started = self.started + 1;
            self.scratch = EmbeddedResource::default();
            self.named = false;
            self.pos = self.pos + 1;
        } else if field == FIELD_END_OF_ENTRY {
            if !self.named {
                return Err(ResourceError::MissingName);
            }
            let mut entry = EmbeddedResource::default();
            std::mem::swap(&mut entry, &mut self.scratch);
            proof {
                lemma_views_push(self.done@, entry, st.done, st.scratch, data@);
            }
            self.done.push(entry);
            self.named = false;
            self.pos = self.pos + 1;
        } else if field == FIELD_IS_PACKAGE {
            self.scratch.is_package = true;
            self.pos = self.pos + 1;
        } else if field == FIELD_IS_NAMESPACE_PACKAGE {
            self.scratch.is_namespace_package = true;
            self.pos = self.pos + 1;
        } else if has_blob_section(field) {
            let end = read_blob_field(
                data,
                field,
                self.pos + 1,
                &mut self.cursors,
                &mut self.scratch,
                Ghost(st),
            )?;
            proof {
                crate::format::lemma_step_moves(data@, st);
            }
            self.pos = end;
            if field == FIELD_MODULE_NAME {
                self.named = true;
            }
        } else {
            return Err(ResourceError::InvalidFieldType);
        }
        Ok(true)
    }
}

/// Reads the index of resources, which starts at `start`, up to the field
/// that closes it. Returns the entries that were closed, in their order, and
/// the number of entries that were started.
pub(crate) fn read_entries<'a>(data: &'a [u8], start: usize, cursors: CursorTable) -> (r: Result<
    (Vec<EmbeddedResource<'a>>, usize),
    ResourceError,
>)
    requires
        bounded(cursors),
    ensures
        match walk(data@, WalkState::initial(start as int, table(cursors))) {
            Ok(end) => r matches Ok((entries, started)) && views(entries@) == resolve_all(
                end.done,
                data@,
            ) && started == end.started,
            Err(e) => r matches Err(f) && f == e,
        },
{
    let mut walker = Walker {
        pos: start,
        cursors,
        scratch: EmbeddedResource::default(),
        named: false,
        started: 0,
        done: Vec::new(),
    };
    let ghost first = WalkState::initial(start as int, table(cursors));
    let ghost mut st = first;
    proof {
        lemma_empty_entry(data@);
        assert(views(walker.done@) =~= resolve_all(st.done, data@));
    }
    loop
        invariant
            first == WalkState::initial(start as int, table(cursors)),
            walker.stands_at(st, data@),
            walk(data@, st) == walk(data@, first),
        decreases data@.len() - walker.pos,
    {
        let more = walker.advance(data, Ghost(st))?;
        if !more {
            return Ok((walker.done, walker.started));
        }
        proof {
            crate::format::lemma_step_moves(data@, st);
            st = step(data@, st).unwrap().unwrap();
        }
    }
}

/// Reads a packed resource index of version 1, whose magic header has been
/// tested. Returns the entries of its index of resources, in their order.
pub(crate) fn decode_v1<'a>(data: &'a [u8]) -> (r: Result<Vec<EmbeddedResource<'a>>, ResourceError>)
    requires
        has_magic_v1(data@),
    ensures
        match decode(data@) {
            Ok(entries) => r matches Ok(found) && views(found@) == resolve_all(entries, data@),
            Err(e) => r matches Err(f) && f == e,
        },
{
    let header = read_fixed_header(data)?;
    let (pos, offsets) = read_blob_sections(data, &header)?;
    if header.resources_index_length == 0 || header.resources_count == 0 {
        let none: Vec<EmbeddedResource<'a>> = Vec::new();
        assert(views(none@) =~= resolve_all(Seq::empty(), data@));
        return Ok(none);
    }
    let blob_start: u128 = HEADER_LENGTH as u128 + header.blob_index_length as u128
        + header.resources_index_length as u128;
    let mut cursors: CursorTable = [0u128; 15];
    let mut i: usize = 0;
    while i < FIELD_LIMIT
        invariant
            i <= FIELD_LIMIT,
            blob_start == header@.blob_start(),
            forall|j: int| 0 <= j < FIELD_LIMIT ==> offsets[j] <= 0xffff_ffff_ffff_ffff * 255,
            forall|j: int| 0 <= j < i ==> cursors[j] == blob_start + offsets[j],
        decreases FIELD_LIMIT - i,
    {
        cursors[i] = blob_start + offsets[i];
        i = i + 1;
    }
    assert(table(cursors) =~= initial_cursors(header@, table(offsets)));
    let (entries, started) = read_entries(data, pos, cursors)?;
    if started != header.resources_count as usize {
        return Err(ResourceError::CountMismatch);
    }
    Ok(entries)
}

/// Reads a packed resource index. Returns the resources of its entries, in
/// the order of the entries. The names and the data of the resources are
/// parts of `data`.
pub fn decode_resources<'a>(data: &'a [u8]) -> (r: Result<Vec<EmbeddedResource<'a>>, ResourceError>)
    ensures
        match decode(data@) {
            Ok(entries) => r matches Ok(found) && views(found@) == resolve_all(entries, data@),
            Err(e) => r matches Err(f) && f == e,
        },
{
    match read_magic(data) {
        Ok(_) => decode_v1(data),
        Err(e) => Err(e),
    }
}

} // verus!
