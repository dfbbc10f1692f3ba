//! The layout of a packed resource index, version 1, and what reading it
//! yields.
//!
//! A packed index is a magic header, a fixed header of four numbers, an
//! index of blob sections, an index of resources, and the blob sections
//! themselves. The index of resources is a run of tagged fields. A field
//! that stands for a name or for data carries only a length: the bytes
//! are the next ones of the blob section of that field's kind.

use crate::assoc::assoc_map;
use crate::error::ResourceError;
use crate::reader::{u16_at, u32_at, u64_at, u8_at};
use crate::resource::ResourceView;
use vstd::prelude::*;
use vstd::utf8::valid_utf8;

verus! {

/// Closes the index of blob sections and the index of resources.
pub const FIELD_END_OF_INDEX: u8 = 0x00;

/// Opens an entry of the index of resources.
pub const FIELD_START_OF_ENTRY: u8 = 0x01;

/// Closes an entry of the index of resources.
pub const FIELD_END_OF_ENTRY: u8 = 0x02;

/// The name of the resource.
pub const FIELD_MODULE_NAME: u8 = 0x03;

/// The resource is a package.
pub const FIELD_IS_PACKAGE: u8 = 0x04;

/// The resource is a namespace package.
pub const FIELD_IS_NAMESPACE_PACKAGE: u8 = 0x05;

/// Source code.
pub const FIELD_IN_MEMORY_SOURCE: u8 = 0x06;

/// Bytecode.
pub const FIELD_IN_MEMORY_BYTECODE: u8 = 0x07;

/// Bytecode of optimization level 1.
pub const FIELD_IN_MEMORY_BYTECODE_OPT1: u8 = 0x08;

/// Bytecode of optimization level 2.
pub const FIELD_IN_MEMORY_BYTECODE_OPT2: u8 = 0x09;

/// A shared library that is an extension module.
pub const FIELD_IN_MEMORY_EXTENSION_MODULE_SHARED_LIBRARY: u8 = 0x0a;

/// The resource files of a package.
pub const FIELD_IN_MEMORY_RESOURCES_DATA: u8 = 0x0b;

/// The distribution files of a package.
pub const FIELD_IN_MEMORY_PACKAGE_DISTRIBUTION: u8 = 0x0c;

/// A shared library.
pub const FIELD_IN_MEMORY_SHARED_LIBRARY: u8 = 0x0d;

/// The names of the shared libraries that the resource depends on.
pub const FIELD_SHARED_LIBRARY_DEPENDENCY_NAMES: u8 = 0x0e;

/// One more than the largest field tag: the size of a table with a place
/// for every field.
pub const FIELD_LIMIT: usize = 15;

/// The length of the magic header and the fixed header together.
pub const HEADER_LENGTH: usize = 21;

/// Whether the data starts with the magic header of version 1: the letters
/// `pyembed` and the byte 1.
pub open spec fn has_magic_v1(data: Seq<u8>) -> bool {
    &&& data.len() >= 8
    &&& data[0] == 0x70
    &&& data[1] == 0x79
    &&& data[2] == 0x65
    &&& data[3] == 0x6d
    &&& data[4] == 0x62
    &&& data[5] == 0x65
    &&& data[6] == 0x64
    &&& data[7] == 0x01
}

/// Whether the field has a blob section: it is the name or one of the
/// nine kinds of data.
pub open spec fn is_blob_field(field: int) -> bool {
    field == FIELD_MODULE_NAME || (FIELD_IN_MEMORY_SOURCE <= field
        <= FIELD_SHARED_LIBRARY_DEPENDENCY_NAMES)
}

/// Whether the field is one run of data with a 32-bit length.
pub open spec fn is_short_data_field(field: int) -> bool {
    FIELD_IN_MEMORY_SOURCE <= field <= FIELD_IN_MEMORY_EXTENSION_MODULE_SHARED_LIBRARY
}

/// The four numbers of the fixed header.
pub struct Header {
    pub blob_section_count: int,
    pub blob_index_length: int,
    pub resources_count: int,
    pub resources_index_length: int,
}

impl Header {
    /// Where the blob sections begin.
    pub open spec fn blob_start(self) -> int {
        HEADER_LENGTH + self.blob_index_length + self.resources_index_length
    }
}

/// A run of bytes of the input: those from `start` up to, not including,
/// `end`.
pub struct Span {
    pub start: int,
    pub end: int,
}

impl Span {
    /// The bytes of this run.
    pub open spec fn of(self, data: Seq<u8>) -> Seq<u8> {
        data.subrange(self.start, self.end)
    }

    /// Whether this run lies within an input of `len` bytes.
    pub open spec fn within(self, len: int) -> bool {
        0 <= self.start <= self.end <= len
    }

    /// The run of no bytes at the start of the input.
    pub open spec fn empty() -> Span {
        Span { start: 0, end: 0 }
    }
}

/// One entry of the index of resources: its flags, and where in the input
/// its name and its data lie.
pub struct EntrySpans {
    pub name: Span,
    pub is_package: bool,
    pub is_namespace_package: bool,
    pub source: Option<Span>,
    pub bytecode: Option<Span>,
    pub bytecode_opt1: Option<Span>,
    pub bytecode_opt2: Option<Span>,
    pub extension_module: Option<Span>,
    pub resources: Option<Seq<(Span, Span)>>,
    pub distribution: Option<Seq<(Span, Span)>>,
    pub shared_library: Option<Span>,
    pub dependency_names: Option<Seq<Span>>,
}

impl EntrySpans {
    /// The entry of which nothing is known yet.
    pub open spec fn empty() -> EntrySpans {
        EntrySpans {
            name: Span::empty(),
            is_package: false,
            is_namespace_package: false,
            source: None,
            bytecode: None,
            bytecode_opt1: None,
            bytecode_opt2: None,
            extension_module: None,
            resources: None,
            distribution: None,
            shared_library: None,
            dependency_names: None,
        }
    }

    /// This entry with `span` as its run of data of the kind `field`.
    pub open spec fn with_data(self, field: int, span: Span) -> EntrySpans {
        if field == FIELD_IN_MEMORY_SOURCE {
            EntrySpans { source: Some(span), ..self }
        } else if field == FIELD_IN_MEMORY_BYTECODE {
            EntrySpans { bytecode: Some(span), ..self }
        } else if field == FIELD_IN_MEMORY_BYTECODE_OPT1 {
            EntrySpans { bytecode_opt1: Some(span), ..self }
        } else if field == FIELD_IN_MEMORY_BYTECODE_OPT2 {
            EntrySpans { bytecode_opt2: Some(span), ..self }
        } else if field == FIELD_IN_MEMORY_EXTENSION_MODULE_SHARED_LIBRARY {
            EntrySpans { extension_module: Some(span), ..self }
        } else {
            EntrySpans { shared_library: Some(span), ..self }
        }
    }

    /// This entry with `files` as its files of the kind `field`.
    pub open spec fn with_files(self, field: int, files: Seq<(Span, Span)>) -> EntrySpans {
        if field == FIELD_IN_MEMORY_RESOURCES_DATA {
            EntrySpans { resources: Some(files), ..self }
        } else {
            EntrySpans { distribution: Some(files), ..self }
        }
    }

    /// What the entry holds, read out of `data`.
    pub open spec fn resolve(self, data: Seq<u8>) -> ResourceView {
        ResourceView {
            name: self.name.of(data),
            is_package: self.is_package,
            is_namespace_package: self.is_namespace_package,
            is_builtin: false,
            is_frozen: false,
            in_memory_source: resolve_span(self.source, data),
            in_memory_bytecode: resolve_span(self.bytecode, data),
            in_memory_bytecode_opt1: resolve_span(self.bytecode_opt1, data),
            in_memory_bytecode_opt2: resolve_span(self.bytecode_opt2, data),
            in_memory_shared_library_extension_module: resolve_span(self.extension_module, data),
            in_memory_resources: resolve_files(self.resources, data),
            in_memory_package_distribution: resolve_files(self.distribution, data),
            in_memory_shared_library: resolve_span(self.shared_library, data),
            shared_library_dependency_names: match self.dependency_names {
                Some(names) => Some(span_bytes(names, data)),
                None => None,
            },
        }
    }
}

/// The bytes of an optional run.
pub open spec fn resolve_span(span: Option<Span>, data: Seq<u8>) -> Option<Seq<u8>> {
    match span {
        Some(s) => Some(s.of(data)),
        None => None,
    }
}

/// The bytes of each run of a list.
pub open spec fn span_bytes(spans: Seq<Span>, data: Seq<u8>) -> Seq<Seq<u8>> {
    spans.map_values(|s: Span| s.of(data))
}

/// The name and the content of each file of a list, as bytes.
pub open spec fn file_pairs(files: Seq<(Span, Span)>, data: Seq<u8>) -> Seq<(Seq<u8>, Seq<u8>)> {
    files.map_values(|f: (Span, Span)| (f.0.of(data), f.1.of(data)))
}

/// The map from the name of each file to its content. Of two files with one
/// name the later one stays.
pub open spec fn resolve_files(files: Option<Seq<(Span, Span)>>, data: Seq<u8>) -> Option<
    Map<Seq<u8>, Seq<u8>>,
> {
    match files {
        Some(f) => Some(assoc_map(file_pairs(f, data))),
        None => None,
    }
}

/// What each entry of a list holds, read out of `data`.
pub open spec fn resolve_all(entries: Seq<EntrySpans>, data: Seq<u8>) -> Seq<ResourceView> {
    entries.map_values(|e: EntrySpans| e.resolve(data))
}

/// Reads the magic header and the fixed header.
pub open spec fn parse_header(data: Seq<u8>) -> Result<Header, ResourceError> {
    if data.len() < 8 {
        Err(ResourceError::ShortHeader)
    } else if !has_magic_v1(data) {
        Err(ResourceError::UnrecognizedFormat)
    } else if u8_at(data, 8) is None {
        Err(ResourceError::ShortBlobSectionCount)
    } else if u32_at(data, 9) is None {
        Err(ResourceError::ShortBlobIndexLength)
    } else if u32_at(data, 13) is None {
        Err(ResourceError::ShortResourcesCount)
    } else if u32_at(data, 17) is None {
        Err(ResourceError::ShortResourcesIndexLength)
    } else {
        Ok(
            Header {
                blob_section_count: u8_at(data, 8).unwrap(),
                blob_index_length: u32_at(data, 9).unwrap(),
                resources_count: u32_at(data, 13).unwrap(),
                resources_index_length: u32_at(data, 17).unwrap(),
            },
        )
    }
}

/// The table in which no blob section has an offset yet.
pub open spec fn no_offsets() -> Seq<int> {
    Seq::new(FIELD_LIMIT as nat, |i: int| 0int)
}

/// Reads `remaining` records of the index of blob sections from `pos` on,
/// and then the field that closes it. Each record gives a field and the
/// length of its blob section. The sections follow one another: `total` is
/// the length of those read so far and `offsets` says where each of them
/// starts. Yields the position behind the index and the table of offsets.
pub open spec fn parse_blob_index(
    data: Seq<u8>,
    pos: int,
    remaining: nat,
    total: int,
    offsets: Seq<int>,
) -> Result<(int, Seq<int>), ResourceError>
    decreases remaining,
{
    if remaining == 0 {
        match u8_at(data, pos) {
            None => Err(ResourceError::ShortBlobIndexEnd),
            Some(field) => if field == FIELD_END_OF_INDEX {
                Ok((pos + 1, offsets))
            } else {
                Err(ResourceError::UnclosedBlobIndex)
            },
        }
    } else {
        match u8_at(data, pos) {
            None => Err(ResourceError::ShortBlobField),
            Some(field) => if field == FIELD_END_OF_INDEX {
                Err(ResourceError::EarlyEndOfBlobIndex)
            } else {
                match u64_at(data, pos + 1) {
                    None => Err(ResourceError::ShortBlobLength),
                    Some(length) => if length > usize::MAX {
                        Err(ResourceError::BlobLengthTooLarge)
                    } else if !is_blob_field(field) {
                        Err(ResourceError::UnhandledBlobField)
                    } else {
                        parse_blob_index(
                            data,
                            pos + 9,
                            (remaining - 1) as nat,
                            total + length,
                            offsets.update(field, total),
                        )
                    },
                }
            },
        }
    }
}

/// Where the next bytes of each blob section lie: a table with one place
/// for each field.
pub type Cursors = Seq<int>;

/// Where each blob section starts in the input, given its offset from the
/// start of the first.
pub open spec fn initial_cursors(header: Header, offsets: Seq<int>) -> Cursors {
    Seq::new(FIELD_LIMIT as nat, |i: int| header.blob_start() + offsets[i])
}

/// Claims the next `n` bytes of the blob section of `field`: yields their
/// run and the table in which that section's cursor has moved behind them.
/// Fails where the input ends before them.
pub open spec fn claim_data(len: nat, cursors: Cursors, field: int, n: int) -> Result<
    (Span, Cursors),
    ResourceError,
> {
    let start = cursors[field];
    if start + n <= len {
        Ok((Span { start, end: start + n }, cursors.update(field, start + n)))
    } else {
        Err(ResourceError::OutOfBounds)
    }
}

/// Claims the next `n` bytes of the blob section of `field` as a name. Fails
/// where the input ends before them, or where they are not UTF-8.
pub open spec fn claim_name(data: Seq<u8>, cursors: Cursors, field: int, n: int) -> Result<
    (Span, Cursors),
    ResourceError,
> {
    match claim_data(data.len(), cursors, field, n) {
        Err(e) => Err(e),
        Ok((span, moved)) => if valid_utf8(span.of(data)) {
            Ok((span, moved))
        } else {
            Err(ResourceError::InvalidName)
        },
    }
}

/// What reading a list of files or of names yields: the position behind
/// their lengths in the index, the cursors behind their bytes, and their
/// runs.
pub struct ListRead<T> {
    pub pos: int,
    pub cursors: Cursors,
    pub items: Seq<T>,
}

/// Reads `remaining` files of the kind `field` from `pos` on, after those of
/// `files`. A file is the 16-bit length of its name and the 64-bit length of
/// its content; the name and the content are claimed in this order.
pub open spec fn parse_files(
    data: Seq<u8>,
    pos: int,
    cursors: Cursors,
    field: int,
    remaining: nat,
    files: Seq<(Span, Span)>,
) -> Result<ListRead<(Span, Span)>, ResourceError>
    decreases remaining,
{
    if remaining == 0 {
        Ok(ListRead { pos, cursors, items: files })
    } else {
        match u16_at(data, pos) {
            None => Err(short_file_name(field)),
            Some(name_length) => match claim_name(data, cursors, field, name_length) {
                Err(e) => Err(e),
                Ok((name, after_name)) => match u64_at(data, pos + 2) {
                    None => Err(short_file_length(field)),
                    Some(length) => match claim_data(data.len(), after_name, field, length) {
                        Err(e) => Err(e),
                        Ok((content, after_content)) => parse_files(
                            data,
                            pos + 10,
                            after_content,
                            field,
                            (remaining - 1) as nat,
                            files.push((name, content)),
                        ),
                    },
                },
            },
        }
    }
}

/// Reads `remaining` names of library dependencies from `pos` on, after
/// those of `names`. A name is its 16-bit length.
pub open spec fn parse_names(
    data: Seq<u8>,
    pos: int,
    cursors: Cursors,
    remaining: nat,
    names: Seq<Span>,
) -> Result<ListRead<Span>, ResourceError>
    decreases remaining,
{
    if remaining == 0 {
        Ok(ListRead { pos, cursors, items: names })
    } else {
        match u16_at(data, pos) {
            None => Err(ResourceError::ShortDependencyNameLength),
            Some(length) => match claim_name(
                data,
                cursors,
                FIELD_SHARED_LIBRARY_DEPENDENCY_NAMES as int,
                length,
            ) {
                Err(e) => Err(e),
                Ok((name, moved)) => parse_names(
                    data,
                    pos + 2,
                    moved,
                    (remaining - 1) as nat,
                    names.push(name),
                ),
            },
        }
    }
}

/// The failure where the input ends within the length of the name of a file.
pub open spec fn short_file_name(field: int) -> ResourceError {
    if field == FIELD_IN_MEMORY_RESOURCES_DATA {
        ResourceError::ShortResourceName
    } else {
        ResourceError::ShortDistributionName
    }
}

/// The failure where the input ends within the length of a file.
pub open spec fn short_file_length(field: int) -> ResourceError {
    if field == FIELD_IN_MEMORY_RESOURCES_DATA {
        ResourceError::ShortResourceLength
    } else {
        ResourceError::ShortDistributionResourceLength
    }
}

/// The failure where the input ends within the number that follows the tag
/// of `field`.
pub open spec fn short_length(field: int) -> ResourceError {
    if field == FIELD_MODULE_NAME {
        ResourceError::ShortNameLength
    } else if field == FIELD_IN_MEMORY_SOURCE {
        ResourceError::ShortSourceLength
    } else if field == FIELD_IN_MEMORY_EXTENSION_MODULE_SHARED_LIBRARY {
        ResourceError::ShortExtensionModuleLength
    } else if field == FIELD_IN_MEMORY_RESOURCES_DATA {
        ResourceError::ShortResourcesLength
    } else if field == FIELD_IN_MEMORY_PACKAGE_DISTRIBUTION {
        ResourceError::ShortDistributionLength
    } else if field == FIELD_IN_MEMORY_SHARED_LIBRARY {
        ResourceError::ShortSharedLibraryLength
    } else if field == FIELD_SHARED_LIBRARY_DEPENDENCY_NAMES {
        ResourceError::ShortDependencyNamesLength
    } else {
        ResourceError::ShortBytecodeLength
    }
}

/// Where reading the index of resources stands.
pub struct WalkState {
    /// The position of the next field.
    pub pos: int,
    /// Where the next bytes of each blob section lie.
    pub cursors: Cursors,
    /// The entry that is being read.
    pub scratch: EntrySpans,
    /// Whether that entry has been given a name.
    pub named: bool,
    /// How many entries have been started.
    pub started: int,
    /// The entries that have been closed, in their order.
    pub done: Seq<EntrySpans>,
}

impl WalkState {
    /// The state before the first field, which stands at `pos`.
    pub open spec fn initial(pos: int, cursors: Cursors) -> WalkState {
        WalkState {
            pos,
            cursors,
            scratch: EntrySpans::empty(),
            named: false,
            started: 0,
            done: Seq::empty(),
        }
    }
}

/// Reads one field of the index of resources. Yields the state behind it, or
/// nothing where the field closes the index.
pub open spec fn step(data: Seq<u8>, st: WalkState) -> Result<Option<WalkState>, ResourceError> {
    match u8_at(data, st.pos) {
        None => Err(ResourceError::ShortFieldType),
        Some(field) => {
            let pos = st.pos + 1;
            if field == FIELD_END_OF_INDEX {
                Ok(None)
            } else if field == FIELD_START_OF_ENTRY {
                Ok(
                    Some(
                        WalkState {
                            pos,
                            scratch: EntrySpans::empty(),
                            named: false,
                            started: st.started + 1,
                            ..st
                        },
                    ),
                )
            } else if field == FIELD_END_OF_ENTRY {
                if st.named {
                    Ok(
                        Some(
                            WalkState {
                                pos,
                                scratch: EntrySpans::empty(),
                                named: false,
                                done: st.done.push(st.scratch),
                                ..st
                            },
                        ),
                    )
                } else {
                    Err(ResourceError::MissingName)
                }
            } else if field == FIELD_IS_PACKAGE {
                Ok(Some(WalkState { pos, scratch: EntrySpans { is_package: true, ..st.scratch }, ..st }))
            } else if field == FIELD_IS_NAMESPACE_PACKAGE {
                Ok(
                    Some(
                        WalkState {
                            pos,
                            scratch: EntrySpans { is_namespace_package: true, ..st.scratch },
                            ..st
                        },
                    ),
                )
            } else if field == FIELD_MODULE_NAME {
                match u16_at(data, pos) {
                    None => Err(short_length(field)),
                    Some(length) => match claim_name(data, st.cursors, field, length) {
                        Err(e) => Err(e),
                        Ok((name, cursors)) => Ok(
                            Some(
                                WalkState {
                                    pos: pos + 2,
                                    cursors,
                                    scratch: EntrySpans { name, ..st.scratch },
                                    named: true,
                                    ..st
                                },
                            ),
                        ),
                    },
                }
            } else if is_short_data_field(field) {
                match u32_at(data, pos) {
                    None => Err(short_length(field)),
                    Some(length) => match claim_data(data.len(), st.cursors, field, length) {
                        Err(e) => Err(e),
                        Ok((span, cursors)) => Ok(
                            Some(
                                WalkState {
                                    pos: pos + 4,
                                    cursors,
                                    scratch: st.scratch.with_data(field, span),
                                    ..st
                                },
                            ),
                        ),
                    },
                }
            } else if field == FIELD_IN_MEMORY_SHARED_LIBRARY {
                match u64_at(data, pos) {
                    None => Err(short_length(field)),
                    Some(length) => match claim_data(data.len(), st.cursors, field, length) {
                        Err(e) => Err(e),
                        Ok((span, cursors)) => Ok(
                            Some(
                                WalkState {
                                    pos: pos + 8,
                                    cursors,
                                    scratch: st.scratch.with_data(field, span),
                                    ..st
                                },
                            ),
                        ),
                    },
                }
            } else if field == FIELD_IN_MEMORY_RESOURCES_DATA || field
                == FIELD_IN_MEMORY_PACKAGE_DISTRIBUTION {
                match u32_at(data, pos) {
                    None => Err(short_length(field)),
                    Some(count) => match parse_files(
                        data,
                        pos + 4,
                        st.cursors,
                        field,
                        count as nat,
                        Seq::empty(),
                    ) {
                        Err(e) => Err(e),
                        Ok(read) => Ok(
                            Some(
                                WalkState {
                                    pos: read.pos,
                                    cursors: read.cursors,
                                    scratch: st.scratch.with_files(field, read.items),
                                    ..st
                                },
                            ),
                        ),
                    },
                }
            } else if field == FIELD_SHARED_LIBRARY_DEPENDENCY_NAMES {
                match u16_at(data, pos) {
                    None => Err(short_length(field)),
                    Some(count) => match parse_names(
                        data,
                        pos + 2,
                        st.cursors,
                        count as nat,
                        Seq::empty(),
                    ) {
                        Err(e) => Err(e),
                        Ok(read) => Ok(
                            Some(
                                WalkState {
                                    pos: read.pos,
                                    cursors: read.cursors,
                                    scratch: EntrySpans {
                                        dependency_names: Some(read.items),
                                        ..st.scratch
                                    },
                                    ..st
                                },
                            ),
                        ),
                    },
                }
            } else {
                Err(ResourceError::InvalidFieldType)
            }
        },
    }
}

/// Reading files moves forward and stays within the input.
proof fn lemma_parse_files_moves(
    data: Seq<u8>,
    pos: int,
    cursors: Cursors,
    field: int,
    remaining: nat,
    files: Seq<(Span, Span)>,
)
    requires
        0 <= pos <= data.len(),
    ensures
        parse_files(data, pos, cursors, field, remaining, files) matches Ok(read) ==> pos
            <= read.pos <= data.len(),
    decreases remaining,
{
    if remaining > 0 {
        if let Some(name_length) = u16_at(data, pos) {
            if let Ok((name, after_name)) = claim_name(data, cursors, field, name_length) {
                if let Some(length) = u64_at(data, pos + 2) {
                    if let Ok((content, after_content)) = claim_data(
                        data.len(),
                        after_name,
                        field,
                        length,
                    ) {
                        lemma_parse_files_moves(
                            data,
                            pos + 10,
                            after_content,
                            field,
                            (remaining - 1) as nat,
                            files.push((name, content)),
                        );
                    }
                }
            }
        }
    }
}

/// Reading names moves forward and stays within the input.
proof fn lemma_parse_names_moves(
    data: Seq<u8>,
    pos: int,
    cursors: Cursors,
    remaining: nat,
    names: Seq<Span>,
)
    requires
        0 <= pos <= data.len(),
    ensures
        parse_names(data, pos, cursors, remaining, names) matches Ok(read) ==> pos <= read.pos
            <= data.len(),
    decreases remaining,
{
    if remaining > 0 {
        if let Some(length) = u16_at(data, pos) {
            if let Ok((name, moved)) = claim_name(
                data,
                cursors,
                FIELD_SHARED_LIBRARY_DEPENDENCY_NAMES as int,
                length,
            ) {
                lemma_parse_names_moves(
                    data,
                    pos + 2,
                    moved,
                    (remaining - 1) as nat,
                    names.push(name),
                );
            }
        }
    }
}

/// A step that yields a state has read at least one byte, and none beyond
/// the input.
pub proof fn lemma_step_moves(data: Seq<u8>, st: WalkState)
    ensures
        step(data, st) matches Ok(Some(next)) ==> 0 <= st.pos < next.pos <= data.len(),
{
    if let Some(field) = u8_at(data, st.pos) {
        let pos = st.pos + 1;
        if field == FIELD_IN_MEMORY_RESOURCES_DATA || field == FIELD_IN_MEMORY_PACKAGE_DISTRIBUTION {
            if let Some(count) = u32_at(data, pos) {
                lemma_parse_files_moves(
                    data,
                    pos + 4,
                    st.cursors,
                    field,
                    count as nat,
                    Seq::empty(),
                );
            }
        } else if field == FIELD_SHARED_LIBRARY_DEPENDENCY_NAMES {
            if let Some(count) = u16_at(data, pos) {
                lemma_parse_names_moves(data, pos + 2, st.cursors, count as nat, Seq::empty());
            }
        }
    }
}

/// Reads the index of resources field by field, up to the field that closes
/// it. Yields the state in which that field was met.
pub open spec fn walk(data: Seq<u8>, st: WalkState) -> Result<WalkState, ResourceError>
    decreases data.len() - st.pos,
{
    match step(data, st) {
        Err(e) => Err(e),
        Ok(None) => Ok(st),
        Ok(Some(next)) => {
            proof {
                lemma_step_moves(data, st);
            }
            walk(data, next)
        },
    }
}

/// Reads the index of blob sections, if the header announces one. Yields
/// the position behind it and the offset of each blob section.
pub open spec fn parse_blob_sections(data: Seq<u8>, header: Header) -> Result<
    (int, Seq<int>),
    ResourceError,
> {
    if header.blob_index_length > 0 {
        parse_blob_index(
            data,
            HEADER_LENGTH as int,
            header.blob_section_count as nat,
            0,
            no_offsets(),
        )
    } else {
        Ok((HEADER_LENGTH as int, no_offsets()))
    }
}

/// Reads a packed resource index. Yields the entries of its index of
/// resources, in their order; none where the header announces no entry or
/// an empty index.
pub open spec fn decode(data: Seq<u8>) -> Result<Seq<EntrySpans>, ResourceError> {
    match parse_header(data) {
        Err(e) => Err(e),
        Ok(header) => match parse_blob_sections(data, header) {
            Err(e) => Err(e),
            Ok((pos, offsets)) => if header.resources_index_length == 0 || header.resources_count
                == 0 {
                Ok(Seq::empty())
            } else {
                match walk(data, WalkState::initial(pos, initial_cursors(header, offsets))) {
                    Err(e) => Err(e),
                    Ok(end) => if end.started == header.resources_count {
                        Ok(end.done)
                    } else {
                        Err(ResourceError::CountMismatch)
                    },
                }
            },
        },
    }
}

} // verus!
