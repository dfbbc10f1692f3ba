//! The layout that a packer writes, and the proof that reading it gives
//! back what was packed.

use crate::assoc::assoc_map;
use crate::error::ResourceError;
use crate::format::{claim_data, claim_name, file_pairs, parse_files, parse_names, span_bytes};
use crate::format::{step, walk, Cursors, EntrySpans, ListRead, Span, WalkState, FIELD_LIMIT};
use crate::format::{FIELD_IN_MEMORY_PACKAGE_DISTRIBUTION, FIELD_IN_MEMORY_RESOURCES_DATA};
use crate::format::{FIELD_IN_MEMORY_SHARED_LIBRARY, FIELD_IS_NAMESPACE_PACKAGE};
use crate::format::{FIELD_IS_PACKAGE, FIELD_MODULE_NAME, FIELD_SHARED_LIBRARY_DEPENDENCY_NAMES};
use crate::format::{resolve_all, FIELD_END_OF_ENTRY, FIELD_END_OF_INDEX, FIELD_START_OF_ENTRY};
use crate::format::{FIELD_IN_MEMORY_BYTECODE, FIELD_IN_MEMORY_BYTECODE_OPT1};
use crate::format::{FIELD_IN_MEMORY_BYTECODE_OPT2, FIELD_IN_MEMORY_SOURCE};
use crate::format::FIELD_IN_MEMORY_EXTENSION_MODULE_SHARED_LIBRARY;
use crate::format::{decode, has_magic_v1, initial_cursors, is_blob_field, is_short_data_field};
use crate::format::{no_offsets, parse_blob_index, parse_blob_sections, parse_header, Header};
use crate::format::HEADER_LENGTH;
use crate::laws::cursors_valid;
use crate::reader::{le16, le32, le64, u16_at, u32_at, u64_at, u8_at};
use crate::resource::ResourceView;
use crate::state::insert_all;
use vstd::prelude::*;
use vstd::utf8::valid_utf8;

verus! {

/// The two bytes that spell `v`, least significant byte first.
pub open spec fn le16_bytes(v: int) -> Seq<u8> {
    seq![(v % 0x100) as u8, (v / 0x100 % 0x100) as u8]
}

/// The four bytes that spell `v`, least significant byte first.
pub open spec fn le32_bytes(v: int) -> Seq<u8> {
    seq![
        (v % 0x100) as u8,
        (v / 0x100 % 0x100) as u8,
        (v / 0x1_0000 % 0x100) as u8,
        (v / 0x100_0000 % 0x100) as u8,
    ]
}

/// The eight bytes that spell `v`, least significant byte first.
pub open spec fn le64_bytes(v: int) -> Seq<u8> {
    seq![
        (v % 0x100) as u8,
        (v / 0x100 % 0x100) as u8,
        (v / 0x1_0000 % 0x100) as u8,
        (v / 0x100_0000 % 0x100) as u8,
        (v / 0x1_0000_0000 % 0x100) as u8,
        (v / 0x100_0000_0000 % 0x100) as u8,
        (v / 0x1_0000_0000_0000 % 0x100) as u8,
        (v / 0x100_0000_0000_0000 % 0x100) as u8,
    ]
}

/// Reading the two bytes of a number gives the number back.
proof fn lemma_le16_bytes(v: int)
    requires
        0 <= v <= 0xffff,
    ensures
        le16_bytes(v).len() == 2,
        le16(le16_bytes(v)) == v,
{
}

/// Reading the four bytes of a number gives the number back.
proof fn lemma_le32_bytes(v: int)
    requires
        0 <= v <= 0xffff_ffff,
    ensures
        le32_bytes(v).len() == 4,
        le32(le32_bytes(v)) == v,
{
}

/// Reading the eight bytes of a number gives the number back.
proof fn lemma_le64_bytes(v: int)
    requires
        0 <= v <= 0xffff_ffff_ffff_ffff,
    ensures
        le64_bytes(v).len() == 8,
        le64(le64_bytes(v)) == v,
{
    let q1 = v / 0x100;
    let q2 = v / 0x1_0000;
    let q3 = v / 0x100_0000;
    let q4 = v / 0x1_0000_0000;
    let q5 = v / 0x100_0000_0000;
    let q6 = v / 0x1_0000_0000_0000;
    let q7 = v / 0x100_0000_0000_0000;
    assert(q2 == q1 / 0x100);
    assert(q3 == q2 / 0x100);
    assert(q4 == q3 / 0x100);
    assert(q5 == q4 / 0x100);
    assert(q6 == q5 / 0x100);
    assert(q7 == q6 / 0x100);
    assert(q7 < 0x100);
    assert(v == v % 0x100 + 0x100 * q1);
    assert(q1 == q1 % 0x100 + 0x100 * q2);
    assert(q2 == q2 % 0x100 + 0x100 * q3);
    assert(q3 == q3 % 0x100 + 0x100 * q4);
    assert(q4 == q4 % 0x100 + 0x100 * q5);
    assert(q5 == q5 % 0x100 + 0x100 * q6);
    assert(q6 == q6 % 0x100 + 0x100 * q7);
    let s = le64_bytes(v);
    assert(s[0] == v % 0x100);
    assert(s[1] == q1 % 0x100);
    assert(s[2] == q2 % 0x100);
    assert(s[3] == q3 % 0x100);
    assert(s[4] == q4 % 0x100);
    assert(s[5] == q5 % 0x100);
    assert(s[6] == q6 % 0x100);
    assert(s[7] == q7);
}

/// Whether `piece` stands in `data` at `pos`.
pub open spec fn has_at(data: Seq<u8>, pos: int, piece: Seq<u8>) -> bool {
    &&& 0 <= pos
    &&& pos + piece.len() <= data.len()
    &&& data.subrange(pos, pos + piece.len()) == piece
}

/// Where two pieces stand one after the other, each of them stands.
proof fn lemma_has_at_split(data: Seq<u8>, pos: int, a: Seq<u8>, b: Seq<u8>)
    requires
        has_at(data, pos, a + b),
    ensures
        has_at(data, pos, a),
        has_at(data, pos + a.len(), b),
{
    let whole = data.subrange(pos, pos + (a + b).len());
    assert(data.subrange(pos, pos + a.len()) =~= whole.subrange(0, a.len() as int));
    assert(whole.subrange(0, a.len() as int) =~= a);
    assert(data.subrange(pos + a.len(), pos + a.len() + b.len()) =~= whole.subrange(
        a.len() as int,
        (a + b).len() as int,
    ));
    assert(whole.subrange(a.len() as int, (a + b).len() as int) =~= b);
}

/// The byte that stands at a position is read there.
proof fn lemma_read_u8(data: Seq<u8>, pos: int, b: u8)
    requires
        has_at(data, pos, seq![b]),
    ensures
        u8_at(data, pos) == Some(b as int),
{
    assert(data.subrange(pos, pos + 1)[0] == b);
}

/// The number whose two bytes stand at a position is read there.
proof fn lemma_read_u16(data: Seq<u8>, pos: int, v: int)
    requires
        0 <= v <= 0xffff,
        has_at(data, pos, le16_bytes(v)),
    ensures
        u16_at(data, pos) == Some(v),
{
    lemma_le16_bytes(v);
}

/// The number whose four bytes stand at a position is read there.
proof fn lemma_read_u32(data: Seq<u8>, pos: int, v: int)
    requires
        0 <= v <= 0xffff_ffff,
        has_at(data, pos, le32_bytes(v)),
    ensures
        u32_at(data, pos) == Some(v),
{
    lemma_le32_bytes(v);
}

/// The number whose eight bytes stand at a position is read there.
proof fn lemma_read_u64(data: Seq<u8>, pos: int, v: int)
    requires
        0 <= v <= 0xffff_ffff_ffff_ffff,
        has_at(data, pos, le64_bytes(v)),
    ensures
        u64_at(data, pos) == Some(v),
{
    lemma_le64_bytes(v);
}

/// A file of a package as it is packed: its name and its content.
pub type PackedFile = (Seq<u8>, Seq<u8>);

/// The lengths of the files of a list as the index of resources holds them:
/// for each file the length of its name and the length of its content.
pub open spec fn files_index(files: Seq<PackedFile>) -> Seq<u8>
    decreases files.len(),
{
    if files.len() == 0 {
        Seq::empty()
    } else {
        le16_bytes(files[0].0.len() as int) + le64_bytes(files[0].1.len() as int) + files_index(
            files.drop_first(),
        )
    }
}

/// The files of a list as their blob section holds them: for each file its
/// name and then its content.
pub open spec fn files_blob(files: Seq<PackedFile>) -> Seq<u8>
    decreases files.len(),
{
    if files.len() == 0 {
        Seq::empty()
    } else {
        files[0].0 + files[0].1 + files_blob(files.drop_first())
    }
}

/// Where the files of a list lie when the first of them starts at `start`.
pub open spec fn file_spans(files: Seq<PackedFile>, start: int) -> Seq<(Span, Span)>
    decreases files.len(),
{
    if files.len() == 0 {
        Seq::empty()
    } else {
        let middle = start + files[0].0.len();
        let end = middle + files[0].1.len();
        seq![(Span { start, end: middle }, Span { start: middle, end })] + file_spans(
            files.drop_first(),
            end,
        )
    }
}

/// The lengths of the names of a list as the index of resources holds them.
pub open spec fn names_index(names: Seq<Seq<u8>>) -> Seq<u8>
    decreases names.len(),
{
    if names.len() == 0 {
        Seq::empty()
    } else {
        le16_bytes(names[0].len() as int) + names_index(names.drop_first())
    }
}

/// The names of a list as their blob section holds them, one after the
/// other.
pub open spec fn names_blob(names: Seq<Seq<u8>>) -> Seq<u8>
    decreases names.len(),
{
    if names.len() == 0 {
        Seq::empty()
    } else {
        names[0] + names_blob(names.drop_first())
    }
}

/// Where the names of a list lie when the first of them starts at `start`.
pub open spec fn name_spans(names: Seq<Seq<u8>>, start: int) -> Seq<Span>
    decreases names.len(),
{
    if names.len() == 0 {
        Seq::empty()
    } else {
        seq![Span { start, end: start + names[0].len() }] + name_spans(
            names.drop_first(),
            start + names[0].len(),
        )
    }
}

/// Whether the index of resources can hold the lengths of the files, and
/// their names are UTF-8.
pub open spec fn files_ok(files: Seq<PackedFile>) -> bool {
    forall|i: int|
        0 <= i < files.len() ==> (#[trigger] files[i]).0.len() <= 0xffff && valid_utf8(files[i].0)
            && files[i].1.len() <= 0xffff_ffff_ffff_ffff
}

/// Whether the index of resources can hold the lengths of the names, and
/// the names are UTF-8.
pub open spec fn names_ok(names: Seq<Seq<u8>>) -> bool {
    forall|i: int| 0 <= i < names.len() ==> (#[trigger] names[i]).len() <= 0xffff && valid_utf8(names[i])
}

/// The index of the files of a list has ten bytes for each file.
proof fn lemma_files_index_len(files: Seq<PackedFile>)
    ensures
        files_index(files).len() == 10 * files.len(),
    decreases files.len(),
{
    if files.len() > 0 {
        lemma_files_index_len(files.drop_first());
    }
}

/// The index of the names of a list has two bytes for each name.
proof fn lemma_names_index_len(names: Seq<Seq<u8>>)
    ensures
        names_index(names).len() == 2 * names.len(),
    decreases names.len(),
{
    if names.len() > 0 {
        lemma_names_index_len(names.drop_first());
    }
}

/// Reading the files that a packer wrote yields where they lie.
proof fn lemma_parse_files(
    data: Seq<u8>,
    pos: int,
    cursors: Cursors,
    field: int,
    files: Seq<PackedFile>,
    found: Seq<(Span, Span)>,
)
    requires
        files_ok(files),
        cursors_valid(cursors),
        0 <= field < cursors.len(),
        has_at(data, pos, files_index(files)),
        has_at(data, cursors[field], files_blob(files)),
    ensures
        parse_files(data, pos, cursors, field, files.len(), found) == Ok::<
            ListRead<(Span, Span)>,
            ResourceError,
        >(
            ListRead {
                pos: pos + 10 * files.len(),
                cursors: cursors.update(field, cursors[field] + files_blob(files).len()),
                items: found + file_spans(files, cursors[field]),
            },
        ),
    decreases files.len(),
{
    let start = cursors[field];
    if files.len() == 0 {
        assert(cursors.update(field, start) =~= cursors);
        assert(found + file_spans(files, start) =~= found);
    } else {
        let name = files[0].0;
        let content = files[0].1;
        let rest = files.drop_first();
        let middle = start + name.len();
        let end = middle + content.len();
        lemma_has_at_split(
            data,
            pos,
            le16_bytes(name.len() as int) + le64_bytes(content.len() as int),
            files_index(rest),
        );
        lemma_has_at_split(
            data,
            pos,
            le16_bytes(name.len() as int),
            le64_bytes(content.len() as int),
        );
        lemma_le16_bytes(name.len() as int);
        lemma_le64_bytes(content.len() as int);
        lemma_read_u16(data, pos, name.len() as int);
        lemma_read_u64(data, pos + 2, content.len() as int);
        lemma_has_at_split(data, start, name + content, files_blob(rest));
        lemma_has_at_split(data, start, name, content);
        let after_name = cursors.update(field, middle);
        let after_content = after_name.update(field, end);
        assert(Span { start, end: middle }.of(data) == name);
        assert(claim_name(data, cursors, field, name.len() as int) == Ok::<
            (Span, Cursors),
            ResourceError,
        >((Span { start, end: middle }, after_name)));
        assert(claim_data(data.len(), after_name, field, content.len() as int) == Ok::<
            (Span, Cursors),
            ResourceError,
        >((Span { start: middle, end }, after_content)));
        let grown = found.push((Span { start, end: middle }, Span { start: middle, end }));
        assert(rest.len() == files.len() - 1);
        assert forall|i: int| 0 <= i < rest.len() implies (#[trigger] rest[i]).0.len() <= 0xffff
            && valid_utf8(rest[i].0) && rest[i].1.len() <= 0xffff_ffff_ffff_ffff by {
            assert(rest[i] == files[i + 1]);
        }
        lemma_parse_files(data, pos + 10, after_content, field, rest, grown);
        assert(after_content.update(field, end + files_blob(rest).len()) =~= cursors.update(
            field,
            start + files_blob(files).len(),
        ));
        assert(grown + file_spans(rest, end) =~= found + file_spans(files, start));
    }
}

/// Where the files of a packer lie in the data, their names and contents
/// are read.
proof fn lemma_file_pairs(data: Seq<u8>, files: Seq<PackedFile>, start: int)
    requires
        has_at(data, start, files_blob(files)),
    ensures
        file_pairs(file_spans(files, start), data) == files,
        file_spans(files, start).len() == files.len(),
    decreases files.len(),
{
    if files.len() == 0 {
        assert(file_pairs(file_spans(files, start), data) =~= files);
    } else {
        let name = files[0].0;
        let content = files[0].1;
        let rest = files.drop_first();
        let middle = start + name.len();
        let end = middle + content.len();
        lemma_has_at_split(data, start, name + content, files_blob(rest));
        lemma_has_at_split(data, start, name, content);
        lemma_file_pairs(data, rest, end);
        let spans = file_spans(files, start);
        let tail = file_spans(rest, end);
        assert(spans == seq![(Span { start, end: middle }, Span { start: middle, end })] + tail);
        let pairs = file_pairs(spans, data);
        assert(pairs.len() == files.len());
        assert forall|i: int| 0 <= i < pairs.len() implies pairs[i] == files[i] by {
            if i == 0 {
                assert(spans[0] == (Span { start, end: middle }, Span { start: middle, end }));
            } else {
                assert(spans[i] == tail[i - 1]);
                assert(file_pairs(tail, data)[i - 1] == rest[i - 1]);
                assert(rest[i - 1] == files[i]);
            }
        }
        assert(pairs =~= files);
    }
}

/// Reading the names that a packer wrote yields where they lie.
proof fn lemma_parse_names(
    data: Seq<u8>,
    pos: int,
    cursors: Cursors,
    names: Seq<Seq<u8>>,
    found: Seq<Span>,
)
    requires
        names_ok(names),
        cursors_valid(cursors),
        has_at(data, pos, names_index(names)),
        has_at(data, cursors[FIELD_SHARED_LIBRARY_DEPENDENCY_NAMES as int], names_blob(names)),
    ensures
        parse_names(data, pos, cursors, names.len(), found) == Ok::<ListRead<Span>, ResourceError>(
            ListRead {
                pos: pos + 2 * names.len(),
                cursors: cursors.update(
                    FIELD_SHARED_LIBRARY_DEPENDENCY_NAMES as int,
                    cursors[FIELD_SHARED_LIBRARY_DEPENDENCY_NAMES as int] + names_blob(
                        names,
                    ).len(),
                ),
                items: found + name_spans(names, cursors[FIELD_SHARED_LIBRARY_DEPENDENCY_NAMES as int]),
            },
        ),
    decreases names.len(),
{
    let field = FIELD_SHARED_LIBRARY_DEPENDENCY_NAMES as int;
    let start = cursors[field];
    if names.len() == 0 {
        assert(cursors.update(field, start) =~= cursors);
        assert(found + name_spans(names, start) =~= found);
    } else {
        let name = names[0];
        let rest = names.drop_first();
        let end = start + name.len();
        lemma_has_at_split(data, pos, le16_bytes(name.len() as int), names_index(rest));
        lemma_le16_bytes(name.len() as int);
        lemma_read_u16(data, pos, name.len() as int);
        lemma_has_at_split(data, start, name, names_blob(rest));
        let moved = cursors.update(field, end);
        assert(Span { start, end }.of(data) == name);
        assert(claim_name(data, cursors, field, name.len() as int) == Ok::<
            (Span, Cursors),
            ResourceError,
        >((Span { start, end }, moved)));
        let grown = found.push(Span { start, end });
        assert forall|i: int| 0 <= i < rest.len() implies (#[trigger] rest[i]).len() <= 0xffff
            && valid_utf8(rest[i]) by {
            assert(rest[i] == names[i + 1]);
        }
        lemma_parse_names(data, pos + 2, moved, rest, grown);
        assert(moved.update(field, end + names_blob(rest).len()) =~= cursors.update(
            field,
            start + names_blob(names).len(),
        ));
        assert(grown + name_spans(rest, end) =~= found + name_spans(names, start));
    }
}

/// Where the names of a packer lie in the data, they are read.
proof fn lemma_name_spans(data: Seq<u8>, names: Seq<Seq<u8>>, start: int)
    requires
        has_at(data, start, names_blob(names)),
    ensures
        span_bytes(name_spans(names, start), data) == names,
    decreases names.len(),
{
    if names.len() == 0 {
        assert(span_bytes(name_spans(names, start), data) =~= names);
    } else {
        let name = names[0];
        let rest = names.drop_first();
        let end = start + name.len();
        lemma_has_at_split(data, start, name, names_blob(rest));
        lemma_name_spans(data, rest, end);
        let spans = name_spans(names, start);
        let tail = name_spans(rest, end);
        assert(spans == seq![Span { start, end }] + tail);
        let read = span_bytes(spans, data);
        assert(span_bytes(tail, data).len() == rest.len());
        assert(read.len() == names.len());
        assert forall|i: int| 0 <= i < read.len() implies read[i] == names[i] by {
            if i == 0 {
                assert(spans[0] == Span { start, end });
            } else {
                assert(spans[i] == tail[i - 1]);
                assert(span_bytes(tail, data)[i - 1] == rest[i - 1]);
                assert(rest[i - 1] == names[i]);
            }
        }
        assert(read =~= names);
    }
}

/// A field of an entry of the index of resources, with what it stands
/// for.
pub enum Item {
    /// The name of the resource.
    Name(Seq<u8>),
    /// The resource is a package.
    Package,
    /// The resource is a namespace package.
    NamespacePackage,
    /// One run of data of the kind of the given field.
    Data(int, Seq<u8>),
    /// The files of the kind of the given field.
    Files(int, Seq<PackedFile>),
    /// The names of the library dependencies.
    Names(Seq<Seq<u8>>),
}

impl Item {
    /// The field in whose blob section the bytes of this item lie, or -1
    /// where the item has no bytes.
    pub open spec fn field(self) -> int {
        match self {
            Item::Name(_) => FIELD_MODULE_NAME as int,
            Item::Package => -1,
            Item::NamespacePackage => -1,
            Item::Data(field, _) => field,
            Item::Files(field, _) => field,
            Item::Names(_) => FIELD_SHARED_LIBRARY_DEPENDENCY_NAMES as int,
        }
    }

    /// The bytes of this item in the index of resources: its tag and its
    /// lengths.
    pub open spec fn index(self) -> Seq<u8> {
        match self {
            Item::Name(name) => seq![FIELD_MODULE_NAME] + le16_bytes(name.len() as int),
            Item::Package => seq![FIELD_IS_PACKAGE],
            Item::NamespacePackage => seq![FIELD_IS_NAMESPACE_PACKAGE],
            Item::Data(field, data) => if field == FIELD_IN_MEMORY_SHARED_LIBRARY {
                seq![field as u8] + le64_bytes(data.len() as int)
            } else {
                seq![field as u8] + le32_bytes(data.len() as int)
            },
            Item::Files(field, files) => seq![field as u8] + le32_bytes(files.len() as int)
                + files_index(files),
            Item::Names(names) => seq![FIELD_SHARED_LIBRARY_DEPENDENCY_NAMES] + le16_bytes(
                names.len() as int,
            ) + names_index(names),
        }
    }

    /// The bytes of this item in its blob section.
    pub open spec fn blob(self) -> Seq<u8> {
        match self {
            Item::Name(name) => name,
            Item::Package => Seq::empty(),
            Item::NamespacePackage => Seq::empty(),
            Item::Data(_, data) => data,
            Item::Files(_, files) => files_blob(files),
            Item::Names(names) => names_blob(names),
        }
    }

    /// Whether the index of resources can hold this item: its field is of
    /// its kind, its lengths fit, and its names are UTF-8.
    pub open spec fn ok(self) -> bool {
        match self {
            Item::Name(name) => name.len() <= 0xffff && valid_utf8(name),
            Item::Package => true,
            Item::NamespacePackage => true,
            Item::Data(field, data) => if field == FIELD_IN_MEMORY_SHARED_LIBRARY {
                data.len() <= 0xffff_ffff_ffff_ffff
            } else {
                is_short_data_field(field) && data.len() <= 0xffff_ffff
            },
            Item::Files(field, files) => (field == FIELD_IN_MEMORY_RESOURCES_DATA || field
                == FIELD_IN_MEMORY_PACKAGE_DISTRIBUTION) && files.len() <= 0xffff_ffff
                && files_ok(files),
            Item::Names(names) => names.len() <= 0xffff && names_ok(names),
        }
    }

    /// The entry after this item has been read into it, where the bytes of
    /// the item start at `start`.
    pub open spec fn put(self, entry: EntrySpans, start: int) -> EntrySpans {
        match self {
            Item::Name(name) => EntrySpans { name: Span { start, end: start + name.len() }, ..entry },
            Item::Package => EntrySpans { is_package: true, ..entry },
            Item::NamespacePackage => EntrySpans { is_namespace_package: true, ..entry },
            Item::Data(field, data) => entry.with_data(
                field,
                Span { start, end: start + data.len() },
            ),
            Item::Files(field, files) => entry.with_files(field, file_spans(files, start)),
            Item::Names(names) => EntrySpans {
                dependency_names: Some(name_spans(names, start)),
                ..entry
            },
        }
    }

    /// What a resource holds after this item has been added to it.
    pub open spec fn add(self, resource: ResourceView) -> ResourceView {
        match self {
            Item::Name(name) => ResourceView { name, ..resource },
            Item::Package => ResourceView { is_package: true, ..resource },
            Item::NamespacePackage => ResourceView { is_namespace_package: true, ..resource },
            Item::Data(field, data) => if field == crate::format::FIELD_IN_MEMORY_SOURCE {
                ResourceView { in_memory_source: Some(data), ..resource }
            } else if field == crate::format::FIELD_IN_MEMORY_BYTECODE {
                ResourceView { in_memory_bytecode: Some(data), ..resource }
            } else if field == crate::format::FIELD_IN_MEMORY_BYTECODE_OPT1 {
                ResourceView { in_memory_bytecode_opt1: Some(data), ..resource }
            } else if field == crate::format::FIELD_IN_MEMORY_BYTECODE_OPT2 {
                ResourceView { in_memory_bytecode_opt2: Some(data), ..resource }
            } else if field == crate::format::FIELD_IN_MEMORY_EXTENSION_MODULE_SHARED_LIBRARY {
                ResourceView { in_memory_shared_library_extension_module: Some(data), ..resource }
            } else {
                ResourceView { in_memory_shared_library: Some(data), ..resource }
            },
            Item::Files(field, files) => if field == FIELD_IN_MEMORY_RESOURCES_DATA {
                ResourceView { in_memory_resources: Some(assoc_map(files)), ..resource }
            } else {
                ResourceView { in_memory_package_distribution: Some(assoc_map(files)), ..resource }
            },
            Item::Names(names) => ResourceView {
                shared_library_dependency_names: Some(names),
                ..resource
            },
        }
    }

    /// The state of the walk behind this item.
    pub open spec fn pass(self, st: WalkState) -> WalkState {
        if self.field() < 0 {
            WalkState { pos: st.pos + 1, scratch: self.put(st.scratch, 0), ..st }
        } else {
            let start = st.cursors[self.field()];
            WalkState {
                pos: st.pos + self.index().len(),
                cursors: st.cursors.update(self.field(), start + self.blob().len()),
                scratch: self.put(st.scratch, start),
                named: st.named || self is Name,
                ..st
            }
        }
    }
}

/// Reading an item that a packer wrote moves the walk behind it, and puts
/// into the entry what the item stands for.
proof fn lemma_step_item(data: Seq<u8>, item: Item, st: WalkState)
    requires
        item.ok(),
        cursors_valid(st.cursors),
        has_at(data, st.pos, item.index()),
        item.field() >= 0 ==> has_at(data, st.cursors[item.field()], item.blob()),
    ensures
        step(data, st) == Ok::<Option<WalkState>, ResourceError>(Some(item.pass(st))),
        item.pass(st).scratch.resolve(data) == item.add(st.scratch.resolve(data)),
{
    let pos = st.pos + 1;
    match item {
        Item::Name(name) => {
            lemma_has_at_split(data, st.pos, seq![FIELD_MODULE_NAME], le16_bytes(name.len() as int));
            lemma_read_u8(data, st.pos, FIELD_MODULE_NAME);
            lemma_le16_bytes(name.len() as int);
            lemma_read_u16(data, pos, name.len() as int);
            let start = st.cursors[FIELD_MODULE_NAME as int];
            assert(Span { start, end: start + name.len() }.of(data) == name);
        },
        Item::Package => {
            lemma_read_u8(data, st.pos, FIELD_IS_PACKAGE);
        },
        Item::NamespacePackage => {
            lemma_read_u8(data, st.pos, FIELD_IS_NAMESPACE_PACKAGE);
        },
        Item::Data(field, bytes) => {
            let start = st.cursors[field];
            if field == FIELD_IN_MEMORY_SHARED_LIBRARY {
                lemma_has_at_split(data, st.pos, seq![field as u8], le64_bytes(bytes.len() as int));
                lemma_le64_bytes(bytes.len() as int);
                lemma_read_u64(data, pos, bytes.len() as int);
            } else {
                lemma_has_at_split(data, st.pos, seq![field as u8], le32_bytes(bytes.len() as int));
                lemma_le32_bytes(bytes.len() as int);
                lemma_read_u32(data, pos, bytes.len() as int);
            }
            lemma_read_u8(data, st.pos, field as u8);
            assert(Span { start, end: start + bytes.len() }.of(data) == bytes);
        },
        Item::Files(field, files) => {
            let start = st.cursors[field];
            lemma_has_at_split(
                data,
                st.pos,
                seq![field as u8] + le32_bytes(files.len() as int),
                files_index(files),
            );
            lemma_has_at_split(data, st.pos, seq![field as u8], le32_bytes(files.len() as int));
            lemma_read_u8(data, st.pos, field as u8);
            lemma_le32_bytes(files.len() as int);
            lemma_read_u32(data, pos, files.len() as int);
            lemma_files_index_len(files);
            lemma_parse_files(data, pos + 4, st.cursors, field, files, Seq::empty());
            assert(Seq::<(Span, Span)>::empty() + file_spans(files, start) =~= file_spans(
                files,
                start,
            ));
            lemma_file_pairs(data, files, start);
        },
        Item::Names(names) => {
            let field = FIELD_SHARED_LIBRARY_DEPENDENCY_NAMES as int;
            let start = st.cursors[field];
            lemma_has_at_split(
                data,
                st.pos,
                seq![FIELD_SHARED_LIBRARY_DEPENDENCY_NAMES] + le16_bytes(names.len() as int),
                names_index(names),
            );
            lemma_has_at_split(
                data,
                st.pos,
                seq![FIELD_SHARED_LIBRARY_DEPENDENCY_NAMES],
                le16_bytes(names.len() as int),
            );
            lemma_read_u8(data, st.pos, FIELD_SHARED_LIBRARY_DEPENDENCY_NAMES);
            lemma_le16_bytes(names.len() as int);
            lemma_read_u16(data, pos, names.len() as int);
            lemma_names_index_len(names);
            lemma_parse_names(data, pos + 2, st.cursors, names, Seq::empty());
            assert(Seq::<Span>::empty() + name_spans(names, start) =~= name_spans(names, start));
            lemma_name_spans(data, names, start);
        },
    }
}

/// The bytes of a list of items in the index of resources.
pub open spec fn index_of(items: Seq<Item>) -> Seq<u8>
    decreases items.len(),
{
    if items.len() == 0 {
        Seq::empty()
    } else {
        index_of(items.drop_last()) + items.last().index()
    }
}

/// The bytes of a list of items in the blob section of `field`.
pub open spec fn section_of(items: Seq<Item>, field: int) -> Seq<u8>
    decreases items.len(),
{
    if items.len() == 0 {
        Seq::empty()
    } else if items.last().field() == field {
        section_of(items.drop_last(), field) + items.last().blob()
    } else {
        section_of(items.drop_last(), field)
    }
}

/// The state of the walk behind a list of items.
pub open spec fn pass_all(items: Seq<Item>, st: WalkState) -> WalkState
    decreases items.len(),
{
    if items.len() == 0 {
        st
    } else {
        items.last().pass(pass_all(items.drop_last(), st))
    }
}

/// What a resource holds after the items of a list have been added to it.
pub open spec fn add_all(items: Seq<Item>, resource: ResourceView) -> ResourceView
    decreases items.len(),
{
    if items.len() == 0 {
        resource
    } else {
        items.last().add(add_all(items.drop_last(), resource))
    }
}

/// Whether the index of resources can hold every item of a list.
pub open spec fn items_ok(items: Seq<Item>) -> bool {
    forall|i: int| 0 <= i < items.len() ==> (#[trigger] items[i]).ok()
}

/// Whether the bytes of a list of items stand in the data where the walk
/// expects them: the fields at its position, and the bytes of each blob
/// section at the cursor of that section.
pub open spec fn items_at(data: Seq<u8>, items: Seq<Item>, st: WalkState) -> bool {
    &&& has_at(data, st.pos, index_of(items))
    &&& forall|f: int|
        0 <= f < FIELD_LIMIT ==> has_at(data, st.cursors[f], #[trigger] section_of(items, f))
}

/// An item that the index can hold names a field that has a place in the
/// table of cursors, or none.
proof fn lemma_item_field(item: Item)
    requires
        item.ok(),
    ensures
        -1 <= item.field() < FIELD_LIMIT,
{
}

/// Reading the items that a packer wrote, one after the other, moves the
/// walk behind them, moves each cursor behind the bytes of the items in its
/// blob section, and adds to the entry what the items stand for.
proof fn lemma_pass_all(data: Seq<u8>, items: Seq<Item>, st: WalkState)
    requires
        items_ok(items),
        cursors_valid(st.cursors),
        items_at(data, items, st),
    ensures
        walk(data, st) == walk(data, pass_all(items, st)),
        pass_all(items, st).pos == st.pos + index_of(items).len(),
        cursors_valid(pass_all(items, st).cursors),
        forall|f: int|
            0 <= f < FIELD_LIMIT ==> pass_all(items, st).cursors[f] == st.cursors[f] + (
            #[trigger] section_of(items, f)).len(),
        pass_all(items, st).scratch.resolve(data) == add_all(items, st.scratch.resolve(data)),
        pass_all(items, st).started == st.started,
        pass_all(items, st).done == st.done,
        pass_all(items, st).named == (st.named || exists|i: int|
            0 <= i < items.len() && #[trigger] items[i] is Name),
    decreases items.len(),
{
    if items.len() > 0 {
        let front = items.drop_last();
        let last = items.last();
        assert(last == items[items.len() - 1]);
        assert(last.ok());
        lemma_item_field(last);
        assert forall|i: int| 0 <= i < front.len() implies (#[trigger] front[i]).ok() by {
            assert(front[i] == items[i]);
        }
        lemma_has_at_split(data, st.pos, index_of(front), last.index());
        assert forall|f: int| 0 <= f < FIELD_LIMIT implies has_at(
            data,
            st.cursors[f],
            #[trigger] section_of(front, f),
        ) && (last.field() == f ==> has_at(
            data,
            st.cursors[f] + section_of(front, f).len(),
            last.blob(),
        )) by {
            assert(has_at(data, st.cursors[f], section_of(items, f)));
            if last.field() == f {
                lemma_has_at_split(data, st.cursors[f], section_of(front, f), last.blob());
            }
        }
        lemma_pass_all(data, front, st);
        let mid = pass_all(front, st);
        if last.field() >= 0 {
            assert(mid.cursors[last.field()] == st.cursors[last.field()] + section_of(
                front,
                last.field(),
            ).len());
        }
        lemma_step_item(data, last, mid);
        let end = last.pass(mid);
        assert(pass_all(items, st) == end);
        assert forall|f: int| 0 <= f < FIELD_LIMIT implies end.cursors[f] == st.cursors[f] + (
        #[trigger] section_of(items, f)).len() by {
            assert(mid.cursors[f] == st.cursors[f] + section_of(front, f).len());
        }
        assert(cursors_valid(end.cursors)) by {
            assert forall|f: int| 0 <= f < FIELD_LIMIT implies #[trigger] end.cursors[f] >= 0 by {
                assert(mid.cursors[f] >= 0);
            }
        }
        if exists|i: int| 0 <= i < front.len() && #[trigger] front[i] is Name {
            let i = choose|i: int| 0 <= i < front.len() && #[trigger] front[i] is Name;
            assert(items[i] is Name);
        }
        if exists|i: int| 0 <= i < items.len() && #[trigger] items[i] is Name {
            let i = choose|i: int| 0 <= i < items.len() && #[trigger] items[i] is Name;
            if i < front.len() {
                assert(front[i] is Name);
            }
        }
    }
}

/// A resource as a packer holds it: its name, its flags, and the data that
/// it has.
pub struct PackedResource {
    pub name: Seq<u8>,
    pub is_package: bool,
    pub is_namespace_package: bool,
    pub source: Option<Seq<u8>>,
    pub bytecode: Option<Seq<u8>>,
    pub bytecode_opt1: Option<Seq<u8>>,
    pub bytecode_opt2: Option<Seq<u8>>,
    pub extension_module: Option<Seq<u8>>,
    pub resources: Option<Seq<PackedFile>>,
    pub distribution: Option<Seq<PackedFile>>,
    pub shared_library: Option<Seq<u8>>,
    pub dependency_names: Option<Seq<Seq<u8>>>,
}

/// The items of a list and, where there is data, the item of that data.
pub open spec fn and_data(items: Seq<Item>, field: u8, data: Option<Seq<u8>>) -> Seq<Item> {
    match data {
        Some(d) => items.push(Item::Data(field as int, d)),
        None => items,
    }
}

/// The items of a list and, where there are files, the item of those files.
pub open spec fn and_files(items: Seq<Item>, field: u8, files: Option<Seq<PackedFile>>) -> Seq<
    Item,
> {
    match files {
        Some(f) => items.push(Item::Files(field as int, f)),
        None => items,
    }
}

/// The items of a list and `item`, where `present`.
pub open spec fn and_flag(items: Seq<Item>, item: Item, present: bool) -> Seq<Item> {
    if present {
        items.push(item)
    } else {
        items
    }
}

/// The items of a list and, where there are names, the item of those names.
pub open spec fn and_names(items: Seq<Item>, names: Option<Seq<Seq<u8>>>) -> Seq<Item> {
    match names {
        Some(n) => items.push(Item::Names(n)),
        None => items,
    }
}

/// The map from the name of each file to its content, where there are
/// files.
pub open spec fn files_map(files: Option<Seq<PackedFile>>) -> Option<Map<Seq<u8>, Seq<u8>>> {
    match files {
        Some(f) => Some(assoc_map(f)),
        None => None,
    }
}

impl PackedResource {
    /// What a catalog holds of this resource once it has been loaded.
    pub open spec fn unpacked(self) -> ResourceView {
        ResourceView {
            name: self.name,
            is_package: self.is_package,
            is_namespace_package: self.is_namespace_package,
            is_builtin: false,
            is_frozen: false,
            in_memory_source: self.source,
            in_memory_bytecode: self.bytecode,
            in_memory_bytecode_opt1: self.bytecode_opt1,
            in_memory_bytecode_opt2: self.bytecode_opt2,
            in_memory_shared_library_extension_module: self.extension_module,
            in_memory_resources: files_map(self.resources),
            in_memory_package_distribution: files_map(self.distribution),
            in_memory_shared_library: self.shared_library,
            shared_library_dependency_names: self.dependency_names,
        }
    }

    /// Whether the index of resources can hold this resource: every length
    /// fits into the number that holds it, and every name is UTF-8.
    pub open spec fn ok(self) -> bool {
        &&& Item::Name(self.name).ok()
        &&& (self.source matches Some(d) ==> d.len() <= 0xffff_ffff)
        &&& (self.bytecode matches Some(d) ==> d.len() <= 0xffff_ffff)
        &&& (self.bytecode_opt1 matches Some(d) ==> d.len() <= 0xffff_ffff)
        &&& (self.bytecode_opt2 matches Some(d) ==> d.len() <= 0xffff_ffff)
        &&& (self.extension_module matches Some(d) ==> d.len() <= 0xffff_ffff)
        &&& (self.resources matches Some(f) ==> f.len() <= 0xffff_ffff && files_ok(f))
        &&& (self.distribution matches Some(f) ==> f.len() <= 0xffff_ffff && files_ok(f))
        &&& (self.shared_library matches Some(d) ==> d.len() <= 0xffff_ffff_ffff_ffff)
        &&& (self.dependency_names matches Some(n) ==> n.len() <= 0xffff && names_ok(n))
    }

    /// The items of the entry of this resource, in the order in which a
    /// packer writes them: the name, the flags that are set, and each kind
    /// of data that the resource has.
    pub open spec fn body(self) -> Seq<Item> {
        let named = seq![Item::Name(self.name)];
        let flagged = and_flag(
            and_flag(named, Item::Package, self.is_package),
            Item::NamespacePackage,
            self.is_namespace_package,
        );
        let code = and_data(
            and_data(
                and_data(
                    and_data(
                        and_data(flagged, FIELD_IN_MEMORY_SOURCE, self.source),
                        FIELD_IN_MEMORY_BYTECODE,
                        self.bytecode,
                    ),
                    FIELD_IN_MEMORY_BYTECODE_OPT1,
                    self.bytecode_opt1,
                ),
                FIELD_IN_MEMORY_BYTECODE_OPT2,
                self.bytecode_opt2,
            ),
            FIELD_IN_MEMORY_EXTENSION_MODULE_SHARED_LIBRARY,
            self.extension_module,
        );
        let files = and_files(
            and_files(code, FIELD_IN_MEMORY_RESOURCES_DATA, self.resources),
            FIELD_IN_MEMORY_PACKAGE_DISTRIBUTION,
            self.distribution,
        );
        and_names(
            and_data(files, FIELD_IN_MEMORY_SHARED_LIBRARY, self.shared_library),
            self.dependency_names,
        )
    }

    /// The entry of this resource in the index of resources.
    pub open spec fn index(self) -> Seq<u8> {
        seq![FIELD_START_OF_ENTRY] + index_of(self.body()) + seq![FIELD_END_OF_ENTRY]
    }

    /// The state of the walk behind the entry of this resource.
    pub open spec fn pass(self, st: WalkState) -> WalkState {
        let opened = WalkState {
            pos: st.pos + 1,
            scratch: EntrySpans::empty(),
            named: false,
            started: st.started + 1,
            ..st
        };
        let read = pass_all(self.body(), opened);
        WalkState {
            pos: read.pos + 1,
            scratch: EntrySpans::empty(),
            named: false,
            done: read.done.push(read.scratch),
            ..read
        }
    }
}

/// Adding an item behind a list adds what it stands for behind what the
/// list stands for.
proof fn lemma_add_push(items: Seq<Item>, item: Item, resource: ResourceView)
    ensures
        add_all(items.push(item), resource) == item.add(add_all(items, resource)),
{
    assert(items.push(item).drop_last() == items);
}

/// What a resource holds of one kind of data after the item of that data,
/// if there is one, has been added.
pub open spec fn add_data(resource: ResourceView, field: u8, data: Option<Seq<u8>>) -> ResourceView {
    match data {
        Some(d) => Item::Data(field as int, d).add(resource),
        None => resource,
    }
}

/// What a resource holds after the item of some files, if there is one, has
/// been added.
pub open spec fn add_files(resource: ResourceView, field: u8, files: Option<Seq<PackedFile>>) -> ResourceView {
    match files {
        Some(f) => Item::Files(field as int, f).add(resource),
        None => resource,
    }
}

/// What a resource holds after an item has been added, where `present`.
pub open spec fn add_flag(resource: ResourceView, item: Item, present: bool) -> ResourceView {
    if present {
        item.add(resource)
    } else {
        resource
    }
}

/// What a resource holds after the item of some names, if there is one, has
/// been added.
pub open spec fn add_names(resource: ResourceView, names: Option<Seq<Seq<u8>>>) -> ResourceView {
    match names {
        Some(n) => Item::Names(n).add(resource),
        None => resource,
    }
}

/// Whether a list of items starts with a name and holds only items that
/// the index of resources can hold.
pub open spec fn body_ok(items: Seq<Item>) -> bool {
    &&& items_ok(items)
    &&& items.len() > 0
    &&& items[0] is Name
}

/// A list stays in order where an item that the index can hold is added.
proof fn lemma_ok_push(items: Seq<Item>, item: Item)
    requires
        body_ok(items),
        item.ok(),
    ensures
        body_ok(items.push(item)),
{
    assert(items.push(item)[0] == items[0]);
}

/// The index of resources can hold the items of the entry of a resource
/// that it can hold, and the first of them is the name.
proof fn lemma_body_ok(resource: PackedResource)
    requires
        resource.ok(),
    ensures
        body_ok(resource.body()),
{
    let i0 = seq![Item::Name(resource.name)];
    let i1 = and_flag(i0, Item::Package, resource.is_package);
    let i2 = and_flag(i1, Item::NamespacePackage, resource.is_namespace_package);
    let i3 = and_data(i2, FIELD_IN_MEMORY_SOURCE, resource.source);
    let i4 = and_data(i3, FIELD_IN_MEMORY_BYTECODE, resource.bytecode);
    let i5 = and_data(i4, FIELD_IN_MEMORY_BYTECODE_OPT1, resource.bytecode_opt1);
    let i6 = and_data(i5, FIELD_IN_MEMORY_BYTECODE_OPT2, resource.bytecode_opt2);
    let i7 = and_data(i6, FIELD_IN_MEMORY_EXTENSION_MODULE_SHARED_LIBRARY, resource.extension_module);
    let i8 = and_files(i7, FIELD_IN_MEMORY_RESOURCES_DATA, resource.resources);
    let i9 = and_files(i8, FIELD_IN_MEMORY_PACKAGE_DISTRIBUTION, resource.distribution);
    let i10 = and_data(i9, FIELD_IN_MEMORY_SHARED_LIBRARY, resource.shared_library);
    let i11 = and_names(i10, resource.dependency_names);
    assert(body_ok(i0));
    assert(body_ok(i1)) by {
        if resource.is_package {
            lemma_ok_push(i0, Item::Package);
        }
    }
    assert(body_ok(i2)) by {
        if resource.is_namespace_package {
            lemma_ok_push(i1, Item::NamespacePackage);
        }
    }
    assert(body_ok(i3)) by {
        if let Some(d) = resource.source {
            lemma_ok_push(i2, Item::Data(FIELD_IN_MEMORY_SOURCE as int, d));
        }
    }
    assert(body_ok(i4)) by {
        if let Some(d) = resource.bytecode {
            lemma_ok_push(i3, Item::Data(FIELD_IN_MEMORY_BYTECODE as int, d));
        }
    }
    assert(body_ok(i5)) by {
        if let Some(d) = resource.bytecode_opt1 {
            lemma_ok_push(i4, Item::Data(FIELD_IN_MEMORY_BYTECODE_OPT1 as int, d));
        }
    }
    assert(body_ok(i6)) by {
        if let Some(d) = resource.bytecode_opt2 {
            lemma_ok_push(i5, Item::Data(FIELD_IN_MEMORY_BYTECODE_OPT2 as int, d));
        }
    }
    assert(body_ok(i7)) by {
        if let Some(d) = resource.extension_module {
            lemma_ok_push(
                i6,
                Item::Data(FIELD_IN_MEMORY_EXTENSION_MODULE_SHARED_LIBRARY as int, d),
            );
        }
    }
    assert(body_ok(i8)) by {
        if let Some(f) = resource.resources {
            lemma_ok_push(i7, Item::Files(FIELD_IN_MEMORY_RESOURCES_DATA as int, f));
        }
    }
    assert(body_ok(i9)) by {
        if let Some(f) = resource.distribution {
            lemma_ok_push(i8, Item::Files(FIELD_IN_MEMORY_PACKAGE_DISTRIBUTION as int, f));
        }
    }
    assert(body_ok(i10)) by {
        if let Some(d) = resource.shared_library {
            lemma_ok_push(i9, Item::Data(FIELD_IN_MEMORY_SHARED_LIBRARY as int, d));
        }
    }
    assert(body_ok(i11)) by {
        if let Some(n) = resource.dependency_names {
            lemma_ok_push(i10, Item::Names(n));
        }
    }
}

/// The items of an entry add up to what the resource holds.
proof fn lemma_body(resource: PackedResource)
    ensures
        add_all(resource.body(), ResourceView::named(Seq::empty())) == resource.unpacked(),
{
    let blank = ResourceView::named(Seq::empty());
    let i0 = seq![Item::Name(resource.name)];
    let i1 = and_flag(i0, Item::Package, resource.is_package);
    let i2 = and_flag(i1, Item::NamespacePackage, resource.is_namespace_package);
    let i3 = and_data(i2, FIELD_IN_MEMORY_SOURCE, resource.source);
    let i4 = and_data(i3, FIELD_IN_MEMORY_BYTECODE, resource.bytecode);
    let i5 = and_data(i4, FIELD_IN_MEMORY_BYTECODE_OPT1, resource.bytecode_opt1);
    let i6 = and_data(i5, FIELD_IN_MEMORY_BYTECODE_OPT2, resource.bytecode_opt2);
    let i7 = and_data(i6, FIELD_IN_MEMORY_EXTENSION_MODULE_SHARED_LIBRARY, resource.extension_module);
    let i8 = and_files(i7, FIELD_IN_MEMORY_RESOURCES_DATA, resource.resources);
    let i9 = and_files(i8, FIELD_IN_MEMORY_PACKAGE_DISTRIBUTION, resource.distribution);
    let i10 = and_data(i9, FIELD_IN_MEMORY_SHARED_LIBRARY, resource.shared_library);
    let i11 = and_names(i10, resource.dependency_names);
    let r0 = Item::Name(resource.name).add(blank);
    let r1 = add_flag(r0, Item::Package, resource.is_package);
    let r2 = add_flag(r1, Item::NamespacePackage, resource.is_namespace_package);
    let r3 = add_data(r2, FIELD_IN_MEMORY_SOURCE, resource.source);
    let r4 = add_data(r3, FIELD_IN_MEMORY_BYTECODE, resource.bytecode);
    let r5 = add_data(r4, FIELD_IN_MEMORY_BYTECODE_OPT1, resource.bytecode_opt1);
    let r6 = add_data(r5, FIELD_IN_MEMORY_BYTECODE_OPT2, resource.bytecode_opt2);
    let r7 = add_data(r6, FIELD_IN_MEMORY_EXTENSION_MODULE_SHARED_LIBRARY, resource.extension_module);
    let r8 = add_files(r7, FIELD_IN_MEMORY_RESOURCES_DATA, resource.resources);
    let r9 = add_files(r8, FIELD_IN_MEMORY_PACKAGE_DISTRIBUTION, resource.distribution);
    let r10 = add_data(r9, FIELD_IN_MEMORY_SHARED_LIBRARY, resource.shared_library);
    let r11 = add_names(r10, resource.dependency_names);
    assert(add_all(i0, blank) == r0) by {
        lemma_add_push(Seq::empty(), Item::Name(resource.name), blank);
        assert(Seq::<Item>::empty().push(Item::Name(resource.name)) =~= i0);
    }
    assert(add_all(i1, blank) == r1) by {
        lemma_add_push(i0, Item::Package, blank);
    }
    assert(add_all(i2, blank) == r2) by {
        lemma_add_push(i1, Item::NamespacePackage, blank);
    }
    assert(add_all(i3, blank) == r3) by {
        if let Some(d) = resource.source {
            lemma_add_push(i2, Item::Data(FIELD_IN_MEMORY_SOURCE as int, d), blank);
        }
    }
    assert(add_all(i4, blank) == r4) by {
        if let Some(d) = resource.bytecode {
            lemma_add_push(i3, Item::Data(FIELD_IN_MEMORY_BYTECODE as int, d), blank);
        }
    }
    assert(add_all(i5, blank) == r5) by {
        if let Some(d) = resource.bytecode_opt1 {
            lemma_add_push(i4, Item::Data(FIELD_IN_MEMORY_BYTECODE_OPT1 as int, d), blank);
        }
    }
    assert(add_all(i6, blank) == r6) by {
        if let Some(d) = resource.bytecode_opt2 {
            lemma_add_push(i5, Item::Data(FIELD_IN_MEMORY_BYTECODE_OPT2 as int, d), blank);
        }
    }
    assert(add_all(i7, blank) == r7) by {
        if let Some(d) = resource.extension_module {
            lemma_add_push(
                i6,
                Item::Data(FIELD_IN_MEMORY_EXTENSION_MODULE_SHARED_LIBRARY as int, d),
                blank,
            );
        }
    }
    assert(add_all(i8, blank) == r8) by {
        if let Some(f) = resource.resources {
            lemma_add_push(i7, Item::Files(FIELD_IN_MEMORY_RESOURCES_DATA as int, f), blank);
        }
    }
    assert(add_all(i9, blank) == r9) by {
        if let Some(f) = resource.distribution {
            lemma_add_push(i8, Item::Files(FIELD_IN_MEMORY_PACKAGE_DISTRIBUTION as int, f), blank);
        }
    }
    assert(add_all(i10, blank) == r10) by {
        if let Some(d) = resource.shared_library {
            lemma_add_push(i9, Item::Data(FIELD_IN_MEMORY_SHARED_LIBRARY as int, d), blank);
        }
    }
    assert(add_all(i11, blank) == r11) by {
        if let Some(n) = resource.dependency_names {
            lemma_add_push(i10, Item::Names(n), blank);
        }
    }
    lemma_added(resource);
}

/// Adding the name, the flags and each kind of data of a resource to the
/// resource that holds nothing gives what the resource holds.
proof fn lemma_added(resource: PackedResource)
    ensures
        ({
            let r0 = Item::Name(resource.name).add(ResourceView::named(Seq::empty()));
            let r1 = add_flag(r0, Item::Package, resource.is_package);
            let r2 = add_flag(r1, Item::NamespacePackage, resource.is_namespace_package);
            let r3 = add_data(r2, FIELD_IN_MEMORY_SOURCE, resource.source);
            let r4 = add_data(r3, FIELD_IN_MEMORY_BYTECODE, resource.bytecode);
            let r5 = add_data(r4, FIELD_IN_MEMORY_BYTECODE_OPT1, resource.bytecode_opt1);
            let r6 = add_data(r5, FIELD_IN_MEMORY_BYTECODE_OPT2, resource.bytecode_opt2);
            let r7 = add_data(
                r6,
                FIELD_IN_MEMORY_EXTENSION_MODULE_SHARED_LIBRARY,
                resource.extension_module,
            );
            let r8 = add_files(r7, FIELD_IN_MEMORY_RESOURCES_DATA, resource.resources);
            let r9 = add_files(r8, FIELD_IN_MEMORY_PACKAGE_DISTRIBUTION, resource.distribution);
            let r10 = add_data(r9, FIELD_IN_MEMORY_SHARED_LIBRARY, resource.shared_library);
            add_names(r10, resource.dependency_names) == resource.unpacked()
        }),
{
}

/// Reading the entry that a packer wrote for a resource moves the walk
/// behind the entry, moves each cursor behind the bytes of the resource in
/// its blob section, and closes an entry that holds what the resource
/// holds.
proof fn lemma_pass_entry(data: Seq<u8>, resource: PackedResource, st: WalkState)
    requires
        resource.ok(),
        cursors_valid(st.cursors),
        has_at(data, st.pos, resource.index()),
        forall|f: int|
            0 <= f < FIELD_LIMIT ==> has_at(
                data,
                st.cursors[f],
                #[trigger] section_of(resource.body(), f),
            ),
    ensures
        walk(data, st) == walk(data, resource.pass(st)),
        resource.pass(st).pos == st.pos + resource.index().len(),
        cursors_valid(resource.pass(st).cursors),
        forall|f: int|
            0 <= f < FIELD_LIMIT ==> resource.pass(st).cursors[f] == st.cursors[f] + (
            #[trigger] section_of(resource.body(), f)).len(),
        resource.pass(st).started == st.started + 1,
        resource.pass(st).done.len() == st.done.len() + 1,
        resource.pass(st).done.drop_last() == st.done,
        resource.pass(st).done.last().resolve(data) == resource.unpacked(),
        resource.pass(st).scratch == EntrySpans::empty(),
        !resource.pass(st).named,
{
    let body = resource.body();
    lemma_body(resource);
    lemma_body_ok(resource);
    lemma_has_at_split(
        data,
        st.pos,
        seq![FIELD_START_OF_ENTRY] + index_of(body),
        seq![FIELD_END_OF_ENTRY],
    );
    lemma_has_at_split(data, st.pos, seq![FIELD_START_OF_ENTRY], index_of(body));
    lemma_read_u8(data, st.pos, FIELD_START_OF_ENTRY);
    let opened = WalkState {
        pos: st.pos + 1,
        scratch: EntrySpans::empty(),
        named: false,
        started: st.started + 1,
        ..st
    };
    assert(step(data, st) == Ok::<Option<WalkState>, ResourceError>(Some(opened)));
    assert(walk(data, st) == walk(data, opened));
    lemma_pass_all(data, body, opened);
    let read = pass_all(body, opened);
    assert(body[0] is Name);
    assert(read.named);
    lemma_read_u8(data, read.pos, FIELD_END_OF_ENTRY);
    let closed = resource.pass(st);
    assert(step(data, read) == Ok::<Option<WalkState>, ResourceError>(Some(closed)));
    assert(walk(data, read) == walk(data, closed));
    assert(Span::empty().of(data) =~= Seq::<u8>::empty());
    assert(EntrySpans::empty().resolve(data) == ResourceView::named(Seq::empty()));
    assert(closed.done.drop_last() =~= st.done);
}

/// The entries of a list of resources in the index of resources, one
/// after the other.
pub open spec fn index_all(entries: Seq<PackedResource>) -> Seq<u8>
    decreases entries.len(),
{
    if entries.len() == 0 {
        Seq::empty()
    } else {
        index_all(entries.drop_last()) + entries.last().index()
    }
}

/// The blob section of `field`: the bytes of that kind of each resource of
/// the list, one after the other.
pub open spec fn section_all(entries: Seq<PackedResource>, field: int) -> Seq<u8>
    decreases entries.len(),
{
    if entries.len() == 0 {
        Seq::empty()
    } else {
        section_all(entries.drop_last(), field) + section_of(entries.last().body(), field)
    }
}

/// The state of the walk behind the entries of a list of resources.
pub open spec fn pass_entries(entries: Seq<PackedResource>, st: WalkState) -> WalkState
    decreases entries.len(),
{
    if entries.len() == 0 {
        st
    } else {
        entries.last().pass(pass_entries(entries.drop_last(), st))
    }
}

/// Whether the index of resources can hold every resource of a list.
pub open spec fn all_ok(entries: Seq<PackedResource>) -> bool {
    forall|i: int| 0 <= i < entries.len() ==> (#[trigger] entries[i]).ok()
}

/// What a catalog holds of each resource of a list.
pub open spec fn unpacked_all(entries: Seq<PackedResource>) -> Seq<ResourceView> {
    entries.map_values(|e: PackedResource| e.unpacked())
}

/// Reading the entries that a packer wrote for a list of resources moves
/// the walk behind them and closes, in their order, entries that hold what
/// the resources hold.
proof fn lemma_pass_entries(data: Seq<u8>, entries: Seq<PackedResource>, st: WalkState)
    requires
        all_ok(entries),
        cursors_valid(st.cursors),
        st.done.len() == 0,
        has_at(data, st.pos, index_all(entries)),
        forall|f: int|
            0 <= f < FIELD_LIMIT ==> has_at(data, st.cursors[f], #[trigger] section_all(entries, f)),
    ensures
        walk(data, st) == walk(data, pass_entries(entries, st)),
        pass_entries(entries, st).pos == st.pos + index_all(entries).len(),
        cursors_valid(pass_entries(entries, st).cursors),
        forall|f: int|
            0 <= f < FIELD_LIMIT ==> pass_entries(entries, st).cursors[f] == st.cursors[f] + (
            #[trigger] section_all(entries, f)).len(),
        pass_entries(entries, st).started == st.started + entries.len(),
        resolve_all(pass_entries(entries, st).done, data) == unpacked_all(entries),
    decreases entries.len(),
{
    if entries.len() == 0 {
        assert(resolve_all(st.done, data) =~= unpacked_all(entries));
    } else {
        let front = entries.drop_last();
        let last = entries.last();
        assert(last == entries[entries.len() - 1]);
        assert forall|i: int| 0 <= i < front.len() implies (#[trigger] front[i]).ok() by {
            assert(front[i] == entries[i]);
        }
        lemma_has_at_split(data, st.pos, index_all(front), last.index());
        assert forall|f: int| 0 <= f < FIELD_LIMIT implies has_at(
            data,
            st.cursors[f],
            #[trigger] section_all(front, f),
        ) && has_at(
            data,
            st.cursors[f] + section_all(front, f).len(),
            section_of(last.body(), f),
        ) by {
            assert(has_at(data, st.cursors[f], section_all(entries, f)));
            lemma_has_at_split(
                data,
                st.cursors[f],
                section_all(front, f),
                section_of(last.body(), f),
            );
        }
        lemma_pass_entries(data, front, st);
        let mid = pass_entries(front, st);
        assert forall|f: int| 0 <= f < FIELD_LIMIT implies has_at(
            data,
            mid.cursors[f],
            #[trigger] section_of(last.body(), f),
        ) by {
            assert(mid.cursors[f] == st.cursors[f] + section_all(front, f).len());
        }
        lemma_pass_entry(data, last, mid);
        let end = last.pass(mid);
        assert(pass_entries(entries, st) == end);
        assert forall|f: int| 0 <= f < FIELD_LIMIT implies end.cursors[f] == st.cursors[f] + (
        #[trigger] section_all(entries, f)).len() by {
            assert(mid.cursors[f] == st.cursors[f] + section_all(front, f).len());
            assert(end.cursors[f] == mid.cursors[f] + section_of(last.body(), f).len());
        }
        let got = resolve_all(end.done, data);
        let want = unpacked_all(entries);
        assert(resolve_all(mid.done, data).len() == mid.done.len());
        assert(unpacked_all(front).len() == front.len());
        assert(got.len() == want.len());
        assert forall|i: int| 0 <= i < got.len() implies got[i] == want[i] by {
            if i < front.len() {
                assert(end.done[i] == end.done.drop_last()[i]);
                assert(resolve_all(mid.done, data)[i] == unpacked_all(front)[i]);
            } else {
                assert(end.done[i] == end.done.last());
            }
        }
        assert(got =~= want);
    }
}

/// The fields that have a blob section, in the order of their sections.
pub open spec fn blob_fields() -> Seq<int> {
    seq![
        FIELD_MODULE_NAME as int,
        FIELD_IN_MEMORY_SOURCE as int,
        FIELD_IN_MEMORY_BYTECODE as int,
        FIELD_IN_MEMORY_BYTECODE_OPT1 as int,
        FIELD_IN_MEMORY_BYTECODE_OPT2 as int,
        FIELD_IN_MEMORY_EXTENSION_MODULE_SHARED_LIBRARY as int,
        FIELD_IN_MEMORY_RESOURCES_DATA as int,
        FIELD_IN_MEMORY_PACKAGE_DISTRIBUTION as int,
        FIELD_IN_MEMORY_SHARED_LIBRARY as int,
        FIELD_SHARED_LIBRARY_DEPENDENCY_NAMES as int,
    ]
}

/// The record of the blob section of `field` in the index of blob sections:
/// the field and the length of the section. A section without bytes has no
/// record.
pub open spec fn section_record(entries: Seq<PackedResource>, field: int) -> Seq<u8> {
    if section_all(entries, field).len() > 0 {
        seq![field as u8] + le64_bytes(section_all(entries, field).len() as int)
    } else {
        Seq::empty()
    }
}

/// The records of the blob sections of the given fields.
pub open spec fn blob_records(entries: Seq<PackedResource>, fields: Seq<int>) -> Seq<u8>
    decreases fields.len(),
{
    if fields.len() == 0 {
        Seq::empty()
    } else {
        section_record(entries, fields[0]) + blob_records(entries, fields.drop_first())
    }
}

/// The blob sections of the given fields, one after the other.
pub open spec fn blob_sections(entries: Seq<PackedResource>, fields: Seq<int>) -> Seq<u8>
    decreases fields.len(),
{
    if fields.len() == 0 {
        Seq::empty()
    } else {
        section_all(entries, fields[0]) + blob_sections(entries, fields.drop_first())
    }
}

/// How many of the blob sections of the given fields have bytes.
pub open spec fn section_count(entries: Seq<PackedResource>, fields: Seq<int>) -> nat
    decreases fields.len(),
{
    if fields.len() == 0 {
        0
    } else if section_all(entries, fields[0]).len() > 0 {
        1 + section_count(entries, fields.drop_first())
    } else {
        section_count(entries, fields.drop_first())
    }
}

/// The magic header of version 1.
pub open spec fn magic_v1() -> Seq<u8> {
    seq![0x70u8, 0x79u8, 0x65u8, 0x6du8, 0x62u8, 0x65u8, 0x64u8, 0x01u8]
}

/// The index of blob sections of a list of resources.
pub open spec fn blob_index(entries: Seq<PackedResource>) -> Seq<u8> {
    blob_records(entries, blob_fields()) + seq![FIELD_END_OF_INDEX]
}

/// The index of resources of a list of resources.
pub open spec fn resources_index(entries: Seq<PackedResource>) -> Seq<u8> {
    index_all(entries) + seq![FIELD_END_OF_INDEX]
}

/// The packed index that a packer writes for a list of resources: the
/// magic header, the fixed header, the index of the blob sections that
/// have bytes, the index of resources with one entry for each resource, and
/// the blob sections.
#[verifier::opaque]
pub open spec fn write(entries: Seq<PackedResource>) -> Seq<u8> {
    magic_v1() + seq![section_count(entries, blob_fields()) as u8] + le32_bytes(
        blob_index(entries).len() as int,
    ) + le32_bytes(entries.len() as int) + le32_bytes(resources_index(entries).len() as int)
        + blob_index(entries) + resources_index(entries) + blob_sections(entries, blob_fields())
}

/// Whether a packed index can hold a list of resources: it can hold each
/// of them, the fixed header can hold their number and the length of their
/// index, and the whole is no longer than a buffer can be.
pub open spec fn packable(entries: Seq<PackedResource>) -> bool {
    &&& all_ok(entries)
    &&& entries.len() <= 0xffff_ffff
    &&& resources_index(entries).len() <= 0xffff_ffff
    &&& write(entries).len() <= usize::MAX
}

/// Items that the index can hold have no bytes in the place of a field
/// that has no blob section.
proof fn lemma_section_of_empty(items: Seq<Item>, field: int)
    requires
        items_ok(items),
        !is_blob_field(field),
    ensures
        section_of(items, field).len() == 0,
    decreases items.len(),
{
    if items.len() > 0 {
        let front = items.drop_last();
        assert(items.last() == items[items.len() - 1]);
        assert(items.last().ok());
        assert forall|i: int| 0 <= i < front.len() implies (#[trigger] front[i]).ok() by {
            assert(front[i] == items[i]);
        }
        lemma_section_of_empty(front, field);
    }
}

/// Resources that the index can hold have no bytes in the place of a field
/// that has no blob section.
proof fn lemma_section_all_empty(entries: Seq<PackedResource>, field: int)
    requires
        all_ok(entries),
        !is_blob_field(field),
    ensures
        section_all(entries, field).len() == 0,
    decreases entries.len(),
{
    if entries.len() > 0 {
        let front = entries.drop_last();
        assert(entries.last() == entries[entries.len() - 1]);
        assert forall|i: int| 0 <= i < front.len() implies (#[trigger] front[i]).ok() by {
            assert(front[i] == entries[i]);
        }
        lemma_section_all_empty(front, field);
        lemma_body_ok(entries.last());
        lemma_section_of_empty(entries.last().body(), field);
    }
}

/// There are no more sections with bytes than fields, and the records of
/// the sections have nine bytes for each section with bytes.
proof fn lemma_blob_records_len(entries: Seq<PackedResource>, fields: Seq<int>)
    requires
        forall|i: int|
            0 <= i < fields.len() ==> section_all(entries, #[trigger] fields[i]).len()
                <= 0xffff_ffff_ffff_ffff,
    ensures
        section_count(entries, fields) <= fields.len(),
        blob_records(entries, fields).len() == 9 * section_count(entries, fields),
    decreases fields.len(),
{
    if fields.len() > 0 {
        let rest = fields.drop_first();
        assert forall|i: int| 0 <= i < rest.len() implies section_all(
            entries,
            #[trigger] rest[i],
        ).len() <= 0xffff_ffff_ffff_ffff by {
            assert(rest[i] == fields[i + 1]);
        }
        lemma_blob_records_len(entries, rest);
        lemma_le64_bytes(section_all(entries, fields[0]).len() as int);
    }
}

/// Reading the index of blob sections that a packer wrote yields, for each
/// of its fields, an offset at which the blob section of the field stands
/// behind `base`. The offsets of the other fields are as they were.
proof fn lemma_blob_index(
    data: Seq<u8>,
    entries: Seq<PackedResource>,
    fields: Seq<int>,
    pos: int,
    total: int,
    offsets: Seq<int>,
    base: int,
)
    requires
        data.len() <= usize::MAX,
        forall|i: int| 0 <= i < fields.len() ==> is_blob_field(#[trigger] fields[i]),
        forall|i: int, j: int| 0 <= i < j < fields.len() ==> fields[i] != fields[j],
        cursors_valid(offsets),
        forall|i: int| 0 <= i < fields.len() ==> offsets[#[trigger] fields[i]] == 0,
        0 <= total,
        0 <= base <= data.len(),
        has_at(data, base + total, blob_sections(entries, fields)),
        has_at(data, pos, blob_records(entries, fields) + seq![FIELD_END_OF_INDEX]),
    ensures
        parse_blob_index(data, pos, section_count(entries, fields), total, offsets) matches Ok(
            (end, found),
        ) && end == pos + blob_records(entries, fields).len() + 1 && cursors_valid(found) && (forall|
            i: int,
        |
            0 <= i < fields.len() ==> has_at(
                data,
                base + found[#[trigger] fields[i]],
                section_all(entries, fields[i]),
            )) && (forall|f: int|
            0 <= f < FIELD_LIMIT && !fields.contains(f) ==> #[trigger] found[f] == offsets[f]),
    decreases fields.len(),
{
    if fields.len() == 0 {
        assert(blob_records(entries, fields) + seq![FIELD_END_OF_INDEX] =~= seq![
            FIELD_END_OF_INDEX,
        ]);
        lemma_read_u8(data, pos, FIELD_END_OF_INDEX);
    } else {
        let field = fields[0];
        let rest = fields.drop_first();
        let section = section_all(entries, field);
        let record = section_record(entries, field);
        assert(is_blob_field(field));
        assert(!rest.contains(field)) by {
            if rest.contains(field) {
                let j = choose|j: int| 0 <= j < rest.len() && rest[j] == field;
                assert(fields[j + 1] == fields[0]);
            }
        }
        assert forall|i: int| 0 <= i < rest.len() implies is_blob_field(#[trigger] rest[i]) by {
            assert(rest[i] == fields[i + 1]);
        }
        assert forall|i: int, j: int| 0 <= i < j < rest.len() implies rest[i] != rest[j] by {
            assert(rest[i] == fields[i + 1]);
            assert(rest[j] == fields[j + 1]);
        }
        lemma_has_at_split(data, base + total, section, blob_sections(entries, rest));
        assert(blob_records(entries, fields) + seq![FIELD_END_OF_INDEX] =~= record + (blob_records(
            entries,
            rest,
        ) + seq![FIELD_END_OF_INDEX]));
        lemma_has_at_split(
            data,
            pos,
            record,
            blob_records(entries, rest) + seq![FIELD_END_OF_INDEX],
        );
        if section.len() == 0 {
            assert forall|i: int| 0 <= i < rest.len() implies offsets[#[trigger] rest[i]] == 0 by {
                assert(rest[i] == fields[i + 1]);
            }
            lemma_blob_index(data, entries, rest, pos, total, offsets, base);
            let found = parse_blob_index(
                data,
                pos,
                section_count(entries, rest),
                total,
                offsets,
            ).unwrap().1;
            assert(found[field] == offsets[field]);
            assert forall|i: int| 0 <= i < fields.len() implies has_at(
                data,
                base + found[#[trigger] fields[i]],
                section_all(entries, fields[i]),
            ) by {
                if i > 0 {
                    assert(fields[i] == rest[i - 1]);
                } else {
                    assert(data.subrange(base, base) =~= section);
                }
            }
            assert forall|f: int| 0 <= f < FIELD_LIMIT && !fields.contains(f) implies #[trigger] found[f]
                == offsets[f] by {
                if rest.contains(f) {
                    let j = choose|j: int| 0 <= j < rest.len() && rest[j] == f;
                    assert(fields[j + 1] == f);
                }
            }
        } else {
            lemma_has_at_split(data, pos, seq![field as u8], le64_bytes(section.len() as int));
            lemma_read_u8(data, pos, field as u8);
            lemma_le64_bytes(section.len() as int);
            lemma_read_u64(data, pos + 1, section.len() as int);
            let moved = offsets.update(field, total);
            assert forall|i: int| 0 <= i < rest.len() implies moved[#[trigger] rest[i]] == 0 by {
                assert(rest[i] == fields[i + 1]);
                assert(rest.contains(rest[i]));
            }
            lemma_blob_index(data, entries, rest, pos + 9, total + section.len(), moved, base);
            let found = parse_blob_index(
                data,
                pos + 9,
                section_count(entries, rest),
                total + section.len(),
                moved,
            ).unwrap().1;
            assert(found[field] == moved[field]);
            assert forall|i: int| 0 <= i < fields.len() implies has_at(
                data,
                base + found[#[trigger] fields[i]],
                section_all(entries, fields[i]),
            ) by {
                if i > 0 {
                    assert(fields[i] == rest[i - 1]);
                }
            }
            assert forall|f: int| 0 <= f < FIELD_LIMIT && !fields.contains(f) implies #[trigger] found[f]
                == offsets[f] by {
                if rest.contains(f) {
                    let j = choose|j: int| 0 <= j < rest.len() && rest[j] == f;
                    assert(fields[j + 1] == f);
                }
                assert(fields[0] == field);
                assert(f != field);
            }
        }
    }
}

/// No blob section is longer than the blob sections together.
proof fn lemma_sections_len(entries: Seq<PackedResource>, fields: Seq<int>)
    ensures
        forall|i: int|
            0 <= i < fields.len() ==> section_all(entries, #[trigger] fields[i]).len()
                <= blob_sections(entries, fields).len(),
    decreases fields.len(),
{
    if fields.len() > 0 {
        let rest = fields.drop_first();
        lemma_sections_len(entries, rest);
        assert forall|i: int| 0 <= i < fields.len() implies section_all(
            entries,
            #[trigger] fields[i],
        ).len() <= blob_sections(entries, fields).len() by {
            if i > 0 {
                assert(fields[i] == rest[i - 1]);
            }
        }
    }
}

/// The fixed header that a packer writes for a list of resources.
pub open spec fn header_of(entries: Seq<PackedResource>) -> Header {
    Header {
        blob_section_count: section_count(entries, blob_fields()) as int,
        blob_index_length: blob_index(entries).len() as int,
        resources_count: entries.len() as int,
        resources_index_length: resources_index(entries).len() as int,
    }
}

/// Where the parts of a packed index stand in it.
proof fn lemma_layout(entries: Seq<PackedResource>)
    requires
        packable(entries),
    ensures
        section_count(entries, blob_fields()) <= 10,
        blob_index(entries).len() == 9 * section_count(entries, blob_fields()) + 1,
        has_at(write(entries), 0, magic_v1()),
        has_at(write(entries), 8, seq![section_count(entries, blob_fields()) as u8]),
        has_at(write(entries), 9, le32_bytes(blob_index(entries).len() as int)),
        has_at(write(entries), 13, le32_bytes(entries.len() as int)),
        has_at(write(entries), 17, le32_bytes(resources_index(entries).len() as int)),
        has_at(write(entries), 21, blob_index(entries)),
        has_at(write(entries), 21 + blob_index(entries).len() as int, resources_index(entries)),
        has_at(
            write(entries),
            header_of(entries).blob_start(),
            blob_sections(entries, blob_fields()),
        ),
{
    let data = write(entries);
    let fields = blob_fields();
    let count = section_count(entries, fields);
    let sections = blob_sections(entries, fields);
    let head = magic_v1();
    let c = seq![count as u8];
    let a = le32_bytes(blob_index(entries).len() as int);
    let b = le32_bytes(entries.len() as int);
    let d = le32_bytes(resources_index(entries).len() as int);
    let x1 = head + c;
    let x2 = x1 + a;
    let x3 = x2 + b;
    let x4 = x3 + d;
    let x5 = x4 + blob_index(entries);
    let x6 = x5 + resources_index(entries);
    assert(data == x6 + sections) by {
        reveal(write);
    }
    lemma_sections_len(entries, fields);
    assert forall|i: int| 0 <= i < fields.len() implies section_all(
        entries,
        #[trigger] fields[i],
    ).len() <= 0xffff_ffff_ffff_ffff by {
        assert(sections.len() <= data.len());
    }
    lemma_blob_records_len(entries, fields);
    assert(fields.len() == 10);
    assert(has_at(data, 0, data)) by {
        assert(data.subrange(0, data.len() as int) =~= data);
    }
    lemma_has_at_split(data, 0, x6, sections);
    lemma_has_at_split(data, 0, x5, resources_index(entries));
    lemma_has_at_split(data, 0, x4, blob_index(entries));
    lemma_has_at_split(data, 0, x3, d);
    lemma_has_at_split(data, 0, x2, b);
    lemma_has_at_split(data, 0, x1, a);
    lemma_has_at_split(data, 0, head, c);
}

/// The headers that a packer wrote are read as they are.
proof fn lemma_header(entries: Seq<PackedResource>)
    requires
        packable(entries),
    ensures
        parse_header(write(entries)) == Ok::<Header, ResourceError>(header_of(entries)),
{
    let data = write(entries);
    let count = section_count(entries, blob_fields());
    lemma_layout(entries);
    assert(has_magic_v1(data)) by {
        let front = data.subrange(0, 8);
        assert(front == magic_v1());
        assert(data[0] == front[0] && data[1] == front[1] && data[2] == front[2] && data[3]
            == front[3]);
        assert(data[4] == front[4] && data[5] == front[5] && data[6] == front[6] && data[7]
            == front[7]);
    }
    lemma_read_u8(data, 8, count as u8);
    lemma_read_u32(data, 9, blob_index(entries).len() as int);
    lemma_read_u32(data, 13, entries.len() as int);
    lemma_read_u32(data, 17, resources_index(entries).len() as int);
}

/// The index of blob sections that a packer wrote is read up to its end,
/// and the cursors that follow from it stand where the blob sections
/// stand.
proof fn lemma_blob_sections(entries: Seq<PackedResource>)
    requires
        packable(entries),
    ensures
        parse_blob_sections(write(entries), header_of(entries)) matches Ok((pos, offsets)) && pos
            == 21 + blob_index(entries).len() && cursors_valid(
            initial_cursors(header_of(entries), offsets),
        ) && (forall|f: int|
            0 <= f < FIELD_LIMIT ==> has_at(
                write(entries),
                initial_cursors(header_of(entries), offsets)[f],
                #[trigger] section_all(entries, f),
            )),
{
    let data = write(entries);
    let fields = blob_fields();
    let header = header_of(entries);
    let base = header.blob_start();
    lemma_layout(entries);
    assert(cursors_valid(no_offsets()));
    lemma_blob_index(data, entries, fields, HEADER_LENGTH as int, 0, no_offsets(), base);
    let read = parse_blob_index(
        data,
        HEADER_LENGTH as int,
        section_count(entries, fields),
        0,
        no_offsets(),
    );
    let found = read.unwrap().1;
    let cursors = initial_cursors(header, found);
    assert(cursors_valid(cursors));
    assert forall|f: int| 0 <= f < FIELD_LIMIT implies has_at(
        data,
        cursors[f],
        #[trigger] section_all(entries, f),
    ) by {
        if is_blob_field(f) {
            let i = if f == FIELD_MODULE_NAME {
                0int
            } else {
                f - 5
            };
            assert(fields[i] == f);
        } else {
            lemma_section_all_empty(entries, f);
            assert(!fields.contains(f));
            assert(found[f] == 0);
            assert(data.subrange(base, base) =~= section_all(entries, f));
        }
    }
}

/// Reading what a packer wrote gives back what was packed: the packed
/// index of a list of resources is read without failure, and its entries
/// hold, one by one and in their order, what the resources hold.
pub proof fn lemma_round_trip(entries: Seq<PackedResource>)
    requires
        packable(entries),
    ensures
        decode(write(entries)) matches Ok(found) && resolve_all(found, write(entries))
            == unpacked_all(entries),
{
    let data = write(entries);
    let header = header_of(entries);
    lemma_layout(entries);
    lemma_header(entries);
    lemma_blob_sections(entries);
    let read = parse_blob_sections(data, header).unwrap();
    let pos = read.0;
    if entries.len() == 0 {
        assert(resolve_all(Seq::empty(), data) =~= unpacked_all(entries));
    } else {
        let first = WalkState::initial(pos, initial_cursors(header, read.1));
        lemma_has_at_split(data, pos, index_all(entries), seq![FIELD_END_OF_INDEX]);
        lemma_pass_entries(data, entries, first);
        let last = pass_entries(entries, first);
        lemma_read_u8(data, last.pos, FIELD_END_OF_INDEX);
        assert(step(data, last) == Ok::<Option<WalkState>, ResourceError>(None));
        assert(walk(data, last) == Ok::<WalkState, ResourceError>(last));
    }
}

/// Whether no two resources of a list have one name.
pub open spec fn distinct_names(entries: Seq<PackedResource>) -> bool {
    forall|i: int, j: int| 0 <= i < j < entries.len() ==> entries[i].name != entries[j].name
}

/// A catalog into which resources with different names have been put holds
/// each of them under its name.
proof fn lemma_insert_all_distinct(
    held: Map<Seq<u8>, ResourceView>,
    entries: Seq<ResourceView>,
    i: int,
)
    requires
        0 <= i < entries.len(),
        forall|j: int, k: int| 0 <= j < k < entries.len() ==> entries[j].name != entries[k].name,
    ensures
        insert_all(held, entries).contains_key(entries[i].name),
        insert_all(held, entries)[entries[i].name] == entries[i],
    decreases entries.len(),
{
    if i < entries.len() - 1 {
        lemma_insert_all_distinct(held, entries.drop_last(), i);
    }
}

/// Loading what a packer wrote gives back what was packed: where no two
/// resources have one name, the catalog that is loaded from their packed
/// index holds under the name of each resource what that resource holds.
pub proof fn lemma_round_trip_catalog(
    held: Map<Seq<u8>, ResourceView>,
    entries: Seq<PackedResource>,
    i: int,
)
    requires
        packable(entries),
        distinct_names(entries),
        0 <= i < entries.len(),
    ensures
        decode(write(entries)) matches Ok(found) && ({
            let loaded = insert_all(held, resolve_all(found, write(entries)));
            loaded.contains_key(entries[i].name) && loaded[entries[i].name]
                == entries[i].unpacked()
        }),
{
    lemma_round_trip(entries);
    lemma_insert_all_distinct(held, unpacked_all(entries), i);
}

} // verus!
