//! What holds of every packed index and of every catalog.

use crate::assoc::Key;
use crate::error::ResourceError;
use crate::format::{claim_data, claim_name, decode, initial_cursors, no_offsets};
use crate::format::{lemma_step_moves, parse_blob_index, parse_blob_sections, parse_files};
use crate::format::{parse_header, parse_names, step, walk};
use crate::format::{Cursors, EntrySpans, Header, Span, WalkState, FIELD_LIMIT};
use crate::format::{FIELD_END_OF_ENTRY, FIELD_IN_MEMORY_BYTECODE, FIELD_IN_MEMORY_BYTECODE_OPT1};
use crate::format::{FIELD_IN_MEMORY_BYTECODE_OPT2, FIELD_IN_MEMORY_EXTENSION_MODULE_SHARED_LIBRARY};
use crate::format::{FIELD_IN_MEMORY_PACKAGE_DISTRIBUTION, FIELD_IN_MEMORY_RESOURCES_DATA};
use crate::format::{FIELD_IN_MEMORY_SHARED_LIBRARY, FIELD_IN_MEMORY_SOURCE, FIELD_MODULE_NAME};
use crate::format::{FIELD_SHARED_LIBRARY_DEPENDENCY_NAMES, FIELD_START_OF_ENTRY};
use crate::reader::{u16_at, u32_at, u64_at, u8_at};
use crate::resource::ResourceView;
use crate::state::{insert_all, registered, with_builtins, with_frozen};
use vstd::prelude::*;

verus! {

/// Whether an optional run lies within an input of `len` bytes.
pub open spec fn span_within(span: Option<Span>, len: int) -> bool {
    span matches Some(s) ==> s.within(len)
}

/// Whether the name and the content of every file of a list lie within an
/// input of `len` bytes.
pub open spec fn files_within(files: Seq<(Span, Span)>, len: int) -> bool {
    forall|i: int| 0 <= i < files.len() ==> (#[trigger] files[i]).0.within(len) && files[i].1.within(len)
}

/// Whether every run of a list lies within an input of `len` bytes.
pub open spec fn spans_within(spans: Seq<Span>, len: int) -> bool {
    forall|i: int| 0 <= i < spans.len() ==> (#[trigger] spans[i]).within(len)
}

/// Whether the name and every run of data of an entry lie within an input
/// of `len` bytes.
pub open spec fn entry_within(entry: EntrySpans, len: int) -> bool {
    &&& entry.name.within(len)
    &&& span_within(entry.source, len)
    &&& span_within(entry.bytecode, len)
    &&& span_within(entry.bytecode_opt1, len)
    &&& span_within(entry.bytecode_opt2, len)
    &&& span_within(entry.extension_module, len)
    &&& (entry.resources matches Some(files) ==> files_within(files, len))
    &&& (entry.distribution matches Some(files) ==> files_within(files, len))
    &&& span_within(entry.shared_library, len)
    &&& (entry.dependency_names matches Some(names) ==> spans_within(names, len))
}

/// Whether every entry of a list lies within an input of `len` bytes.
pub open spec fn entries_within(entries: Seq<EntrySpans>, len: int) -> bool {
    forall|i: int| 0 <= i < entries.len() ==> entry_within(#[trigger] entries[i], len)
}

/// No cursor of the table is before the start of the input.
pub open spec fn cursors_valid(cursors: Cursors) -> bool {
    &&& cursors.len() == FIELD_LIMIT
    &&& forall|i: int| 0 <= i < FIELD_LIMIT ==> #[trigger] cursors[i] >= 0
}

/// Whether all that a state of the walk holds lies within an input of
/// `len` bytes.
pub open spec fn state_within(st: WalkState, len: int) -> bool {
    &&& cursors_valid(st.cursors)
    &&& entry_within(st.scratch, len)
    &&& entries_within(st.done, len)
}

/// A claim yields a run within the input.
proof fn lemma_claim_within(len: nat, cursors: Cursors, field: int, n: int)
    requires
        cursors_valid(cursors),
        0 <= field < FIELD_LIMIT,
        0 <= n,
    ensures
        claim_data(len, cursors, field, n) matches Ok((span, moved)) ==> span.within(len as int)
            && cursors_valid(moved),
{
}

proof fn lemma_files_within(
    data: Seq<u8>,
    pos: int,
    cursors: Cursors,
    field: int,
    remaining: nat,
    files: Seq<(Span, Span)>,
)
    requires
        cursors_valid(cursors),
        0 <= field < FIELD_LIMIT,
        files_within(files, data.len() as int),
    ensures
        parse_files(data, pos, cursors, field, remaining, files) matches Ok(read) ==> files_within(
            read.items,
            data.len() as int,
        ) && cursors_valid(read.cursors),
    decreases remaining,
{
    if remaining > 0 {
        if let Some(name_length) = u16_at(data, pos) {
            lemma_claim_within(data.len(), cursors, field, name_length);
            if let Ok((name, after_name)) = claim_name(data, cursors, field, name_length) {
                if let Some(length) = u64_at(data, pos + 2) {
                    lemma_claim_within(data.len(), after_name, field, length);
                    if let Ok((content, after_content)) = claim_data(
                        data.len(),
                        after_name,
                        field,
                        length,
                    ) {
                        lemma_files_within(
                            data,
                            pos + 10,
                            after_content,
                            field,
                            (remaining - 1) as nat,
                            files.push((name, content)),
                        );
                    }
                }
            }
        }
    }
}

proof fn lemma_names_within(
    data: Seq<u8>,
    pos: int,
    cursors: Cursors,
    remaining: nat,
    names: Seq<Span>,
)
    requires
        cursors_valid(cursors),
        spans_within(names, data.len() as int),
    ensures
        parse_names(data, pos, cursors, remaining, names) matches Ok(read) ==> spans_within(
            read.items,
            data.len() as int,
        ) && cursors_valid(read.cursors),
    decreases remaining,
{
    let field = crate::format::FIELD_SHARED_LIBRARY_DEPENDENCY_NAMES as int;
    if remaining > 0 {
        if let Some(length) = u16_at(data, pos) {
            lemma_claim_within(data.len(), cursors, field, length);
            if let Ok((name, moved)) = claim_name(data, cursors, field, length) {
                lemma_names_within(data, pos + 2, moved, (remaining - 1) as nat, names.push(name));
            }
        }
    }
}

proof fn lemma_step_within(data: Seq<u8>, st: WalkState)
    requires
        state_within(st, data.len() as int),
    ensures
        step(data, st) matches Ok(Some(next)) ==> state_within(next, data.len() as int),
{
    if let Some(field) = u8_at(data, st.pos) {
        let pos = st.pos + 1;
        if field == crate::format::FIELD_MODULE_NAME {
            if let Some(length) = u16_at(data, pos) {
                lemma_claim_within(data.len(), st.cursors, field, length);
            }
        } else if crate::format::is_short_data_field(field) {
            if let Some(length) = u32_at(data, pos) {
                lemma_claim_within(data.len(), st.cursors, field, length);
            }
        } else if field == crate::format::FIELD_IN_MEMORY_SHARED_LIBRARY {
            if let Some(length) = u64_at(data, pos) {
                lemma_claim_within(data.len(), st.cursors, field, length);
            }
        } else if field == crate::format::FIELD_IN_MEMORY_RESOURCES_DATA || field
            == crate::format::FIELD_IN_MEMORY_PACKAGE_DISTRIBUTION {
            if let Some(count) = u32_at(data, pos) {
                lemma_files_within(data, pos + 4, st.cursors, field, count as nat, Seq::empty());
            }
        } else if field == crate::format::FIELD_SHARED_LIBRARY_DEPENDENCY_NAMES {
            if let Some(count) = u16_at(data, pos) {
                lemma_names_within(data, pos + 2, st.cursors, count as nat, Seq::empty());
            }
        }
    }
}

proof fn lemma_walk_within(data: Seq<u8>, st: WalkState)
    requires
        state_within(st, data.len() as int),
    ensures
        walk(data, st) matches Ok(end) ==> state_within(end, data.len() as int),
    decreases data.len() - st.pos,
{
    lemma_step_within(data, st);
    lemma_step_moves(data, st);
    if let Ok(Some(next)) = step(data, st) {
        lemma_walk_within(data, next);
    }
}

proof fn lemma_blob_index_offsets(
    data: Seq<u8>,
    pos: int,
    remaining: nat,
    total: int,
    offsets: Seq<int>,
)
    requires
        cursors_valid(offsets),
        0 <= total,
    ensures
        parse_blob_index(data, pos, remaining, total, offsets) matches Ok((end, found))
            ==> cursors_valid(found),
    decreases remaining,
{
    if remaining > 0 {
        if let Some(field) = u8_at(data, pos) {
            if let Some(length) = u64_at(data, pos + 1) {
                if crate::format::is_blob_field(field) {
                    lemma_blob_index_offsets(
                        data,
                        pos + 9,
                        (remaining - 1) as nat,
                        total + length,
                        offsets.update(field, total),
                    );
                }
            }
        }
    }
}

/// Nothing is copied: the name and every run of data of every entry that is
/// read out of a packed index lie within the input.
pub proof fn lemma_decoded_within(data: Seq<u8>)
    ensures
        decode(data) matches Ok(entries) ==> entries_within(entries, data.len() as int),
{
    if let Ok(header) = parse_header(data) {
        lemma_blob_index_offsets(
            data,
            crate::format::HEADER_LENGTH as int,
            header.blob_section_count as nat,
            0,
            no_offsets(),
        );
        if let Ok((pos, offsets)) = parse_blob_sections(data, header) {
            let first = WalkState::initial(pos, initial_cursors(header, offsets));
            assert(cursors_valid(first.cursors));
            lemma_walk_within(data, first);
        }
    }
}

/// The count of the header binds the index of resources. Where the headers
/// and the index of blob sections can be read, the header announces
/// entries and an index that is not empty, and the index of resources can
/// be read up to the field that closes it, decoding succeeds if and only if
/// the index starts as many entries as the header announces. It then
/// yields the entries that the index closes, and else fails for the
/// mismatch.
pub proof fn lemma_count_integrity(
    data: Seq<u8>,
    header: Header,
    pos: int,
    offsets: Seq<int>,
    end: WalkState,
)
    requires
        parse_header(data) == Ok::<Header, ResourceError>(header),
        parse_blob_sections(data, header) == Ok::<(int, Seq<int>), ResourceError>((pos, offsets)),
        header.resources_count != 0,
        header.resources_index_length != 0,
        walk(data, WalkState::initial(pos, initial_cursors(header, offsets))) == Ok::<
            WalkState,
            ResourceError,
        >(end),
    ensures
        decode(data) is Ok <==> end.started == header.resources_count,
        decode(data) is Ok ==> decode(data) == Ok::<Seq<EntrySpans>, ResourceError>(end.done),
        decode(data) is Err ==> decode(data) == Err::<Seq<EntrySpans>, ResourceError>(
            ResourceError::CountMismatch,
        ),
{
}

/// The catalog after the builtin and then the frozen modules have been
/// registered.
pub open spec fn ingested(held: Map<Key, ResourceView>, builtin: Seq<Key>, frozen: Seq<Key>) -> Map<
    Key,
    ResourceView,
> {
    with_frozen(with_builtins(held, builtin), frozen)
}

/// The catalog after the modules of the interpreter have been registered
/// `n` times over.
pub open spec fn ingested_times(
    held: Map<Key, ResourceView>,
    builtin: Seq<Key>,
    frozen: Seq<Key>,
    n: nat,
) -> Map<Key, ResourceView>
    decreases n,
{
    if n == 0 {
        held
    } else {
        ingested(ingested_times(held, builtin, frozen, (n - 1) as nat), builtin, frozen)
    }
}

/// Registering the modules of one table a second time changes nothing.
pub proof fn lemma_registered_idempotent(
    held: Map<Key, ResourceView>,
    names: Seq<Key>,
    frozen: bool,
)
    ensures
        registered(registered(held, names, frozen), names, frozen) == registered(
            held,
            names,
            frozen,
        ),
{
    assert(registered(registered(held, names, frozen), names, frozen) =~= registered(
        held,
        names,
        frozen,
    ));
}

/// Registering the modules of the interpreter any number of times yields
/// the catalog that registering them once yields.
pub proof fn lemma_ingest_idempotent(
    held: Map<Key, ResourceView>,
    builtin: Seq<Key>,
    frozen: Seq<Key>,
    n: nat,
)
    requires
        n >= 1,
    ensures
        ingested_times(held, builtin, frozen, n) == ingested(held, builtin, frozen),
    decreases n,
{
    if n > 1 {
        lemma_ingest_idempotent(held, builtin, frozen, (n - 1) as nat);
        let once = ingested(held, builtin, frozen);
        assert(ingested(once, builtin, frozen) =~= once);
    } else {
        assert(ingested_times(held, builtin, frozen, 0) == held);
    }
}

/// Every resource of the catalog is held under its own name.
pub open spec fn keyed_by_name(held: Map<Key, ResourceView>) -> bool {
    forall|k: Key| held.contains_key(k) ==> (#[trigger] held[k]).name == k
}

/// Putting resources into a catalog keeps every resource under its own
/// name.
pub proof fn lemma_insert_all_keyed(held: Map<Key, ResourceView>, entries: Seq<ResourceView>)
    requires
        keyed_by_name(held),
    ensures
        keyed_by_name(insert_all(held, entries)),
    decreases entries.len(),
{
    if entries.len() > 0 {
        lemma_insert_all_keyed(held, entries.drop_last());
    }
}

/// Registering the modules of a table keeps every resource under its own
/// name.
pub proof fn lemma_registered_keyed(held: Map<Key, ResourceView>, names: Seq<Key>, frozen: bool)
    requires
        keyed_by_name(held),
    ensures
        keyed_by_name(registered(held, names, frozen)),
{
}

/// Whether an optional run lies between two marks.
pub open spec fn span_between(span: Option<Span>, low: int, high: int) -> bool {
    span matches Some(s) ==> low <= s.start && s.end <= high
}

/// Whether the name and the content of every file of a list lie between
/// two marks.
pub open spec fn files_between(files: Seq<(Span, Span)>, low: int, high: int) -> bool {
    forall|i: int|
        0 <= i < files.len() ==> low <= (#[trigger] files[i]).0.start && files[i].0.end <= high
            && low <= files[i].1.start && files[i].1.end <= high
}

/// Whether every run of a list lies between two marks.
pub open spec fn spans_between(spans: Seq<Span>, low: int, high: int) -> bool {
    forall|i: int| 0 <= i < spans.len() ==> low <= (#[trigger] spans[i]).start && spans[i].end <= high
}

/// Whether, in every blob section, the runs of an entry lie between the
/// marks that two tables give for that section. The name counts where the
/// entry is `named`.
pub open spec fn entry_between(entry: EntrySpans, named: bool, low: Seq<int>, high: Seq<int>) -> bool {
    &&& named ==> span_between(
        Some(entry.name),
        low[FIELD_MODULE_NAME as int],
        high[FIELD_MODULE_NAME as int],
    )
    &&& span_between(
        entry.source,
        low[FIELD_IN_MEMORY_SOURCE as int],
        high[FIELD_IN_MEMORY_SOURCE as int],
    )
    &&& span_between(
        entry.bytecode,
        low[FIELD_IN_MEMORY_BYTECODE as int],
        high[FIELD_IN_MEMORY_BYTECODE as int],
    )
    &&& span_between(
        entry.bytecode_opt1,
        low[FIELD_IN_MEMORY_BYTECODE_OPT1 as int],
        high[FIELD_IN_MEMORY_BYTECODE_OPT1 as int],
    )
    &&& span_between(
        entry.bytecode_opt2,
        low[FIELD_IN_MEMORY_BYTECODE_OPT2 as int],
        high[FIELD_IN_MEMORY_BYTECODE_OPT2 as int],
    )
    &&& span_between(
        entry.extension_module,
        low[FIELD_IN_MEMORY_EXTENSION_MODULE_SHARED_LIBRARY as int],
        high[FIELD_IN_MEMORY_EXTENSION_MODULE_SHARED_LIBRARY as int],
    )
    &&& (entry.resources matches Some(files) ==> files_between(
        files,
        low[FIELD_IN_MEMORY_RESOURCES_DATA as int],
        high[FIELD_IN_MEMORY_RESOURCES_DATA as int],
    ))
    &&& (entry.distribution matches Some(files) ==> files_between(
        files,
        low[FIELD_IN_MEMORY_PACKAGE_DISTRIBUTION as int],
        high[FIELD_IN_MEMORY_PACKAGE_DISTRIBUTION as int],
    ))
    &&& span_between(
        entry.shared_library,
        low[FIELD_IN_MEMORY_SHARED_LIBRARY as int],
        high[FIELD_IN_MEMORY_SHARED_LIBRARY as int],
    )
    &&& (entry.dependency_names matches Some(names) ==> spans_between(
        names,
        low[FIELD_SHARED_LIBRARY_DEPENDENCY_NAMES as int],
        high[FIELD_SHARED_LIBRARY_DEPENDENCY_NAMES as int],
    ))
}

/// Whether each mark of the first table is at or before the mark of the
/// second table for the same field.
pub open spec fn marks_le(low: Seq<int>, high: Seq<int>) -> bool {
    &&& low.len() == FIELD_LIMIT
    &&& high.len() == FIELD_LIMIT
    &&& forall|f: int| 0 <= f < FIELD_LIMIT ==> #[trigger] low[f] <= high[f]
}

/// The table that has the same mark for every field.
pub open spec fn level(mark: int) -> Seq<int> {
    Seq::new(FIELD_LIMIT as nat, |f: int| mark)
}

/// Whether, in every blob section, every run of the first entry ends at or
/// before the place where every run of the second begins: there is a mark
/// for each section that lies between them. The runs lie within an input
/// of `len` bytes.
pub open spec fn in_order(first: EntrySpans, second: EntrySpans, len: int) -> bool {
    exists|marks: Seq<int>|
        marks.len() == FIELD_LIMIT && entry_between(first, true, level(0), marks)
            && #[trigger] entry_between(second, true, marks, level(len))
}

/// Whether the walk has kept the blob sections in order so far. `low` is
/// the table of cursors at the time at which the entry that is being read
/// was started.
pub open spec fn state_ordered(st: WalkState, low: Seq<int>, len: int) -> bool {
    &&& marks_le(level(0), low)
    &&& marks_le(low, st.cursors)
    &&& forall|k: int|
        0 <= k < st.done.len() ==> entry_between(#[trigger] st.done[k], true, level(0), low)
    &&& entry_between(st.scratch, st.named, low, st.cursors)
    &&& forall|i: int, j: int|
        0 <= i < j < st.done.len() ==> in_order(#[trigger] st.done[i], #[trigger] st.done[j], len)
}

/// Runs that lie between two marks lie between marks that are further
/// apart.
proof fn lemma_between_wider(
    entry: EntrySpans,
    named: bool,
    low: Seq<int>,
    high: Seq<int>,
    lower: Seq<int>,
    higher: Seq<int>,
)
    requires
        entry_between(entry, named, low, high),
        marks_le(lower, low),
        marks_le(high, higher),
    ensures
        entry_between(entry, named, lower, higher),
{
}

/// The files that are read lie between the cursor at which reading them
/// starts and the cursor at which it ends.
proof fn lemma_files_between(
    data: Seq<u8>,
    pos: int,
    cursors: Cursors,
    field: int,
    remaining: nat,
    files: Seq<(Span, Span)>,
    low: int,
)
    requires
        cursors.len() == FIELD_LIMIT,
        0 <= field < FIELD_LIMIT,
        0 <= low <= cursors[field],
        files_between(files, low, cursors[field]),
    ensures
        parse_files(data, pos, cursors, field, remaining, files) matches Ok(read) ==> {
            &&& read.cursors.len() == FIELD_LIMIT
            &&& cursors[field] <= read.cursors[field]
            &&& files_between(read.items, low, read.cursors[field])
            &&& forall|f: int|
                0 <= f < FIELD_LIMIT && f != field ==> #[trigger] read.cursors[f] == cursors[f]
        },
    decreases remaining,
{
    if remaining > 0 {
        if let Some(name_length) = u16_at(data, pos) {
            if let Ok((name, after_name)) = claim_name(data, cursors, field, name_length) {
                if let Some(length) = u64_at(data, pos + 2) {
                    if let Ok((content, after_content)) = claim_data(
                        data.len(),
                        after_name,
                        field,
                        length,
                    ) {
                        let grown = files.push((name, content));
                        assert(name_length >= 0 && length >= 0);
                        assert(name.start == cursors[field] && name.end == after_name[field]);
                        assert(content.start == after_name[field] && content.end
                            == after_content[field]);
                        assert forall|i: int| 0 <= i < grown.len() implies low <= (
                        #[trigger] grown[i]).0.start && grown[i].0.end <= after_content[field]
                            && low <= grown[i].1.start && grown[i].1.end
                            <= after_content[field] by {
                            if i < files.len() {
                                assert(grown[i] == files[i]);
                            }
                        }
                        lemma_files_between(
                            data,
                            pos + 10,
                            after_content,
                            field,
                            (remaining - 1) as nat,
                            grown,
                            low,
                        );
                        if let Ok(read) = parse_files(
                            data,
                            pos + 10,
                            after_content,
                            field,
                            (remaining - 1) as nat,
                            grown,
                        ) {
                            assert forall|f: int|
                                0 <= f < FIELD_LIMIT && f != field implies #[trigger] read.cursors[f]
                                == cursors[f] by {
                                assert(after_content[f] == cursors[f]);
                            }
                        }
                    }
                }
            }
        }
    }
}

/// The names that are read lie between the cursor at which reading them
/// starts and the cursor at which it ends.
proof fn lemma_names_between(
    data: Seq<u8>,
    pos: int,
    cursors: Cursors,
    remaining: nat,
    names: Seq<Span>,
    low: int,
)
    requires
        cursors.len() == FIELD_LIMIT,
        0 <= low <= cursors[FIELD_SHARED_LIBRARY_DEPENDENCY_NAMES as int],
        spans_between(names, low, cursors[FIELD_SHARED_LIBRARY_DEPENDENCY_NAMES as int]),
    ensures
        parse_names(data, pos, cursors, remaining, names) matches Ok(read) ==> {
            let field = FIELD_SHARED_LIBRARY_DEPENDENCY_NAMES as int;
            &&& read.cursors.len() == FIELD_LIMIT
            &&& cursors[field] <= read.cursors[field]
            &&& spans_between(read.items, low, read.cursors[field])
            &&& forall|f: int|
                0 <= f < FIELD_LIMIT && f != field ==> #[trigger] read.cursors[f] == cursors[f]
        },
    decreases remaining,
{
    let field = FIELD_SHARED_LIBRARY_DEPENDENCY_NAMES as int;
    if remaining > 0 {
        if let Some(length) = u16_at(data, pos) {
            if let Ok((name, moved)) = claim_name(data, cursors, field, length) {
                let grown = names.push(name);
                assert(length >= 0);
                assert(name.start == cursors[field] && name.end == moved[field]);
                assert forall|i: int| 0 <= i < grown.len() implies low <= (
                #[trigger] grown[i]).start && grown[i].end <= moved[field] by {
                    if i < names.len() {
                        assert(grown[i] == names[i]);
                    }
                }
                lemma_names_between(data, pos + 2, moved, (remaining - 1) as nat, grown, low);
                if let Ok(read) = parse_names(data, pos + 2, moved, (remaining - 1) as nat, grown) {
                    assert forall|f: int|
                        0 <= f < FIELD_LIMIT && f != field implies #[trigger] read.cursors[f]
                        == cursors[f] by {
                        assert(moved[f] == cursors[f]);
                    }
                }
            }
        }
    }
}

/// Runs that lie within the input end at or before its end.
proof fn lemma_between_capped(
    entry: EntrySpans,
    named: bool,
    low: Seq<int>,
    high: Seq<int>,
    len: int,
)
    requires
        entry_between(entry, named, low, high),
        entry_within(entry, len),
    ensures
        entry_between(entry, named, low, level(len)),
{
    if let Some(files) = entry.resources {
        assert forall|i: int| 0 <= i < files.len() implies (#[trigger] files[i]).0.end <= len
            && files[i].1.end <= len by {
            assert(files[i].0.within(len));
        }
    }
    if let Some(files) = entry.distribution {
        assert forall|i: int| 0 <= i < files.len() implies (#[trigger] files[i]).0.end <= len
            && files[i].1.end <= len by {
            assert(files[i].0.within(len));
        }
    }
    if let Some(names) = entry.dependency_names {
        assert forall|i: int| 0 <= i < names.len() implies (#[trigger] names[i]).end <= len by {
            assert(names[i].within(len));
        }
    }
}

/// The table of cursors at the time at which the entry that is being read
/// behind the next field was started.
pub open spec fn next_low(data: Seq<u8>, st: WalkState, low: Seq<int>) -> Seq<int> {
    match u8_at(data, st.pos) {
        Some(field) => if field == FIELD_START_OF_ENTRY || field == FIELD_END_OF_ENTRY {
            st.cursors
        } else {
            low
        },
        None => low,
    }
}

/// A step of the walk keeps the blob sections in order.
proof fn lemma_step_ordered(data: Seq<u8>, st: WalkState, low: Seq<int>)
    requires
        state_ordered(st, low, data.len() as int),
        state_within(st, data.len() as int),
    ensures
        step(data, st) matches Ok(Some(next)) ==> state_ordered(
            next,
            next_low(data, st, low),
            data.len() as int,
        ),
{
    let len = data.len() as int;
    if let Ok(Some(next)) = step(data, st) {
        let field = u8_at(data, st.pos).unwrap();
        let pos = st.pos + 1;
        if field == FIELD_START_OF_ENTRY {
            assert forall|k: int| 0 <= k < next.done.len() implies entry_between(
                #[trigger] next.done[k],
                true,
                level(0),
                st.cursors,
            ) by {
                lemma_between_wider(st.done[k], true, level(0), low, level(0), st.cursors);
            }
        } else if field == FIELD_END_OF_ENTRY {
            lemma_between_wider(st.scratch, true, low, st.cursors, level(0), st.cursors);
            lemma_between_capped(st.scratch, true, low, st.cursors, len);
            assert forall|k: int| 0 <= k < next.done.len() implies entry_between(
                #[trigger] next.done[k],
                true,
                level(0),
                st.cursors,
            ) by {
                if k < st.done.len() {
                    assert(next.done[k] == st.done[k]);
                    lemma_between_wider(st.done[k], true, level(0), low, level(0), st.cursors);
                }
            }
            assert forall|i: int, j: int| 0 <= i < j < next.done.len() implies in_order(
                #[trigger] next.done[i],
                #[trigger] next.done[j],
                len,
            ) by {
                assert(next.done[i] == st.done[i]);
                if j < st.done.len() {
                    assert(next.done[j] == st.done[j]);
                } else {
                    assert(entry_between(st.done[i], true, level(0), low));
                    assert(entry_between(next.done[j], true, low, level(len)));
                }
            }
        } else if field == FIELD_MODULE_NAME {
            let length = u16_at(data, pos).unwrap();
            assert(length >= 0);
        } else if crate::format::is_short_data_field(field) {
            let length = u32_at(data, pos).unwrap();
            assert(length >= 0);
        } else if field == FIELD_IN_MEMORY_SHARED_LIBRARY {
            let length = u64_at(data, pos).unwrap();
            assert(length >= 0);
        } else if field == FIELD_IN_MEMORY_RESOURCES_DATA || field
            == FIELD_IN_MEMORY_PACKAGE_DISTRIBUTION {
            let count = u32_at(data, pos).unwrap();
            assert(level(0)[field] <= low[field] <= st.cursors[field]);
            lemma_files_between(
                data,
                pos + 4,
                st.cursors,
                field,
                count as nat,
                Seq::empty(),
                low[field],
            );
        } else if field == FIELD_SHARED_LIBRARY_DEPENDENCY_NAMES {
            let count = u16_at(data, pos).unwrap();
            assert(level(0)[field] <= low[field] <= st.cursors[field]);
            lemma_names_between(
                data,
                pos + 2,
                st.cursors,
                count as nat,
                Seq::empty(),
                low[field],
            );
        }
    }
}

/// The walk keeps the blob sections in order.
proof fn lemma_walk_ordered(data: Seq<u8>, st: WalkState, low: Seq<int>)
    requires
        state_ordered(st, low, data.len() as int),
        state_within(st, data.len() as int),
    ensures
        walk(data, st) matches Ok(end) ==> forall|i: int, j: int|
            0 <= i < j < end.done.len() ==> in_order(
                #[trigger] end.done[i],
                #[trigger] end.done[j],
                data.len() as int,
            ),
    decreases data.len() - st.pos,
{
    lemma_step_ordered(data, st, low);
    lemma_step_within(data, st);
    lemma_step_moves(data, st);
    if let Ok(Some(next)) = step(data, st) {
        lemma_walk_ordered(data, next, next_low(data, st, low));
    }
}

/// The blob sections are read in order: of two entries that are read out of
/// a packed index, every run of the earlier one ends, in every blob
/// section, at or before the place where every run of the later one
/// begins. No two entries share a byte of a section.
pub proof fn lemma_decoded_in_order(data: Seq<u8>)
    ensures
        decode(data) matches Ok(entries) ==> forall|i: int, j: int|
            0 <= i < j < entries.len() ==> in_order(
                #[trigger] entries[i],
                #[trigger] entries[j],
                data.len() as int,
            ),
{
    if let Ok(header) = parse_header(data) {
        lemma_blob_index_offsets(
            data,
            crate::format::HEADER_LENGTH as int,
            header.blob_section_count as nat,
            0,
            no_offsets(),
        );
        if let Ok((pos, offsets)) = parse_blob_sections(data, header) {
            let first = WalkState::initial(pos, initial_cursors(header, offsets));
            assert(cursors_valid(first.cursors));
            lemma_walk_ordered(data, first, first.cursors);
        }
    }
}

} // verus!
