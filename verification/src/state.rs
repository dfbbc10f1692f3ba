//! The catalog of resources that are available for import, and how it is
//! loaded.

use crate::assoc::Key;
use crate::decoder::{decode_v1, read_magic};
use crate::error::ResourceError;
use crate::format::{decode, has_magic_v1, resolve_all};
use crate::name_map::NameMap;
use crate::reader::utf8_str;
use crate::resource::{name_bytes, views, EmbeddedResource, ResourceView};
use vstd::prelude::*;
use vstd::string::*;
use vstd::utf8::valid_utf8;

verus! {

/// What each resource of a map holds.
pub open spec fn catalog(resources: Map<Key, EmbeddedResource>) -> Map<Key, ResourceView> {
    resources.map_values(|e: EmbeddedResource| e@)
}

/// The catalog after each resource of `entries` has been put into it under
/// its name, one after the other. A resource replaces the one that was held
/// under its name.
pub open spec fn insert_all(held: Map<Key, ResourceView>, entries: Seq<ResourceView>) -> Map<
    Key,
    ResourceView,
>
    decreases entries.len(),
{
    if entries.len() == 0 {
        held
    } else {
        insert_all(held, entries.drop_last()).insert(entries.last().name, entries.last())
    }
}

/// The resource with the flag of the builtin modules set, or with that of
/// the frozen modules.
pub open spec fn flagged(resource: ResourceView, frozen: bool) -> ResourceView {
    if frozen {
        ResourceView { is_frozen: true, ..resource }
    } else {
        ResourceView { is_builtin: true, ..resource }
    }
}

/// The catalog after the modules of one table of the interpreter have been
/// registered. A resource that is held under one of the names has the
/// table's flag set and is otherwise unchanged. A name that was not held
/// has a resource with that name and that flag, and nothing else.
pub open spec fn registered(held: Map<Key, ResourceView>, names: Seq<Key>, frozen: bool) -> Map<
    Key,
    ResourceView,
> {
    Map::new(
        |k: Key| held.contains_key(k) || names.contains(k),
        |k: Key|
            if names.contains(k) {
                flagged(
                    if held.contains_key(k) {
                        held[k]
                    } else {
                        ResourceView::named(k)
                    },
                    frozen,
                )
            } else {
                held[k]
            },
    )
}

/// The catalog after the builtin modules of the given names have been
/// registered.
pub open spec fn with_builtins(held: Map<Key, ResourceView>, names: Seq<Key>) -> Map<
    Key,
    ResourceView,
> {
    registered(held, names, false)
}

/// The catalog after the frozen modules of the given names have been
/// registered.
pub open spec fn with_frozen(held: Map<Key, ResourceView>, names: Seq<Key>) -> Map<
    Key,
    ResourceView,
> {
    registered(held, names, true)
}

/// The bytes of each name of a table.
pub open spec fn table_names(names: Seq<&[u8]>) -> Seq<Key> {
    names.map_values(|n: &[u8]| n@)
}

/// Whether every name is well-formed UTF-8.
pub open spec fn all_utf8(names: Seq<Key>) -> bool {
    forall|i: int| 0 <= i < names.len() ==> valid_utf8(#[trigger] names[i])
}

/// What a load yields: the catalog after the resources of the packed index
/// have been put into it and the builtin and then the frozen modules have
/// been registered, or the reason of the first step that failed.
pub open spec fn loaded(
    held: Map<Key, ResourceView>,
    data: Seq<u8>,
    builtin: Seq<Key>,
    frozen: Seq<Key>,
) -> Result<Map<Key, ResourceView>, ResourceError> {
    match decode(data) {
        Err(e) => Err(e),
        Ok(entries) => if !all_utf8(builtin) {
            Err(ResourceError::InvalidBuiltinName)
        } else if !all_utf8(frozen) {
            Err(ResourceError::InvalidFrozenName)
        } else {
            Ok(
                with_frozen(
                    with_builtins(insert_all(held, resolve_all(entries, data)), builtin),
                    frozen,
                ),
            )
        },
    }
}

/// Putting a resource into a map puts what it holds into the catalog.
proof fn lemma_catalog_insert(resources: Map<Key, EmbeddedResource>, k: Key, e: EmbeddedResource)
    ensures
        catalog(resources.insert(k, e)) == catalog(resources).insert(k, e@),
{
    assert(catalog(resources.insert(k, e)) =~= catalog(resources).insert(k, e@));
}

/// Taking a name out of a map takes it out of the catalog.
proof fn lemma_catalog_remove(resources: Map<Key, EmbeddedResource>, k: Key)
    ensures
        catalog(resources.remove(k)) == catalog(resources).remove(k),
{
    assert(catalog(resources.remove(k)) =~= catalog(resources).remove(k));
}

/// Registering one more name registers it in the catalog in which the
/// names before it have been registered.
proof fn lemma_registered_step(
    held: Map<Key, ResourceView>,
    names: Seq<Key>,
    i: int,
    frozen: bool,
)
    requires
        0 <= i < names.len(),
    ensures
        ({
            let before = registered(held, names.take(i), frozen);
            let k = names[i];
            registered(held, names.take(i + 1), frozen) == before.insert(
                k,
                flagged(
                    if before.contains_key(k) {
                        before[k]
                    } else {
                        ResourceView::named(k)
                    },
                    frozen,
                ),
            )
        }),
{
    let before = registered(held, names.take(i), frozen);
    let k = names[i];
    let after = registered(held, names.take(i + 1), frozen);
    let stepped = before.insert(
        k,
        flagged(
            if before.contains_key(k) {
                before[k]
            } else {
                ResourceView::named(k)
            },
            frozen,
        ),
    );
    let shorter = names.take(i);
    let longer = names.take(i + 1);
    assert(longer == shorter.push(k));
    assert forall|x: Key| longer.contains(x) <==> (shorter.contains(x) || x == k) by {
        if shorter.contains(x) {
            let j = choose|j: int| 0 <= j < shorter.len() && shorter[j] == x;
            assert(longer[j] == x);
        }
        if x == k {
            assert(longer[i] == x);
        }
        if longer.contains(x) {
            let j = choose|j: int| 0 <= j < longer.len() && longer[j] == x;
            if j < i {
                assert(shorter[j] == x);
            }
        }
    }
    assert(after =~= stepped);
}

/// The resources that are available for import.
#[derive(Debug)]
pub struct PythonImporterState<'a> {
    /// Names of Python packages: a set, held as a map to nothing.
    pub packages: NameMap<'static, ()>,
    /// The resources, each under its name.
    pub resources: NameMap<'a, EmbeddedResource<'a>>,
}

impl<'a> View for PythonImporterState<'a> {
    type V = Map<Key, ResourceView>;

    /// The catalog: what the resource of each name holds.
    open spec fn view(&self) -> Map<Key, ResourceView> {
        catalog(self.resources@)
    }
}

impl<'a> Default for PythonImporterState<'a> {
    /// The state that holds no package and no resource.
    fn default() -> (r: Self)
        ensures
            r@ == Map::<Key, ResourceView>::empty(),
            r.packages@ == Map::<Key, ()>::empty(),
    {
        let r = PythonImporterState { packages: NameMap::new(), resources: NameMap::new() };
        assert(r@ =~= Map::<Key, ResourceView>::empty());
        r
    }
}

/// The names of a table as strings, if every one of them is UTF-8.
pub fn table_strs<'a>(names: &[&'a [u8]]) -> (r: Option<Vec<&'a str>>)
    ensures
        match r {
            Some(strs) => all_utf8(table_names(names@)) && name_bytes(strs@) == table_names(
                names@,
            ),
            None => !all_utf8(table_names(names@)),
        },
{
    let mut strs: Vec<&'a str> = Vec::new();
    let mut i: usize = 0;
    assert(name_bytes(strs@) =~= table_names(names@).take(0));
    while i < names.len()
        invariant
            i <= names@.len(),
            all_utf8(table_names(names@).take(i as int)),
            name_bytes(strs@) == table_names(names@).take(i as int),
        decreases names@.len() - i,
    {
        match utf8_str(names[i]) {
            Some(name) => {
                proof {
                    let grown = name_bytes(strs@.push(name));
                    let wanted = table_names(names@).take(i + 1);
                    assert forall|j: int| 0 <= j < grown.len() implies grown[j] == wanted[j] by {
                        if j < i {
                            assert(name_bytes(strs@)[j] == table_names(names@).take(i as int)[j]);
                        }
                    }
                    assert(grown =~= wanted);
                    assert forall|j: int| 0 <= j < wanted.len() implies valid_utf8(
                        #[trigger] wanted[j],
                    ) by {
                        if j < i {
                            assert(wanted[j] == table_names(names@).take(i as int)[j]);
                        }
                    }
                }
                strs.push(name);
            },
            None => {
                assert(!valid_utf8(table_names(names@)[i as int]));
                return None;
            },
        }
        i = i + 1;
    }
    assert(table_names(names@).take(i as int) == table_names(names@));
    Some(strs)
}

impl<'a> PythonImporterState<'a> {
    /// Registers the modules of one table of the interpreter: those of the
    /// frozen modules, or those of the builtin ones.
    fn register(&mut self, names: &Vec<&'a str>, frozen: bool)
        ensures
            final(self)@ == registered(old(self)@, name_bytes(names@), frozen),
            final(self).packages == old(self).packages,
    {
        let mut i: usize = 0;
        assert(self@ =~= registered(old(self)@, name_bytes(names@).take(0), frozen));
        while i < names.len()
            invariant
                i <= names@.len(),
                self@ == registered(old(self)@, name_bytes(names@).take(i as int), frozen),
                self.packages == old(self).packages,
            decreases names@.len() - i,
        {
            let name = names[i];
            let ghost before = self.resources@;
            proof {
                lemma_registered_step(old(self)@, name_bytes(names@), i as int, frozen);
                lemma_catalog_remove(before, name.spec_bytes());
            }
            let mut entry = match self.resources.remove(name) {
                Some(held) => held,
                None => {
                    let mut fresh = EmbeddedResource::default();
                    fresh.name = name;
                    fresh
                },
            };
            if frozen {
                entry.is_frozen = true;
            } else {
                entry.is_builtin = true;
            }
            proof {
                lemma_catalog_insert(self.resources@, name.spec_bytes(), entry);
                assert(catalog(before.remove(name.spec_bytes())).insert(name.spec_bytes(), entry@)
                    =~= catalog(before).insert(name.spec_bytes(), entry@));
            }
            self.resources.insert(name, entry);
            i = i + 1;
        }
        assert(name_bytes(names@).take(i as int) == name_bytes(names@));
    }

    /// Load `builtin` modules from the Python interpreter. `names` are the
    /// names of the interpreter's table of builtin modules.
    ///
    /// A resource that the catalog holds under one of the names is marked
    /// as builtin; another name gets a resource that is only that.
    pub fn load_interpreter_builtin_modules(&mut self, names: &[&'a [u8]]) -> (r: Result<
        (),
        &'static str,
    >)
        ensures
            match r {
                Ok(_) => all_utf8(table_names(names@)) && final(self)@ == with_builtins(
                    old(self)@,
                    table_names(names@),
                ) && final(self).packages == old(self).packages,
                Err(message) => !all_utf8(table_names(names@)) && message@
                    == ResourceError::InvalidBuiltinName.message_text() && *final(self) == *old(
                    self,
                ),
            },
    {
        match table_strs(names) {
            Some(strs) => {
                self.register(&strs, false);
                Ok(())
            },
            None => Err(ResourceError::InvalidBuiltinName.message()),
        }
    }

    /// Load `frozen` modules from the Python interpreter. `names` are the
    /// names of the interpreter's table of frozen modules.
    ///
    /// A resource that the catalog holds under one of the names is marked
    /// as frozen; another name gets a resource that is only that.
    pub fn load_interpreter_frozen_modules(&mut self, names: &[&'a [u8]]) -> (r: Result<
        (),
        &'static str,
    >)
        ensures
            match r {
                Ok(_) => all_utf8(table_names(names@)) && final(self)@ == with_frozen(
                    old(self)@,
                    table_names(names@),
                ) && final(self).packages == old(self).packages,
                Err(message) => !all_utf8(table_names(names@)) && message@
                    == ResourceError::InvalidFrozenName.message_text() && *final(self) == *old(
                    self,
                ),
            },
    {
        match table_strs(names) {
            Some(strs) => {
                self.register(&strs, true);
                Ok(())
            },
            None => Err(ResourceError::InvalidFrozenName.message()),
        }
    }

    /// Puts each resource of the list into the catalog under its name, one
    /// after the other.
    fn insert_resources(&mut self, entries: Vec<EmbeddedResource<'a>>)
        ensures
            final(self)@ == insert_all(old(self)@, views(entries@)),
            final(self).packages == old(self).packages,
    {
        let ghost all = entries@;
        assert(views(all).take(0) =~= Seq::<ResourceView>::empty());
        for entry in it: entries
            invariant
                it.seq() == all,
                self@ == insert_all(old(self)@, views(all).take(it.index() as int)),
                self.packages == old(self).packages,
        {
            proof {
                let i = it.index() as int;
                assert(views(all).take(i + 1).drop_last() == views(all).take(i));
                assert(views(all).take(i + 1).last() == entry@);
                lemma_catalog_insert(self.resources@, entry.name.spec_bytes(), entry);
            }
            let name = entry.name;
            self.resources.insert(name, entry);
        }
        assert(views(all).take(all.len() as int) == views(all));
    }

    /// Load resources by parsing a blob of version 1, whose magic header
    /// has been tested.
    fn load_resources_v1(&mut self, data: &'a [u8]) -> (r: Result<(), &'static str>)
        requires
            has_magic_v1(data@),
        ensures
            match decode(data@) {
                Ok(entries) => r is Ok && final(self)@ == insert_all(
                    old(self)@,
                    resolve_all(entries, data@),
                ) && final(self).packages == old(self).packages,
                Err(e) => r matches Err(message) && message@ == e.message_text() && *final(self)
                    == *old(self),
            },
    {
        match decode_v1(data) {
            Ok(entries) => {
                self.insert_resources(entries);
                Ok(())
            },
            Err(e) => Err(e.message()),
        }
    }

    /// Load resources by parsing a blob.
    ///
    /// Each resource of the blob is put into the catalog under its name, in
    /// the order of the blob. Its name and its data are parts of `data`.
    /// Where this fails, the catalog is as it was.
    pub fn load_resources(&mut self, data: &'a [u8]) -> (r: Result<(), &'static str>)
        ensures
            match decode(data@) {
                Ok(entries) => r is Ok && final(self)@ == insert_all(
                    old(self)@,
                    resolve_all(entries, data@),
                ) && final(self).packages == old(self).packages,
                Err(e) => r matches Err(message) && message@ == e.message_text() && *final(self)
                    == *old(self),
            },
    {
        match read_magic(data) {
            Ok(_) => self.load_resources_v1(data),
            Err(e) => Err(e.message()),
        }
    }

    /// Load state by parsing a blob and from the tables of the interpreter.
    ///
    /// The resources of the blob come first. The builtin and the frozen
    /// modules are registered after them, so that they mark the resources
    /// of the blob and do not replace them. Where this fails, the catalog is
    /// to be discarded.
    pub fn load(
        &mut self,
        resources_data: &'a [u8],
        builtin_names: &[&'a [u8]],
        frozen_names: &[&'a [u8]],
    ) -> (r: Result<(), &'static str>)
        ensures
            match loaded(
                old(self)@,
                resources_data@,
                table_names(builtin_names@),
                table_names(frozen_names@),
            ) {
                Ok(held) => r is Ok && final(self)@ == held && final(self).packages == old(
                    self,
                ).packages,
                Err(e) => r matches Err(message) && message@ == e.message_text(),
            },
    {
        self.load_resources(resources_data)?;
        self.load_interpreter_builtin_modules(builtin_names)?;
        self.load_interpreter_frozen_modules(frozen_names)?;
        Ok(())
    }
}

} // verus!
