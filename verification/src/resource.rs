//! One resource of the catalog: a Python module or package and what is held
//! of it in memory.

use crate::assoc::Key;
use crate::name_map::{same_bytes, same_name, NameMap};
use std::sync::Arc;
use vstd::prelude::*;
use vstd::std_specs::cmp::PartialEqSpecImpl;
use vstd::string::*;

verus! {

/// Files of a package: the name of each file and its content.
pub type FileMap<'a> = NameMap<'a, &'a [u8]>;

/// What a resource holds, as plain values: every name and every run of data
/// as its bytes.
pub struct ResourceView {
    pub name: Seq<u8>,
    pub is_package: bool,
    pub is_namespace_package: bool,
    pub is_builtin: bool,
    pub is_frozen: bool,
    pub in_memory_source: Option<Seq<u8>>,
    pub in_memory_bytecode: Option<Seq<u8>>,
    pub in_memory_bytecode_opt1: Option<Seq<u8>>,
    pub in_memory_bytecode_opt2: Option<Seq<u8>>,
    pub in_memory_shared_library_extension_module: Option<Seq<u8>>,
    pub in_memory_resources: Option<Map<Key, Seq<u8>>>,
    pub in_memory_package_distribution: Option<Map<Key, Seq<u8>>>,
    pub in_memory_shared_library: Option<Seq<u8>>,
    pub shared_library_dependency_names: Option<Seq<Seq<u8>>>,
}

impl ResourceView {
    /// The resource that has the given name and nothing else: no flag is set
    /// and nothing is held in memory.
    pub open spec fn named(name: Seq<u8>) -> ResourceView {
        ResourceView {
            name,
            is_package: false,
            is_namespace_package: false,
            is_builtin: false,
            is_frozen: false,
            in_memory_source: None,
            in_memory_bytecode: None,
            in_memory_bytecode_opt1: None,
            in_memory_bytecode_opt2: None,
            in_memory_shared_library_extension_module: None,
            in_memory_resources: None,
            in_memory_package_distribution: None,
            in_memory_shared_library: None,
            shared_library_dependency_names: None,
        }
    }

    /// Whether this resource is imported by the embedded importer: it holds
    /// bytecode of some optimization level or an extension module.
    pub open spec fn uses_pyembed_importer(self) -> bool {
        self.in_memory_bytecode is Some || self.in_memory_bytecode_opt1 is Some
            || self.in_memory_bytecode_opt2 is Some
            || self.in_memory_shared_library_extension_module is Some
    }
}

/// The bytes of an optional run of data.
pub open spec fn opt_bytes(o: Option<&[u8]>) -> Option<Seq<u8>> {
    match o {
        Some(s) => Some(s@),
        None => None,
    }
}

/// The files of a file map, each content as its bytes.
pub open spec fn file_bytes(m: Map<Key, &[u8]>) -> Map<Key, Seq<u8>> {
    m.map_values(|s: &[u8]| s@)
}

/// The bytes of each name of a list.
pub open spec fn name_bytes(names: Seq<&str>) -> Seq<Seq<u8>> {
    names.map_values(|s: &str| s.spec_bytes())
}

/// A Python module or package and its metadata.
///
/// The names and the data are borrowed from the buffer that the catalog was
/// loaded from, or from the tables of the interpreter.
#[derive(Debug)]
pub struct EmbeddedResource<'a> {
    /// The resource name.
    pub name: &'a str,
    /// Whether the resource is a Python package.
    pub is_package: bool,
    /// Whether the resource is a Python namespace package.
    pub is_namespace_package: bool,
    /// Whether the resource is a builtin extension module in the Python interpreter.
    pub is_builtin: bool,
    /// Whether the resource is frozen into the Python interpreter.
    pub is_frozen: bool,
    /// In-memory source code for Python module.
    pub in_memory_source: Option<&'a [u8]>,
    /// In-memory bytecode for Python module.
    pub in_memory_bytecode: Option<&'a [u8]>,
    /// In-memory bytecode optimization level 1 for Python module.
    pub in_memory_bytecode_opt1: Option<&'a [u8]>,
    /// In-memory bytecode optimization level 2 for Python module.
    pub in_memory_bytecode_opt2: Option<&'a [u8]>,
    /// In-memory content of shared library providing Python module.
    pub in_memory_shared_library_extension_module: Option<&'a [u8]>,
    /// Resource "files" in this Python package.
    pub in_memory_resources: Option<Arc<Box<FileMap<'a>>>>,
    /// Python package distribution files.
    pub in_memory_package_distribution: Option<FileMap<'a>>,
    /// In-memory content of shared library to be loaded from memory.
    pub in_memory_shared_library: Option<&'a [u8]>,
    /// Names of shared libraries this entry depends on.
    pub shared_library_dependency_names: Option<Vec<&'a str>>,
}

impl<'a> View for EmbeddedResource<'a> {
    type V = ResourceView;

    open spec fn view(&self) -> ResourceView {
        ResourceView {
            name: self.name.spec_bytes(),
            is_package: self.is_package,
            is_namespace_package: self.is_namespace_package,
            is_builtin: self.is_builtin,
            is_frozen: self.is_frozen,
            in_memory_source: opt_bytes(self.in_memory_source),
            in_memory_bytecode: opt_bytes(self.in_memory_bytecode),
            in_memory_bytecode_opt1: opt_bytes(self.in_memory_bytecode_opt1),
            in_memory_bytecode_opt2: opt_bytes(self.in_memory_bytecode_opt2),
            in_memory_shared_library_extension_module: opt_bytes(
                self.in_memory_shared_library_extension_module,
            ),
            in_memory_resources: match self.in_memory_resources {
                Some(files) => Some(file_bytes(files@)),
                None => None,
            },
            in_memory_package_distribution: match self.in_memory_package_distribution {
                Some(files) => Some(file_bytes(files@)),
                None => None,
            },
            in_memory_shared_library: opt_bytes(self.in_memory_shared_library),
            shared_library_dependency_names: match self.shared_library_dependency_names {
                Some(names) => Some(name_bytes(names@)),
                None => None,
            },
        }
    }
}

/// What each resource of a list holds.
pub open spec fn views(entries: Seq<EmbeddedResource>) -> Seq<ResourceView> {
    entries.map_values(|e: EmbeddedResource| e@)
}

/// The empty name has no bytes.
proof fn lemma_empty_name()
    ensures
        "".spec_bytes() == Seq::<u8>::empty(),
{
    reveal_strlit("");
    assert(""@.len() == 0);
    reveal_with_fuel(vstd::utf8::encode_utf8, 1);
}

impl<'a> Default for EmbeddedResource<'a> {
    /// The resource with the empty name, no flag set and nothing in memory.
    fn default() -> (r: Self)
        ensures
            r@ == ResourceView::named(Seq::empty()),
    {
        proof {
            lemma_empty_name();
        }
        EmbeddedResource {
            name: "",
            is_package: false,
            is_namespace_package: false,
            is_builtin: false,
            is_frozen: false,
            in_memory_source: None,
            in_memory_bytecode: None,
            in_memory_bytecode_opt1: None,
            in_memory_bytecode_opt2: None,
            in_memory_shared_library_extension_module: None,
            in_memory_resources: None,
            in_memory_package_distribution: None,
            in_memory_shared_library: None,
            shared_library_dependency_names: None,
        }
    }
}

impl<'a> EmbeddedResource<'a> {
    /// Whether the module is imported by the embedded importer.
    ///
    /// This excludes builtin and frozen modules, which are merely registered.
    pub fn uses_pyembed_importer(&self) -> (r: bool)
        ensures
            r == self@.uses_pyembed_importer(),
    {
        self.in_memory_bytecode.is_some() || self.in_memory_bytecode_opt1.is_some()
            || self.in_memory_bytecode_opt2.is_some()
            || self.in_memory_shared_library_extension_module.is_some()
    }
}

/// Whether two optional runs of data are both absent, or both present with
/// the same bytes.
pub fn same_data(a: &Option<&[u8]>, b: &Option<&[u8]>) -> (r: bool)
    ensures
        r == (opt_bytes(*a) == opt_bytes(*b)),
{
    match (a, b) {
        (Some(x), Some(y)) => same_bytes(x, y),
        (None, None) => true,
        _ => false,
    }
}

/// Whether two maps of files hold the same names, each with the same
/// content.
pub fn same_files(a: &FileMap, b: &FileMap) -> (r: bool)
    ensures
        r == (file_bytes(a@) == file_bytes(b@)),
{
    let n = a.len();
    if n != b.len() {
        assert(file_bytes(a@).dom() =~= a@.dom());
        assert(file_bytes(b@).dom() =~= b@.dom());
        return false;
    }
    let mut i: usize = 0;
    while i < n
        invariant
            i <= n,
            n == a.pairs().len(),
            n == a@.len(),
            n == b@.len(),
            a@.dom().finite(),
            b@.dom().finite(),
            crate::assoc::distinct_keys(a.pairs()),
            forall|j: int|
                0 <= j < i ==> b@.contains_key(#[trigger] a.pairs()[j].0) && a.pairs()[j].1@
                    == b@[a.pairs()[j].0]@,
        decreases n - i,
    {
        let name = a.name_at(i);
        proof {
            crate::assoc::lemma_assoc_index(a.pairs(), i as int);
        }
        match b.get(name) {
            Some(content) => {
                if !same_bytes(a.value_at(i), content) {
                    assert(file_bytes(a@)[name.spec_bytes()] != file_bytes(b@)[name.spec_bytes()]);
                    return false;
                }
            },
            None => {
                assert(file_bytes(a@).contains_key(name.spec_bytes()));
                assert(!file_bytes(b@).contains_key(name.spec_bytes()));
                return false;
            },
        }
        i = i + 1;
    }
    proof {
        crate::assoc::lemma_assoc_dom(a.pairs());
        assert forall|k: Key| a@.contains_key(k) implies b@.contains_key(k) && a@[k]@ == b@[k]@ by {
            let j = choose|j: int| 0 <= j < a.pairs().len() && #[trigger] a.pairs()[j].0 == k;
            crate::assoc::lemma_assoc_index(a.pairs(), j);
        }
        assert(a@.dom().subset_of(b@.dom()));
        vstd::set_lib::lemma_subset_equality(a@.dom(), b@.dom());
        assert(file_bytes(a@) =~= file_bytes(b@));
    }
    true
}

/// Whether two lists hold the same names in the same order.
pub fn same_names(a: &Vec<&str>, b: &Vec<&str>) -> (r: bool)
    ensures
        r == (name_bytes(a@) == name_bytes(b@)),
{
    if a.len() != b.len() {
        assert(name_bytes(a@).len() != name_bytes(b@).len());
        return false;
    }
    let mut i: usize = 0;
    while i < a.len()
        invariant
            i <= a@.len(),
            a@.len() == b@.len(),
            forall|j: int| 0 <= j < i ==> (#[trigger] a@[j]).spec_bytes() == b@[j].spec_bytes(),
        decreases a@.len() - i,
    {
        if !same_name(a[i], b[i]) {
            assert(name_bytes(a@)[i as int] != name_bytes(b@)[i as int]);
            return false;
        }
        i = i + 1;
    }
    assert(name_bytes(a@) =~= name_bytes(b@));
    true
}

impl<'a> PartialEq for EmbeddedResource<'a> {
    /// Whether the two resources hold the same: the same name, the same
    /// flags, and the same data of each kind.
    fn eq(&self, other: &Self) -> (r: bool) {
        let files = match (&self.in_memory_resources, &other.in_memory_resources) {
            (Some(x), Some(y)) => same_files(x, y),
            (None, None) => true,
            _ => false,
        };
        let distribution = match (
            &self.in_memory_package_distribution,
            &other.in_memory_package_distribution,
        ) {
            (Some(x), Some(y)) => same_files(x, y),
            (None, None) => true,
            _ => false,
        };
        let names = match (
            &self.shared_library_dependency_names,
            &other.shared_library_dependency_names,
        ) {
            (Some(x), Some(y)) => same_names(x, y),
            (None, None) => true,
            _ => false,
        };
        same_name(self.name, other.name) && self.is_package == other.is_package
            && self.is_namespace_package == other.is_namespace_package && self.is_builtin
            == other.is_builtin && self.is_frozen == other.is_frozen && same_data(
            &self.in_memory_source,
            &other.in_memory_source,
        ) && same_data(&self.in_memory_bytecode, &other.in_memory_bytecode) && same_data(
            &self.in_memory_bytecode_opt1,
            &other.in_memory_bytecode_opt1,
        ) && same_data(&self.in_memory_bytecode_opt2, &other.in_memory_bytecode_opt2)
            && same_data(
            &self.in_memory_shared_library_extension_module,
            &other.in_memory_shared_library_extension_module,
        ) && files && distribution && same_data(
            &self.in_memory_shared_library,
            &other.in_memory_shared_library,
        ) && names
    }
}

impl<'a> PartialEqSpecImpl for EmbeddedResource<'a> {
    open spec fn obeys_eq_spec() -> bool {
        true
    }

    /// Two resources are equal where they hold the same.
    open spec fn eq_spec(&self, other: &Self) -> bool {
        self@ == other@
    }
}

} // verus!
