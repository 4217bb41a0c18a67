//! The library's own model of the documentation metadata: an index of items
//! keyed by id, each with a name, a visibility, a kind (a module with child
//! ids, or anything else), and best-effort descriptive text. The surrounding
//! program converts whatever external format it reads into this model.

use vstd::prelude::*;

use crate::errors::Error;

verus! {

/// An item's visibility in the source project.
#[derive(Clone, Copy)]
pub enum Visibility {
    Public,
    Inherited,
    NotPublic,
}

impl Visibility {
    /// Whether this is the public visibility.
    pub fn is_public(&self) -> (r: bool)
        ensures
            r == (*self is Public),
    {
        match self {
            Visibility::Public => true,
            Visibility::Inherited => false,
            Visibility::NotPublic => false,
        }
    }
}

/// What an item is: a module holding child item ids, or anything else.
/// Non-module items never become diagram elements.
pub enum ItemKind {
    Module { children: Vec<String> },
    Other,
}

/// The mathematical value of an [`ItemKind`].
pub ghost enum ItemKindV {
    Module { children: Seq<Seq<char>> },
    Other,
}

impl View for ItemKind {
    type V = ItemKindV;

    open spec fn view(&self) -> ItemKindV {
        match self {
            ItemKind::Module { children } => (ItemKindV::Module {
                children: children@.map_values(|c: String| c@),
            }),
            ItemKind::Other => ItemKindV::Other,
        }
    }
}

impl ItemKind {
    /// Whether this kind is a module.
    pub fn is_module(&self) -> (r: bool)
        ensures
            r == (self@ is Module),
    {
        match self {
            ItemKind::Module { .. } => true,
            ItemKind::Other => false,
        }
    }
}

/// One item of the documentation index.
pub struct ItemData {
    pub name: Option<String>,
    pub visibility: Visibility,
    pub kind: ItemKind,
    pub docs: Option<String>,
    pub source_path: Option<String>,
}

/// The mathematical value of an [`ItemData`].
pub ghost struct ItemV {
    pub name: Option<Seq<char>>,
    pub visibility: Visibility,
    pub kind: ItemKindV,
    pub docs: Option<Seq<char>>,
    pub source_path: Option<Seq<char>>,
}

impl View for ItemData {
    type V = ItemV;

    open spec fn view(&self) -> ItemV {
        ItemV {
            name: match self.name {
                Option::Some(ref n) => Option::Some(n@),
                Option::None => Option::None,
            },
            visibility: self.visibility,
            kind: self.kind@,
            docs: match self.docs {
                Option::Some(ref d) => Option::Some(d@),
                Option::None => Option::None,
            },
            source_path: match self.source_path {
                Option::Some(ref p) => Option::Some(p@),
                Option::None => Option::None,
            },
        }
    }
}

/// An id and its item, one entry of the index.
pub struct IndexEntry {
    pub id: String,
    pub item: ItemData,
}

/// The mathematical value of an [`IndexEntry`].
pub ghost struct IndexEntryV {
    pub id: Seq<char>,
    pub item: ItemV,
}

impl View for IndexEntry {
    type V = IndexEntryV;

    open spec fn view(&self) -> IndexEntryV {
        IndexEntryV { id: self.id@, item: self.item@ }
    }
}

/// One crate's documentation metadata: the root item id, the format version
/// of the external metadata it came from, and the item index.
pub struct CrateData {
    pub root: String,
    pub format_version: u32,
    pub items: Vec<IndexEntry>,
}

/// The mathematical value of a [`CrateData`].
pub ghost struct CrateV {
    pub root: Seq<char>,
    pub format_version: u32,
    pub items: Seq<IndexEntryV>,
}

impl View for CrateData {
    type V = CrateV;

    open spec fn view(&self) -> CrateV {
        CrateV {
            root: self.root@,
            format_version: self.format_version,
            items: self.items@.map_values(|e: IndexEntry| e@),
        }
    }
}

/// The item under `id` in the index, from position `i` on; the first entry
/// with the id wins.
pub open spec fn find_from(items: Seq<IndexEntryV>, id: Seq<char>, i: int) -> Option<ItemV>
    decreases items.len() - i,
{
    if i < 0 || i >= items.len() {
        Option::None
    } else if items[i].id == id {
        Option::Some(items[i].item)
    } else {
        find_from(items, id, i + 1)
    }
}

/// The item under `id` in the index, if any.
pub open spec fn find_item(items: Seq<IndexEntryV>, id: Seq<char>) -> Option<ItemV> {
    find_from(items, id, 0)
}

/// The child ids of an item's kind, empty for a non-module.
pub open spec fn children_of(kind: ItemKindV) -> Seq<Seq<char>> {
    match kind {
        ItemKindV::Module { children } => children,
        ItemKindV::Other => Seq::empty(),
    }
}

/// Whether the index holds a module under this id.
pub open spec fn item_is_module(items: Seq<IndexEntryV>, id: Seq<char>) -> bool {
    match find_item(items, id) {
        Option::Some(it) => it.kind is Module,
        Option::None => false,
    }
}

/// The child ids of the module under this id, empty if it is absent or not
/// a module.
pub open spec fn module_children(items: Seq<IndexEntryV>, id: Seq<char>) -> Seq<Seq<char>> {
    match find_item(items, id) {
        Option::Some(it) => children_of(it.kind),
        Option::None => Seq::empty(),
    }
}

/// An id found somewhere in the index has an entry carrying it.
pub proof fn lemma_find_some_position(items: Seq<IndexEntryV>, id: Seq<char>, i: int)
    requires
        find_from(items, id, i) is Some,
        0 <= i,
    ensures
        exists|m: int| i <= m < items.len() && items[m].id == id,
    decreases items.len() - i,
{
    if i < items.len() {
        if items[i].id == id {
        } else {
            lemma_find_some_position(items, id, i + 1);
        }
    }
}

impl CrateData {
    /// Looks the id up in the index; the first entry with the id wins.
    pub fn lookup<'a>(&'a self, id: &String) -> (r: Option<&'a ItemData>)
        ensures
            match r {
                Option::Some(it) => find_item(self@.items, id@) == Option::Some(it@),
                Option::None => find_item(self@.items, id@) is None,
            },
    {
        let mut i: usize = 0;
        while i < self.items.len()
            invariant
                0 <= i <= self.items@.len(),
                find_from(self@.items, id@, 0) == find_from(self@.items, id@, i as int),
            decreases self.items@.len() - i,
        {
            if self.items[i].id.eq(id) {
                proof {
                    assert(self@.items[i as int].id == id@);
                    assert(self@.items[i as int].item == self.items@[i as int].item@);
                }
                return Some(&self.items[i].item);
            }
            proof {
                assert(self@.items[i as int].id != id@);
            }
            i = i + 1;
        }
        None
    }
}

/// Checks the metadata's format version against the version the reader was
/// built for; a mismatch is fatal.
pub fn check_format_version(data: &CrateData, expected: u32) -> (r: Result<(), Error>)
    ensures
        r is Ok <==> data@.format_version == expected,
        r matches Err(e) ==> e == (Error::UnsupportedSchemaVersion {
            found: data@.format_version,
            expected,
        }),
{
    if data.format_version == expected {
        Ok(())
    } else {
        Err(Error::UnsupportedSchemaVersion { found: data.format_version, expected })
    }
}

/// A crate name and its metadata, one entry of a multi-crate map.
pub struct CrateEntry {
    pub name: String,
    pub data: CrateData,
}

/// The mathematical value of a [`CrateEntry`].
pub ghost struct CrateEntryV {
    pub name: Seq<char>,
    pub data: CrateV,
}

impl View for CrateEntry {
    type V = CrateEntryV;

    open spec fn view(&self) -> CrateEntryV {
        CrateEntryV { name: self.name@, data: self.data@ }
    }
}

/// The crate under `name` in the map, from position `i` on; the first entry
/// with the name wins.
pub open spec fn find_crate_from(cs: Seq<CrateEntryV>, name: Seq<char>, i: int) -> Option<CrateV>
    decreases cs.len() - i,
{
    if i < 0 || i >= cs.len() {
        Option::None
    } else if cs[i].name == name {
        Option::Some(cs[i].data)
    } else {
        find_crate_from(cs, name, i + 1)
    }
}

/// The crate under `name` in the map, if any.
pub open spec fn find_crate(cs: Seq<CrateEntryV>, name: Seq<char>) -> Option<CrateV> {
    find_crate_from(cs, name, 0)
}

/// Looks a crate up by name; the first entry with the name wins.
pub fn lookup_crate<'a>(cs: &'a Vec<CrateEntry>, name: &String) -> (r: Option<&'a CrateData>)
    ensures
        match r {
            Option::Some(d) => find_crate(cs@.map_values(|e: CrateEntry| e@), name@)
                == Option::Some(d@),
            Option::None => find_crate(cs@.map_values(|e: CrateEntry| e@), name@) is None,
        },
{
    let ghost csv = cs@.map_values(|e: CrateEntry| e@);
    let mut i: usize = 0;
    while i < cs.len()
        invariant
            csv == cs@.map_values(|e: CrateEntry| e@),
            0 <= i <= cs@.len(),
            find_crate_from(csv, name@, 0) == find_crate_from(csv, name@, i as int),
        decreases cs@.len() - i,
    {
        if cs[i].name.eq(name) {
            proof {
                assert(csv[i as int].name == name@);
                assert(csv[i as int].data == cs@[i as int].data@);
            }
            return Some(&cs[i].data);
        }
        proof {
            assert(csv[i as int].name != name@);
        }
        i = i + 1;
    }
    None
}

} // verus!
