//! The package adapter: walks one crate's module tree from its root with a
//! first-in-first-out queue and registers every public module once, keeping
//! one Contains edge per discovery — a module reached from two parents gets
//! one element and both incoming edges. The root is registered first, with
//! its documentation summary as description; every other module gets the
//! fixed description "Module".

use vstd::prelude::*;

use crate::diagram::{
    Diagram, Element, ElementKind, ElementV, Relationship, RelationshipKind, has_elem, has_id,
};
use crate::errors::Error;
use crate::metadata::{CrateData, IndexEntryV, ItemKind, find_item, item_is_module,
    module_children};
use crate::strutil::seg_views;
use crate::walker::{
    children_unique, contains_rel, index_closed, lemma_rel_present_push, lemma_visited_bound,
    names_set, rel_present, visited_ok,
};

verus! {

/// The name the index carries for an item, or the empty placeholder.
pub open spec fn item_title(items: Seq<IndexEntryV>, id: Seq<char>) -> Seq<char> {
    match find_item(items, id) {
        Option::Some(it) => match it.name {
            Option::Some(n) => n,
            Option::None => Seq::empty(),
        },
        Option::None => Seq::empty(),
    }
}

/// The documentation summary the index carries for an item, or empty.
pub open spec fn item_docs(items: Seq<IndexEntryV>, id: Seq<char>) -> Seq<char> {
    match find_item(items, id) {
        Option::Some(it) => match it.docs {
            Option::Some(d) => d,
            Option::None => Seq::empty(),
        },
        Option::None => Seq::empty(),
    }
}

/// The element registered for the crate root.
pub open spec fn pkg_root_elem(items: Seq<IndexEntryV>, root: Seq<char>) -> ElementV {
    ElementV {
        kind: ElementKind::Container,
        id: root,
        title: item_title(items, root),
        description: item_docs(items, root),
    }
}

/// The element registered for a public module below the root.
pub open spec fn pkg_mod_elem(items: Seq<IndexEntryV>, id: Seq<char>) -> ElementV {
    ElementV {
        kind: ElementKind::Container,
        id: id,
        title: item_title(items, id),
        description: "Module"@,
    }
}

/// Whether the index holds a public module under this id.
pub open spec fn pkg_pub_module(items: Seq<IndexEntryV>, id: Seq<char>) -> bool {
    match find_item(items, id) {
        Option::Some(it) => it.kind is Module && it.visibility is Public,
        Option::None => false,
    }
}

/// An edge of the public-module walk: `c` is a child of the module `p` and
/// is itself a public module.
pub open spec fn pkg_edge(items: Seq<IndexEntryV>, p: Seq<char>, c: Seq<char>) -> bool {
    item_is_module(items, p) && pkg_pub_module(items, c) && module_children(items, p).contains(c)
}

/// The public modules one registration step reaches from `s`.
pub open spec fn pkg_step(items: Seq<IndexEntryV>, s: Set<Seq<char>>) -> Set<Seq<char>> {
    Set::new(|c: Seq<char>| exists|p: Seq<char>| s.contains(p) && #[trigger] pkg_edge(items, p, c))
}

/// The newly registered set (first) and the registered-so-far set (second)
/// after `k` rounds of the package walk; `blocked` holds the ids the
/// diagram already carried, which the walk never registers anew.
pub open spec fn pkg_level(
    items: Seq<IndexEntryV>,
    root: Seq<char>,
    blocked: Set<Seq<char>>,
    k: nat,
) -> (Set<Seq<char>>, Set<Seq<char>>)
    decreases k,
{
    if k == 0 {
        (Set::empty().insert(root), Set::empty().insert(root))
    } else {
        let prev = pkg_level(items, root, blocked, (k - 1) as nat);
        let pn = pkg_step(items, prev.0).difference(prev.1.union(blocked));
        (pn, prev.1.union(pn))
    }
}

/// The ids registered within `k` rounds.
pub open spec fn pkg_upto(
    items: Seq<IndexEntryV>,
    root: Seq<char>,
    blocked: Set<Seq<char>>,
    k: nat,
) -> Set<Seq<char>> {
    pkg_level(items, root, blocked, k).1
}

/// Whether the package walk registers `x`: the root, or a public module
/// reached from it through public-module children while avoiding `blocked`.
pub open spec fn pkg_reach(
    items: Seq<IndexEntryV>,
    root: Seq<char>,
    blocked: Set<Seq<char>>,
    x: Seq<char>,
) -> bool {
    exists|k: nat| pkg_upto(items, root, blocked, k).contains(x)
}

/// The registered set only grows with the round.
proof fn lemma_pkg_upto_monotone(
    items: Seq<IndexEntryV>,
    root: Seq<char>,
    blocked: Set<Seq<char>>,
    k1: nat,
    k2: nat,
)
    requires
        k1 <= k2,
    ensures
        pkg_upto(items, root, blocked, k1).subset_of(pkg_upto(items, root, blocked, k2)),
    decreases k2,
{
    if k1 < k2 {
        lemma_pkg_upto_monotone(items, root, blocked, k1, (k2 - 1) as nat);
    }
}

/// Each round's new ids are registered by that round.
proof fn lemma_pkg_frontier_in_upto(
    items: Seq<IndexEntryV>,
    root: Seq<char>,
    blocked: Set<Seq<char>>,
    k: nat,
)
    ensures
        pkg_level(items, root, blocked, k).0.subset_of(pkg_upto(items, root, blocked, k)),
{
}

/// An unblocked public-module child of a registered module is registered.
proof fn lemma_pkg_intro(
    items: Seq<IndexEntryV>,
    root: Seq<char>,
    blocked: Set<Seq<char>>,
    p: Seq<char>,
    c: Seq<char>,
    k: nat,
)
    requires
        pkg_upto(items, root, blocked, k).contains(p),
        pkg_edge(items, p, c),
        !blocked.contains(c),
    ensures
        pkg_upto(items, root, blocked, (k + 1) as nat).contains(c),
    decreases k,
{
    if k == 0 {
        assert(p == root);
        assert(pkg_step(items, pkg_level(items, root, blocked, 0).0).contains(c));
    } else {
        let prev = pkg_level(items, root, blocked, (k - 1) as nat);
        if prev.1.contains(p) {
            lemma_pkg_intro(items, root, blocked, p, c, (k - 1) as nat);
            lemma_pkg_upto_monotone(items, root, blocked, k, (k + 1) as nat);
        } else {
            assert(pkg_level(items, root, blocked, k).0.contains(p));
            assert(pkg_step(items, pkg_level(items, root, blocked, k).0).contains(c));
        }
    }
}

/// Every registered id lies in any set that holds the root and is closed
/// under unblocked public-module edges.
proof fn lemma_pkg_closed(
    items: Seq<IndexEntryV>,
    root: Seq<char>,
    blocked: Set<Seq<char>>,
    s: Set<Seq<char>>,
    k: nat,
)
    requires
        s.contains(root),
        forall|p: Seq<char>, c: Seq<char>|
            s.contains(p) && #[trigger] pkg_edge(items, p, c) ==> s.contains(c)
                || blocked.contains(c),
    ensures
        pkg_upto(items, root, blocked, k).subset_of(s),
    decreases k,
{
    if k > 0 {
        lemma_pkg_closed(items, root, blocked, s, (k - 1) as nat);
        let prev = pkg_level(items, root, blocked, (k - 1) as nat);
        assert forall|x: Seq<char>|
            pkg_upto(items, root, blocked, k).contains(x) implies s.contains(x) by {
            if prev.1.contains(x) {
            } else {
                let p = choose|p: Seq<char>| prev.0.contains(p) && #[trigger] pkg_edge(items, p, x);
                lemma_pkg_frontier_in_upto(items, root, blocked, (k - 1) as nat);
                assert(s.contains(p));
            }
        }
    }
}

/// Whether the edge repeats a pair among the first `head` queue entries.
pub open spec fn edge_from_pair(
    r: crate::diagram::RelationshipV,
    q: Seq<(String, String)>,
    head: int,
) -> bool {
    exists|h: int| 0 <= h < head && (#[trigger] q[h]).0@ == r.from && q[h].1@ == r.to
}

/// What holds of every queued pair: the parent is a registered module of
/// the index and the child id is among its children.
pub open spec fn queue_ok(
    q: Seq<(String, String)>,
    items: Seq<IndexEntryV>,
    reg: Set<Seq<char>>,
) -> bool {
    forall|k: int|
        0 <= k < q.len() ==> reg.contains((#[trigger] q[k]).0@) && item_is_module(items, q[k].0@)
            && module_children(items, q[k].0@).contains(q[k].1@)
}

/// Registers the crate root as a container element (title: its name, or an
/// empty placeholder; description: its documentation summary, or empty),
/// then walks the module tree breadth-first and registers every public
/// module not yet present, with description "Module", keeping one Contains
/// edge per parent-to-public-module discovery — also when the child already
/// stands in the diagram, so a diamond keeps both incoming edges.
/// Non-module items are inspected but never become elements. An id that
/// does not resolve in the index is a `MalformedMetadata` error, as is a
/// root that is not a module.
pub fn parse_package(diagram: &mut Diagram, data: &CrateData) -> (res: Result<(), Error>)
    requires
        old(diagram).wf(),
    ensures
        final(diagram).wf(),
        final(diagram)@.title == old(diagram)@.title,
        final(diagram)@.filter == old(diagram)@.filter,
        old(diagram)@.relationships.is_prefix_of(final(diagram)@.relationships),
        forall|k: int|
            0 <= k < old(diagram)@.elements.len() && (#[trigger] old(diagram)@.elements[k]).id
                != data@.root ==> has_elem(final(diagram)@.elements, old(diagram)@.elements[k]),
        match res {
            Result::Ok(_) => {
                &&& item_is_module(data@.items, data@.root)
                &&& (forall|x: Seq<char>|
                    #[trigger] has_id(final(diagram)@.elements, x) <==> (has_id(
                        old(diagram)@.elements,
                        x,
                    ) || pkg_reach(
                        data@.items,
                        data@.root,
                        Set::new(|y: Seq<char>| has_id(old(diagram)@.elements, y)),
                        x,
                    )))
                &&& (forall|k: int|
                    0 <= k < final(diagram)@.elements.len() ==> {
                        if (#[trigger] final(diagram)@.elements[k]).id == data@.root {
                            final(diagram)@.elements[k] == pkg_root_elem(data@.items, data@.root)
                        } else if has_id(old(diagram)@.elements, final(diagram)@.elements[k].id) {
                            has_elem(old(diagram)@.elements, final(diagram)@.elements[k])
                        } else {
                            final(diagram)@.elements[k] == pkg_mod_elem(
                                data@.items,
                                final(diagram)@.elements[k].id,
                            ) && pkg_pub_module(data@.items, final(diagram)@.elements[k].id)
                        }
                    })
                &&& (forall|k: int|
                    old(diagram)@.relationships.len() <= k < final(diagram)@.relationships.len()
                        ==> (#[trigger] final(diagram)@.relationships[k]) == contains_rel(
                        final(diagram)@.relationships[k].from,
                        final(diagram)@.relationships[k].to,
                    ) && pkg_reach(
                        data@.items,
                        data@.root,
                        Set::new(|y: Seq<char>| has_id(old(diagram)@.elements, y)),
                        final(diagram)@.relationships[k].from,
                    ) && pkg_edge(
                        data@.items,
                        final(diagram)@.relationships[k].from,
                        final(diagram)@.relationships[k].to,
                    ) && has_id(
                        final(diagram)@.elements,
                        final(diagram)@.relationships[k].from,
                    ) && has_id(final(diagram)@.elements, final(diagram)@.relationships[k].to))
                &&& (forall|p: Seq<char>, c: Seq<char>|
                    pkg_reach(
                        data@.items,
                        data@.root,
                        Set::new(|y: Seq<char>| has_id(old(diagram)@.elements, y)),
                        p,
                    ) && #[trigger] pkg_edge(data@.items, p, c) ==> rel_present(
                        old(diagram)@.relationships.len() as int,
                        final(diagram)@.relationships,
                        p,
                        c,
                    ))
                &&& (forall|p: Seq<char>, c: Seq<char>|
                    pkg_reach(
                        data@.items,
                        data@.root,
                        Set::new(|y: Seq<char>| has_id(old(diagram)@.elements, y)),
                        p,
                    ) && #[trigger] module_children(data@.items, p).contains(c) ==> find_item(
                        data@.items,
                        c,
                    ) is Some)
                &&& (children_unique(data@.items) ==> (forall|j1: int, j2: int|
                    old(diagram)@.relationships.len() <= j1 < j2
                        < final(diagram)@.relationships.len()
                        ==> #[trigger] final(diagram)@.relationships[j1]
                        != #[trigger] final(diagram)@.relationships[j2]))
            },
            Result::Err(e) => match e {
                Error::MalformedMetadata { id } => find_item(data@.items, id@) is None || (id@
                    == data@.root && !item_is_module(data@.items, data@.root)),
                _ => false,
            },
        },
        !item_is_module(data@.items, data@.root) ==> (res matches Result::Err(
            Error::MalformedMetadata { id },
        ) && id@ == data@.root),
        (item_is_module(data@.items, data@.root) && index_closed(data@.items)) ==> res is Ok,
{
    let ghost items = data@.items;
    let ghost root = data@.root;
    let ghost d0 = diagram@;
    let ghost blocked = Set::new(|y: Seq<char>| has_id(d0.elements, y));

    let root_s: String = data.root.clone();
    let root_children: Vec<String>;
    match data.lookup(&root_s) {
        Option::None => {
            return Err(Error::MalformedMetadata { id: root_s });
        },
        Option::Some(root_item) => {
            let title: String = match &root_item.name {
                Option::Some(n) => n.clone(),
                Option::None => String::new(),
            };
            let descr: String = match &root_item.docs {
                Option::Some(d) => d.clone(),
                Option::None => String::new(),
            };
            let element = Element {
                kind: ElementKind::Container,
                id: root_s.clone(),
                title,
                description: descr,
            };
            proof {
                assert(element@ == pkg_root_elem(items, root));
            }
            diagram.add_element(element);
            match &root_item.kind {
                ItemKind::Other => {
                    proof {
                        assert(!item_is_module(items, root));
                    }
                    return Err(Error::MalformedMetadata { id: root_s });
                },
                ItemKind::Module { children } => {
                    root_children = children.clone();
                    proof {
                        assert(root_children@.map_values(|c: String| c@) == module_children(
                            items,
                            root,
                        ));
                        assert(item_is_module(items, root));
                    }
                },
            }
        },
    }
    let ghost dstart = diagram@;
    let mut visited: Vec<String> = Vec::new();
    visited.push(data.root.clone());
    proof {
        assert(visited@[0]@ == root);
        assert(seg_views(visited@).no_duplicates());
        assert(find_item(items, visited@[0]@) is Some);
        lemma_visited_bound(items, visited@);
        assert(names_set(visited@) =~= Set::empty().insert(root));
        assert(pkg_upto(items, root, blocked, 0).contains(root));
    }

    let mut queue: Vec<(String, String)> = Vec::new();
    let mut ci: usize = 0;
    while ci < root_children.len()
        invariant
            items == data@.items,
            root == data@.root,
            0 <= ci <= root_children@.len(),
            diagram@ == dstart,
            visited@.len() == 1 && visited@[0]@ == root,
            root_children@.map_values(|c: String| c@) == module_children(items, root),
            item_is_module(items, root),
            queue_ok(queue@, items, names_set(visited@)),
            forall|h: int|
                0 <= h < queue@.len() ==> (#[trigger] queue@[h]).0@ == root,
            forall|c2: Seq<char>|
                module_children(items, root).take(ci as int).contains(c2) ==> exists|h: int|
                    0 <= h < queue@.len() && (#[trigger] queue@[h]).1@ == c2 && queue@[h].0@
                        == root,
            children_unique(items) ==> (forall|h1: int, h2: int|
                0 <= h1 < h2 < queue@.len() ==> !((#[trigger] queue@[h1]).0@ == (
                #[trigger] queue@[h2]).0@ && queue@[h1].1@ == queue@[h2].1@)),
            forall|h: int|
                0 <= h < queue@.len() ==> exists|i2: int|
                    0 <= i2 < ci && root_children@[i2]@ == (#[trigger] queue@[h]).1@,
            queue@.len() == ci,
            forall|h: int|
                0 <= h < queue@.len() ==> (#[trigger] queue@[h]).1@ == root_children@[h]@,
        decreases root_children@.len() - ci,
    {
        proof {
            assert(names_set(visited@).contains(root)) by {
                assert(visited@[0]@ == root);
            }
            assert(module_children(items, root).contains(root_children@[ci as int]@)) by {
                assert(root_children@.map_values(|c: String| c@)[ci as int]
                    == root_children@[ci as int]@);
            }
        }
        let ghost qpre = queue@;
        queue.push((data.root.clone(), root_children[ci].clone()));
        proof {
            assert(queue@[queue@.len() - 1].0@ == root);
            assert(queue@[queue@.len() - 1].1@ == root_children@[ci as int]@);
            assert(forall|k: int| 0 <= k < qpre.len() ==> queue@[k] == qpre[k]);
            if children_unique(items) {
                assert(module_children(items, root).no_duplicates());
                assert forall|h1: int, h2: int|
                    0 <= h1 < h2 < queue@.len() implies !((#[trigger] queue@[h1]).0@ == (
                #[trigger] queue@[h2]).0@ && queue@[h1].1@ == queue@[h2].1@) by {
                    if h2 == queue@.len() - 1 {
                        assert(queue@[h1].1@ == root_children@[h1]@);
                        assert(root_children@[h1]@ == module_children(items, root)[h1]);
                        assert(root_children@[ci as int]@ == module_children(
                            items,
                            root,
                        )[ci as int]);
                    }
                }
            }
            assert forall|c2: Seq<char>|
                #[trigger] module_children(items, root).take(ci as int + 1).contains(c2)
                implies exists|h: int|
                0 <= h < queue@.len() && (#[trigger] queue@[h]).1@ == c2 && queue@[h].0@
                    == root by {
                let i2 = choose|i2: int|
                    0 <= i2 < ci + 1 && #[trigger] module_children(items, root).take(
                        ci as int + 1,
                    )[i2] == c2;
                if i2 < ci {
                    assert(module_children(items, root).take(ci as int)[i2] == c2);
                    assert(module_children(items, root).take(ci as int).contains(c2));
                } else {
                    assert(queue@[queue@.len() - 1].1@ == c2);
                }
            }
        }
        ci = ci + 1;
    }
    proof {
        assert(module_children(items, root).take(module_children(items, root).len() as int)
            =~= module_children(items, root));
    }
    let ghost relstart = diagram@.relationships.len() as int;
    proof {
        assert(relstart == d0.relationships.len());
    }
    let mut head: usize = 0;
    while head < queue.len()
        invariant
            items == data@.items,
            root == data@.root,
            d0 == old(diagram)@,
            blocked == Set::new(|y: Seq<char>| has_id(d0.elements, y)),
            relstart == d0.relationships.len(),
            0 <= head <= queue@.len(),
            diagram.wf(),
            diagram@.title == d0.title,
            diagram@.filter == d0.filter,
            d0.relationships.is_prefix_of(diagram@.relationships),
            item_is_module(items, root),
            visited_ok(items, visited@),
            visited@.len() >= 1 && visited@[0]@ == root,
            visited@.len() <= items.len(),
            // registered ids are sound for the walk's mathematical set
            forall|v: int|
                0 <= v < visited@.len() ==> pkg_reach(
                    items,
                    root,
                    blocked,
                    #[trigger] visited@[v]@,
                ),
            // registered ids other than the root are unblocked public modules
            forall|v: int|
                1 <= v < visited@.len() ==> pkg_pub_module(items, #[trigger] visited@[v]@)
                    && !blocked.contains(visited@[v]@),
            // the element ids are the old ones plus the registered ones
            forall|x: Seq<char>|
                #[trigger] has_id(diagram@.elements, x) <==> (has_id(d0.elements, x)
                    || names_set(visited@).contains(x)),
            // element contents
            forall|k: int|
                0 <= k < diagram@.elements.len() ==> {
                    if (#[trigger] diagram@.elements[k]).id == root {
                        diagram@.elements[k] == pkg_root_elem(items, root)
                    } else if has_id(d0.elements, diagram@.elements[k].id) {
                        has_elem(d0.elements, diagram@.elements[k])
                    } else {
                        diagram@.elements[k] == pkg_mod_elem(items, diagram@.elements[k].id)
                            && pkg_pub_module(items, diagram@.elements[k].id)
                    }
                },
            // old elements persist, except under the root id
            forall|k: int|
                0 <= k < d0.elements.len() && (#[trigger] d0.elements[k]).id != root ==> has_elem(
                    diagram@.elements,
                    d0.elements[k],
                ),
            queue_ok(queue@, items, names_set(visited@)),
            // every child of a registered module has a pair somewhere in the queue
            forall|p: Seq<char>, c2: Seq<char>|
                names_set(visited@).contains(p) && #[trigger] module_children(items, p).contains(
                    c2,
                ) ==> exists|h: int|
                    0 <= h < queue@.len() && (#[trigger] queue@[h]).0@ == p && queue@[h].1@ == c2,
            // processed pairs: the child resolved, a public-module child has
            // its element and its edge
            forall|h: int|
                0 <= h < head ==> find_item(items, (#[trigger] queue@[h]).1@) is Some,
            forall|h: int|
                0 <= h < head && pkg_pub_module(items, (#[trigger] queue@[h]).1@) ==> has_id(
                    diagram@.elements,
                    queue@[h].1@,
                ) && rel_present(relstart, diagram@.relationships, queue@[h].0@, queue@[h].1@),
            // appended edges: exact containment values between present elements
            forall|k: int|
                relstart <= k < diagram@.relationships.len() ==> (
                #[trigger] diagram@.relationships[k]) == contains_rel(
                    diagram@.relationships[k].from,
                    diagram@.relationships[k].to,
                ) && names_set(visited@).contains(diagram@.relationships[k].from) && pkg_edge(
                    items,
                    diagram@.relationships[k].from,
                    diagram@.relationships[k].to,
                ) && has_id(diagram@.elements, diagram@.relationships[k].from) && has_id(
                    diagram@.elements,
                    diagram@.relationships[k].to,
                ),
            // each appended edge repeats a processed pair
            forall|k: int|
                relstart <= k < diagram@.relationships.len() ==> edge_from_pair(
                    #[trigger] diagram@.relationships[k],
                    queue@,
                    head as int,
                ),
            children_unique(items) ==> (forall|h1: int, h2: int|
                0 <= h1 < h2 < queue@.len() ==> !((#[trigger] queue@[h1]).0@ == (
                #[trigger] queue@[h2]).0@ && queue@[h1].1@ == queue@[h2].1@)),
            children_unique(items) ==> (forall|j1: int, j2: int|
                relstart <= j1 < j2 < diagram@.relationships.len()
                    ==> #[trigger] diagram@.relationships[j1]
                    != #[trigger] diagram@.relationships[j2]),
        decreases items.len() + 1 - visited@.len(), queue@.len() - head,
    {
        let parent_s: String = queue[head].0.clone();
        let id_s: String = queue[head].1.clone();
        let ghost id = id_s@;
        let ghost hd = head as int;
        let ghost q0 = queue@;
        proof {
            assert(parent_s@ == queue@[hd].0@);
            assert(id == queue@[hd].1@);
            assert(module_children(items, parent_s@).contains(id));
            assert(item_is_module(items, parent_s@));
            assert(names_set(visited@).contains(parent_s@));
        }
        head = head + 1;
        match data.lookup(&id_s) {
            Option::None => {
                return Err(Error::MalformedMetadata { id: id_s });
            },
            Option::Some(item) => {
                let is_public = item.visibility.is_public();
                let is_module = item.kind.is_module();
                if is_public && is_module {
                    proof {
                        assert(find_item(items, id) == Option::Some(item@));
                        assert(pkg_pub_module(items, id));
                        assert(pkg_edge(items, parent_s@, id));
                    }
                    let present = diagram.has_element(&id_s);
                    if !present {
                        proof {
                            assert(!blocked.contains(id));
                            assert(pkg_reach(items, root, blocked, id)) by {
                                let pv = parent_s@;
                                let k = choose|k: nat|
                                    #[trigger] pkg_upto(items, root, blocked, k).contains(pv);
                                lemma_pkg_intro(items, root, blocked, pv, id, k);
                            }
                        }
                        let title: String = match &item.name {
                            Option::Some(n) => n.clone(),
                            Option::None => String::new(),
                        };
                        let element = Element {
                            kind: ElementKind::Container,
                            id: id_s.clone(),
                            title,
                            description: "Module".to_owned(),
                        };
                        proof {
                            assert(element@ == pkg_mod_elem(items, id));
                        }
                        let ghost dpre = diagram@;
                        diagram.add_element(element);
                        proof {
                            assert(diagram@.relationships == dpre.relationships);
                            assert forall|k: int|
                                0 <= k < diagram@.elements.len() implies {
                                if (#[trigger] diagram@.elements[k]).id == root {
                                    diagram@.elements[k] == pkg_root_elem(items, root)
                                } else if has_id(d0.elements, diagram@.elements[k].id) {
                                    has_elem(d0.elements, diagram@.elements[k])
                                } else {
                                    diagram@.elements[k] == pkg_mod_elem(
                                        items,
                                        diagram@.elements[k].id,
                                    ) && pkg_pub_module(items, diagram@.elements[k].id)
                                }
                            } by {
                                if diagram@.elements[k] == element@ {
                                    assert(!has_id(d0.elements, id));
                                    assert(id != root) by {
                                        assert(has_id(dpre.elements, root));
                                    }
                                } else {
                                    assert(has_elem(dpre.elements, diagram@.elements[k]));
                                    let m = choose|m: int|
                                        0 <= m < dpre.elements.len() && dpre.elements[m]
                                            == diagram@.elements[k];
                                }
                            }
                            assert forall|k: int|
                                0 <= k < d0.elements.len() && (#[trigger] d0.elements[k]).id
                                    != root implies has_elem(
                                diagram@.elements,
                                d0.elements[k],
                            ) by {
                                assert(has_elem(dpre.elements, d0.elements[k]));
                                let m = choose|m: int|
                                    0 <= m < dpre.elements.len() && dpre.elements[m]
                                        == d0.elements[k];
                                assert(dpre.elements[m].id != id) by {
                                    assert(!has_id(dpre.elements, id));
                                }
                            }
                        }
                        let ghost oldvseq = visited@;
                        visited.push(id_s.clone());
                        proof {
                            assert(forall|v: int|
                                0 <= v < oldvseq.len() ==> visited@[v] == oldvseq[v]);
                            assert(visited@[oldvseq.len() as int]@ == id);
                            assert(forall|v: int|
                                0 <= v < oldvseq.len() ==> oldvseq[v]@ != id) by {
                                assert forall|v: int|
                                    0 <= v < oldvseq.len() implies oldvseq[v]@ != id by {
                                    assert(has_id(dpre.elements, oldvseq[v]@)) by {
                                        assert(names_set(oldvseq).contains(oldvseq[v]@));
                                    }
                                }
                            }
                            assert forall|a: int, b: int|
                                0 <= a < visited@.len() && 0 <= b < visited@.len() && a != b
                                implies seg_views(visited@)[a] != seg_views(visited@)[b] by {
                                assert(seg_views(visited@)[a] == visited@[a]@);
                                assert(seg_views(visited@)[b] == visited@[b]@);
                                if a < oldvseq.len() && b < oldvseq.len() {
                                    assert(seg_views(oldvseq)[a] == oldvseq[a]@);
                                    assert(seg_views(oldvseq)[b] == oldvseq[b]@);
                                    assert(seg_views(oldvseq)[a] != seg_views(oldvseq)[b]);
                                } else if a < oldvseq.len() {
                                    assert(visited@[b]@ == id);
                                } else if b < oldvseq.len() {
                                    assert(visited@[a]@ == id);
                                }
                            }
                            assert(seg_views(visited@).no_duplicates());
                            lemma_visited_bound(items, visited@);
                            assert(names_set(visited@) =~= names_set(oldvseq).insert(id)) by {
                                assert forall|x: Seq<char>|
                                    names_set(visited@).contains(x) implies names_set(
                                    oldvseq,
                                ).insert(id).contains(x) by {
                                    let v = choose|v: int|
                                        0 <= v < visited@.len() && visited@[v]@ == x;
                                    if v < oldvseq.len() {
                                        assert(oldvseq[v]@ == x);
                                    }
                                }
                                assert forall|x: Seq<char>|
                                    names_set(oldvseq).insert(id).contains(x)
                                    implies names_set(visited@).contains(x) by {
                                    if x == id {
                                        assert(visited@[oldvseq.len() as int]@ == x);
                                    } else {
                                        let v = choose|v: int|
                                            0 <= v < oldvseq.len() && oldvseq[v]@ == x;
                                        assert(visited@[v]@ == x);
                                    }
                                }
                            }
                        }
                        // enqueue the newly registered module's children
                        let children: Vec<String> = match &item.kind {
                            ItemKind::Module { children } => children.clone(),
                            ItemKind::Other => Vec::new(),
                        };
                        let ghost chv = children@.map_values(|s2: String| s2@);
                        proof {
                            assert(chv == module_children(items, id));
                        }
                        let ghost qstart = queue@;
                        let mut c: usize = 0;
                        while c < children.len()
                            invariant
                                items == data@.items,
                                0 <= c <= children@.len(),
                                chv == children@.map_values(|s2: String| s2@),
                                chv == module_children(items, id),
                                item_is_module(items, id),
                                id_s@ == id,
                                names_set(visited@).contains(id),
                                queue_ok(queue@, items, names_set(visited@)),
                                head <= qstart.len(),
                                qstart.len() <= queue@.len(),
                                queue@.len() == qstart.len() + c,
                                forall|h: int| 0 <= h < qstart.len() ==> queue@[h] == qstart[h],
                                forall|h: int|
                                    qstart.len() <= h < queue@.len() ==> (#[trigger] queue@[h]).0@
                                        == id && queue@[h].1@ == chv[h - qstart.len()],
                                forall|h: int|
                                    0 <= h < qstart.len() ==> (#[trigger] queue@[h]).0@ != id,
                                children_unique(items) ==> (forall|h1: int, h2: int|
                                    0 <= h1 < h2 < queue@.len() ==> !((#[trigger] queue@[h1]).0@
                                        == (#[trigger] queue@[h2]).0@ && queue@[h1].1@
                                        == queue@[h2].1@)),
                            decreases children@.len() - c,
                        {
                            proof {
                                assert(module_children(items, id).contains(chv[c as int])) by {
                                    assert(chv[c as int] == children@[c as int]@);
                                }
                            }
                            let ghost qpre = queue@;
                            queue.push((id_s.clone(), children[c].clone()));
                            proof {
                                assert(forall|k: int|
                                    0 <= k < qpre.len() ==> queue@[k] == qpre[k]);
                                assert(queue@[queue@.len() - 1].0@ == id);
                                assert(queue@[queue@.len() - 1].1@ == chv[c as int]);
                                if children_unique(items) {
                                    assert(module_children(items, id).no_duplicates());
                                    assert forall|h1: int, h2: int|
                                        0 <= h1 < h2 < queue@.len() implies !((
                                    #[trigger] queue@[h1]).0@ == (#[trigger] queue@[h2]).0@
                                        && queue@[h1].1@ == queue@[h2].1@) by {
                                        if h2 == queue@.len() - 1 {
                                            if h1 >= qstart.len() {
                                                assert(queue@[h1].1@ == chv[h1 - qstart.len()]);
                                                assert(chv[h1 - qstart.len()] != chv[c as int]);
                                            } else {
                                                assert(queue@[h1].0@ != id);
                                            }
                                        }
                                    }
                                }
                            }
                            c = c + 1;
                        }
                        proof {
                            // pairs cover the children of every registered module
                            assert forall|p: Seq<char>, c2: Seq<char>|
                                names_set(visited@).contains(p) && #[trigger] module_children(
                                    items,
                                    p,
                                ).contains(c2) implies exists|h: int|
                                0 <= h < queue@.len() && (#[trigger] queue@[h]).0@ == p
                                    && queue@[h].1@ == c2 by {
                                if p == id {
                                    let i2 = choose|i2: int|
                                        0 <= i2 < chv.len() && chv[i2] == c2;
                                    assert(queue@[qstart.len() + i2].0@ == id);
                                    assert(queue@[qstart.len() + i2].1@ == c2);
                                } else {
                                    assert(names_set(oldvseq).contains(p)) by {
                                        let v = choose|v: int|
                                            0 <= v < visited@.len() && visited@[v]@ == p;
                                        assert(v < oldvseq.len());
                                        assert(oldvseq[v]@ == p);
                                    }
                                    let h = choose|h: int|
                                        0 <= h < qstart.len() && (#[trigger] qstart[h]).0@ == p
                                            && qstart[h].1@ == c2;
                                    assert(queue@[h].0@ == p && queue@[h].1@ == c2);
                                }
                            }
                        }
                    } else {
                        proof {
                            assert(has_id(diagram@.elements, id));
                        }
                    }
                    // the discovery edge, kept even when the element already stood
                    proof {
                        assert(forall|h: int| 0 <= h <= hd ==> queue@[h] == q0[h]);
                    }
                    let ghost dpre2 = diagram@;
                    let rel = Relationship {
                        kind: RelationshipKind::Rel,
                        from: parent_s,
                        to: id_s.clone(),
                        description: "Contains".to_owned(),
                    };
                    let ghost relv = rel@;
                    proof {
                        assert(relv == contains_rel(queue@[hd].0@, id));
                    }
                    diagram.add_relationship(rel);
                    proof {
                        assert(diagram@.relationships == dpre2.relationships.push(relv));
                        assert(d0.relationships.is_prefix_of(diagram@.relationships)) by {
                            assert(forall|q: int|
                                0 <= q < d0.relationships.len() ==> diagram@.relationships[q]
                                    == dpre2.relationships[q]);
                        }
                        assert(diagram@.relationships[diagram@.relationships.len() - 1] == relv);
                        assert(has_id(diagram@.elements, id));
                        assert(has_id(diagram@.elements, queue@[hd].0@)) by {
                            assert(names_set(visited@).contains(queue@[hd].0@));
                        }
                        assert(rel_present(relstart, diagram@.relationships, queue@[hd].0@, id));
                        assert forall|k: int|
                            relstart <= k < diagram@.relationships.len() implies edge_from_pair(
                            #[trigger] diagram@.relationships[k],
                            queue@,
                            head as int,
                        ) by {
                            if k == diagram@.relationships.len() - 1 {
                                assert(queue@[hd].0@ == relv.from && queue@[hd].1@ == relv.to);
                            } else {
                                assert(edge_from_pair(dpre2.relationships[k], q0, hd));
                                let h = choose|h: int|
                                    0 <= h < hd && (#[trigger] q0[h]).0@
                                        == dpre2.relationships[k].from && q0[h].1@
                                        == dpre2.relationships[k].to;
                                assert(queue@[h] == q0[h]);
                            }
                        }
                        assert forall|h: int|
                            0 <= h < head && pkg_pub_module(
                                items,
                                (#[trigger] queue@[h]).1@,
                            ) implies has_id(diagram@.elements, queue@[h].1@) && rel_present(
                            relstart,
                            diagram@.relationships,
                            queue@[h].0@,
                            queue@[h].1@,
                        ) by {
                            if h < hd {
                                assert(queue@[h] == q0[h]);
                                assert(rel_present(
                                    relstart,
                                    dpre2.relationships,
                                    queue@[h].0@,
                                    queue@[h].1@,
                                ));
                                lemma_rel_present_push(
                                    relstart,
                                    dpre2.relationships,
                                    relv,
                                    queue@[h].0@,
                                    queue@[h].1@,
                                );
                            } else {
                                assert(queue@[h] == q0[h]);
                            }
                        }
                        if children_unique(items) {
                            assert forall|j1: int, j2: int|
                                relstart <= j1 < j2 < diagram@.relationships.len()
                                implies #[trigger] diagram@.relationships[j1]
                                != #[trigger] diagram@.relationships[j2] by {
                                if j2 == diagram@.relationships.len() - 1 {
                                    assert(edge_from_pair(dpre2.relationships[j1], q0, hd));
                                    let h = choose|h: int|
                                        0 <= h < hd && (#[trigger] q0[h]).0@
                                            == dpre2.relationships[j1].from && q0[h].1@
                                            == dpre2.relationships[j1].to;
                                    assert(queue@[h] == q0[h]);
                                    assert(!(queue@[h].0@ == queue@[hd].0@ && queue@[h].1@
                                        == queue@[hd].1@));
                                } else {
                                    assert(diagram@.relationships[j1]
                                        == dpre2.relationships[j1]);
                                    assert(diagram@.relationships[j2]
                                        == dpre2.relationships[j2]);
                                }
                            }
                        }
                    }
                } else {
                    proof {
                        assert(!pkg_pub_module(items, id)) by {
                            assert(find_item(items, id) == Option::Some(item@));
                        }
                    }
                }
                proof {
                    assert(forall|h: int| 0 <= h <= hd ==> queue@[h] == q0[h]);
                    assert(find_item(items, id) is Some);
                    assert forall|h: int|
                        0 <= h < head implies find_item(
                        items,
                        (#[trigger] queue@[h]).1@,
                    ) is Some by {
                        assert(queue@[h] == q0[h]);
                        if h < hd {
                            assert(find_item(items, q0[h].1@) is Some);
                        } else {
                            assert(queue@[h].1@ == id);
                        }
                    }
                }
            },
        }
    }
    proof {
        let reg = names_set(visited@);
        // completeness: the registered set is closed, so it holds the
        // whole mathematical walk set
        assert forall|x: Seq<char>|
            pkg_reach(items, root, blocked, x) implies reg.contains(x) by {
            let k = choose|k: nat| #[trigger] pkg_upto(items, root, blocked, k).contains(x);
            assert(reg.contains(root)) by {
                assert(visited@[0]@ == root);
            }
            assert forall|p: Seq<char>, c2: Seq<char>|
                reg.contains(p) && #[trigger] pkg_edge(items, p, c2) implies reg.contains(c2)
                || blocked.contains(c2) by {
                let h = choose|h: int|
                    0 <= h < queue@.len() && (#[trigger] queue@[h]).0@ == p && queue@[h].1@ == c2;
                assert(has_id(diagram@.elements, c2));
            }
            lemma_pkg_closed(items, root, blocked, reg, k);
        }
        // soundness is the per-id invariant; combine into the ids iff
        assert forall|x: Seq<char>|
            #[trigger] has_id(diagram@.elements, x) <==> (has_id(d0.elements, x) || pkg_reach(
                items,
                root,
                blocked,
                x,
            )) by {
            if has_id(diagram@.elements, x) && !has_id(d0.elements, x) {
                assert(names_set(visited@).contains(x));
                let v = choose|v: int| 0 <= v < visited@.len() && visited@[v]@ == x;
                assert(pkg_reach(items, root, blocked, x));
            }
            if pkg_reach(items, root, blocked, x) {
                assert(names_set(visited@).contains(x));
            }
        }
        // the owed edges all stand
        assert forall|p: Seq<char>, c2: Seq<char>|
            pkg_reach(items, root, blocked, p) && #[trigger] pkg_edge(items, p, c2)
            implies rel_present(relstart, diagram@.relationships, p, c2) by {
            assert(names_set(visited@).contains(p));
            assert(module_children(items, p).contains(c2));
            let h = choose|h: int|
                0 <= h < queue@.len() && (#[trigger] queue@[h]).0@ == p && queue@[h].1@ == c2;
        }
        // every child of every registered module resolved
        assert forall|p: Seq<char>, c2: Seq<char>|
            pkg_reach(items, root, blocked, p) && #[trigger] module_children(items, p).contains(
                c2,
            ) implies find_item(items, c2) is Some by {
            assert(names_set(visited@).contains(p));
            let h = choose|h: int|
                0 <= h < queue@.len() && (#[trigger] queue@[h]).0@ == p && queue@[h].1@ == c2;
        }
        // every appended edge leaves a registered module
        assert forall|k: int|
            relstart <= k < diagram@.relationships.len() implies pkg_reach(
            items,
            root,
            blocked,
            (#[trigger] diagram@.relationships[k]).from,
        ) by {
            assert(names_set(visited@).contains(diagram@.relationships[k].from));
            let v = choose|v: int|
                0 <= v < visited@.len() && visited@[v]@ == diagram@.relationships[k].from;
        }
    }
    Ok(())
}

} // verus!
