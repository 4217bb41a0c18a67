//! The traversal engine: a breadth-first walk of a crate's module tree with
//! an optional depth limit, cycle avoidance through a visited set, and an
//! ordered frontier so that the emitted diagram is deterministic.
//!
//! A node reached through two parents (a diamond) is visited once — it gets
//! one element — while each discovering parent contributes its own Contains
//! edge.

use vstd::prelude::*;

use vstd::set_lib::lemma_len_subset;

use crate::args::Level;
use crate::diagram::{
    Diagram, Element, ElementKind, ElementV, Relationship, RelationshipKind, RelationshipV,
    has_elem, has_id,
};
use crate::errors::Error;
use crate::metadata::{
    CrateData, CrateEntry, CrateEntryV, IndexEntryV, ItemData, ItemKind, children_of, find_crate, find_item,
    item_is_module, lemma_find_some_position, lookup_crate, module_children,
};
use crate::strutil::{contains_name, names_contain, seg_views};

verus! {

/// The set of character sequences of a list of names.
pub open spec fn names_set(v: Seq<String>) -> Set<Seq<char>> {
    Set::new(|x: Seq<char>| exists|i: int| 0 <= i < v.len() && v[i]@ == x)
}

/// Whether `c` is a module child of the module `p` in the index.
pub open spec fn mod_edge(items: Seq<IndexEntryV>, p: Seq<char>, c: Seq<char>) -> bool {
    item_is_module(items, p) && item_is_module(items, c) && module_children(items, p).contains(c)
}

/// The ids reached by one expansion step from `s`: module children of the
/// modules in `s`.
pub open spec fn step_set(items: Seq<IndexEntryV>, s: Set<Seq<char>>) -> Set<Seq<char>> {
    Set::new(|c: Seq<char>| exists|p: Seq<char>| s.contains(p) && #[trigger] mod_edge(items, p, c))
}

/// The frontier (first) and visited set (second) of the walk after `k`
/// levels, starting from `root`.
pub open spec fn bfs_level(items: Seq<IndexEntryV>, root: Seq<char>, k: nat) -> (
    Set<Seq<char>>,
    Set<Seq<char>>,
)
    decreases k,
{
    if k == 0 {
        (Set::empty().insert(root), Set::empty().insert(root))
    } else {
        let prev = bfs_level(items, root, (k - 1) as nat);
        let pn = step_set(items, prev.0).difference(prev.1);
        (pn, prev.1.union(pn))
    }
}

/// The nodes at distance exactly `k` from the root.
pub open spec fn frontier_at(items: Seq<IndexEntryV>, root: Seq<char>, k: nat) -> Set<Seq<char>> {
    bfs_level(items, root, k).0
}

/// The nodes at distance at most `k` from the root.
pub open spec fn visited_upto(items: Seq<IndexEntryV>, root: Seq<char>, k: nat) -> Set<Seq<char>> {
    bfs_level(items, root, k).1
}

/// Whether `id` is a module reachable from the root along module-child
/// edges, at any distance.
pub open spec fn reachable_module(
    items: Seq<IndexEntryV>,
    root: Seq<char>,
    id: Seq<char>,
) -> bool {
    exists|k: nat| visited_upto(items, root, k).contains(id)
}

/// The visited set at the start of level `level`: the nodes of the levels
/// already processed.
pub open spec fn upto_before(items: Seq<IndexEntryV>, root: Seq<char>, level: int) -> Set<
    Seq<char>,
> {
    if level <= 0 {
        Set::empty()
    } else {
        visited_upto(items, root, (level - 1) as nat)
    }
}

/// The set of nodes a walk with this depth limit visits: every node within
/// `d - 1` hops under limit `d`, every reachable module when unbounded.
pub open spec fn walk_visited(
    items: Seq<IndexEntryV>,
    root: Seq<char>,
    max_depth: Option<u32>,
) -> Set<Seq<char>> {
    match max_depth {
        Option::Some(m) => if m == 0 {
            Set::empty()
        } else {
            visited_upto(items, root, (m - 1) as nat)
        },
        Option::None => Set::new(|id: Seq<char>| reachable_module(items, root, id)),
    }
}

/// The element the walk emits for a visited module: a container whose title
/// is the item's name and whose description is its source path, each empty
/// when the index does not carry one.
pub open spec fn walk_element(items: Seq<IndexEntryV>, id: Seq<char>) -> ElementV {
    ElementV {
        kind: ElementKind::Container,
        id: id,
        title: match find_item(items, id) {
            Option::Some(it) => match it.name {
                Option::Some(n) => n,
                Option::None => Seq::empty(),
            },
            Option::None => Seq::empty(),
        },
        description: match find_item(items, id) {
            Option::Some(it) => match it.source_path {
                Option::Some(p) => p,
                Option::None => Seq::empty(),
            },
            Option::None => Seq::empty(),
        },
    }
}

/// Every child id of every module of the index is itself indexed.
pub open spec fn index_closed(items: Seq<IndexEntryV>) -> bool {
    forall|p: Seq<char>, c: Seq<char>|
        item_is_module(items, p) && #[trigger] module_children(items, p).contains(c) ==> find_item(
            items,
            c,
        ) is Some
}

/// The visited set only grows with the level.
proof fn lemma_upto_monotone(items: Seq<IndexEntryV>, root: Seq<char>, k1: nat, k2: nat)
    requires
        k1 <= k2,
    ensures
        visited_upto(items, root, k1).subset_of(visited_upto(items, root, k2)),
    decreases k2,
{
    if k1 < k2 {
        lemma_upto_monotone(items, root, k1, (k2 - 1) as nat);
    }
}

/// Once a level's frontier is empty, every later frontier is empty and the
/// visited set stays what it is.
proof fn lemma_stable(items: Seq<IndexEntryV>, root: Seq<char>, k: nat, j: nat)
    requires
        frontier_at(items, root, k).is_empty(),
        k <= j,
    ensures
        frontier_at(items, root, j).is_empty(),
        visited_upto(items, root, j) == visited_upto(items, root, k),
    decreases j - k,
{
    if j > k {
        lemma_stable(items, root, k, (j - 1) as nat);
        assert(step_set(items, frontier_at(items, root, (j - 1) as nat)) =~= Set::empty());
        assert(frontier_at(items, root, j) =~= Set::empty());
        assert(visited_upto(items, root, j) =~= visited_upto(items, root, (j - 1) as nat));
    }
}

/// When the walk's frontier has emptied after `k` levels, the visited set
/// holds exactly the reachable modules.
proof fn lemma_reach_is_upto(items: Seq<IndexEntryV>, root: Seq<char>, k: nat)
    requires
        k >= 1,
        frontier_at(items, root, k).is_empty(),
    ensures
        Set::new(|id: Seq<char>| reachable_module(items, root, id)) == visited_upto(
            items,
            root,
            (k - 1) as nat,
        ),
{
    let reach = Set::new(|id: Seq<char>| reachable_module(items, root, id));
    let fin = visited_upto(items, root, (k - 1) as nat);
    assert(visited_upto(items, root, k) =~= fin);
    assert forall|id: Seq<char>| reach.contains(id) implies fin.contains(id) by {
        let j = choose|j: nat| visited_upto(items, root, j).contains(id);
        if j <= k - 1 {
            lemma_upto_monotone(items, root, j, (k - 1) as nat);
        } else {
            lemma_stable(items, root, k, j);
            assert(visited_upto(items, root, j) == visited_upto(items, root, k));
        }
    }
    assert forall|id: Seq<char>| fin.contains(id) implies reach.contains(id) by {
        assert(visited_upto(items, root, (k - 1) as nat).contains(id));
    }
    assert(reach =~= fin);
}

/// Every member of a frontier is a module of the index, as long as the root
/// is one.
proof fn lemma_frontier_modules(items: Seq<IndexEntryV>, root: Seq<char>, k: nat)
    requires
        item_is_module(items, root),
    ensures
        forall|x: Seq<char>|
            #[trigger] frontier_at(items, root, k).contains(x) ==> item_is_module(items, x),
{
    if k == 0 {
    } else {
        assert forall|x: Seq<char>|
            #[trigger] frontier_at(items, root, k).contains(x) implies item_is_module(
            items,
            x,
        ) by {
            let prev = bfs_level(items, root, (k - 1) as nat);
            assert(step_set(items, prev.0).contains(x));
            let p = choose|p: Seq<char>| prev.0.contains(p) && #[trigger] mod_edge(items, p, x);
        }
    }
}

/// A list of distinct names that all resolve in the index is no longer than
/// the index.
pub proof fn lemma_visited_bound(items: Seq<IndexEntryV>, v: Seq<String>)
    requires
        seg_views(v).no_duplicates(),
        forall|i: int| 0 <= i < v.len() ==> find_item(items, #[trigger] v[i]@) is Some,
    ensures
        v.len() <= items.len(),
{
    broadcast use vstd::seq_lib::seq_to_set_is_finite;
    broadcast use vstd::set::group_set_axioms;

    let vv = seg_views(v);
    let ids = items.map_values(|e: IndexEntryV| e.id);
    vv.unique_seq_to_set();
    ids.lemma_cardinality_of_set();
    assert forall|x: Seq<char>| vv.to_set().contains(x) implies ids.to_set().contains(x) by {
        let i = choose|i: int| 0 <= i < vv.len() && vv[i] == x;
        assert(v[i]@ == x);
        assert(find_item(items, x) is Some);
        lemma_find_some_position(items, x, 0);
        let m = choose|m: int| 0 <= m < items.len() && items[m].id == x;
        assert(ids[m] == x);
        assert(ids.contains(x));
    }
    lemma_len_subset(vv.to_set(), ids.to_set());
}

/// What holds of a relationship the walk appended: a one-directional
/// containment edge from a visited module to one of its module children.
pub open spec fn rel_ok(r: crate::diagram::RelationshipV, items: Seq<IndexEntryV>, vset: Set<Seq<char>>) -> bool {
    &&& r.kind is Rel
    &&& r.description == "Contains"@
    &&& mod_edge(items, r.from, r.to)
    &&& vset.contains(r.from)
}

/// How a walk relates the diagram it fills to the diagram it started from,
/// having visited the ids of `vset`: the element ids are the old ids plus
/// `vset`; a visited id carries the element the index prescribes, any other
/// element is carried over; relationships are only appended, each a
/// containment edge out of a visited module.
pub open spec fn diagram_tracks(d: crate::diagram::DiagramV, d0: crate::diagram::DiagramV, items: Seq<IndexEntryV>, vset: Set<Seq<char>>) -> bool {
    &&& d.title == d0.title
    &&& d.filter == d0.filter
    &&& (forall|x: Seq<char>| #[trigger] has_id(d.elements, x) <==> (has_id(d0.elements, x) || vset.contains(x)))
    &&& (forall|k: int| 0 <= k < d.elements.len() ==> (if vset.contains(#[trigger] d.elements[k].id) {
            d.elements[k] == walk_element(items, d.elements[k].id)
        } else {
            has_elem(d0.elements, d.elements[k])
        }))
    &&& d0.relationships.is_prefix_of(d.relationships)
    &&& (forall|k: int| d0.relationships.len() <= k < d.relationships.len() ==> rel_ok(#[trigger] d.relationships[k], items, vset))
}

/// The bookkeeping of the walk's visited list: no id twice, every id
/// resolves in the index.
pub open spec fn visited_ok(items: Seq<IndexEntryV>, v: Seq<String>) -> bool {
    &&& seg_views(v).no_duplicates()
    &&& (forall|i: int| 0 <= i < v.len() ==> find_item(items, #[trigger] v[i]@) is Some)
}

/// The exact value of a containment edge from `p` to `c`.
pub open spec fn contains_rel(p: Seq<char>, c: Seq<char>) -> RelationshipV {
    RelationshipV {
        kind: RelationshipKind::Rel,
        from: p,
        to: c,
        description: "Contains"@,
    }
}

/// Whether a containment edge from `p` to `c` stands among the
/// relationships appended from position `start` on.
pub open spec fn rel_present(
    start: int,
    rs: Seq<RelationshipV>,
    p: Seq<char>,
    c: Seq<char>,
) -> bool {
    exists|j: int| start <= j < rs.len() && rs[j] == contains_rel(p, c)
}

/// Whether the walk processes level `k` under this depth limit.
pub open spec fn level_processed(max_depth: Option<u32>, k: nat) -> bool {
    match max_depth {
        Option::Some(m) => k < m,
        Option::None => true,
    }
}

/// Whether the walk must emit the edge `p -> c`: `c` is a module child of
/// `p`, and `p`'s level is processed while `c` lies strictly beyond it, so
/// `c` cannot have been visited when `p` discovers it.
pub open spec fn edge_forced(
    items: Seq<IndexEntryV>,
    root: Seq<char>,
    max_depth: Option<u32>,
    p: Seq<char>,
    c: Seq<char>,
) -> bool {
    &&& mod_edge(items, p, c)
    &&& exists|k: nat|
        level_processed(max_depth, k) && #[trigger] frontier_at(items, root, k).contains(p)
            && !visited_upto(items, root, k).contains(c)
}

/// An appended containment edge stays present when another edge is pushed.
pub proof fn lemma_rel_present_push(
    start: int,
    rs: Seq<RelationshipV>,
    r: RelationshipV,
    p: Seq<char>,
    c: Seq<char>,
)
    requires
        0 <= start,
        rel_present(start, rs, p, c),
    ensures
        rel_present(start, rs.push(r), p, c),
{
    let j = choose|j: int| start <= j < rs.len() && rs[j] == contains_rel(p, c);
    assert(rs.push(r)[j] == contains_rel(p, c));
}

/// Every module of the index names each of its children once.
pub open spec fn children_unique(items: Seq<IndexEntryV>) -> bool {
    forall|id: Seq<char>|
        item_is_module(items, id) ==> (#[trigger] module_children(items, id)).no_duplicates()
}

/// Walks the module tree of one crate breadth-first from its root, with an
/// optional depth limit, and fills the diagram: one Container element per
/// visited module (title: the item's name, or empty as a placeholder when it
/// has none; description: its source path, or empty), and one Contains edge
/// per parent-to-module-child discovery. A module reached through several
/// parents is visited once but keeps every incoming edge. An id that does
/// not resolve in the index is a `MalformedMetadata` error, as is a root
/// that is not a module.
pub fn walk_crate(diagram: &mut Diagram, data: &CrateData, max_depth: Option<u32>) -> (res: Result<
    (),
    Error,
>)
    requires
        old(diagram).wf(),
    ensures
        final(diagram).wf(),
        final(diagram)@.title == old(diagram)@.title,
        final(diagram)@.filter == old(diagram)@.filter,
        res is Ok ==> item_is_module(data@.items, data@.root) && diagram_tracks(
            final(diagram)@,
            old(diagram)@,
            data@.items,
            walk_visited(data@.items, data@.root, max_depth),
        ),
        match res {
            Result::Ok(_) => true,
            Result::Err(e) => match e {
                Error::MalformedMetadata { id } => find_item(data@.items, id@) is None || (id@
                    == data@.root && !item_is_module(data@.items, data@.root)),
                _ => false,
            },
        },
        item_is_module(data@.items, data@.root) && index_closed(data@.items) ==> res is Ok,
        res is Ok ==> (forall|p: Seq<char>, c: Seq<char>|
            #[trigger] edge_forced(data@.items, data@.root, max_depth, p, c) ==> rel_present(
                old(diagram)@.relationships.len() as int,
                final(diagram)@.relationships,
                p,
                c,
            )),
        res is Ok ==> (forall|p: Seq<char>, c: Seq<char>|
            #[trigger] walk_visited(data@.items, data@.root, max_depth).contains(p)
                && #[trigger] module_children(data@.items, p).contains(c) ==> find_item(
                data@.items,
                c,
            ) is Some),
        (res is Ok && children_unique(data@.items)) ==> (forall|j1: int, j2: int|
            old(diagram)@.relationships.len() <= j1 < j2 < final(diagram)@.relationships.len()
                ==> #[trigger] final(diagram)@.relationships[j1]
                    != #[trigger] final(diagram)@.relationships[j2]),
        !item_is_module(data@.items, data@.root) ==> (res matches Result::Err(
            Error::MalformedMetadata { id },
        ) && id@ == data@.root),
{
    let ghost items = data@.items;
    let ghost root = data@.root;
    let ghost d0 = diagram@;

    let root_ok: bool = match data.lookup(&data.root) {
        Option::Some(it) => it.kind.is_module(),
        Option::None => false,
    };
    if !root_ok {
        return Err(Error::MalformedMetadata { id: data.root.clone() });
    }
    proof {
        assert(item_is_module(items, root));
    }

    let unbounded: bool = match max_depth {
        Option::Some(_) => false,
        Option::None => true,
    };
    let limit: u32 = match max_depth {
        Option::Some(m) => m,
        Option::None => 0,
    };

    let mut frontier: Vec<String> = Vec::new();
    frontier.push(data.root.clone());
    let mut visited: Vec<String> = Vec::new();
    let mut depth: u32 = 0;
    let ghost mut level: int = 0;

    proof {
        assert(frontier@[0]@ == root);
        assert(names_set(frontier@) =~= frontier_at(items, root, 0));
        assert(names_set(visited@) =~= upto_before(items, root, 0));
        assert(diagram_tracks(diagram@, d0, items, names_set(visited@)));
    }

    while frontier.len() > 0 && (unbounded || depth < limit)
        invariant
            items == data@.items,
            root == data@.root,
            diagram.wf(),
            visited_ok(items, visited@),
            item_is_module(items, root),
            0 <= level,
            unbounded == (max_depth is None),
            !unbounded ==> max_depth == Option::Some(limit) && level == depth as int && depth
                <= limit,
            names_set(visited@) == upto_before(items, root, level),
            frontier_at(items, root, level as nat).subset_of(names_set(frontier@)),
            names_set(frontier@).subset_of(
                frontier_at(items, root, level as nat).union(upto_before(items, root, level)),
            ),
            level == 0 ==> frontier@.len() == 1 && frontier@[0]@ == root,
            diagram_tracks(diagram@, d0, items, names_set(visited@)),
            forall|p: Seq<char>, c: Seq<char>|
                (#[trigger] mod_edge(items, p, c) && exists|k: nat|
                    k < level && #[trigger] frontier_at(items, root, k).contains(p)
                        && !visited_upto(items, root, k).contains(c)) ==> rel_present(
                    d0.relationships.len() as int,
                    diagram@.relationships,
                    p,
                    c,
                ),
            forall|p: Seq<char>, c: Seq<char>|
                #[trigger] names_set(visited@).contains(p) && #[trigger] module_children(
                    items,
                    p,
                ).contains(c) ==> find_item(items, c) is Some,
            children_unique(items) ==> (forall|j1: int, j2: int|
                d0.relationships.len() <= j1 < j2 < diagram@.relationships.len()
                    ==> #[trigger] diagram@.relationships[j1] != #[trigger] diagram@.relationships[j2]),
            visited@.len() <= items.len(),
            d0 == old(diagram)@,
        decreases items.len() + 1 - visited@.len(), frontier@.len(),
    {
        let ghost prev_v = names_set(visited@);
        let ghost fseq = frontier@;
        let ghost vlen0 = visited@.len();
        let mut upcoming: Vec<String> = Vec::new();
        let mut j: usize = 0;

        proof {
            assert(names_set(fseq.take(0)) =~= Set::empty());
            assert(prev_v.union(names_set(fseq.take(0))) =~= prev_v);
            assert(names_set(upcoming@) =~= Set::empty());
            assert(visited_upto(items, root, level as nat) == upto_before(
                items,
                root,
                level,
            ).union(frontier_at(items, root, level as nat))) by {
                if level == 0 {
                    assert(visited_upto(items, root, 0) =~= upto_before(items, root, 0).union(
                        frontier_at(items, root, 0),
                    ));
                }
            }
            assert(names_set(visited@).subset_of(visited_upto(items, root, level as nat)));
        }

        while j < frontier.len()
            invariant
                items == data@.items,
                root == data@.root,
                0 <= j <= frontier@.len(),
                frontier@ == fseq,
                diagram.wf(),
                visited_ok(items, visited@),
                item_is_module(items, root),
                0 <= level,
                prev_v == upto_before(items, root, level),
                frontier_at(items, root, level as nat).subset_of(names_set(fseq)),
                names_set(fseq).subset_of(
                    frontier_at(items, root, level as nat).union(prev_v),
                ),
                names_set(visited@) == prev_v.union(names_set(fseq.take(j as int))),
                names_set(visited@).subset_of(visited_upto(items, root, level as nat)),
                diagram_tracks(diagram@, d0, items, names_set(visited@)),
                forall|p: Seq<char>, c: Seq<char>|
                    (#[trigger] mod_edge(items, p, c) && exists|k: nat|
                        k < level && #[trigger] frontier_at(items, root, k).contains(p)
                            && !visited_upto(items, root, k).contains(c)) ==> rel_present(
                        d0.relationships.len() as int,
                        diagram@.relationships,
                        p,
                        c,
                    ),
                forall|p: Seq<char>, c: Seq<char>|
                    names_set(fseq.take(j as int)).contains(p) && !prev_v.contains(p)
                        && #[trigger] mod_edge(items, p, c) && !visited_upto(
                        items,
                        root,
                        level as nat,
                    ).contains(c) ==> rel_present(
                        d0.relationships.len() as int,
                        diagram@.relationships,
                        p,
                        c,
                    ),
                forall|p: Seq<char>, c: Seq<char>|
                    #[trigger] names_set(visited@).contains(p) && #[trigger] module_children(
                        items,
                        p,
                    ).contains(c) ==> find_item(items, c) is Some,
                children_unique(items) ==> (forall|j1: int, j2: int|
                    d0.relationships.len() <= j1 < j2 < diagram@.relationships.len()
                        ==> #[trigger] diagram@.relationships[j1] != #[trigger] diagram@.relationships[j2]),
                forall|u: Seq<char>|
                    #[trigger] names_set(upcoming@).contains(u) ==> !prev_v.contains(u) && exists|
                        p: Seq<char>,
                    |
                        names_set(fseq.take(j as int)).contains(p) && !prev_v.contains(p)
                            && #[trigger] mod_edge(items, p, u),
                forall|p: Seq<char>, c: Seq<char>|
                    names_set(fseq.take(j as int)).contains(p) && !prev_v.contains(p)
                        && #[trigger] mod_edge(items, p, c) ==> names_set(upcoming@).contains(c)
                        || names_set(visited@).contains(c),
                visited@.len() <= items.len(),
                visited@.len() >= vlen0,
                visited@.len() == vlen0 ==> upcoming@.len() == 0,
                d0 == old(diagram)@,
            decreases frontier@.len() - j,
        {
            let ghost vbefore = names_set(visited@);
            let id_s: String = frontier[j].clone();
            let ghost id = id_s@;
            if !contains_name(&visited, &id_s) {
                proof {
                    assert(names_set(fseq).contains(id)) by {
                        assert(fseq[j as int]@ == id);
                    }
                    assert(!vbefore.contains(id)) by {
                        if vbefore.contains(id) {
                            let i = choose|i: int|
                                0 <= i < visited@.len() && visited@[i]@ == id;
                            assert(names_contain(visited@, id));
                        }
                    }
                    assert(!prev_v.contains(id)) by {
                        if prev_v.contains(id) {
                            assert(vbefore.contains(id));
                        }
                    }
                    assert(frontier_at(items, root, level as nat).contains(id));
                    lemma_frontier_modules(items, root, level as nat);
                    assert(item_is_module(items, id));
                }
                let ghost oldvseq = visited@;
                visited.push(id_s.clone());
                proof {
                    assert(visited@ == oldvseq.push(id_s));
                    assert(visited@.len() == oldvseq.len() + 1);
                    assert(forall|i: int| 0 <= i < oldvseq.len() ==> visited@[i] == oldvseq[i]);
                    assert(visited@[oldvseq.len() as int] == id_s);
                    let ghost vnow = names_set(visited@);
                    assert(vnow =~= vbefore.insert(id)) by {
                        assert forall|x: Seq<char>| vnow.contains(x) implies vbefore.insert(
                            id,
                        ).contains(x) by {
                            let i = choose|i: int| 0 <= i < visited@.len() && visited@[i]@ == x;
                            if i < oldvseq.len() {
                                assert(oldvseq[i]@ == x);
                            }
                        }
                        assert forall|x: Seq<char>| vbefore.insert(id).contains(x)
                            implies vnow.contains(x) by {
                            if x == id {
                                assert(visited@[oldvseq.len() as int]@ == x);
                            } else {
                                let i = choose|i: int|
                                    0 <= i < oldvseq.len() && oldvseq[i]@ == x;
                                assert(visited@[i]@ == x);
                            }
                        }
                    }
                    assert(forall|i: int| 0 <= i < oldvseq.len() ==> oldvseq[i]@ != id);
                    assert forall|a: int, b: int|
                        0 <= a < visited@.len() && 0 <= b < visited@.len() && a != b
                        implies seg_views(visited@)[a] != seg_views(visited@)[b] by {
                        assert(seg_views(visited@)[a] == visited@[a]@);
                        assert(seg_views(visited@)[b] == visited@[b]@);
                        if a < oldvseq.len() && b < oldvseq.len() {
                            assert(seg_views(oldvseq)[a] == oldvseq[a]@);
                            assert(seg_views(oldvseq)[b] == oldvseq[b]@);
                            assert(seg_views(oldvseq)[a] != seg_views(oldvseq)[b]);
                        } else if a < oldvseq.len() {
                            assert(visited@[b]@ == id);
                        } else if b < oldvseq.len() {
                            assert(visited@[a]@ == id);
                        }
                    }
                    assert(seg_views(visited@).no_duplicates());
                    assert(names_set(fseq.take(j as int + 1)) =~= names_set(
                        fseq.take(j as int),
                    ).insert(id)) by {
                        assert(fseq.take(j as int + 1)[j as int]@ == id);
                        assert(forall|i: int|
                            0 <= i < j ==> fseq.take(j as int + 1)[i] == fseq.take(j as int)[i]);
                        assert forall|x: Seq<char>|
                            names_set(fseq.take(j as int)).insert(id).contains(x)
                            implies names_set(fseq.take(j as int + 1)).contains(x) by {
                            if x == id {
                                assert(fseq.take(j as int + 1)[j as int]@ == x);
                            } else {
                                let i = choose|i: int|
                                    0 <= i < j && fseq.take(j as int)[i]@ == x;
                                assert(fseq.take(j as int + 1)[i]@ == x);
                            }
                        }
                    }
                    assert(vnow =~= prev_v.union(names_set(fseq.take(j as int + 1))));
                    lemma_visited_bound(items, visited@);
                    assert(visited_upto(items, root, level as nat) == upto_before(
                        items,
                        root,
                        level,
                    ).union(frontier_at(items, root, level as nat))) by {
                        if level == 0 {
                            assert(visited_upto(items, root, 0) =~= upto_before(
                                items,
                                root,
                                0,
                            ).union(frontier_at(items, root, 0)));
                        }
                    }
                    assert(vnow.subset_of(visited_upto(items, root, level as nat))) by {
                        assert(frontier_at(items, root, level as nat).contains(id));
                    }
                }
                match data.lookup(&id_s) {
                    Option::None => {
                        proof {
                            // a frontier node is a module of the index
                            assert(false);
                        }
                        return Err(Error::MalformedMetadata { id: id_s });
                    },
                    Option::Some(item) => {
                        proof {
                            assert(find_item(items, id) == Option::Some(item@));
                        }
                        match &item.kind {
                            ItemKind::Other => {
                                proof {
                                    // a frontier node is a module of the index
                                    assert(item@.kind is Other);
                                    assert(false);
                                }
                            },
                            ItemKind::Module { children } => {
                                let title: String = match &item.name {
                                    Option::Some(n) => n.clone(),
                                    Option::None => String::new(),
                                };
                                let descr: String = match &item.source_path {
                                    Option::Some(p) => p.clone(),
                                    Option::None => String::new(),
                                };
                                let ghost chv = children@.map_values(|c: String| c@);
                                proof {
                                    assert(module_children(items, id) == chv);
                                    assert(children_of(item@.kind) == chv);
                                }
                                let element = Element {
                                    kind: ElementKind::Container,
                                    id: id_s.clone(),
                                    title,
                                    description: descr,
                                };
                                proof {
                                    assert(element@ == walk_element(items, id));
                                }
                                let ghost dpre = diagram@;
                                let ghost relbase = diagram@.relationships.len() as int;
                                proof {
                                    assert(diagram_tracks(dpre, d0, items, vbefore));
                                    assert forall|jj: int|
                                        d0.relationships.len() <= jj < relbase implies (
                                    #[trigger] dpre.relationships[jj]).from != id by {
                                        assert(rel_ok(dpre.relationships[jj], items, vbefore));
                                    }
                                }
                                diagram.add_element(element);
                                proof {
                                    let vnow = names_set(visited@);
                                    assert forall|x: Seq<char>| #[trigger] has_id(
                                        diagram@.elements,
                                        x,
                                    ) <==> (has_id(d0.elements, x) || vnow.contains(x)) by {
                                        assert(has_id(diagram@.elements, x) <==> (has_id(
                                            dpre.elements,
                                            x,
                                        ) || x == id));
                                    }
                                    assert forall|k: int|
                                        0 <= k < diagram@.elements.len() implies (if vnow.contains(
                                        #[trigger] diagram@.elements[k].id,
                                    ) {
                                        diagram@.elements[k] == walk_element(
                                            items,
                                            diagram@.elements[k].id,
                                        )
                                    } else {
                                        has_elem(d0.elements, diagram@.elements[k])
                                    }) by {
                                        let e = diagram@.elements[k];
                                        if e == element@ {
                                        } else {
                                            assert(e.id != id && has_elem(dpre.elements, e));
                                            let m = choose|m: int|
                                                0 <= m < dpre.elements.len() && dpre.elements[m]
                                                    == e;
                                            assert(vbefore.contains(e.id) == vnow.contains(e.id));
                                        }
                                    }
                                    assert forall|k: int|
                                        d0.relationships.len() <= k < diagram@.relationships.len()
                                        implies rel_ok(
                                        #[trigger] diagram@.relationships[k],
                                        items,
                                        names_set(visited@),
                                    ) by {
                                        assert(rel_ok(diagram@.relationships[k], items, vbefore));
                                        assert(names_set(visited@).contains(
                                            diagram@.relationships[k].from,
                                        ));
                                    }
                                    assert(diagram_tracks(
                                        diagram@,
                                        d0,
                                        items,
                                        names_set(visited@),
                                    ));
                                }
                                let mut c: usize = 0;
                                proof {
                                    assert(chv.take(0) =~= Seq::<Seq<char>>::empty());
                                }
                                while c < children.len()
                                    invariant
                                        items == data@.items,
                                        root == data@.root,
                                        0 <= c <= children@.len(),
                                        chv == children@.map_values(|s: String| s@),
                                        module_children(items, id) == chv,
                                        item_is_module(items, id),
                                        item_is_module(items, root),
                                        find_item(items, id) is Some,
                                        0 <= level,
                                        0 <= j < fseq.len(),
                                        fseq[j as int]@ == id,
                                        id_s@ == id,
                                        frontier@ == fseq,
                                        diagram.wf(),
                                        visited_ok(items, visited@),
                                        prev_v == upto_before(items, root, level),
                                        frontier_at(items, root, level as nat).subset_of(
                                            names_set(fseq),
                                        ),
                                        names_set(fseq).subset_of(
                                            frontier_at(items, root, level as nat).union(prev_v),
                                        ),
                                        names_set(visited@) == prev_v.union(
                                            names_set(fseq.take(j as int + 1)),
                                        ),
                                        names_set(visited@).contains(id),
                                        !prev_v.contains(id),
                                        diagram_tracks(diagram@, d0, items, names_set(visited@)),
                                        forall|u: Seq<char>|
                                            #[trigger] names_set(upcoming@).contains(u)
                                                ==> !prev_v.contains(u) && ((exists|p: Seq<char>|
                                                names_set(fseq.take(j as int)).contains(p)
                                                    && !prev_v.contains(p) && #[trigger] mod_edge(
                                                    items,
                                                    p,
                                                    u,
                                                )) || mod_edge(items, id, u)),
                                        forall|p: Seq<char>, c2: Seq<char>|
                                            names_set(fseq.take(j as int)).contains(p)
                                                && !prev_v.contains(p) && #[trigger] mod_edge(
                                                items,
                                                p,
                                                c2,
                                            ) ==> names_set(upcoming@).contains(c2) || names_set(
                                                visited@,
                                            ).contains(c2),
                                        forall|x: Seq<char>|
                                            chv.take(c as int).contains(x) && item_is_module(
                                                items,
                                                x,
                                            ) ==> names_set(upcoming@).contains(x) || names_set(
                                                visited@,
                                            ).contains(x),
                                        names_set(visited@).subset_of(
                                            visited_upto(items, root, level as nat),
                                        ),
                                        forall|p: Seq<char>, c3: Seq<char>|
                                            (#[trigger] mod_edge(items, p, c3) && exists|k: nat|
                                                k < level && #[trigger] frontier_at(
                                                    items,
                                                    root,
                                                    k,
                                                ).contains(p) && !visited_upto(
                                                    items,
                                                    root,
                                                    k,
                                                ).contains(c3)) ==> rel_present(
                                                d0.relationships.len() as int,
                                                diagram@.relationships,
                                                p,
                                                c3,
                                            ),
                                        forall|p: Seq<char>, c3: Seq<char>|
                                            names_set(fseq.take(j as int)).contains(p)
                                                && !prev_v.contains(p) && #[trigger] mod_edge(
                                                items,
                                                p,
                                                c3,
                                            ) && !visited_upto(
                                                items,
                                                root,
                                                level as nat,
                                            ).contains(c3) ==> rel_present(
                                                d0.relationships.len() as int,
                                                diagram@.relationships,
                                                p,
                                                c3,
                                            ),
                                        forall|x: Seq<char>|
                                            chv.take(c as int).contains(x) && item_is_module(
                                                items,
                                                x,
                                            ) && !visited_upto(
                                                items,
                                                root,
                                                level as nat,
                                            ).contains(x) ==> rel_present(
                                                d0.relationships.len() as int,
                                                diagram@.relationships,
                                                id,
                                                x,
                                            ),
                                        forall|p: Seq<char>, c3: Seq<char>|
                                            #[trigger] names_set(visited@).contains(p) && p != id
                                                && #[trigger] module_children(items, p).contains(
                                                c3,
                                            ) ==> find_item(items, c3) is Some,
                                        forall|x: Seq<char>|
                                            #[trigger] chv.take(c as int).contains(x)
                                                ==> find_item(items, x) is Some,
                                        d0.relationships.len() <= relbase
                                            <= diagram@.relationships.len(),
                                        forall|jj: int|
                                            d0.relationships.len() <= jj < relbase ==> (
                                            #[trigger] diagram@.relationships[jj]).from != id,
                                        forall|jj: int|
                                            relbase <= jj < diagram@.relationships.len() ==> (
                                            #[trigger] diagram@.relationships[jj]) == contains_rel(
                                                id,
                                                diagram@.relationships[jj].to,
                                            ) && chv.take(c as int).contains(
                                                diagram@.relationships[jj].to,
                                            ),
                                        children_unique(items) ==> (forall|j1: int, j2: int|
                                            d0.relationships.len() <= j1 < j2
                                                < diagram@.relationships.len()
                                                ==> #[trigger] diagram@.relationships[j1]
                                                != #[trigger] diagram@.relationships[j2]),
                                        visited@.len() <= items.len(),
                                        visited@.len() >= vlen0 + 1,
                                        d0 == old(diagram)@,
                                    decreases children@.len() - c,
                                {
                                    let child_s: String = children[c].clone();
                                    let ghost childid = child_s@;
                                    proof {
                                        assert(children@[c as int]@ == childid);
                                        assert(chv[c as int] == childid);
                                        assert(module_children(items, id).contains(childid));
                                    }
                                    match data.lookup(&child_s) {
                                        Option::None => {
                                            return Err(Error::MalformedMetadata { id: child_s });
                                        },
                                        Option::Some(citem) => {
                                            if citem.kind.is_module() {
                                                proof {
                                                    assert(find_item(items, childid)
                                                        == Option::Some(citem@));
                                                    assert(citem@.kind == citem.kind@);
                                                    assert(citem@.kind is Module);
                                                    assert(item_is_module(items, childid));
                                                    assert(mod_edge(items, id, childid));
                                                }
                                                if !contains_name(&visited, &child_s) {
                                                    proof {
                                                        assert(!names_set(visited@).contains(
                                                            childid,
                                                        )) by {
                                                            if names_set(visited@).contains(
                                                                childid,
                                                            ) {
                                                                let i = choose|i: int|
                                                                    0 <= i < visited@.len()
                                                                        && visited@[i]@ == childid;
                                                                assert(names_contain(
                                                                    visited@,
                                                                    childid,
                                                                ));
                                                            }
                                                        }
                                                    }
                                                    let ghost dpre2 = diagram@;
                                                    let rel = Relationship {
                                                        kind: RelationshipKind::Rel,
                                                        from: id_s.clone(),
                                                        to: child_s.clone(),
                                                        description: "Contains".to_owned(),
                                                    };
                                                    let ghost relv = rel@;
                                                    proof {
                                                        assert(relv.from == id);
                                                        assert(relv.to == childid);
                                                        assert(relv.description == "Contains"@);
                                                    }
                                                    diagram.add_relationship(rel);
                                                    proof {
                                                        assert(d0.relationships.is_prefix_of(
                                                            diagram@.relationships,
                                                        )) by {
                                                            assert(forall|k: int|
                                                                0 <= k < dpre2.relationships.len()
                                                                    ==> diagram@.relationships[k]
                                                                    == dpre2.relationships[k]);
                                                        }
                                                        assert(diagram@.relationships
                                                            == dpre2.relationships.push(relv));
                                                        let rv = diagram@.relationships[
                                                            diagram@.relationships.len() - 1];
                                                        assert(rv == relv);
                                                        assert(rv.kind is Rel);
                                                        assert(rv.from == id);
                                                        assert(rv.to == childid);
                                                        assert(rv.description == "Contains"@);
                                                        assert(mod_edge(items, rv.from, rv.to));
                                                        assert(names_set(visited@).contains(
                                                            rv.from,
                                                        ));
                                                        assert(rel_ok(
                                                            rv,
                                                            items,
                                                            names_set(visited@),
                                                        ));
                                                        assert(diagram_tracks(
                                                            diagram@,
                                                            d0,
                                                            items,
                                                            names_set(visited@),
                                                        ));
                                                        assert(relv == contains_rel(id, childid));
                                                        assert(rel_present(
                                                            d0.relationships.len() as int,
                                                            diagram@.relationships,
                                                            id,
                                                            childid,
                                                        )) by {
                                                            assert(diagram@.relationships[
                                                                diagram@.relationships.len() - 1]
                                                                == contains_rel(id, childid));
                                                        }
                                                        assert forall|p: Seq<char>, c3: Seq<char>|
                                                            (#[trigger] mod_edge(items, p, c3)
                                                                && exists|k: nat|
                                                                k < level && #[trigger] frontier_at(
                                                                    items,
                                                                    root,
                                                                    k,
                                                                ).contains(p) && !visited_upto(
                                                                    items,
                                                                    root,
                                                                    k,
                                                                ).contains(c3))
                                                            implies rel_present(
                                                            d0.relationships.len() as int,
                                                            diagram@.relationships,
                                                            p,
                                                            c3,
                                                        ) by {
                                                            lemma_rel_present_push(
                                                                d0.relationships.len() as int,
                                                                dpre2.relationships,
                                                                relv,
                                                                p,
                                                                c3,
                                                            );
                                                        }
                                                        assert forall|p: Seq<char>, c3: Seq<char>|
                                                            names_set(
                                                                fseq.take(j as int),
                                                            ).contains(p) && !prev_v.contains(p)
                                                                && #[trigger] mod_edge(
                                                                items,
                                                                p,
                                                                c3,
                                                            ) && !visited_upto(
                                                                items,
                                                                root,
                                                                level as nat,
                                                            ).contains(c3) implies rel_present(
                                                            d0.relationships.len() as int,
                                                            diagram@.relationships,
                                                            p,
                                                            c3,
                                                        ) by {
                                                            lemma_rel_present_push(
                                                                d0.relationships.len() as int,
                                                                dpre2.relationships,
                                                                relv,
                                                                p,
                                                                c3,
                                                            );
                                                        }
                                                        assert forall|x: Seq<char>|
                                                            chv.take(c as int).contains(x)
                                                                && item_is_module(items, x)
                                                                && !visited_upto(
                                                                items,
                                                                root,
                                                                level as nat,
                                                            ).contains(x) implies rel_present(
                                                            d0.relationships.len() as int,
                                                            diagram@.relationships,
                                                            id,
                                                            x,
                                                        ) by {
                                                            lemma_rel_present_push(
                                                                d0.relationships.len() as int,
                                                                dpre2.relationships,
                                                                relv,
                                                                id,
                                                                x,
                                                            );
                                                        }
                                                        if children_unique(items) {
                                                            assert(module_children(
                                                                items,
                                                                id,
                                                            ).no_duplicates());
                                                            assert forall|j1: int, j2: int|
                                                                d0.relationships.len() <= j1 < j2
                                                                    < diagram@.relationships.len()
                                                                implies #[trigger] diagram@.relationships[j1]
                                                                != #[trigger] diagram@.relationships[j2] by {
                                                                if j2
                                                                    == diagram@.relationships.len()
                                                                    - 1 {
                                                                    if j1 >= relbase {
                                                                        let tgt =
                                                                            dpre2.relationships[
                                                                            j1].to;
                                                                        assert(chv.take(
                                                                            c as int,
                                                                        ).contains(tgt));
                                                                        let i = choose|i: int|
                                                                            0 <= i < c
                                                                                && #[trigger] chv.take(
                                                                                c as int,
                                                                            )[i] == tgt;
                                                                        assert(chv[i] == tgt);
                                                                        assert(chv[i]
                                                                            != chv[c as int]);
                                                                        assert(diagram@.relationships[
                                                                            j1].to != childid);
                                                                    } else {
                                                                        assert(dpre2.relationships[
                                                                            j1].from != id);
                                                                    }
                                                                } else {
                                                                    assert(diagram@.relationships[
                                                                        j1]
                                                                        == dpre2.relationships[
                                                                        j1]);
                                                                    assert(diagram@.relationships[
                                                                        j2]
                                                                        == dpre2.relationships[
                                                                        j2]);
                                                                }
                                                            }
                                                        }
                                                    }
                                                    if !contains_name(&upcoming, &child_s) {
                                                        let ghost ubefore = names_set(upcoming@);
                                                        let ghost olduseq = upcoming@;
                                                        upcoming.push(child_s.clone());
                                                        proof {
                                                            assert(upcoming@.len() == olduseq.len()
                                                                + 1);
                                                            assert(forall|i: int|
                                                                0 <= i < olduseq.len()
                                                                    ==> upcoming@[i]
                                                                    == olduseq[i]);
                                                            assert(upcoming@[olduseq.len() as int]@
                                                                == childid);
                                                            assert(names_set(upcoming@)
                                                                =~= ubefore.insert(childid)) by {
                                                                assert forall|x: Seq<char>|
                                                                    names_set(upcoming@).contains(
                                                                        x,
                                                                    ) implies ubefore.insert(
                                                                    childid,
                                                                ).contains(x) by {
                                                                    let i = choose|i: int|
                                                                        0 <= i < upcoming@.len()
                                                                            && upcoming@[i]@ == x;
                                                                    if i < olduseq.len() {
                                                                        assert(olduseq[i]@ == x);
                                                                    }
                                                                }
                                                                assert forall|x: Seq<char>|
                                                                    ubefore.insert(
                                                                        childid,
                                                                    ).contains(x)
                                                                    implies names_set(
                                                                    upcoming@,
                                                                ).contains(x) by {
                                                                    if x == childid {
                                                                        assert(upcoming@[
                                                                            olduseq.len() as int]@
                                                                            == x);
                                                                    } else {
                                                                        let i = choose|i: int|
                                                                            0 <= i < olduseq.len()
                                                                                && olduseq[i]@
                                                                                == x;
                                                                        assert(upcoming@[i]@ == x);
                                                                    }
                                                                }
                                                            }
                                                        }
                                                    } else {
                                                        proof {
                                                            let i = choose|i: int|
                                                                0 <= i < upcoming@.len()
                                                                    && upcoming@[i]@ == childid;
                                                            assert(names_set(upcoming@).contains(
                                                                childid,
                                                            ));
                                                        }
                                                    }
                                                } else {
                                                    proof {
                                                        let i = choose|i: int|
                                                            0 <= i < visited@.len()
                                                                && visited@[i]@ == childid;
                                                        assert(names_set(visited@).contains(
                                                            childid,
                                                        ));
                                                        assert(visited_upto(
                                                            items,
                                                            root,
                                                            level as nat,
                                                        ).contains(childid));
                                                    }
                                                }
                                            } else {
                                                proof {
                                                    assert(!item_is_module(items, childid));
                                                }
                                            }
                                        },
                                    }
                                    proof {
                                        assert(chv.take(c as int + 1)[c as int] == childid);
                                        assert(forall|i: int|
                                            0 <= i < c ==> chv.take(c as int + 1)[i] == chv.take(
                                                c as int,
                                            )[i]);
                                        assert forall|x: Seq<char>|
                                            chv.take(c as int).contains(x) implies chv.take(
                                            c as int + 1,
                                        ).contains(x) by {
                                            let i = choose|i: int|
                                                0 <= i < c && #[trigger] chv.take(c as int)[i]
                                                    == x;
                                            assert(chv.take(c as int + 1)[i] == x);
                                        }
                                        assert(chv.take(c as int + 1).contains(childid));
                                        assert forall|x: Seq<char>|
                                            chv.take(c as int + 1).contains(x) && item_is_module(
                                                items,
                                                x,
                                            ) implies names_set(upcoming@).contains(x)
                                            || names_set(visited@).contains(x) by {
                                            let i = choose|i: int|
                                                0 <= i < c + 1 && #[trigger] chv.take(
                                                    c as int + 1,
                                                )[i] == x;
                                            if i < c {
                                                assert(chv.take(c as int)[i] == x);
                                            } else {
                                                assert(x == childid);
                                            }
                                        }
                                        assert forall|x: Seq<char>|
                                            chv.take(c as int + 1).contains(x) && item_is_module(
                                                items,
                                                x,
                                            ) && !visited_upto(
                                                items,
                                                root,
                                                level as nat,
                                            ).contains(x) implies rel_present(
                                            d0.relationships.len() as int,
                                            diagram@.relationships,
                                            id,
                                            x,
                                        ) by {
                                            let i = choose|i: int|
                                                0 <= i < c + 1 && #[trigger] chv.take(
                                                    c as int + 1,
                                                )[i] == x;
                                            if i < c {
                                                assert(chv.take(c as int).contains(x)) by {
                                                    assert(chv.take(c as int)[i] == x);
                                                }
                                            } else {
                                                assert(x == childid);
                                            }
                                        }
                                        assert forall|x: Seq<char>|
                                            #[trigger] chv.take(c as int + 1).contains(x)
                                            implies find_item(items, x) is Some by {
                                            let i = choose|i: int|
                                                0 <= i < c + 1 && #[trigger] chv.take(
                                                    c as int + 1,
                                                )[i] == x;
                                            if i < c {
                                                assert(chv.take(c as int).contains(x)) by {
                                                    assert(chv.take(c as int)[i] == x);
                                                }
                                            } else {
                                                assert(x == childid);
                                            }
                                        }
                                        assert forall|jj: int|
                                            relbase <= jj < diagram@.relationships.len() implies (
                                        #[trigger] diagram@.relationships[jj]) == contains_rel(
                                            id,
                                            diagram@.relationships[jj].to,
                                        ) && chv.take(c as int + 1).contains(
                                            diagram@.relationships[jj].to,
                                        ) by {
                                            if chv.take(c as int).contains(
                                                diagram@.relationships[jj].to,
                                            ) {
                                            } else {
                                                assert(diagram@.relationships[jj].to == childid);
                                            }
                                        }
                                    }
                                    c = c + 1;
                                }
                                proof {
                                    assert(chv.take(children@.len() as int) =~= chv);
                                    // the edges this level owes, now including those from `id`
                                    assert forall|p: Seq<char>, c2: Seq<char>|
                                        names_set(fseq.take(j as int + 1)).contains(p)
                                            && !prev_v.contains(p) && #[trigger] mod_edge(
                                            items,
                                            p,
                                            c2,
                                        ) && !visited_upto(
                                            items,
                                            root,
                                            level as nat,
                                        ).contains(c2) implies rel_present(
                                        d0.relationships.len() as int,
                                        diagram@.relationships,
                                        p,
                                        c2,
                                    ) by {
                                        let i = choose|i: int|
                                            0 <= i < j + 1 && (#[trigger] fseq.take(
                                                j as int + 1,
                                            )[i])@ == p;
                                        if i < j {
                                            assert(names_set(fseq.take(j as int)).contains(p)) by {
                                                assert(fseq.take(j as int)[i]@ == p);
                                            }
                                        } else {
                                            assert(p == id);
                                            assert(module_children(items, id).contains(c2));
                                            assert(item_is_module(items, c2));
                                            assert(chv.take(children@.len() as int).contains(c2));
                                        }
                                    }
                                    // every child of every visited module resolves
                                    assert forall|p: Seq<char>, c2: Seq<char>|
                                        #[trigger] names_set(visited@).contains(p)
                                            && #[trigger] module_children(items, p).contains(c2)
                                        implies find_item(items, c2) is Some by {
                                        if p == id {
                                            assert(chv.take(children@.len() as int).contains(c2));
                                        }
                                    }
                                    assert forall|p: Seq<char>, c2: Seq<char>|
                                        names_set(fseq.take(j as int + 1)).contains(p)
                                            && !prev_v.contains(p) && #[trigger] mod_edge(
                                            items,
                                            p,
                                            c2,
                                        ) implies names_set(upcoming@).contains(c2) || names_set(
                                        visited@,
                                    ).contains(c2) by {
                                        let i = choose|i: int|
                                            0 <= i < j + 1 && (#[trigger] fseq.take(
                                                j as int + 1,
                                            )[i])@ == p;
                                        if i < j {
                                            assert(names_set(fseq.take(j as int)).contains(p)) by {
                                                assert(fseq.take(j as int)[i]@ == p);
                                            }
                                        } else {
                                            assert(p == id);
                                            assert(module_children(items, id).contains(c2));
                                            assert(item_is_module(items, c2));
                                        }
                                    }
                                }
                            },
                        }
                    },
                }
            } else {
                proof {
                    let i = choose|i: int|
                        0 <= i < visited@.len() && visited@[i]@ == fseq[j as int]@;
                    assert(names_set(visited@).contains(fseq[j as int]@));
                    assert(names_set(fseq.take(j as int + 1)) =~= names_set(
                        fseq.take(j as int),
                    ).insert(fseq[j as int]@)) by {
                        assert(fseq.take(j as int + 1)[j as int]@ == fseq[j as int]@);
                        assert(forall|i2: int|
                            0 <= i2 < j ==> fseq.take(j as int + 1)[i2] == fseq.take(
                                j as int,
                            )[i2]);
                        assert forall|x: Seq<char>|
                            names_set(fseq.take(j as int)).insert(fseq[j as int]@).contains(x)
                            implies names_set(fseq.take(j as int + 1)).contains(x) by {
                            if x == fseq[j as int]@ {
                                assert(fseq.take(j as int + 1)[j as int]@ == x);
                            } else {
                                let i2 = choose|i2: int|
                                    0 <= i2 < j && fseq.take(j as int)[i2]@ == x;
                                assert(fseq.take(j as int + 1)[i2]@ == x);
                            }
                        }
                    }
                    assert(names_set(visited@) =~= prev_v.union(
                        names_set(fseq.take(j as int + 1)),
                    ));
                    assert forall|p: Seq<char>, c3: Seq<char>|
                        names_set(fseq.take(j as int + 1)).contains(p) && !prev_v.contains(p)
                            && #[trigger] mod_edge(items, p, c3) && !visited_upto(
                            items,
                            root,
                            level as nat,
                        ).contains(c3) implies rel_present(
                        d0.relationships.len() as int,
                        diagram@.relationships,
                        p,
                        c3,
                    ) by {
                        let i2 = choose|i2: int|
                            0 <= i2 < j + 1 && (#[trigger] fseq.take(j as int + 1)[i2])@ == p;
                        if i2 < j {
                            assert(names_set(fseq.take(j as int)).contains(p)) by {
                                assert(fseq.take(j as int)[i2]@ == p);
                            }
                        } else {
                            // this frontier entry was already visited: it was processed
                            // earlier this level, or belongs to an earlier level
                            assert(p == fseq[j as int]@);
                            assert(names_set(visited@).contains(p));
                            assert(prev_v.union(names_set(fseq.take(j as int))).contains(p));
                            assert(names_set(fseq.take(j as int)).contains(p));
                        }
                    }
                }
            }
            j = j + 1;
        }
        proof {
            assert(fseq.take(fseq.len() as int) =~= fseq);
            let vnew = names_set(visited@);
            assert(vnew == prev_v.union(names_set(fseq)));
            let pl = frontier_at(items, root, level as nat);
            let ul = visited_upto(items, root, level as nat);
            if level == 0 {
                assert(names_set(fseq) =~= Set::empty().insert(root)) by {
                    assert(fseq[0]@ == root);
                    assert forall|x: Seq<char>| names_set(fseq).contains(x)
                        implies Set::empty().insert(root).contains(x) by {
                        let i = choose|i: int| 0 <= i < fseq.len() && fseq[i]@ == x;
                        assert(i == 0);
                    }
                }
                assert(ul =~= Set::empty().insert(root));
                assert(vnew =~= ul);
            } else {
                assert(ul =~= upto_before(items, root, level).union(pl));
                assert(pl.disjoint(upto_before(items, root, level))) by {
                    assert(pl == step_set(
                        items,
                        frontier_at(items, root, (level - 1) as nat),
                    ).difference(visited_upto(items, root, (level - 1) as nat)));
                }
                assert(vnew =~= ul) by {
                    assert forall|x: Seq<char>| ul.contains(x) implies vnew.contains(x) by {
                        if pl.contains(x) {
                            assert(names_set(fseq).contains(x));
                        }
                    }
                    assert forall|x: Seq<char>| vnew.contains(x) implies ul.contains(x) by {
                        if names_set(fseq).contains(x) {
                            assert(pl.union(prev_v).contains(x));
                        }
                    }
                }
            }
            // the next frontier
            let pnext = frontier_at(items, root, (level + 1) as nat);
            assert(pnext == step_set(items, pl).difference(ul));
            assert forall|u: Seq<char>| #[trigger] names_set(upcoming@).contains(u)
                implies pnext.union(ul).contains(u) by {
                let p = choose|p: Seq<char>|
                    names_set(fseq).contains(p) && !prev_v.contains(p) && #[trigger] mod_edge(
                        items,
                        p,
                        u,
                    );
                assert(pl.contains(p));
                assert(step_set(items, pl).contains(u));
            }
            assert forall|x: Seq<char>| pnext.contains(x) implies names_set(
                upcoming@,
            ).contains(x) by {
                let p = choose|p: Seq<char>| pl.contains(p) && #[trigger] mod_edge(items, p, x);
                assert(names_set(fseq).contains(p));
                assert(!prev_v.contains(p)) by {
                    if level == 0 {
                    } else {
                        assert(pl.disjoint(upto_before(items, root, level)));
                    }
                }
                assert(names_set(upcoming@).contains(x) || vnew.contains(x));
                assert(!ul.contains(x));
            }
            // the edges owed by levels up to and including this one are present
            assert forall|p: Seq<char>, c3: Seq<char>|
                (#[trigger] mod_edge(items, p, c3) && exists|k: nat|
                    k < level + 1 && #[trigger] frontier_at(items, root, k).contains(p)
                        && !visited_upto(items, root, k).contains(c3)) implies rel_present(
                d0.relationships.len() as int,
                diagram@.relationships,
                p,
                c3,
            ) by {
                let k = choose|k: nat|
                    k < level + 1 && #[trigger] frontier_at(items, root, k).contains(p)
                        && !visited_upto(items, root, k).contains(c3);
                if k < level {
                    assert(exists|k2: nat|
                        k2 < level && #[trigger] frontier_at(items, root, k2).contains(p)
                            && !visited_upto(items, root, k2).contains(c3));
                } else {
                    assert(pl.contains(p));
                    assert(names_set(fseq).contains(p));
                    assert(!prev_v.contains(p)) by {
                        if level == 0 {
                        } else {
                            assert(pl.disjoint(upto_before(items, root, level)));
                        }
                    }
                    assert(names_set(fseq.take(fseq.len() as int)).contains(p));
                }
            }
        }
        frontier = upcoming;
        if !unbounded {
            depth = depth + 1;
        }
        proof {
            level = level + 1;
            assert(names_set(visited@) == upto_before(items, root, level));
            assert(frontier_at(items, root, level as nat).subset_of(names_set(frontier@)));
            assert(names_set(frontier@).subset_of(
                frontier_at(items, root, level as nat).union(upto_before(items, root, level)),
            ));
            if visited@.len() == vlen0 {
                assert(frontier@.len() == 0);
            }
        }
    }
    proof {
        let vfin = names_set(visited@);
        assert(vfin == upto_before(items, root, level));
        if frontier.len() == 0 {
            assert(level >= 1);
            assert(frontier_at(items, root, level as nat) =~= Set::empty()) by {
                assert forall|x: Seq<char>|
                    !names_set(frontier@).contains(x) by {
                    if names_set(frontier@).contains(x) {
                        let i = choose|i: int| 0 <= i < frontier@.len() && frontier@[i]@ == x;
                    }
                }
            }
            if unbounded {
                lemma_reach_is_upto(items, root, level as nat);
                assert(walk_visited(items, root, max_depth) == vfin);
            } else {
                // exited with the frontier empty, possibly below the limit
                if level < limit as int {
                    lemma_stable(items, root, level as nat, (limit - 1) as nat);
                    assert(visited_upto(items, root, (limit - 1) as nat) == visited_upto(
                        items,
                        root,
                        level as nat,
                    ));
                    assert(visited_upto(items, root, level as nat) =~= upto_before(
                        items,
                        root,
                        level,
                    ));
                    assert(limit >= 1);
                    assert(walk_visited(items, root, max_depth) == vfin);
                } else {
                    assert(level == limit as int);
                    assert(limit >= 1);
                    assert(walk_visited(items, root, max_depth) == vfin);
                }
            }
        } else {
            assert(!unbounded && depth == limit);
            assert(level == limit as int);
            if limit == 0 {
                assert(vfin =~= Set::empty());
                assert(walk_visited(items, root, max_depth) =~= Set::empty());
            } else {
                assert(walk_visited(items, root, max_depth) == vfin);
            }
        }
        assert(diagram_tracks(diagram@, d0, items, walk_visited(items, root, max_depth)));
        assert forall|p: Seq<char>, c3: Seq<char>|
            #[trigger] edge_forced(items, root, max_depth, p, c3) implies rel_present(
            d0.relationships.len() as int,
            diagram@.relationships,
            p,
            c3,
        ) by {
            let k = choose|k: nat|
                level_processed(max_depth, k) && #[trigger] frontier_at(items, root, k).contains(
                    p,
                ) && !visited_upto(items, root, k).contains(c3);
            if k >= level {
                if frontier.len() == 0 {
                    lemma_stable(items, root, level as nat, k);
                    assert(false);
                } else {
                    assert(!unbounded && level == limit as int);
                    assert(false);
                }
            }
            assert(exists|k2: nat|
                k2 < level && #[trigger] frontier_at(items, root, k2).contains(p)
                    && !visited_upto(items, root, k2).contains(c3));
        }
    }
    Ok(())
}

/// A fresh, unfiltered diagram titled for a crate overview, before any walk.
pub open spec fn fresh_overview() -> crate::diagram::DiagramV {
    crate::diagram::DiagramV {
        title: "Crate Overview"@,
        elements: Seq::empty(),
        relationships: Seq::empty(),
        filter: Seq::empty(),
    }
}

/// The mathematical values of a crate map's entries.
pub open spec fn entries_view(cs: Seq<CrateEntry>) -> Seq<CrateEntryV> {
    cs.map_values(|e: CrateEntry| e@)
}

/// Whether the relationship is a containment edge some crate of the map
/// contributes under this depth limit.
pub open spec fn rel_from_some_crate(
    r: crate::diagram::RelationshipV,
    cs: Seq<CrateEntryV>,
    max_depth: Option<u32>,
) -> bool {
    exists|k: int|
        0 <= k < cs.len() && #[trigger] rel_ok(
            r,
            cs[k].data.items,
            crate_walk_set(cs, k, max_depth),
        )
}

/// The set of ids one crate of the map visits under this depth limit.
pub open spec fn crate_walk_set(cs: Seq<CrateEntryV>, k: int, max_depth: Option<u32>) -> Set<
    Seq<char>,
> {
    walk_visited(cs[k].data.items, cs[k].data.root, max_depth)
}

/// Whether one of the first `end` crates of the map visits the id `x`.
pub open spec fn any_crate_visits(
    cs: Seq<CrateEntryV>,
    end: int,
    max_depth: Option<u32>,
    x: Seq<char>,
) -> bool {
    exists|k: int| 0 <= k < end && #[trigger] crate_walk_set(cs, k, max_depth).contains(x)
}

/// Builds the module-tree diagram of the metadata map: in `Module` level it
/// resolves the named crate — absence is a `CrateNotFound` error — and walks
/// it from its root; in `Crate` level it walks every crate of the map in
/// order into one shared diagram, merging by element id.
pub fn walker(max_depth: Option<u32>, crates: &Vec<CrateEntry>, level: Level) -> (res: Result<
    Diagram,
    Error,
>)
    ensures
        match res {
            Result::Ok(d) => d.wf() && (match level {
                Level::Module { crate_name } => match find_crate(
                    entries_view(crates@),
                    crate_name@,
                ) {
                    Option::Some(cv) => {
                        &&& item_is_module(cv.items, cv.root)
                        &&& diagram_tracks(
                            d@,
                            fresh_overview(),
                            cv.items,
                            walk_visited(cv.items, cv.root, max_depth),
                        )
                        &&& (forall|p: Seq<char>, c: Seq<char>|
                            #[trigger] edge_forced(cv.items, cv.root, max_depth, p, c)
                                ==> rel_present(0, d@.relationships, p, c))
                        &&& (forall|p: Seq<char>, c: Seq<char>|
                            #[trigger] walk_visited(cv.items, cv.root, max_depth).contains(p)
                                && #[trigger] module_children(cv.items, p).contains(c)
                                ==> find_item(cv.items, c) is Some)
                        &&& (children_unique(cv.items) ==> (forall|j1: int, j2: int|
                            0 <= j1 < j2 < d@.relationships.len()
                                ==> #[trigger] d@.relationships[j1]
                                != #[trigger] d@.relationships[j2]))
                    },
                    Option::None => false,
                },
                Level::Crate => {
                    &&& d@.title == "Crate Overview"@
                    &&& d@.filter == Seq::<Seq<char>>::empty()
                    &&& (forall|x: Seq<char>|
                        #[trigger] has_id(d@.elements, x) <==> any_crate_visits(
                            entries_view(crates@),
                            crates@.len() as int,
                            max_depth,
                            x,
                        ))
                    &&& (forall|j: int|
                        0 <= j < d@.elements.len() ==> exists|k: int|
                            0 <= k < crates@.len() && #[trigger] crate_walk_set(
                                entries_view(crates@),
                                k,
                                max_depth,
                            ).contains((#[trigger] d@.elements[j]).id) && d@.elements[j]
                                == walk_element(
                                entries_view(crates@)[k].data.items,
                                d@.elements[j].id,
                            ))
                    &&& (forall|j: int|
                        0 <= j < d@.relationships.len() ==> rel_from_some_crate(
                            #[trigger] d@.relationships[j],
                            entries_view(crates@),
                            max_depth,
                        ))
                },
            }),
            Result::Err(e) => match level {
                Level::Module { crate_name } => match e {
                    Error::CrateNotFound { name } => name@ == crate_name@ && find_crate(
                        entries_view(crates@),
                        crate_name@,
                    ) is None,
                    Error::MalformedMetadata { id } => match find_crate(
                        entries_view(crates@),
                        crate_name@,
                    ) {
                        Option::Some(cv) => find_item(cv.items, id@) is None || (id@ == cv.root
                            && !item_is_module(cv.items, cv.root)),
                        Option::None => false,
                    },
                    _ => false,
                },
                Level::Crate => match e {
                    Error::MalformedMetadata { id } => exists|k: int|
                        0 <= k < crates@.len() && (find_item(
                            (#[trigger] crates@[k])@.data.items,
                            id@,
                        ) is None || (id@ == crates@[k]@.data.root && !item_is_module(
                            crates@[k]@.data.items,
                            crates@[k]@.data.root,
                        ))),
                    _ => false,
                },
            },
        },
        match level {
            Level::Module { crate_name } => match find_crate(
                entries_view(crates@),
                crate_name@,
            ) {
                Option::Some(cv) => ((item_is_module(cv.items, cv.root) && index_closed(cv.items))
                    ==> res is Ok) && (!item_is_module(cv.items, cv.root) ==> (res matches
                    Result::Err(Error::MalformedMetadata { id }) && id@ == cv.root)),
                Option::None => true,
            },
            Level::Crate => (forall|k: int|
                0 <= k < crates@.len() ==> item_is_module(
                    (#[trigger] crates@[k])@.data.items,
                    crates@[k]@.data.root,
                ) && index_closed(crates@[k]@.data.items)) ==> res is Ok,
        },
{
    let mut diagram = Diagram::new("Crate Overview".to_owned(), String::new());
    match level {
        Level::Module { crate_name } => {
            match lookup_crate(crates, &crate_name) {
                Option::None => Err(Error::CrateNotFound { name: crate_name }),
                Option::Some(data) => {
                    proof {
                        assert(diagram@ == fresh_overview());
                    }
                    match walk_crate(&mut diagram, data, max_depth) {
                        Result::Ok(_) => Ok(diagram),
                        Result::Err(e) => Err(e),
                    }
                },
            }
        },
        Level::Crate => {
            let ghost csv = entries_view(crates@);
            proof {
                assert(diagram@ == fresh_overview());
                assert(has_id(diagram@.elements, Seq::<char>::empty()) == false) by {
                    assert(diagram@.elements.len() == 0);
                }
            }
            let mut k: usize = 0;
            while k < crates.len()
                invariant
                    level is Crate,
                    csv == entries_view(crates@),
                    max_depth == max_depth,
                    0 <= k <= crates@.len(),
                    diagram.wf(),
                    diagram@.title == "Crate Overview"@,
                    diagram@.filter == Seq::<Seq<char>>::empty(),
                    forall|x: Seq<char>|
                        #[trigger] has_id(diagram@.elements, x) <==> any_crate_visits(
                            csv,
                            k as int,
                            max_depth,
                            x,
                        ),
                    forall|j: int|
                        0 <= j < diagram@.elements.len() ==> exists|m: int|
                            0 <= m < csv.len() && #[trigger] crate_walk_set(
                                csv,
                                m,
                                max_depth,
                            ).contains((#[trigger] diagram@.elements[j]).id)
                                && diagram@.elements[j] == walk_element(
                                csv[m].data.items,
                                diagram@.elements[j].id,
                            ),
                    forall|j: int|
                        0 <= j < diagram@.relationships.len() ==> rel_from_some_crate(
                            #[trigger] diagram@.relationships[j],
                            csv,
                            max_depth,
                        ),
                decreases crates@.len() - k,
            {
                let ghost dpre = diagram@;
                let ghost kk = k as int;
                match walk_crate(&mut diagram, &crates[k].data, max_depth) {
                    Result::Ok(_) => {},
                    Result::Err(e) => {
                        proof {
                            assert(csv[kk].data == crates@[kk].data@);
                        }
                        return Err(e);
                    },
                }
                proof {
                    assert(csv[kk].data == crates@[kk].data@);
                    let items_k = csv[kk].data.items;
                    let wk = crate_walk_set(csv, kk, max_depth);
                    assert(diagram_tracks(diagram@, dpre, items_k, wk));
                    assert forall|x: Seq<char>| #[trigger] has_id(diagram@.elements, x)
                        <==> any_crate_visits(csv, kk + 1, max_depth, x) by {
                        if has_id(diagram@.elements, x) {
                            if has_id(dpre.elements, x) {
                                let m = choose|m: int|
                                    0 <= m < kk && #[trigger] crate_walk_set(
                                        csv,
                                        m,
                                        max_depth,
                                    ).contains(x);
                                assert(crate_walk_set(csv, m, max_depth).contains(x));
                            } else {
                                assert(wk.contains(x));
                            }
                        }
                        if any_crate_visits(csv, kk + 1, max_depth, x) {
                            let m = choose|m: int|
                                0 <= m < kk + 1 && #[trigger] crate_walk_set(
                                    csv,
                                    m,
                                    max_depth,
                                ).contains(x);
                            if m < kk {
                                assert(any_crate_visits(csv, kk, max_depth, x));
                                assert(has_id(dpre.elements, x));
                            } else {
                                assert(wk.contains(x));
                            }
                        }
                    }
                    assert forall|j: int|
                        0 <= j < diagram@.elements.len() implies exists|m: int|
                        0 <= m < csv.len() && #[trigger] crate_walk_set(
                            csv,
                            m,
                            max_depth,
                        ).contains((#[trigger] diagram@.elements[j]).id) && diagram@.elements[j]
                            == walk_element(csv[m].data.items, diagram@.elements[j].id) by {
                        let e = diagram@.elements[j];
                        if wk.contains(e.id) {
                            assert(e == walk_element(items_k, e.id));
                            assert(crate_walk_set(csv, kk, max_depth).contains(e.id));
                        } else {
                            assert(has_elem(dpre.elements, e));
                            let p = choose|p: int|
                                0 <= p < dpre.elements.len() && dpre.elements[p] == e;
                            let m = choose|m: int|
                                0 <= m < csv.len() && #[trigger] crate_walk_set(
                                    csv,
                                    m,
                                    max_depth,
                                ).contains((dpre.elements[p]).id) && dpre.elements[p]
                                    == walk_element(csv[m].data.items, dpre.elements[p].id);
                            assert(crate_walk_set(csv, m, max_depth).contains(e.id));
                        }
                    }
                    assert forall|j: int|
                        0 <= j < diagram@.relationships.len() implies rel_from_some_crate(
                        #[trigger] diagram@.relationships[j],
                        csv,
                        max_depth,
                    ) by {
                        if j < dpre.relationships.len() {
                            assert(diagram@.relationships[j] == dpre.relationships[j]);
                        } else {
                            assert(rel_ok(diagram@.relationships[j], items_k, wk));
                            assert(rel_ok(
                                diagram@.relationships[j],
                                csv[kk].data.items,
                                crate_walk_set(csv, kk, max_depth),
                            ));
                        }
                    }
                }
                k = k + 1;
            }
            Ok(diagram)
        },
    }
}

} // verus!
