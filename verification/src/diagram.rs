//! The diagram model: elements keyed by id, directed relationships, and a
//! render-time filter set of suppressed ids.
//!
//! The element mapping is kept as a list sorted by id (ascending, by code
//! point), so that ids are unique and iteration order is deterministic.
//! Relationships keep insertion order and may dangle until [`Diagram::clean`]
//! removes every edge whose endpoint is not an element.

use vstd::prelude::*;

use crate::args::OutputFormat;
use crate::strutil::{
    contains_name, lemma_lex_connected, lemma_lex_irrefl, lemma_lex_trans, lex_lt, names_contain,
    seg_views, split_commas, split_commas_exec, str_lt,
};

verus! {

/// A rendering hint for an element; no behavior depends on it.
#[derive(Clone, Copy)]
pub enum ElementKind {
    Container,
    ContainerDatabase,
    ExternalContainer,
}

/// The text an element kind renders as.
pub open spec fn kind_label(k: ElementKind) -> Seq<char> {
    match k {
        ElementKind::Container => "Container"@,
        ElementKind::ContainerDatabase => "ContainerDb"@,
        ElementKind::ExternalContainer => "ExternalContainer"@,
    }
}

impl ElementKind {
    /// The text this kind renders as.
    pub fn label(&self) -> (r: &'static str)
        ensures
            r@ == kind_label(*self),
    {
        match self {
            ElementKind::Container => "Container",
            ElementKind::ContainerDatabase => "ContainerDb",
            ElementKind::ExternalContainer => "ExternalContainer",
        }
    }
}

/// The direction a relationship renders with.
#[derive(Clone, Copy)]
pub enum RelationshipKind {
    BiRel,
    Rel,
}

/// The text a relationship kind renders as.
pub open spec fn rel_kind_label(k: RelationshipKind) -> Seq<char> {
    match k {
        RelationshipKind::Rel => "Rel"@,
        RelationshipKind::BiRel => "BiRel"@,
    }
}

impl RelationshipKind {
    /// The text this kind renders as.
    pub fn label(&self) -> (r: &'static str)
        ensures
            r@ == rel_kind_label(*self),
    {
        match self {
            RelationshipKind::Rel => "Rel",
            RelationshipKind::BiRel => "BiRel",
        }
    }
}

/// A node of the diagram.
pub struct Element {
    pub kind: ElementKind,
    pub id: String,
    pub title: String,
    pub description: String,
}

/// The mathematical value of an [`Element`].
pub ghost struct ElementV {
    pub kind: ElementKind,
    pub id: Seq<char>,
    pub title: Seq<char>,
    pub description: Seq<char>,
}

impl View for Element {
    type V = ElementV;

    open spec fn view(&self) -> ElementV {
        ElementV {
            kind: self.kind,
            id: self.id@,
            title: self.title@,
            description: self.description@,
        }
    }
}

/// A directed edge of the diagram, with a label.
#[derive(Clone)]
pub struct Relationship {
    pub kind: RelationshipKind,
    pub from: String,
    pub to: String,
    pub description: String,
}

/// The mathematical value of a [`Relationship`].
pub ghost struct RelationshipV {
    pub kind: RelationshipKind,
    pub from: Seq<char>,
    pub to: Seq<char>,
    pub description: Seq<char>,
}

impl View for Relationship {
    type V = RelationshipV;

    open spec fn view(&self) -> RelationshipV {
        RelationshipV {
            kind: self.kind,
            from: self.from@,
            to: self.to@,
            description: self.description@,
        }
    }
}

impl Relationship {
    /// A field-for-field copy whose value is known to equal this one's.
    pub fn duplicate(&self) -> (r: Relationship)
        ensures
            r@ == self@,
    {
        Relationship {
            kind: self.kind,
            from: self.from.clone(),
            to: self.to.clone(),
            description: self.description.clone(),
        }
    }
}

/// The element list is strictly ascending by id, so every id occurs once.
pub open spec fn elements_sorted(es: Seq<ElementV>) -> bool {
    forall|i: int, j: int| 0 <= i < j < es.len() ==> lex_lt(es[i].id, es[j].id)
}

/// Whether some element of `es` carries the id `x`.
pub open spec fn has_id(es: Seq<ElementV>, x: Seq<char>) -> bool {
    exists|k: int| 0 <= k < es.len() && es[k].id == x
}

/// Whether `es` holds exactly the element value `e`.
pub open spec fn has_elem(es: Seq<ElementV>, e: ElementV) -> bool {
    exists|k: int| 0 <= k < es.len() && es[k] == e
}

/// Whether the id `x` is in the filter set `f`.
pub open spec fn in_filter(f: Seq<Seq<char>>, x: Seq<char>) -> bool {
    exists|k: int| 0 <= k < f.len() && f[k] == x
}

/// The relationships of `rs` from position `i` on whose two endpoints both
/// stand in `es`; the order is kept.
pub open spec fn kept_rels_from(rs: Seq<RelationshipV>, es: Seq<ElementV>, i: int) -> Seq<
    RelationshipV,
>
    decreases rs.len() - i,
{
    if i < 0 || i >= rs.len() {
        Seq::empty()
    } else {
        (if has_id(es, rs[i].from) && has_id(es, rs[i].to) {
            seq![rs[i]]
        } else {
            Seq::empty()
        }) + kept_rels_from(rs, es, i + 1)
    }
}

/// The context-diagram declaration line of one element.
pub open spec fn c4_element_line(e: ElementV) -> Seq<char> {
    "\t"@ + kind_label(e.kind) + "("@ + e.id + ", \""@ + e.title + "\", \""@ + e.description
        + "\")\n"@
}

/// The context-diagram lines of the elements of `es` from position `i` on,
/// skipping the ids of the filter set `f`.
pub open spec fn c4_elements_from(es: Seq<ElementV>, f: Seq<Seq<char>>, i: int) -> Seq<char>
    decreases es.len() - i,
{
    if i < 0 || i >= es.len() {
        Seq::empty()
    } else {
        (if in_filter(f, es[i].id) {
            Seq::empty()
        } else {
            c4_element_line(es[i])
        }) + c4_elements_from(es, f, i + 1)
    }
}

/// The context-diagram line of one relationship.
pub open spec fn c4_rel_line(r: RelationshipV) -> Seq<char> {
    "\t"@ + rel_kind_label(r.kind) + "("@ + r.from + ", "@ + r.to + ", \""@ + r.description
        + "\")\n"@
}

/// The context-diagram lines of the relationships of `rs` from position `i`
/// on, skipping every edge with an endpoint in the filter set `f`.
pub open spec fn c4_rels_from(rs: Seq<RelationshipV>, f: Seq<Seq<char>>, i: int) -> Seq<char>
    decreases rs.len() - i,
{
    if i < 0 || i >= rs.len() {
        Seq::empty()
    } else {
        (if in_filter(f, rs[i].from) || in_filter(f, rs[i].to) {
            Seq::empty()
        } else {
            c4_rel_line(rs[i])
        }) + c4_rels_from(rs, f, i + 1)
    }
}

/// The whole context-diagram text of a diagram value.
pub open spec fn render_c4_spec(d: DiagramV) -> Seq<char> {
    "C4Context\n"@ + "\ttitle "@ + d.title + "\n"@ + c4_elements_from(d.elements, d.filter, 0)
        + c4_rels_from(d.relationships, d.filter, 0)
}

/// The graph-description line of one edge.
pub open spec fn gv_edge_line(r: RelationshipV) -> Seq<char> {
    "  \""@ + r.from + "\" -> \""@ + r.to + "\"\n"@
}

/// The graph-description lines of the edges of `rs` from position `i` on,
/// skipping every edge with an endpoint in the filter set `f`.
pub open spec fn gv_edges_from(rs: Seq<RelationshipV>, f: Seq<Seq<char>>, i: int) -> Seq<char>
    decreases rs.len() - i,
{
    if i < 0 || i >= rs.len() {
        Seq::empty()
    } else {
        (if in_filter(f, rs[i].from) || in_filter(f, rs[i].to) {
            Seq::empty()
        } else {
            gv_edge_line(rs[i])
        }) + gv_edges_from(rs, f, i + 1)
    }
}

/// The whole graph-description text of a diagram value. This format is
/// edge-only: an element without an edge does not appear in it.
pub open spec fn render_graphviz_spec(d: DiagramV) -> Seq<char> {
    "digraph "@ + d.title + " {\n"@ + gv_edges_from(d.relationships, d.filter, 0) + "}\n"@
}

/// The text a diagram value renders to in the chosen format.
pub open spec fn render_spec(d: DiagramV, format: OutputFormat) -> Seq<char> {
    match format {
        OutputFormat::C4 => render_c4_spec(d),
        OutputFormat::Graphviz => render_graphviz_spec(d),
    }
}

/// The mathematical value of a [`Diagram`].
pub ghost struct DiagramV {
    pub title: Seq<char>,
    pub elements: Seq<ElementV>,
    pub relationships: Seq<RelationshipV>,
    pub filter: Seq<Seq<char>>,
}

/// The diagram: a titled element/relationship graph with a filter set.
pub struct Diagram {
    title: String,
    elements: Vec<Element>,
    relationships: Vec<Relationship>,
    filter: Vec<String>,
}

impl View for Diagram {
    type V = DiagramV;

    closed spec fn view(&self) -> DiagramV {
        DiagramV {
            title: self.title@,
            elements: self.elements@.map_values(|e: Element| e@),
            relationships: self.relationships@.map_values(|r: Relationship| r@),
            filter: seg_views(self.filter@),
        }
    }
}

/// The filter set parsed from a comma-separated string: empty input yields
/// the empty set, not a set holding one empty id.
pub open spec fn filter_of(s: Seq<char>) -> Seq<Seq<char>> {
    if s.len() == 0 {
        Seq::empty()
    } else {
        split_commas(s)
    }
}

impl Diagram {
    /// The element list is sorted strictly ascending by id.
    pub open spec fn wf(&self) -> bool {
        elements_sorted(self@.elements)
    }

    /// A fresh diagram with a title and a comma-separated filter string.
    pub fn new(title: String, filter_str: String) -> (d: Diagram)
        ensures
            d.wf(),
            d@.title == title@,
            d@.elements == Seq::<ElementV>::empty(),
            d@.relationships == Seq::<RelationshipV>::empty(),
            d@.filter == filter_of(filter_str@),
    {
        let filter: Vec<String> = if filter_str.as_str().unicode_len() == 0 {
            Vec::new()
        } else {
            split_commas_exec(filter_str.as_str())
        };
        let d = Diagram { title, elements: Vec::new(), relationships: Vec::new(), filter };
        proof {
            assert(d@.elements =~= Seq::<ElementV>::empty());
            assert(d@.relationships =~= Seq::<RelationshipV>::empty());
            assert(d@.filter =~= filter_of(filter_str@));
        }
        d
    }

    /// Whether an element with this id stands in the diagram.
    pub fn has_element(&self, id: &String) -> (r: bool)
        ensures
            r == has_id(self@.elements, id@),
    {
        let mut k: usize = 0;
        while k < self.elements.len()
            invariant
                0 <= k <= self.elements@.len(),
                forall|j: int| 0 <= j < k ==> self@.elements[j].id != id@,
            decreases self.elements@.len() - k,
        {
            if self.elements[k].id.eq(id) {
                proof {
                    assert(self@.elements[k as int].id == id@);
                }
                return true;
            }
            k = k + 1;
        }
        false
    }

    /// Inserts an element, or overwrites the element carrying the same id.
    ///
    /// The element mapping afterwards holds exactly the new element under its
    /// id and the old elements under every other id, still sorted.
    pub fn add_element(&mut self, element: Element)
        requires
            old(self).wf(),
        ensures
            final(self).wf(),
            final(self)@.title == old(self)@.title,
            final(self)@.relationships == old(self)@.relationships,
            final(self)@.filter == old(self)@.filter,
            has_elem(final(self)@.elements, element@),
            forall|k: int|
                0 <= k < final(self)@.elements.len() ==> (final(self)@.elements[k] == element@ || (
                final(self)@.elements[k].id != element@.id && has_elem(
                    old(self)@.elements,
                    final(self)@.elements[k],
                ))),
            forall|k: int|
                0 <= k < old(self)@.elements.len() && old(self)@.elements[k].id != element@.id
                    ==> has_elem(final(self)@.elements, old(self)@.elements[k]),
            forall|x: Seq<char>|
                #[trigger] has_id(final(self)@.elements, x) <==> (has_id(old(self)@.elements, x)
                    || x == element@.id),
            final(self)@.elements.len() == old(self)@.elements.len() + (if has_id(
                old(self)@.elements,
                element@.id,
            ) {
                0int
            } else {
                1int
            }),
    {
        let ghost oldes = self@.elements;
        let ghost ev = element@;
        let mut i: usize = 0;
        while i < self.elements.len() && str_lt(
            self.elements[i].id.as_str(),
            element.id.as_str(),
        )
            invariant
                0 <= i <= self.elements@.len(),
                self@.elements == oldes,
                elements_sorted(oldes),
                ev == element@,
                forall|j: int| 0 <= j < i ==> lex_lt(oldes[j].id, ev.id),
            decreases self.elements@.len() - i,
        {
            i = i + 1;
        }
        proof {
            // an id below or above another differs from it
            assert forall|j: int|
                0 <= j < oldes.len() && (lex_lt(oldes[j].id, ev.id) || lex_lt(
                    ev.id,
                    oldes[j].id,
                )) implies oldes[j].id != ev.id by {
                lemma_lex_irrefl(ev.id);
            }
        }
        if i < self.elements.len() && self.elements[i].id.eq(&element.id) {
            let ghost ii = i as int;
            self.elements.set(i, element);
            proof {
                assert(self@.elements =~= oldes.update(ii, ev));
                assert forall|j: int| ii < j < oldes.len() implies lex_lt(
                    ev.id,
                    oldes[j].id,
                ) by {
                    assert(lex_lt(oldes[ii].id, oldes[j].id));
                }
                assert(self@.elements[ii] == ev);
                assert forall|k: int|
                    0 <= k < oldes.len() && oldes[k].id != ev.id implies has_elem(
                    self@.elements,
                    oldes[k],
                ) by {
                    assert(self@.elements[k] == oldes[k]);
                }
                assert forall|x: Seq<char>|
                    has_id(oldes, x) implies #[trigger] has_id(self@.elements, x) by {
                    let m = choose|m: int| 0 <= m < oldes.len() && oldes[m].id == x;
                    if m == ii {
                        assert(self@.elements[ii].id == ev.id);
                        assert(oldes[ii].id == ev.id);
                    } else {
                        assert(self@.elements[m].id == x);
                    }
                }
                assert(has_id(oldes, ev.id)) by {
                    assert(oldes[ii].id == ev.id);
                }
            }
        } else {
            proof {
                if i < oldes.len() {
                    // not below and not equal, so the new id is below
                    assert(!lex_lt(oldes[i as int].id, ev.id));
                    assert(oldes[i as int].id != ev.id);
                    if !lex_lt(ev.id, oldes[i as int].id) {
                        lemma_lex_connected(oldes[i as int].id, ev.id);
                    }
                    assert(lex_lt(ev.id, oldes[i as int].id));
                }
                assert forall|j: int| i <= j < oldes.len() implies lex_lt(
                    ev.id,
                    oldes[j].id,
                ) by {
                    if j > i {
                        lemma_lex_trans(ev.id, oldes[i as int].id, oldes[j].id);
                    }
                }
                assert forall|j: int|
                    0 <= j < oldes.len() implies oldes[j].id != ev.id by {
                    lemma_lex_irrefl(ev.id);
                }
                assert(!has_id(oldes, ev.id));
            }
            let ghost ii = i as int;
            self.elements.insert(i, element);
            proof {
                assert(self@.elements =~= oldes.insert(ii, ev));
                assert(forall|k: int| 0 <= k < ii ==> self@.elements[k] == oldes[k]);
                assert(forall|k: int|
                    ii < k < self@.elements.len() ==> self@.elements[k] == oldes[k - 1]);
                assert(self@.elements[ii] == ev);
                assert forall|k: int|
                    0 <= k < oldes.len() implies has_elem(self@.elements, oldes[k]) by {
                    if k < ii {
                        assert(self@.elements[k] == oldes[k]);
                    } else {
                        assert(self@.elements[k + 1] == oldes[k]);
                    }
                }
                assert forall|x: Seq<char>|
                    has_id(oldes, x) implies #[trigger] has_id(self@.elements, x) by {
                    let m = choose|m: int| 0 <= m < oldes.len() && oldes[m].id == x;
                    if m < ii {
                        assert(self@.elements[m].id == x);
                    } else {
                        assert(self@.elements[m + 1].id == x);
                    }
                }
            }
        }
    }

    /// Whether this id is suppressed by the render-time filter set.
    fn id_filtered(&self, id: &String) -> (r: bool)
        ensures
            r == in_filter(self@.filter, id@),
    {
        let r = contains_name(&self.filter, id);
        proof {
            if r {
                let k = choose|k: int|
                    0 <= k < self.filter@.len() && self.filter@[k]@ == id@;
                assert(self@.filter[k] == id@);
            }
            if in_filter(self@.filter, id@) {
                let k = choose|k: int|
                    0 <= k < self@.filter.len() && self@.filter[k] == id@;
                assert(self.filter@[k]@ == id@);
                assert(names_contain(self.filter@, id@));
            }
        }
        r
    }

    /// Appends a relationship; endpoints are not checked here, so the edge
    /// may dangle until [`Diagram::clean`] runs.
    pub fn add_relationship(&mut self, relation: Relationship)
        requires
            old(self).wf(),
        ensures
            final(self).wf(),
            final(self)@.title == old(self)@.title,
            final(self)@.elements == old(self)@.elements,
            final(self)@.filter == old(self)@.filter,
            final(self)@.relationships == old(self)@.relationships.push(relation@),
    {
        let ghost oldr = self@.relationships;
        let ghost rv = relation@;
        self.relationships.push(relation);
        proof {
            assert(self@.relationships =~= oldr.push(rv));
        }
    }
    /// Removes every relationship whose `from` or `to` id is not present in
    /// the element mapping. After this pass no dangling edge survives.
    pub fn clean(&mut self)
        requires
            old(self).wf(),
        ensures
            final(self).wf(),
            final(self)@.title == old(self)@.title,
            final(self)@.elements == old(self)@.elements,
            final(self)@.filter == old(self)@.filter,
            final(self)@.relationships == kept_rels_from(
                old(self)@.relationships,
                old(self)@.elements,
                0,
            ),
            forall|k: int|
                0 <= k < final(self)@.relationships.len() ==> has_id(
                    final(self)@.elements,
                    #[trigger] final(self)@.relationships[k].from,
                ) && has_id(final(self)@.elements, final(self)@.relationships[k].to),
    {
        let ghost oldr = self@.relationships;
        let ghost es = self@.elements;
        let mut kept: Vec<Relationship> = Vec::new();
        let mut i: usize = 0;
        proof {
            assert(kept@.map_values(|r: Relationship| r@) =~= Seq::<RelationshipV>::empty());
        }
        while i < self.relationships.len()
            invariant
                0 <= i <= self.relationships@.len(),
                self@.relationships == oldr,
                self@.elements == es,
                self.wf(),
                kept@.map_values(|r: Relationship| r@) + kept_rels_from(oldr, es, i as int)
                    == kept_rels_from(oldr, es, 0),
                forall|k: int|
                    0 <= k < kept@.len() ==> has_id(es, #[trigger] kept@[k]@.from) && has_id(
                        es,
                        kept@[k]@.to,
                    ),
            decreases self.relationships@.len() - i,
        {
            let ghost kv = kept@.map_values(|r: Relationship| r@);
            let keep_from = self.has_element(&self.relationships[i].from);
            let keep_to = self.has_element(&self.relationships[i].to);
            proof {
                assert(self.relationships@[i as int]@ == oldr[i as int]);
            }
            if keep_from && keep_to {
                kept.push(self.relationships[i].duplicate());
                proof {
                    assert(kept@.map_values(|r: Relationship| r@) =~= kv.push(oldr[i as int]));
                    assert(kv.push(oldr[i as int]) =~= kv + seq![oldr[i as int]]);
                    assert((kv + seq![oldr[i as int]]) + kept_rels_from(oldr, es, i as int + 1)
                        =~= kv + (seq![oldr[i as int]] + kept_rels_from(oldr, es, i as int + 1)));
                }
            } else {
                proof {
                    assert(kept_rels_from(oldr, es, i as int) =~= Seq::<RelationshipV>::empty()
                        + kept_rels_from(oldr, es, i as int + 1));
                    assert(Seq::<RelationshipV>::empty() + kept_rels_from(oldr, es, i as int + 1)
                        =~= kept_rels_from(oldr, es, i as int + 1));
                }
            }
            i = i + 1;
        }
        proof {
            assert(kept_rels_from(oldr, es, oldr.len() as int) =~= Seq::<RelationshipV>::empty());
            assert(kept@.map_values(|r: Relationship| r@) + Seq::<RelationshipV>::empty()
                =~= kept@.map_values(|r: Relationship| r@));
        }
        self.relationships = kept;
    }

    /// Renders the diagram in the MermaidJS C4 syntax: a header, one
    /// declaration line per non-filtered element in id order, then one line
    /// per relationship with no filtered endpoint, in insertion order.
    pub fn render_c4(&self) -> (out: String)
        ensures
            out@ == render_c4_spec(self@),
    {
        let ghost es = self@.elements;
        let ghost rs = self@.relationships;
        let ghost f = self@.filter;
        let ghost target = render_c4_spec(self@);
        let mut out = String::new();
        out.append("C4Context\n");
        out.append("\ttitle ");
        out.append(self.title.as_str());
        out.append("\n");
        let ghost hdr = out@;
        proof {
            assert(hdr =~= "C4Context\n"@ + "\ttitle "@ + self@.title + "\n"@);
            assert((hdr + c4_elements_from(es, f, 0)) + c4_rels_from(rs, f, 0) =~= target);
        }
        let mut i: usize = 0;
        while i < self.elements.len()
            invariant
                0 <= i <= self.elements@.len(),
                es == self@.elements,
                rs == self@.relationships,
                f == self@.filter,
                hdr == "C4Context\n"@ + "\ttitle "@ + self@.title + "\n"@,
                out@ + c4_elements_from(es, f, i as int) == hdr + c4_elements_from(es, f, 0),
            decreases self.elements@.len() - i,
        {
            let ghost out0 = out@;
            proof {
                assert(self.elements@[i as int]@ == es[i as int]);
            }
            if !self.id_filtered(&self.elements[i].id) {
                out.append("\t");
                out.append(self.elements[i].kind.label());
                out.append("(");
                out.append(self.elements[i].id.as_str());
                out.append(", \"");
                out.append(self.elements[i].title.as_str());
                out.append("\", \"");
                out.append(self.elements[i].description.as_str());
                out.append("\")\n");
                proof {
                    assert(out@ =~= out0 + c4_element_line(es[i as int]));
                    assert((out0 + c4_element_line(es[i as int])) + c4_elements_from(
                        es,
                        f,
                        i as int + 1,
                    ) =~= out0 + (c4_element_line(es[i as int]) + c4_elements_from(
                        es,
                        f,
                        i as int + 1,
                    )));
                }
            } else {
                proof {
                    assert(c4_elements_from(es, f, i as int) =~= Seq::<char>::empty()
                        + c4_elements_from(es, f, i as int + 1));
                    assert(Seq::<char>::empty() + c4_elements_from(es, f, i as int + 1)
                        =~= c4_elements_from(es, f, i as int + 1));
                }
            }
            i = i + 1;
        }
        proof {
            assert(c4_elements_from(es, f, es.len() as int) =~= Seq::<char>::empty());
            assert(out@ + Seq::<char>::empty() =~= out@);
        }
        let ghost mid = out@;
        proof {
            assert(mid == hdr + c4_elements_from(es, f, 0));
            assert(mid + c4_rels_from(rs, f, 0) == target);
        }
        let mut j: usize = 0;
        while j < self.relationships.len()
            invariant
                0 <= j <= self.relationships@.len(),
                rs == self@.relationships,
                f == self@.filter,
                target == render_c4_spec(self@),
                out@ + c4_rels_from(rs, f, j as int) == target,
            decreases self.relationships@.len() - j,
        {
            let ghost out0 = out@;
            proof {
                assert(self.relationships@[j as int]@ == rs[j as int]);
            }
            let from_filtered = self.id_filtered(&self.relationships[j].from);
            let to_filtered = self.id_filtered(&self.relationships[j].to);
            if !from_filtered && !to_filtered {
                out.append("\t");
                out.append(self.relationships[j].kind.label());
                out.append("(");
                out.append(self.relationships[j].from.as_str());
                out.append(", ");
                out.append(self.relationships[j].to.as_str());
                out.append(", \"");
                out.append(self.relationships[j].description.as_str());
                out.append("\")\n");
                proof {
                    assert(out@ =~= out0 + c4_rel_line(rs[j as int]));
                    assert((out0 + c4_rel_line(rs[j as int])) + c4_rels_from(rs, f, j as int + 1)
                        =~= out0 + (c4_rel_line(rs[j as int]) + c4_rels_from(rs, f, j as int + 1)));
                }
            } else {
                proof {
                    assert(c4_rels_from(rs, f, j as int) =~= Seq::<char>::empty() + c4_rels_from(
                        rs,
                        f,
                        j as int + 1,
                    ));
                    assert(Seq::<char>::empty() + c4_rels_from(rs, f, j as int + 1)
                        =~= c4_rels_from(rs, f, j as int + 1));
                }
            }
            j = j + 1;
        }
        proof {
            assert(c4_rels_from(rs, f, rs.len() as int) =~= Seq::<char>::empty());
            assert(out@ + Seq::<char>::empty() =~= out@);
        }
        out
    }

    /// Renders the diagram in the Graphviz DOT format: a header naming the
    /// graph, one quoted edge line per relationship with no filtered
    /// endpoint, and a closing brace. Elements without edges do not appear:
    /// this format is edge-only on purpose.
    pub fn render_graphviz(&self) -> (out: String)
        ensures
            out@ == render_graphviz_spec(self@),
    {
        let ghost rs = self@.relationships;
        let ghost f = self@.filter;
        let mut out = String::new();
        out.append("digraph ");
        out.append(self.title.as_str());
        out.append(" {\n");
        let ghost hdr = out@;
        proof {
            assert(hdr =~= "digraph "@ + self@.title + " {\n"@);
        }
        let mut j: usize = 0;
        while j < self.relationships.len()
            invariant
                0 <= j <= self.relationships@.len(),
                rs == self@.relationships,
                f == self@.filter,
                hdr == "digraph "@ + self@.title + " {\n"@,
                out@ + gv_edges_from(rs, f, j as int) == hdr + gv_edges_from(rs, f, 0),
            decreases self.relationships@.len() - j,
        {
            let ghost out0 = out@;
            proof {
                assert(self.relationships@[j as int]@ == rs[j as int]);
            }
            let from_filtered = self.id_filtered(&self.relationships[j].from);
            let to_filtered = self.id_filtered(&self.relationships[j].to);
            if !from_filtered && !to_filtered {
                out.append("  \"");
                out.append(self.relationships[j].from.as_str());
                out.append("\" -> \"");
                out.append(self.relationships[j].to.as_str());
                out.append("\"\n");
                proof {
                    assert(out@ =~= out0 + gv_edge_line(rs[j as int]));
                    assert((out0 + gv_edge_line(rs[j as int])) + gv_edges_from(rs, f, j as int + 1)
                        =~= out0 + (gv_edge_line(rs[j as int]) + gv_edges_from(rs, f, j as int
                        + 1)));
                }
            } else {
                proof {
                    assert(gv_edges_from(rs, f, j as int) =~= Seq::<char>::empty() + gv_edges_from(
                        rs,
                        f,
                        j as int + 1,
                    ));
                    assert(Seq::<char>::empty() + gv_edges_from(rs, f, j as int + 1)
                        =~= gv_edges_from(rs, f, j as int + 1));
                }
            }
            j = j + 1;
        }
        proof {
            assert(gv_edges_from(rs, f, rs.len() as int) =~= Seq::<char>::empty());
            assert(out@ + Seq::<char>::empty() =~= out@);
        }
        out.append("}\n");
        proof {
            assert(out@ =~= render_graphviz_spec(self@));
        }
        out
    }

    /// Renders the diagram in the chosen format. A pure function of the
    /// diagram's state: the same state, format and filter give the same text.
    pub fn render(&self, output_format: OutputFormat) -> (out: String)
        ensures
            out@ == render_spec(self@, output_format),
    {
        match output_format {
            OutputFormat::C4 => self.render_c4(),
            OutputFormat::Graphviz => self.render_graphviz(),
        }
    }
}

} // verus!