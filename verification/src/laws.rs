//! The laws the diagram model obeys, stated and proved over the model's
//! mathematical values: rendering is deterministic, a well-formed diagram
//! carries each id at most once, and suppressing an id through the filter
//! set renders exactly as if the element and its edges were deleted.

use vstd::prelude::*;

use crate::args::OutputFormat;
use crate::diagram::{
    DiagramV, ElementV, RelationshipV, c4_element_line, c4_elements_from, c4_rel_line,
    c4_rels_from, elements_sorted, gv_edge_line, gv_edges_from, in_filter, render_c4_spec,
    render_graphviz_spec, render_spec,
};
use crate::strutil::lemma_lex_irrefl;

verus! {

/// Rendering is a pure function of the diagram's value: two renders of the
/// same finalized diagram with the same format and filter are the same
/// text, byte for byte.
pub proof fn lemma_render_deterministic(
    d: DiagramV,
    format: OutputFormat,
    r1: Seq<char>,
    r2: Seq<char>,
)
    requires
        r1 == render_spec(d, format),
        r2 == render_spec(d, format),
    ensures
        r1 == r2,
{
}

/// A sorted element list carries each id exactly once: a node reached
/// twice still yields one element.
pub proof fn lemma_element_ids_unique(es: Seq<ElementV>)
    requires
        elements_sorted(es),
    ensures
        forall|i: int, j: int| 0 <= i < j < es.len() ==> (#[trigger] es[i]).id != (
        #[trigger] es[j]).id,
{
    assert forall|i: int, j: int| 0 <= i < j < es.len() implies (#[trigger] es[i]).id != (
    #[trigger] es[j]).id by {
        lemma_lex_irrefl(es[i].id);
    }
}

/// The elements of `es` from position `i` on whose id is not `x`.
pub open spec fn without_elem_from(es: Seq<ElementV>, x: Seq<char>, i: int) -> Seq<ElementV>
    decreases es.len() - i,
{
    if i < 0 || i >= es.len() {
        Seq::empty()
    } else {
        (if es[i].id == x {
            Seq::empty()
        } else {
            seq![es[i]]
        }) + without_elem_from(es, x, i + 1)
    }
}

/// The relationships of `rs` from position `i` on with neither endpoint `x`.
pub open spec fn without_rels_from(rs: Seq<RelationshipV>, x: Seq<char>, i: int) -> Seq<
    RelationshipV,
>
    decreases rs.len() - i,
{
    if i < 0 || i >= rs.len() {
        Seq::empty()
    } else {
        (if rs[i].from == x || rs[i].to == x {
            Seq::empty()
        } else {
            seq![rs[i]]
        }) + without_rels_from(rs, x, i + 1)
    }
}

/// The diagram with the element under `x` and every edge touching `x`
/// deleted from the model itself.
pub open spec fn suppress(d: DiagramV, x: Seq<char>) -> DiagramV {
    DiagramV {
        title: d.title,
        elements: without_elem_from(d.elements, x, 0),
        relationships: without_rels_from(d.relationships, x, 0),
        filter: d.filter,
    }
}

proof fn lemma_c4_elements_shift(e: ElementV, s: Seq<ElementV>, f: Seq<Seq<char>>, k: int)
    requires
        0 <= k,
    ensures
        c4_elements_from(seq![e] + s, f, k + 1) == c4_elements_from(s, f, k),
    decreases s.len() - k,
{
    let t = seq![e] + s;
    if k >= s.len() {
        assert(c4_elements_from(t, f, k + 1) =~= Seq::<char>::empty());
    } else {
        assert(t[k + 1] == s[k]);
        lemma_c4_elements_shift(e, s, f, k + 1);
    }
}

proof fn lemma_c4_rels_shift(r: RelationshipV, s: Seq<RelationshipV>, f: Seq<Seq<char>>, k: int)
    requires
        0 <= k,
    ensures
        c4_rels_from(seq![r] + s, f, k + 1) == c4_rels_from(s, f, k),
    decreases s.len() - k,
{
    let t = seq![r] + s;
    if k >= s.len() {
        assert(c4_rels_from(t, f, k + 1) =~= Seq::<char>::empty());
    } else {
        assert(t[k + 1] == s[k]);
        lemma_c4_rels_shift(r, s, f, k + 1);
    }
}

proof fn lemma_gv_edges_shift(r: RelationshipV, s: Seq<RelationshipV>, f: Seq<Seq<char>>, k: int)
    requires
        0 <= k,
    ensures
        gv_edges_from(seq![r] + s, f, k + 1) == gv_edges_from(s, f, k),
    decreases s.len() - k,
{
    let t = seq![r] + s;
    if k >= s.len() {
        assert(gv_edges_from(t, f, k + 1) =~= Seq::<char>::empty());
    } else {
        assert(t[k + 1] == s[k]);
        lemma_gv_edges_shift(r, s, f, k + 1);
    }
}

proof fn lemma_c4_elements_suppress(es: Seq<ElementV>, f: Seq<Seq<char>>, x: Seq<char>, i: int)
    requires
        in_filter(f, x),
        0 <= i,
    ensures
        c4_elements_from(es, f, i) == c4_elements_from(without_elem_from(es, x, i), f, 0),
    decreases es.len() - i,
{
    if i >= es.len() {
    } else {
        lemma_c4_elements_suppress(es, f, x, i + 1);
        let w1 = without_elem_from(es, x, i + 1);
        let wi = without_elem_from(es, x, i);
        if es[i].id == x {
            assert(wi =~= w1);
            assert(c4_elements_from(es, f, i) =~= Seq::<char>::empty() + c4_elements_from(
                es,
                f,
                i + 1,
            ));
            assert(Seq::<char>::empty() + c4_elements_from(es, f, i + 1) =~= c4_elements_from(
                es,
                f,
                i + 1,
            ));
        } else {
            assert(wi =~= seq![es[i]] + w1);
            assert(wi[0] == es[i]);
            lemma_c4_elements_shift(es[i], w1, f, 0);
            assert(c4_elements_from(wi, f, 1) == c4_elements_from(w1, f, 0));
            if in_filter(f, es[i].id) {
                assert(c4_elements_from(es, f, i) =~= Seq::<char>::empty() + c4_elements_from(
                    es,
                    f,
                    i + 1,
                ));
                assert(Seq::<char>::empty() + c4_elements_from(es, f, i + 1) =~= c4_elements_from(
                    es,
                    f,
                    i + 1,
                ));
                assert(c4_elements_from(wi, f, 0) =~= Seq::<char>::empty() + c4_elements_from(
                    wi,
                    f,
                    1,
                ));
                assert(Seq::<char>::empty() + c4_elements_from(wi, f, 1) =~= c4_elements_from(
                    wi,
                    f,
                    1,
                ));
            } else {
                assert(c4_elements_from(es, f, i) == c4_element_line(es[i]) + c4_elements_from(
                    es,
                    f,
                    i + 1,
                ));
                assert(c4_elements_from(wi, f, 0) == c4_element_line(es[i]) + c4_elements_from(
                    wi,
                    f,
                    1,
                ));
            }
        }
    }
}

proof fn lemma_c4_rels_suppress(rs: Seq<RelationshipV>, f: Seq<Seq<char>>, x: Seq<char>, i: int)
    requires
        in_filter(f, x),
        0 <= i,
    ensures
        c4_rels_from(rs, f, i) == c4_rels_from(without_rels_from(rs, x, i), f, 0),
    decreases rs.len() - i,
{
    if i >= rs.len() {
    } else {
        lemma_c4_rels_suppress(rs, f, x, i + 1);
        let w1 = without_rels_from(rs, x, i + 1);
        let wi = without_rels_from(rs, x, i);
        if rs[i].from == x || rs[i].to == x {
            assert(wi =~= w1);
            assert(c4_rels_from(rs, f, i) =~= Seq::<char>::empty() + c4_rels_from(rs, f, i + 1));
            assert(Seq::<char>::empty() + c4_rels_from(rs, f, i + 1) =~= c4_rels_from(
                rs,
                f,
                i + 1,
            ));
        } else {
            assert(wi =~= seq![rs[i]] + w1);
            assert(wi[0] == rs[i]);
            lemma_c4_rels_shift(rs[i], w1, f, 0);
            assert(c4_rels_from(wi, f, 1) == c4_rels_from(w1, f, 0));
            if in_filter(f, rs[i].from) || in_filter(f, rs[i].to) {
                assert(c4_rels_from(rs, f, i) =~= Seq::<char>::empty() + c4_rels_from(
                    rs,
                    f,
                    i + 1,
                ));
                assert(Seq::<char>::empty() + c4_rels_from(rs, f, i + 1) =~= c4_rels_from(
                    rs,
                    f,
                    i + 1,
                ));
                assert(c4_rels_from(wi, f, 0) =~= Seq::<char>::empty() + c4_rels_from(wi, f, 1));
                assert(Seq::<char>::empty() + c4_rels_from(wi, f, 1) =~= c4_rels_from(wi, f, 1));
            } else {
                assert(c4_rels_from(rs, f, i) == c4_rel_line(rs[i]) + c4_rels_from(rs, f, i + 1));
                assert(c4_rels_from(wi, f, 0) == c4_rel_line(rs[i]) + c4_rels_from(wi, f, 1));
            }
        }
    }
}

proof fn lemma_gv_edges_suppress(rs: Seq<RelationshipV>, f: Seq<Seq<char>>, x: Seq<char>, i: int)
    requires
        in_filter(f, x),
        0 <= i,
    ensures
        gv_edges_from(rs, f, i) == gv_edges_from(without_rels_from(rs, x, i), f, 0),
    decreases rs.len() - i,
{
    if i >= rs.len() {
    } else {
        lemma_gv_edges_suppress(rs, f, x, i + 1);
        let w1 = without_rels_from(rs, x, i + 1);
        let wi = without_rels_from(rs, x, i);
        if rs[i].from == x || rs[i].to == x {
            assert(wi =~= w1);
            assert(gv_edges_from(rs, f, i) =~= Seq::<char>::empty() + gv_edges_from(rs, f, i + 1));
            assert(Seq::<char>::empty() + gv_edges_from(rs, f, i + 1) =~= gv_edges_from(
                rs,
                f,
                i + 1,
            ));
        } else {
            assert(wi =~= seq![rs[i]] + w1);
            assert(wi[0] == rs[i]);
            lemma_gv_edges_shift(rs[i], w1, f, 0);
            assert(gv_edges_from(wi, f, 1) == gv_edges_from(w1, f, 0));
            if in_filter(f, rs[i].from) || in_filter(f, rs[i].to) {
                assert(gv_edges_from(rs, f, i) =~= Seq::<char>::empty() + gv_edges_from(
                    rs,
                    f,
                    i + 1,
                ));
                assert(Seq::<char>::empty() + gv_edges_from(rs, f, i + 1) =~= gv_edges_from(
                    rs,
                    f,
                    i + 1,
                ));
                assert(gv_edges_from(wi, f, 0) =~= Seq::<char>::empty() + gv_edges_from(
                    wi,
                    f,
                    1,
                ));
                assert(Seq::<char>::empty() + gv_edges_from(wi, f, 1) =~= gv_edges_from(
                    wi,
                    f,
                    1,
                ));
            } else {
                assert(gv_edges_from(rs, f, i) == gv_edge_line(rs[i]) + gv_edges_from(
                    rs,
                    f,
                    i + 1,
                ));
                assert(gv_edges_from(wi, f, 0) == gv_edge_line(rs[i]) + gv_edges_from(wi, f, 1));
            }
        }
    }
}

/// Filtering by an id renders exactly as deleting it from the model:
/// with `x` in the filter set, both formats yield the same text for the
/// diagram and for the diagram with the element under `x` and every
/// relationship touching `x` removed. So the filter suppresses the
/// element's declaration line and every edge with `x` at either end.
pub proof fn lemma_filter_suppresses(d: DiagramV, x: Seq<char>)
    requires
        in_filter(d.filter, x),
    ensures
        render_c4_spec(d) == render_c4_spec(suppress(d, x)),
        render_graphviz_spec(d) == render_graphviz_spec(suppress(d, x)),
        forall|k: int|
            0 <= k < suppress(d, x).elements.len() ==> (#[trigger] suppress(
                d,
                x,
            ).elements[k]).id != x,
        forall|k: int|
            0 <= k < suppress(d, x).relationships.len() ==> (#[trigger] suppress(
                d,
                x,
            ).relationships[k]).from != x && suppress(d, x).relationships[k].to != x,
{
    lemma_c4_elements_suppress(d.elements, d.filter, x, 0);
    lemma_c4_rels_suppress(d.relationships, d.filter, x, 0);
    lemma_gv_edges_suppress(d.relationships, d.filter, x, 0);
    lemma_without_elem_excludes(d.elements, x, 0);
    lemma_without_rels_excludes(d.relationships, x, 0);
}

proof fn lemma_without_elem_excludes(es: Seq<ElementV>, x: Seq<char>, i: int)
    requires
        0 <= i,
    ensures
        forall|k: int|
            0 <= k < without_elem_from(es, x, i).len() ==> (#[trigger] without_elem_from(
                es,
                x,
                i,
            )[k]).id != x,
    decreases es.len() - i,
{
    if i < es.len() {
        lemma_without_elem_excludes(es, x, i + 1);
    }
}

proof fn lemma_without_rels_excludes(rs: Seq<RelationshipV>, x: Seq<char>, i: int)
    requires
        0 <= i,
    ensures
        forall|k: int|
            0 <= k < without_rels_from(rs, x, i).len() ==> (#[trigger] without_rels_from(
                rs,
                x,
                i,
            )[k]).from != x && without_rels_from(rs, x, i)[k].to != x,
    decreases rs.len() - i,
{
    if i < rs.len() {
        lemma_without_rels_excludes(rs, x, i + 1);
    }
}

} // verus!
