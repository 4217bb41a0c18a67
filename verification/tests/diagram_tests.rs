use crate_diagram::args::OutputFormat;
use crate_diagram::diagram::{Diagram, Element, ElementKind, Relationship, RelationshipKind};

fn container(id: &str, title: &str, description: &str) -> Element {
    Element {
        kind: ElementKind::Container,
        id: id.to_string(),
        title: title.to_string(),
        description: description.to_string(),
    }
}

fn rel(from: &str, to: &str, description: &str) -> Relationship {
    Relationship {
        kind: RelationshipKind::Rel,
        from: from.to_string(),
        to: to.to_string(),
        description: description.to_string(),
    }
}

#[test]
fn render_c4_small_tree() {
    let mut d = Diagram::new("Diagram".to_string(), "".to_string());
    d.add_element(container("root", "root", ""));
    d.add_element(container("a", "a", ""));
    d.add_element(container("b", "b", ""));
    d.add_element(container("c", "c", ""));
    d.add_relationship(rel("root", "a", "Contains"));
    d.add_relationship(rel("root", "b", "Contains"));
    d.add_relationship(rel("a", "c", "Contains"));
    let out = d.render(OutputFormat::C4);
    let expected = "C4Context\n\ttitle Diagram\n\
        \tContainer(a, \"a\", \"\")\n\
        \tContainer(b, \"b\", \"\")\n\
        \tContainer(c, \"c\", \"\")\n\
        \tContainer(root, \"root\", \"\")\n\
        \tRel(root, a, \"Contains\")\n\
        \tRel(root, b, \"Contains\")\n\
        \tRel(a, c, \"Contains\")\n";
    assert_eq!(out, expected);
    let containers = out.matches("\tContainer(").count();
    let rels = out.matches("\tRel(").count();
    assert_eq!(containers, 4);
    assert_eq!(rels, 3);
}

#[test]
fn render_c4_filtered_tree() {
    let mut d = Diagram::new("Diagram".to_string(), "b".to_string());
    d.add_element(container("root", "root", ""));
    d.add_element(container("a", "a", ""));
    d.add_element(container("b", "b", ""));
    d.add_element(container("c", "c", ""));
    d.add_relationship(rel("root", "a", "Contains"));
    d.add_relationship(rel("root", "b", "Contains"));
    d.add_relationship(rel("a", "c", "Contains"));
    let out = d.render(OutputFormat::C4);
    assert_eq!(out.matches("\tContainer(").count(), 3);
    assert_eq!(out.matches("\tRel(").count(), 2);
    assert!(!out.contains("Container(b"));
    assert!(!out.contains("Rel(root, b"));
}

#[test]
fn filter_removes_element_and_edges_both_formats() {
    let mut d = Diagram::new("G".to_string(), "x".to_string());
    d.add_element(container("x", "x", ""));
    d.add_element(container("y", "y", ""));
    d.add_relationship(rel("x", "y", "depends"));
    d.add_relationship(rel("y", "x", "depends"));
    d.add_relationship(rel("y", "y", "depends"));
    let c4 = d.render(OutputFormat::C4);
    assert!(!c4.contains("Container(x"));
    assert!(c4.contains("Container(y"));
    assert!(!c4.contains("Rel(x, y"));
    assert!(!c4.contains("Rel(y, x"));
    assert!(c4.contains("Rel(y, y"));
    let gv = d.render(OutputFormat::Graphviz);
    assert!(!gv.contains("\"x\" -> \"y\""));
    assert!(!gv.contains("\"y\" -> \"x\""));
    assert!(gv.contains("\"y\" -> \"y\""));
}

#[test]
fn render_graphviz_format() {
    let mut d = Diagram::new("G".to_string(), "".to_string());
    d.add_element(container("a", "a", ""));
    d.add_element(container("b", "b", ""));
    d.add_relationship(rel("a", "b", "depends"));
    let out = d.render(OutputFormat::Graphviz);
    assert_eq!(out, "digraph G {\n  \"a\" -> \"b\"\n}\n");
}

#[test]
fn graphviz_is_edge_only() {
    let mut d = Diagram::new("G".to_string(), "".to_string());
    d.add_element(container("lonely", "lonely", ""));
    let out = d.render(OutputFormat::Graphviz);
    assert_eq!(out, "digraph G {\n}\n");
}

#[test]
fn render_is_deterministic() {
    let mut d = Diagram::new("Twice".to_string(), "b".to_string());
    d.add_element(container("a", "a", "d1"));
    d.add_element(container("b", "b", "d2"));
    d.add_relationship(rel("a", "b", "depends"));
    let first_c4 = d.render(OutputFormat::C4);
    let second_c4 = d.render(OutputFormat::C4);
    assert_eq!(first_c4, second_c4);
    let first_gv = d.render(OutputFormat::Graphviz);
    let second_gv = d.render(OutputFormat::Graphviz);
    assert_eq!(first_gv, second_gv);
}

#[test]
fn clean_removes_dangling_edges() {
    let mut d = Diagram::new("D".to_string(), "".to_string());
    d.add_element(container("a", "a", ""));
    d.add_element(container("b", "b", ""));
    d.add_relationship(rel("a", "b", "Contains"));
    d.add_relationship(rel("a", "ghostly", "Contains"));
    d.add_relationship(rel("ghostly", "b", "Contains"));
    d.clean();
    let out = d.render(OutputFormat::C4);
    assert_eq!(out.matches("\tRel(").count(), 1);
    assert!(out.contains("\tRel(a, b, \"Contains\")\n"));
}

#[test]
fn render_without_clean_keeps_dangling_edges() {
    let mut d = Diagram::new("D".to_string(), "".to_string());
    d.add_element(container("a", "a", ""));
    d.add_relationship(rel("a", "missing", "depends"));
    let out = d.render(OutputFormat::Graphviz);
    assert!(out.contains("\"a\" -> \"missing\""));
}

#[test]
fn add_element_overwrites_same_id() {
    let mut d = Diagram::new("D".to_string(), "".to_string());
    d.add_element(container("a", "first", ""));
    d.add_element(container("a", "second", ""));
    let out = d.render(OutputFormat::C4);
    assert_eq!(out.matches("\tContainer(").count(), 1);
    assert!(out.contains("Container(a, \"second\", \"\")"));
}

#[test]
fn has_element_reports_presence() {
    let mut d = Diagram::new("D".to_string(), "".to_string());
    assert!(!d.has_element(&"a".to_string()));
    d.add_element(container("a", "a", ""));
    assert!(d.has_element(&"a".to_string()));
    assert!(!d.has_element(&"b".to_string()));
}

#[test]
fn empty_filter_string_matches_nothing() {
    // An empty filter string is the empty set, not the set of one empty id.
    let mut d = Diagram::new("D".to_string(), "".to_string());
    d.add_element(container("", "empty-id", ""));
    let out = d.render(OutputFormat::C4);
    assert!(out.contains("Container(, \"empty-id\", \"\")"));
}

#[test]
fn comma_filter_string_suppresses_each_name() {
    let mut d = Diagram::new("D".to_string(), "a,b".to_string());
    d.add_element(container("a", "a", ""));
    d.add_element(container("b", "b", ""));
    d.add_element(container("c", "c", ""));
    let out = d.render(OutputFormat::C4);
    assert_eq!(out.matches("\tContainer(").count(), 1);
    assert!(out.contains("Container(c"));
}

#[test]
fn elements_render_sorted_by_id() {
    let mut d = Diagram::new("D".to_string(), "".to_string());
    d.add_element(container("zeta", "z", ""));
    d.add_element(container("alpha", "a", ""));
    d.add_element(container("mid", "m", ""));
    let out = d.render(OutputFormat::C4);
    let a = out.find("Container(alpha").unwrap();
    let m = out.find("Container(mid").unwrap();
    let z = out.find("Container(zeta").unwrap();
    assert!(a < m && m < z);
}

#[test]
fn bidirectional_kind_renders_birel() {
    let mut d = Diagram::new("D".to_string(), "".to_string());
    d.add_element(container("a", "a", ""));
    d.add_element(container("b", "b", ""));
    d.add_relationship(Relationship {
        kind: RelationshipKind::BiRel,
        from: "a".to_string(),
        to: "b".to_string(),
        description: "talks".to_string(),
    });
    let out = d.render(OutputFormat::C4);
    assert!(out.contains("\tBiRel(a, b, \"talks\")\n"));
}
