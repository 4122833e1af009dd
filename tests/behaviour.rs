use strip_dag_node::{Graph, ParsingError};

fn deleted(text: &str, v: char) -> (bool, String) {
    let mut g = Graph::parse(text).unwrap();
    let found = g.delete_node(v);
    (found, g.to_string())
}

#[test]
fn text_is_sorted_and_canonical() {
    let g = Graph::parse("c-d,a-c,a-b,k").unwrap();
    assert_eq!(g.to_string(), "a-b,a-c,c-d,k");
    let g = Graph::parse("a-b,a-b,b").unwrap();
    assert_eq!(g.to_string(), "a-b,b");
}

#[test]
fn lone_label_resets_entry() {
    let g = Graph::parse("a-b,a").unwrap();
    assert_eq!(g.to_string(), "a");
    let g = Graph::parse("a,a-b").unwrap();
    assert_eq!(g.to_string(), "a-b");
}

#[test]
fn outer_white_space_is_trimmed() {
    let g = Graph::parse("  a-b,c \n").unwrap();
    assert_eq!(g.to_string(), "a-b,c");
    let g = Graph::parse("\u{3000}a\u{A0}").unwrap();
    assert_eq!(g.to_string(), "a");
}

#[test]
fn malformed_text_is_refused() {
    assert_eq!(Graph::parse(""), Err(ParsingError));
    assert_eq!(Graph::parse("   "), Err(ParsingError));
    assert_eq!(Graph::parse("a-b-c"), Err(ParsingError));
    assert_eq!(Graph::parse("ab"), Err(ParsingError));
    assert_eq!(Graph::parse("a-"), Err(ParsingError));
    assert_eq!(Graph::parse("-"), Err(ParsingError));
    assert_eq!(Graph::parse("a,,b"), Err(ParsingError));
    assert_eq!(Graph::parse("a-b,"), Err(ParsingError));
    assert_eq!(Graph::parse("a, b"), Err(ParsingError));
    assert_eq!(ParsingError.to_string(), "ParsingError");
}

#[test]
fn round_trip_keeps_the_graph() {
    for text in ["a-b,b-c,c-d", "a-b,b-c,f,c-d,k", "f,k", "f", "z-a,a-z,m"] {
        let g = Graph::parse(text).unwrap();
        let again = Graph::parse(&g.to_string()).unwrap();
        assert_eq!(again, g);
        assert_eq!(again.to_string(), g.to_string());
    }
}

#[test]
fn not_found_changes_nothing() {
    let mut g = Graph::parse("a-b,b-c,f").unwrap();
    let before = Graph::parse("a-b,b-c,f").unwrap();
    assert!(!g.delete_node('k'));
    assert_eq!(g, before);
    assert_eq!(g.to_string(), "a-b,b-c,f");
}

#[test]
fn bypass_keeps_reachability() {
    let mut g = Graph::parse("a-b,b-c,c-d").unwrap();
    assert!(g.delete_node('b'));
    assert_eq!(g.to_string(), "a-c,c-d");
    assert!(!g.has_entry('b'));
    assert!(!g.delete_node('b'));
}

#[test]
fn sink_survives_interior_deletions() {
    let mut g = Graph::parse("a-b,b-c,c-d").unwrap();
    assert!(g.delete_node('b'));
    assert!(g.delete_node('c'));
    assert_eq!(g.to_string(), "a-d");
    assert!(!g.has_entry('d'));
    assert!(g.delete_node('a'));
    assert_eq!(g.to_string(), "d");
    assert!(g.has_entry('d'));
}

#[test]
fn fan_in_collapse() {
    assert_eq!(deleted("b-a,c-a,d-a,e-a", 'a'), (true, "b,c,d,e".to_string()));
}

#[test]
fn fan_out_expansion() {
    assert_eq!(deleted("a-b,a-c,a-d,a-e", 'a'), (true, "b,c,d,e".to_string()));
}

#[test]
fn disjoint_component_untouched() {
    assert_eq!(deleted("a-b,c-d", 'a'), (true, "b,c-d".to_string()));
    assert_eq!(deleted("a-b,c-d", 'd'), (true, "a-b,c".to_string()));
}

#[test]
fn deletion_cases() {
    assert_eq!(deleted("a-b,b-c,c-d", 'a'), (true, "b-c,c-d".to_string()));
    assert_eq!(deleted("a-b,b-c,f,c-d,k", 'f'), (true, "a-b,b-c,c-d,k".to_string()));
    assert_eq!(deleted("f,k", 'f'), (true, "k".to_string()));
    assert_eq!(deleted("f", 'f'), (true, "".to_string()));
    assert_eq!(deleted("a-b,b-c,c-d,d-e", 'e'), (true, "a-b,b-c,c-d".to_string()));
    assert_eq!(deleted("a-b,b-c,c-d,d-e", 'c'), (true, "a-b,b-d,d-e".to_string()));
    assert_eq!(deleted("a-b,b-d,c-d,a-c", 'c'), (true, "a-b,a-d,b-d".to_string()));
    assert_eq!(deleted("a-b,b-d,c-d,a-c", 'a'), (true, "b-d,c-d".to_string()));
    assert_eq!(deleted("a-b,b-d,c-d,a-c", 'd'), (true, "a-b,a-c".to_string()));
    assert_eq!(deleted("a-b,b-a", 'a'), (true, "b-b".to_string()));
    assert_eq!(deleted("a-a,a-b", 'a'), (true, "b".to_string()));
}
