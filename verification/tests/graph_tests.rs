use gall_script::alphabet::{connections, row_contains};
use gall_script::phrase::Phrase;
use gall_script::Payload;

fn sorted(mut v: Vec<(usize, usize)>) -> Vec<(usize, usize)> {
    v.sort();
    v
}

#[test]
fn connection_table_rows() {
    assert_eq!(connections(b'A'), Vec::<u8>::new());
    assert_eq!(connections(b'B'), b"A".to_vec());
    assert_eq!(connections(b'C'), b"AB".to_vec());
    assert_eq!(connections(b'T'), b"ACDEFHIJLMNOQS".to_vec());
    assert_eq!(connections(b'Z'), b"AY".to_vec());
    assert_eq!(connections(b'0'), Vec::<u8>::new());
}

#[test]
fn row_contains_looks_up_letters() {
    let row = connections(b'H');
    assert!(row_contains(&row, b'G'));
    assert!(!row_contains(&row, b'C'));
}

#[test]
fn table_edge_beats_fallback() {
    // 'Z' connects to {A, Y}; 'Y' is absent but 'A' is present, so the edge
    // Z -> A comes from the table step and 'A', having an incoming edge,
    // triggers no fallback.
    let p = Phrase::new("ZA");
    assert_eq!(p.edges, vec![(0, 1)]);
}

#[test]
fn mutual_fallback_when_table_gives_nothing() {
    // 'B' connects only to absent 'A'; 'Z' to absent 'A' and 'Y': both are
    // left without table edges and fall back to each other.
    let p = Phrase::new("BZ");
    assert_eq!(p.edges, vec![(0, 1), (1, 0)]);
}

#[test]
fn fallback_prefers_nearest_letter_first_occurrence() {
    // In "BBZ" nothing is connected by the table. Each 'B' falls back to
    // the other 'B' (distance zero); 'Z' is equally far from both and picks
    // the first.
    let p = Phrase::new("BBZ");
    assert_eq!(p.edges, vec![(0, 1), (1, 0), (2, 0)]);
}

#[test]
fn cat_edges_cover_every_node() {
    let p = Phrase::new("CAT");
    assert_eq!(sorted(p.edges.clone()), vec![(0, 1), (2, 0), (2, 1)]);
    // Every node of this three-letter word has an incident edge.
    for i in 0..3 {
        assert!(p.edges.iter().any(|e| e.0 == i || e.1 == i));
    }
}

#[test]
fn every_node_of_long_words_is_linked() {
    let p = Phrase::new("QUIRKY BROWN FOX");
    for w in &p.phrase_words {
        if w.text.len() >= 2 {
            for id in &w.nodes {
                assert!(p.edges.iter().any(|e| e.0 == *id || e.1 == *id));
            }
        }
    }
}

#[test]
fn edges_never_cross_words() {
    let p = Phrase::new("CAB BAD");
    assert_eq!(
        sorted(p.edges.clone()),
        vec![(0, 1), (0, 2), (2, 1), (3, 4), (5, 3), (5, 4)]
    );
    let first: &[usize] = &p.phrase_words[0].nodes;
    let second: &[usize] = &p.phrase_words[1].nodes;
    for e in &p.edges {
        let in_first = first.contains(&e.0) && first.contains(&e.1);
        let in_second = second.contains(&e.0) && second.contains(&e.1);
        assert!(in_first || in_second);
    }
}

#[test]
fn single_letter_phrase_has_one_node_and_no_edges() {
    let p = Phrase::new("A");
    assert_eq!(p.phrase_words.len(), 1);
    assert_eq!(p.phrase_words[0].nodes.len(), 1);
    assert_eq!(p.edges.len(), 0);
}

#[test]
fn node_ids_are_distinct_and_sequential() {
    let p = Phrase::new("CAB BAD");
    let mut all: Vec<usize> = Vec::new();
    for w in &p.phrase_words {
        all.extend_from_slice(&w.nodes);
    }
    assert_eq!(all, vec![0, 1, 2, 3, 4, 5]);
}

#[test]
fn display_graph_mirrors_the_edge_list() {
    // Read the edges back out of the stable graph: the same multiset the
    // builder recorded. A wrapper handing back its input unchanged, or an
    // empty graph, would fail this.
    let p = Phrase::new("CAB BAD");
    assert_eq!(sorted(p.edge_list()), sorted(p.edges.clone()));
    assert_eq!(p.edge_list().len(), 6);
    let q = Phrase::new("A");
    assert_eq!(q.edge_list(), Vec::<(usize, usize)>::new());
}

#[test]
fn payload_keeps_its_flag() {
    assert!(Payload::new(true).visable);
    assert!(!Payload::new(false).visable);
}
