use weavesolve::{build_graph_from_dict, is_one_char_diff, Graph};

const LADDER: [&str; 5] = ["cold", "cord", "card", "ward", "warm"];

#[test]
fn empty_dictionary_gives_empty_graph() {
    let dict: [&str; 0] = [];
    let graph = build_graph_from_dict(&dict);
    assert_eq!(graph.neighbors("cold"), None);
    assert_eq!(graph.neighbors(""), None);
}

#[test]
fn new_graph_holds_no_word() {
    let graph = Graph::new();
    assert_eq!(graph.neighbors("cold"), None);
}

#[test]
fn ladder_dictionary_adjacency() {
    let graph = build_graph_from_dict(&LADDER);
    assert_eq!(graph.neighbors("cold"), Some(vec!["cord"]));
    assert_eq!(graph.neighbors("cord"), Some(vec!["cold", "card"]));
    assert_eq!(graph.neighbors("card"), Some(vec!["cord", "ward"]));
    assert_eq!(graph.neighbors("ward"), Some(vec!["card", "warm"]));
    assert_eq!(graph.neighbors("warm"), Some(vec!["ward"]));
}

#[test]
fn word_without_partner_is_not_in_graph() {
    let dict = ["cold", "cord", "zzzz"];
    let graph = build_graph_from_dict(&dict);
    assert_eq!(graph.neighbors("zzzz"), None);
    assert_eq!(graph.neighbors("cold"), Some(vec!["cord"]));
}

#[test]
fn partners_come_in_pair_order() {
    // pairs are taken by the earlier entry, then by the later one
    let dict = ["bat", "cat", "hat", "cot", "bot"];
    let graph = build_graph_from_dict(&dict);
    assert_eq!(graph.neighbors("bat"), Some(vec!["cat", "hat", "bot"]));
    assert_eq!(graph.neighbors("cat"), Some(vec!["bat", "hat", "cot"]));
    assert_eq!(graph.neighbors("hat"), Some(vec!["bat", "cat"]));
    assert_eq!(graph.neighbors("cot"), Some(vec!["cat", "bot"]));
    assert_eq!(graph.neighbors("bot"), Some(vec!["bat", "cot"]));
}

#[test]
fn repeated_entry_is_linked_once_per_pair() {
    let dict = ["cold", "cold", "cord"];
    let graph = build_graph_from_dict(&dict);
    assert_eq!(graph.neighbors("cold"), Some(vec!["cord", "cord"]));
    assert_eq!(graph.neighbors("cord"), Some(vec!["cold", "cold"]));
}

#[test]
fn edges_are_exactly_the_one_letter_pairs() {
    let dict = ["cold", "cord", "card", "ward", "warm", "worm", "word", "wood", "corm", "zzzz"];
    let graph = build_graph_from_dict(&dict);
    for a in dict.iter() {
        for b in dict.iter() {
            let linked = match graph.neighbors(a) {
                Some(list) => list.contains(b),
                None => false,
            };
            assert_eq!(linked, is_one_char_diff(a, b));
        }
    }
}

#[test]
fn adjacency_is_symmetric() {
    let dict = ["cold", "cord", "card", "ward", "warm", "worm", "word", "wood", "corm", "zzzz"];
    let graph = build_graph_from_dict(&dict);
    for a in dict.iter() {
        for b in dict.iter() {
            let ab = graph.neighbors(a).map_or(false, |list| list.contains(b));
            let ba = graph.neighbors(b).map_or(false, |list| list.contains(a));
            assert_eq!(ab, ba);
        }
    }
}

#[test]
fn add_edge_links_both_ways_in_order() {
    let mut graph = Graph::new();
    graph.add_edge("a", "b");
    graph.add_edge("a", "c");
    graph.add_edge("c", "b");
    assert_eq!(graph.neighbors("a"), Some(vec!["b", "c"]));
    assert_eq!(graph.neighbors("b"), Some(vec!["a", "c"]));
    assert_eq!(graph.neighbors("c"), Some(vec!["a", "b"]));
    assert_eq!(graph.neighbors("d"), None);
}

#[test]
fn add_edge_of_a_word_with_itself() {
    let mut graph = Graph::new();
    graph.add_edge("a", "a");
    assert_eq!(graph.neighbors("a"), Some(vec!["a", "a"]));
}
