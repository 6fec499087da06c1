use weavesolve::{bfs, build_graph_from_dict, find_shortest_path, Graph, SearchError};

const LADDER: [&str; 5] = ["cold", "cord", "card", "ward", "warm"];

/// The number of links on a shortest chain from `from` to `to`, found by
/// trying every chain without a repeated node.
fn true_distance(edges: &[(usize, usize)], n: usize, from: usize, to: usize) -> Option<usize> {
    fn walk(
        edges: &[(usize, usize)],
        at: usize,
        to: usize,
        seen: &mut Vec<bool>,
        steps: usize,
        best: &mut Option<usize>,
    ) {
        if at == to {
            if best.map_or(true, |b| steps < b) {
                *best = Some(steps);
            }
            return;
        }
        for &(a, b) in edges.iter() {
            let next = if a == at {
                b
            } else if b == at {
                a
            } else {
                continue;
            };
            if !seen[next] {
                seen[next] = true;
                walk(edges, next, to, seen, steps + 1, best);
                seen[next] = false;
            }
        }
    }
    let mut seen = vec![false; n];
    seen[from] = true;
    let mut best = None;
    walk(edges, from, to, &mut seen, 0, &mut best);
    best
}

const NAMES: [&str; 8] = ["n0", "n1", "n2", "n3", "n4", "n5", "n6", "n7"];

fn graph_of(edges: &[(usize, usize)]) -> Graph<'static> {
    let mut graph = Graph::new();
    for &(a, b) in edges.iter() {
        graph.add_edge(NAMES[a], NAMES[b]);
    }
    graph
}

fn is_edge(edges: &[(usize, usize)], a: &str, b: &str) -> bool {
    edges.iter().any(|&(x, y)| (NAMES[x] == a && NAMES[y] == b) || (NAMES[y] == a && NAMES[x] == b))
}

fn check_all_pairs(edges: &[(usize, usize)], n: usize) {
    let graph = graph_of(edges);
    for from in 0..n {
        for to in 0..n {
            let found = find_shortest_path(&graph, NAMES[from], NAMES[to]);
            let in_graph = edges.iter().any(|&(a, b)| a == from || b == from);
            match true_distance(edges, n, from, to) {
                Some(steps) => {
                    let path = found.unwrap();
                    assert_eq!(path.len(), steps + 1);
                    assert_eq!(path[0], NAMES[from]);
                    assert_eq!(path[path.len() - 1], NAMES[to]);
                    for k in 0..path.len() - 1 {
                        assert!(is_edge(edges, path[k], path[k + 1]));
                    }
                },
                None => {
                    if in_graph {
                        assert_eq!(found, Err(SearchError::NoPathFound));
                    } else {
                        assert_eq!(found, Err(SearchError::InvalidWord(NAMES[from])));
                    }
                },
            }
        }
    }
}

#[test]
fn ladder_from_cold_to_warm() {
    let graph = build_graph_from_dict(&LADDER);
    assert_eq!(
        find_shortest_path(&graph, "cold", "warm"),
        Ok(vec!["cold", "cord", "card", "ward", "warm"])
    );
}

#[test]
fn ladder_from_warm_to_cold() {
    let graph = build_graph_from_dict(&LADDER);
    assert_eq!(
        find_shortest_path(&graph, "warm", "cold"),
        Ok(vec!["warm", "ward", "card", "cord", "cold"])
    );
}

#[test]
fn start_not_in_dictionary_is_invalid() {
    let graph = build_graph_from_dict(&LADDER);
    assert_eq!(find_shortest_path(&graph, "xxxx", "warm"), Err(SearchError::InvalidWord("xxxx")));
}

#[test]
fn start_without_partner_is_invalid() {
    let dict = ["cold", "cord", "zzzz"];
    let graph = build_graph_from_dict(&dict);
    assert_eq!(find_shortest_path(&graph, "zzzz", "cold"), Err(SearchError::InvalidWord("zzzz")));
}

#[test]
fn start_equal_to_stop_is_a_single_word() {
    let graph = build_graph_from_dict(&LADDER);
    assert_eq!(find_shortest_path(&graph, "card", "card"), Ok(vec!["card"]));
    // also for a word that the graph does not hold
    assert_eq!(find_shortest_path(&graph, "xxxx", "xxxx"), Ok(vec!["xxxx"]));
    let empty = Graph::new();
    assert_eq!(find_shortest_path(&empty, "cold", "cold"), Ok(vec!["cold"]));
}

#[test]
fn unreachable_stop_is_no_path() {
    let dict = ["cold", "cord", "warm", "ward"];
    let graph = build_graph_from_dict(&dict);
    assert_eq!(find_shortest_path(&graph, "cold", "warm"), Err(SearchError::NoPathFound));
    assert_eq!(find_shortest_path(&graph, "warm", "cord"), Err(SearchError::NoPathFound));
}

#[test]
fn stop_not_in_dictionary_is_no_path() {
    let graph = build_graph_from_dict(&LADDER);
    assert_eq!(find_shortest_path(&graph, "cold", "xxxx"), Err(SearchError::NoPathFound));
}

#[test]
fn empty_graph_has_no_valid_start() {
    let graph = Graph::new();
    assert_eq!(find_shortest_path(&graph, "cold", "warm"), Err(SearchError::InvalidWord("cold")));
}

#[test]
fn shorter_of_two_routes_is_taken() {
    // cold-cord-word-ward-warm is as long as cold-cord-card-ward-warm; worm gives a shortcut
    let dict = ["cold", "cord", "card", "ward", "warm", "corm", "worm"];
    let graph = build_graph_from_dict(&dict);
    let path = find_shortest_path(&graph, "cold", "warm").unwrap();
    assert_eq!(path.len(), 5);
    assert_eq!(path, vec!["cold", "cord", "card", "ward", "warm"]);
    let path = find_shortest_path(&graph, "cold", "worm").unwrap();
    assert_eq!(path, vec!["cold", "cord", "corm", "worm"]);
}

#[test]
fn earlier_link_wins_among_equal_routes() {
    let mut graph = Graph::new();
    graph.add_edge("s", "b");
    graph.add_edge("s", "a");
    graph.add_edge("a", "t");
    graph.add_edge("b", "t");
    assert_eq!(find_shortest_path(&graph, "s", "t"), Ok(vec!["s", "b", "t"]));
    let mut graph = Graph::new();
    graph.add_edge("s", "a");
    graph.add_edge("s", "b");
    graph.add_edge("b", "t");
    graph.add_edge("a", "t");
    assert_eq!(find_shortest_path(&graph, "s", "t"), Ok(vec!["s", "a", "t"]));
}

#[test]
fn path_length_is_true_distance_on_a_cycle() {
    check_all_pairs(&[(0, 1), (1, 2), (2, 3), (3, 4), (4, 5), (5, 0)], 6);
}

#[test]
fn path_length_is_true_distance_on_a_tree() {
    check_all_pairs(&[(0, 1), (0, 2), (1, 3), (1, 4), (2, 5), (5, 6), (6, 7)], 8);
}

#[test]
fn path_length_is_true_distance_with_shortcuts() {
    check_all_pairs(
        &[(0, 1), (1, 2), (2, 3), (3, 4), (4, 5), (5, 6), (6, 7), (0, 4), (2, 6), (1, 7)],
        8,
    );
}

#[test]
fn path_length_is_true_distance_on_two_islands() {
    // node 7 is in no edge at all
    check_all_pairs(&[(0, 1), (1, 2), (2, 0), (3, 4), (4, 5), (5, 6)], 8);
}

#[test]
fn path_length_is_true_distance_on_a_dense_graph() {
    check_all_pairs(
        &[(0, 1), (0, 2), (0, 3), (1, 2), (1, 3), (2, 3), (3, 4), (4, 5), (4, 6), (5, 6)],
        7,
    );
}

#[test]
fn every_step_of_a_ladder_changes_one_letter() {
    let dict = [
        "cold", "cord", "card", "ward", "warm", "worm", "word", "wood", "corm", "cork", "work",
        "wore", "core", "care", "ware", "wire", "wine", "mine", "mind", "kind",
    ];
    let graph = build_graph_from_dict(&dict);
    for start in dict.iter() {
        for stop in dict.iter() {
            if let Ok(path) = find_shortest_path(&graph, start, stop) {
                assert_eq!(path[0], *start);
                assert_eq!(path[path.len() - 1], *stop);
                for k in 0..path.len() - 1 {
                    assert!(weavesolve::is_one_char_diff(path[k], path[k + 1]));
                    assert!(graph.neighbors(path[k]).unwrap().contains(&path[k + 1]));
                }
            }
        }
    }
}

#[test]
fn search_twice_gives_the_same_result() {
    let dict = [
        "cold", "cord", "card", "ward", "warm", "worm", "word", "wood", "corm", "cork", "work",
        "zzzz",
    ];
    let graph = build_graph_from_dict(&dict);
    let again = build_graph_from_dict(&dict);
    for start in dict.iter() {
        for stop in dict.iter() {
            let first = find_shortest_path(&graph, start, stop);
            let second = find_shortest_path(&graph, start, stop);
            let third = find_shortest_path(&again, start, stop);
            assert_eq!(first, second);
            assert_eq!(first, third);
        }
    }
}

#[test]
fn bfs_records_the_parents_on_the_way() {
    let graph = build_graph_from_dict(&LADDER);
    let (found, parents) = bfs(&graph, "cold", "warm").ok().unwrap();
    assert_eq!(found, "warm");
    assert_eq!(parents.get("warm"), Some("ward"));
    assert_eq!(parents.get("ward"), Some("card"));
    assert_eq!(parents.get("card"), Some("cord"));
    assert_eq!(parents.get("cord"), Some("cold"));
    assert_eq!(parents.get("cold"), None);
    assert_eq!(parents.get("xxxx"), None);
}

#[test]
fn bfs_stops_when_the_goal_is_met() {
    let graph = build_graph_from_dict(&LADDER);
    let (found, parents) = bfs(&graph, "card", "cord").ok().unwrap();
    assert_eq!(found, "cord");
    assert_eq!(parents.get("cord"), Some("card"));
    assert_eq!(parents.get("ward"), Some("card"));
    // the links of cord and ward were never followed
    assert_eq!(parents.get("cold"), None);
    assert_eq!(parents.get("warm"), None);
}

#[test]
fn bfs_of_a_word_with_itself_records_nothing() {
    let graph = build_graph_from_dict(&LADDER);
    let (found, parents) = bfs(&graph, "card", "card").ok().unwrap();
    assert_eq!(found, "card");
    assert_eq!(parents.get("card"), None);
    assert_eq!(parents.get("cord"), None);
}

#[test]
fn bfs_reports_both_failures() {
    let dict = ["cold", "cord", "warm", "ward"];
    let graph = build_graph_from_dict(&dict);
    assert!(matches!(bfs(&graph, "cold", "warm"), Err(SearchError::NoPathFound)));
    assert!(matches!(bfs(&graph, "xxxx", "warm"), Err(SearchError::InvalidWord("xxxx"))));
}

#[test]
fn ladder_length_is_number_of_differing_letters_in_a_full_dictionary() {
    // every word of three letters over a, b, c, d, e: a ladder changes each
    // differing letter once
    let letters = ['a', 'b', 'c', 'd', 'e'];
    let mut owned: Vec<String> = Vec::new();
    for x in letters.iter() {
        for y in letters.iter() {
            for z in letters.iter() {
                owned.push(format!("{}{}{}", x, y, z));
            }
        }
    }
    let dict: Vec<&str> = owned.iter().map(|w| w.as_str()).collect();
    let graph = build_graph_from_dict(&dict);
    for start in dict.iter().step_by(7) {
        for stop in dict.iter().step_by(3) {
            let differing = start.chars().zip(stop.chars()).filter(|(a, b)| a != b).count();
            let path = find_shortest_path(&graph, start, stop).unwrap();
            assert_eq!(path.len(), differing + 1);
        }
    }
    // among the ladders of equal length the one that takes the earliest links is taken:
    // the list of aaa begins with aab, that of eee, the last entry, with aee
    assert_eq!(graph.neighbors("aaa").unwrap()[0], "aab");
    assert_eq!(graph.neighbors("eee").unwrap()[0], "aee");
    assert_eq!(find_shortest_path(&graph, "aaa", "bbb"), Ok(vec!["aaa", "aab", "abb", "bbb"]));
    assert_eq!(find_shortest_path(&graph, "eee", "aad"), Ok(vec!["eee", "aee", "aae", "aad"]));
}
