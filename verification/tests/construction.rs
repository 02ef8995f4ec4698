use game_graph::graph::{buildGraph, GameGraph};
use game_graph::record::{
    GameRecord, CRITIC_SCORE_COLUMN, GENRE_COLUMN, NAME_COLUMN, PUBLISHER_COLUMN, USER_SCORE_COLUMN,
};

fn row(fields: &[&str]) -> Vec<String> {
    fields.iter().map(|f| f.to_string()).collect()
}

fn edge_count(graph: &GameGraph) -> usize {
    let names = graph.nodes();
    let mut ends = 0;
    let mut loops = 0;
    for a in &names {
        for b in &names {
            if graph.hasEdge(a, b) {
                ends += 1;
                if a == b {
                    loops += 1;
                }
            }
        }
    }
    (ends + loops) / 2
}

#[test]
fn new_graph_is_empty() {
    let graph = GameGraph::new();
    assert_eq!(graph.nodeCount(), 0);
    assert_eq!(graph.nodes().len(), 0);
    assert_eq!(graph.hasNode("Game1"), false);
    assert_eq!(graph.hasEdge("Game1", "Game2"), false);
}

#[test]
fn add_edge_creates_both_nodes_in_order() {
    let mut graph = GameGraph::new();
    graph.addEdge("Game2", "Game1");
    graph.addEdge("Game1", "Game3");
    assert_eq!(graph.nodes(), vec!["Game2", "Game1", "Game3"]);
    assert_eq!(graph.nodeCount(), 3);
    assert!(graph.hasNode("Game3"));
    assert!(!graph.hasNode("Game4"));
    assert!(!graph.hasEdge("Game2", "Game3"));
}

#[test]
fn add_edge_twice_keeps_one_edge() {
    let mut graph = GameGraph::new();
    graph.addEdge("Game1", "Game2");
    graph.addEdge("Game1", "Game2");
    graph.addEdge("Game2", "Game1");
    assert_eq!(graph.nodeCount(), 2);
    assert_eq!(edge_count(&graph), 1);
    assert_eq!(*graph.degreeCentrality().get("Game1").unwrap(), 1);
    assert_eq!(*graph.degreeCentrality().get("Game2").unwrap(), 1);
}

#[test]
fn add_edge_to_itself_makes_a_loop() {
    let mut graph = GameGraph::new();
    graph.addEdge("Game1", "Game1");
    assert_eq!(graph.nodeCount(), 1);
    assert!(graph.hasEdge("Game1", "Game1"));
    assert_eq!(*graph.degreeCentrality().get("Game1").unwrap(), 1);
    assert_eq!(edge_count(&graph), 1);
}

#[test]
fn similarity_rule_joins_shared_genre_or_publisher() {
    let mut graph = GameGraph::new();
    graph.insert(&GameRecord::new("record1", "RPG", "X"));
    graph.insert(&GameRecord::new("record2", "RPG", "Y"));
    graph.insert(&GameRecord::new("record3", "Action", "Y"));

    assert!(graph.hasEdge("record1", "record2"));
    assert!(graph.hasEdge("record2", "record1"));
    assert!(graph.hasEdge("record2", "record3"));
    assert!(graph.hasEdge("record3", "record2"));
    assert!(!graph.hasEdge("record1", "record3"));
    assert!(!graph.hasEdge("record3", "record1"));
    assert_eq!(edge_count(&graph), 2);
    assert_eq!(graph.nodes(), vec!["record1", "record2", "record3"]);
}

#[test]
fn insert_makes_an_isolated_node() {
    let mut graph = GameGraph::new();
    graph.insert(&GameRecord::new("Alone", "Puzzle", "Atari"));
    graph.insert(&GameRecord::new("Other", "Racing", "Sega"));
    assert!(graph.hasNode("Alone"));
    assert!(graph.hasNode("Other"));
    assert_eq!(graph.nodeCount(), 2);
    assert_eq!(edge_count(&graph), 0);
    assert_eq!(*graph.degreeCentrality().get("Alone").unwrap(), 0);
    assert_eq!(graph.degreeDistribution().get(&0).copied(), Some(2));
}

#[test]
fn insert_never_joins_a_game_to_itself() {
    let mut graph = GameGraph::new();
    graph.insert(&GameRecord::new("Game1", "RPG", "X"));
    graph.insert(&GameRecord::new("Game1", "RPG", "X"));
    assert_eq!(graph.nodeCount(), 1);
    assert!(!graph.hasEdge("Game1", "Game1"));
    assert_eq!(edge_count(&graph), 0);
}

#[test]
fn empty_fields_are_equal_to_each_other() {
    let mut graph = GameGraph::new();
    graph.insert(&GameRecord::new("Game1", "", ""));
    graph.insert(&GameRecord::new("Game2", "", ""));
    graph.insert(&GameRecord::new("Game3", "RPG", ""));
    graph.insert(&GameRecord::new("Game4", "RPG", "X"));
    assert!(graph.hasEdge("Game1", "Game2"));
    assert!(graph.hasEdge("Game1", "Game3"));
    assert!(graph.hasEdge("Game2", "Game3"));
    assert!(graph.hasEdge("Game3", "Game4"));
    assert!(!graph.hasEdge("Game1", "Game4"));
    assert!(!graph.hasEdge("Game2", "Game4"));
}

#[test]
fn comparison_is_case_sensitive() {
    let mut graph = GameGraph::new();
    graph.insert(&GameRecord::new("Game1", "RPG", "Nintendo"));
    graph.insert(&GameRecord::new("Game2", "rpg", "nintendo"));
    graph.insert(&GameRecord::new("game1", "Rpg", "NINTENDO"));
    assert_eq!(graph.nodeCount(), 3);
    assert_eq!(edge_count(&graph), 0);
}

#[test]
fn reinserting_a_name_updates_it_and_keeps_its_edges() {
    let mut graph = GameGraph::new();
    graph.insert(&GameRecord::new("Game1", "RPG", "X"));
    graph.insert(&GameRecord::new("Game2", "RPG", "Y"));
    graph.insert(&GameRecord::new("Game3", "Action", "Z"));
    assert!(graph.hasEdge("Game1", "Game2"));
    assert!(!graph.hasEdge("Game1", "Game3"));

    graph.insert(&GameRecord::new("Game1", "Action", "W"));
    assert_eq!(graph.nodeCount(), 3);
    assert_eq!(graph.nodes(), vec!["Game1", "Game2", "Game3"]);
    assert!(graph.hasEdge("Game1", "Game2"));
    assert!(graph.hasEdge("Game1", "Game3"));
    assert!(graph.hasEdge("Game3", "Game1"));
    assert_eq!(*graph.degreeCentrality().get("Game1").unwrap(), 2);

    graph.insert(&GameRecord::new("Game4", "RPG", "Q"));
    assert!(graph.hasEdge("Game4", "Game2"));
    assert!(!graph.hasEdge("Game4", "Game1"));

    graph.insert(&GameRecord::new("Game1", "Action", "W"));
    assert_eq!(*graph.degreeCentrality().get("Game1").unwrap(), 2);
    assert_eq!(edge_count(&graph), 3);
}

#[test]
fn insert_after_add_edge_compares_only_with_records() {
    let mut graph = GameGraph::new();
    graph.addEdge("Game1", "Game2");
    graph.insert(&GameRecord::new("Game3", "", ""));
    assert_eq!(graph.nodeCount(), 3);
    assert!(!graph.hasEdge("Game3", "Game1"));
    assert!(!graph.hasEdge("Game3", "Game2"));
    graph.insert(&GameRecord::new("Game1", "", "X"));
    assert!(graph.hasEdge("Game1", "Game3"));
    assert!(graph.hasEdge("Game1", "Game2"));
    assert!(!graph.hasEdge("Game2", "Game3"));
}

#[test]
fn edges_are_symmetric() {
    let mut graph = GameGraph::new();
    graph.insert(&GameRecord::new("A", "RPG", "X"));
    graph.insert(&GameRecord::new("B", "RPG", "Y"));
    graph.insert(&GameRecord::new("C", "Action", "Y"));
    graph.insert(&GameRecord::new("D", "Sports", "Z"));
    graph.addEdge("D", "E");
    graph.addEdge("E", "E");
    let names = graph.nodes();
    assert_eq!(names.len(), 5);
    for a in &names {
        for b in &names {
            assert_eq!(graph.hasEdge(a, b), graph.hasEdge(b, a));
        }
    }
    assert_eq!(graph.hasEdge("A", "Nobody"), false);
    assert_eq!(graph.hasEdge("Nobody", "A"), false);
}

#[test]
fn insertion_never_removes_and_counts_never_fall() {
    let records = vec![
        GameRecord::new("A", "RPG", "X"),
        GameRecord::new("B", "RPG", "Y"),
        GameRecord::new("C", "Action", "Y"),
        GameRecord::new("A", "Sports", "Z"),
        GameRecord::new("D", "Sports", "Y"),
        GameRecord::new("E", "Puzzle", "Q"),
    ];
    let expected_nodes = [1, 2, 3, 3, 4, 5];
    let expected_edges = [0, 1, 2, 2, 5, 5];
    let mut graph = GameGraph::new();
    for (step, record) in records.iter().enumerate() {
        let names = graph.nodes();
        let mut before = Vec::new();
        for a in &names {
            for b in &names {
                if graph.hasEdge(a, b) {
                    before.push((a.clone(), b.clone()));
                }
            }
        }
        let nodes_before = graph.nodeCount();
        let edges_before = edge_count(&graph);

        graph.insert(record);

        for (a, b) in &before {
            assert!(graph.hasEdge(a, b));
        }
        for a in &names {
            assert!(graph.hasNode(a));
        }
        assert!(graph.hasNode(&record.name));
        assert!(graph.nodeCount() >= nodes_before);
        assert!(edge_count(&graph) >= edges_before);
        assert_eq!(graph.nodeCount(), expected_nodes[step]);
        assert_eq!(edge_count(&graph), expected_edges[step]);
    }
}

#[test]
fn build_graph_inserts_in_order() {
    let records = vec![
        GameRecord::new("record1", "RPG", "X"),
        GameRecord::new("record2", "RPG", "Y"),
        GameRecord::new("record3", "Action", "Y"),
    ];
    let graph = buildGraph(&records);
    assert_eq!(graph.nodes(), vec!["record1", "record2", "record3"]);
    assert!(graph.hasEdge("record1", "record2"));
    assert!(graph.hasEdge("record2", "record3"));
    assert!(!graph.hasEdge("record1", "record3"));

    let mut by_hand = GameGraph::new();
    for record in &records {
        by_hand.insert(record);
    }
    assert_eq!(by_hand.nodes(), graph.nodes());
    for a in graph.nodes() {
        for b in graph.nodes() {
            assert_eq!(by_hand.hasEdge(&a, &b), graph.hasEdge(&a, &b));
        }
    }
}

#[test]
fn build_graph_of_nothing_is_empty() {
    let graph = buildGraph(&Vec::new());
    assert_eq!(graph.nodeCount(), 0);
    assert_eq!(graph.degreeDistribution().len(), 0);
    assert_eq!(graph.degreeCentrality().len(), 0);
}

#[test]
fn record_is_read_from_its_columns() {
    assert_eq!(NAME_COLUMN, 0);
    assert_eq!(GENRE_COLUMN, 3);
    assert_eq!(PUBLISHER_COLUMN, 4);
    assert_eq!(CRITIC_SCORE_COLUMN, 6);
    assert_eq!(USER_SCORE_COLUMN, 7);
    let fields = row(&["Wii Sports", "Wii", "2006", "Sports", "Nintendo", "41.36", "76", "8"]);
    let record = GameRecord::fromFields(&fields);
    assert_eq!(record.name, "Wii Sports");
    assert_eq!(record.genre, "Sports");
    assert_eq!(record.publisher, "Nintendo");
}

#[test]
fn record_from_a_short_row_has_empty_fields() {
    let record = GameRecord::fromFields(&row(&["Tetris", "GB", "1989", "Puzzle"]));
    assert_eq!(record.name, "Tetris");
    assert_eq!(record.genre, "Puzzle");
    assert_eq!(record.publisher, "");

    let record = GameRecord::fromFields(&row(&["Pong"]));
    assert_eq!(record.name, "Pong");
    assert_eq!(record.genre, "");
    assert_eq!(record.publisher, "");

    let record = GameRecord::fromFields(&row(&[]));
    assert_eq!(record.name, "");
    assert_eq!(record.genre, "");
    assert_eq!(record.publisher, "");
}

#[test]
fn rows_build_the_graph_of_their_records() {
    let rows = vec![
        row(&["Wii Sports", "Wii", "2006", "Sports", "Nintendo"]),
        row(&["Mario Kart Wii", "Wii", "2008", "Racing", "Nintendo"]),
        row(&["FIFA 16", "PS4", "2015", "Sports", "Electronic Arts"]),
        row(&["Tetris", "GB", "1989", "Puzzle"]),
    ];
    let records: Vec<GameRecord> = rows.iter().map(GameRecord::fromFields).collect();
    let graph = buildGraph(&records);
    assert_eq!(graph.nodeCount(), 4);
    assert!(graph.hasEdge("Wii Sports", "Mario Kart Wii"));
    assert!(graph.hasEdge("Wii Sports", "FIFA 16"));
    assert!(!graph.hasEdge("Mario Kart Wii", "FIFA 16"));
    assert_eq!(*graph.degreeCentrality().get("Tetris").unwrap(), 0);
}
