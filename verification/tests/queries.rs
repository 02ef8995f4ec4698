use game_graph::graph::GameGraph;
use game_graph::record::GameRecord;

fn chain() -> GameGraph {
    let mut graph = GameGraph::new();
    graph.addEdge("A", "B");
    graph.addEdge("B", "C");
    graph.addEdge("C", "D");
    graph
}

#[test]
fn distances_along_a_chain() {
    let graph = chain();
    let distances = graph.bfs("A");
    assert_eq!(distances.len(), 4);
    assert_eq!(distances.get("A").copied(), Some(0));
    assert_eq!(distances.get("B").copied(), Some(1));
    assert_eq!(distances.get("C").copied(), Some(2));
    assert_eq!(distances.get("D").copied(), Some(3));

    let from_the_middle = graph.bfs("C");
    assert_eq!(from_the_middle.get("A").copied(), Some(2));
    assert_eq!(from_the_middle.get("B").copied(), Some(1));
    assert_eq!(from_the_middle.get("C").copied(), Some(0));
    assert_eq!(from_the_middle.get("D").copied(), Some(1));
}

#[test]
fn distances_from_an_unknown_game_are_empty() {
    let graph = chain();
    let distances = graph.bfs("NoSuchGame");
    assert_eq!(distances.len(), 0);
    assert!(distances.is_empty());
    assert_eq!(distances.get("NoSuchGame"), None);
    assert_eq!(distances.get("A"), None);

    let empty = GameGraph::new();
    assert_eq!(empty.bfs("NoSuchGame").len(), 0);
    assert_eq!(empty.bfs("").len(), 0);
}

#[test]
fn distances_leave_out_what_is_not_reached() {
    let mut graph = chain();
    graph.addEdge("X", "Y");
    graph.insert(&GameRecord::new("Alone", "Puzzle", "Atari"));
    let distances = graph.bfs("A");
    assert_eq!(distances.len(), 4);
    assert_eq!(distances.get("X"), None);
    assert_eq!(distances.get("Y"), None);
    assert_eq!(distances.get("Alone"), None);

    let alone = graph.bfs("Alone");
    assert_eq!(alone.len(), 1);
    assert_eq!(alone.get("Alone").copied(), Some(0));
}

#[test]
fn distances_take_the_shortest_way() {
    let mut graph = chain();
    graph.addEdge("D", "E");
    graph.addEdge("E", "F");
    graph.addEdge("A", "E");
    graph.addEdge("A", "A");
    let distances = graph.bfs("A");
    assert_eq!(distances.get("A").copied(), Some(0));
    assert_eq!(distances.get("B").copied(), Some(1));
    assert_eq!(distances.get("C").copied(), Some(2));
    assert_eq!(distances.get("D").copied(), Some(2));
    assert_eq!(distances.get("E").copied(), Some(1));
    assert_eq!(distances.get("F").copied(), Some(2));
}

#[test]
fn distances_do_not_depend_on_insertion_order() {
    let mut forward = GameGraph::new();
    forward.addEdge("A", "B");
    forward.addEdge("A", "C");
    forward.addEdge("B", "D");
    forward.addEdge("C", "D");
    forward.addEdge("D", "E");
    let mut backward = GameGraph::new();
    backward.addEdge("E", "D");
    backward.addEdge("D", "C");
    backward.addEdge("D", "B");
    backward.addEdge("C", "A");
    backward.addEdge("B", "A");
    let first = forward.bfs("A");
    let second = backward.bfs("A");
    for (name, hops) in [("A", 0), ("B", 1), ("C", 1), ("D", 2), ("E", 3)] {
        assert_eq!(first.get(name).copied(), Some(hops));
        assert_eq!(second.get(name).copied(), Some(hops));
    }
}

#[test]
fn max_distance_is_the_farthest_reached() {
    let mut graph = chain();
    graph.addEdge("X", "Y");
    assert_eq!(graph.maxDistance("A"), 3);
    assert_eq!(graph.maxDistance("B"), 2);
    assert_eq!(graph.maxDistance("X"), 1);
    assert_eq!(graph.maxDistance("NoSuchGame"), 0);
    graph.insert(&GameRecord::new("Alone", "Puzzle", "Atari"));
    assert_eq!(graph.maxDistance("Alone"), 0);
}

#[test]
fn cycle_has_one_bucket_of_degree_two() {
    let mut graph = GameGraph::new();
    graph.addEdge("A", "B");
    graph.addEdge("B", "C");
    graph.addEdge("C", "D");
    graph.addEdge("D", "A");
    let distribution = graph.degreeDistribution();
    assert_eq!(distribution.len(), 1);
    assert_eq!(distribution.get(&2).copied(), Some(4));
    assert_eq!(distribution.get(&0), None);
    assert_eq!(distribution.get(&1), None);
}

#[test]
fn star_has_its_centre_most_central() {
    let mut graph = GameGraph::new();
    graph.addEdge("A", "B");
    graph.addEdge("A", "C");
    graph.addEdge("A", "D");
    let centrality = graph.degreeCentrality();
    assert_eq!(centrality.len(), 4);
    assert_eq!(centrality.get("A").copied(), Some(3));
    assert_eq!(centrality.get("B").copied(), Some(1));
    assert_eq!(centrality.get("C").copied(), Some(1));
    assert_eq!(centrality.get("D").copied(), Some(1));
    assert_eq!(graph.mostCentral(), Some(("A".to_string(), 3)));

    let distribution = graph.degreeDistribution();
    assert_eq!(distribution.len(), 2);
    assert_eq!(distribution.get(&1).copied(), Some(3));
    assert_eq!(distribution.get(&3).copied(), Some(1));
}

#[test]
fn distribution_counts_add_up_to_the_node_count() {
    let mut graph = GameGraph::new();
    assert_eq!(graph.degreeDistribution().values().sum::<usize>(), 0);
    let records = [
        GameRecord::new("A", "RPG", "X"),
        GameRecord::new("B", "RPG", "Y"),
        GameRecord::new("C", "Action", "Y"),
        GameRecord::new("D", "Sports", "Z"),
        GameRecord::new("E", "Sports", "Y"),
        GameRecord::new("F", "Puzzle", "Q"),
        GameRecord::new("A", "Puzzle", "Z"),
    ];
    for record in &records {
        graph.insert(record);
        let distribution = graph.degreeDistribution();
        assert_eq!(distribution.values().sum::<usize>(), graph.nodeCount());
        assert!(distribution.values().all(|count| *count > 0));
    }
    graph.addEdge("F", "F");
    graph.addEdge("G", "H");
    let distribution = graph.degreeDistribution();
    assert_eq!(distribution.values().sum::<usize>(), 8);
    assert_eq!(graph.nodeCount(), 8);
}

#[test]
fn distribution_counts_isolated_nodes() {
    let mut graph = GameGraph::new();
    graph.insert(&GameRecord::new("A", "RPG", "X"));
    graph.insert(&GameRecord::new("B", "Action", "Y"));
    graph.insert(&GameRecord::new("C", "RPG", "Z"));
    let distribution = graph.degreeDistribution();
    assert_eq!(distribution.len(), 2);
    assert_eq!(distribution.get(&0).copied(), Some(1));
    assert_eq!(distribution.get(&1).copied(), Some(2));
}

#[test]
fn centrality_covers_every_node_once() {
    let mut graph = GameGraph::new();
    graph.insert(&GameRecord::new("A", "RPG", "X"));
    graph.insert(&GameRecord::new("B", "Action", "Y"));
    graph.insert(&GameRecord::new("C", "RPG", "Y"));
    graph.addEdge("C", "D");
    let centrality = graph.degreeCentrality();
    assert_eq!(centrality.len(), graph.nodeCount());
    assert_eq!(centrality.len(), 4);
    assert_eq!(centrality.get("A").copied(), Some(1));
    assert_eq!(centrality.get("B").copied(), Some(1));
    assert_eq!(centrality.get("C").copied(), Some(3));
    assert_eq!(centrality.get("D").copied(), Some(1));
    assert_eq!(centrality.get("E"), None);
    for name in graph.nodes() {
        assert!(centrality.contains_key(&name));
    }
}

#[test]
fn most_central_prefers_the_node_created_first() {
    let mut graph = GameGraph::new();
    assert_eq!(graph.mostCentral(), None);
    graph.insert(&GameRecord::new("Alone", "Puzzle", "Atari"));
    assert_eq!(graph.mostCentral(), Some(("Alone".to_string(), 0)));
    graph.addEdge("B", "A");
    assert_eq!(graph.mostCentral(), Some(("B".to_string(), 1)));
    graph.addEdge("A", "C");
    assert_eq!(graph.mostCentral(), Some(("A".to_string(), 2)));
    graph.addEdge("B", "D");
    assert_eq!(graph.mostCentral(), Some(("B".to_string(), 2)));
}
