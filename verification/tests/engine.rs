use game_graph::graph::GameGraph;

#[test]
fn testAddEdge() {
    let mut graph = GameGraph::new();
    graph.addEdge("Game1", "Game2");
    graph.addEdge("Game2", "Game3");

    assert_eq!(graph.hasEdge("Game1", "Game2"), true);
    assert_eq!(graph.hasEdge("Game2", "Game1"), true);
    assert_eq!(graph.hasEdge("Game2", "Game3"), true);
    assert_eq!(graph.hasEdge("Game3", "Game2"), true);
}

#[test]
fn testBfs() {
    let mut graph = GameGraph::new();
    graph.addEdge("Game1", "Game2");
    graph.addEdge("Game2", "Game3");
    graph.addEdge("Game3", "Game4");

    let distances = graph.bfs("Game1");
    assert_eq!(*distances.get("Game1").unwrap(), 0);
    assert_eq!(*distances.get("Game2").unwrap(), 1);
    assert_eq!(*distances.get("Game3").unwrap(), 2);
    assert_eq!(*distances.get("Game4").unwrap(), 3);
}

#[test]
fn testDegreeDistribution() {
    let mut graph = GameGraph::new();
    graph.addEdge("Game1", "Game2");
    graph.addEdge("Game2", "Game3");
    graph.addEdge("Game3", "Game4");
    graph.addEdge("Game4", "Game1");

    let degreeDistribution = graph.degreeDistribution();
    assert_eq!(degreeDistribution.get(&2).copied().unwrap_or(0), 4);
}

#[test]
fn testDegreeCentrality() {
    let mut graph = GameGraph::new();
    graph.addEdge("Game1", "Game2");
    graph.addEdge("Game1", "Game3");
    graph.addEdge("Game1", "Game4");

    let centrality = graph.degreeCentrality();
    assert_eq!(*centrality.get("Game1").unwrap(), 3);
    assert_eq!(*centrality.get("Game2").unwrap(), 1);
    assert_eq!(*centrality.get("Game3").unwrap(), 1);
    assert_eq!(*centrality.get("Game4").unwrap(), 1);
}
