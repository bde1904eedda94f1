// The configuration grammar: a full parse with every field checked,
// whitespace and junk-line tolerance, edge-list sorting by weight, and
// one input for every rejection.

use bfs_tree::config::{parse_config, ConfigError};

fn node<'a>(
    nodes: &'a [(i32, bfs_tree::node::NodeData)],
    id: i32,
) -> &'a bfs_tree::node::NodeData {
    &nodes.iter().find(|(k, _)| *k == id).expect("vertex exists").1
}

#[test]
fn full_config_parses() {
    let text = "4\n\
                1 127.0.0.1 5001\n\
                2 127.0.0.1 5002\n\
                3 10.0.0.3 5003\n\
                4 10.0.0.4 5004\n\
                (1,2) 5\n\
                (2,3) 1\n\
                (1,3) 3\n\
                (4)\n";
    let (nodes, leader) = parse_config(text).expect("parses");
    assert_eq!(leader, 4);
    assert_eq!(nodes.len(), 4);
    assert_eq!(node(&nodes, 1).ip, "127.0.0.1");
    assert_eq!(node(&nodes, 3).ip, "10.0.0.3");
    assert_eq!(node(&nodes, 3).port, 5003);
    // Neighbor lists keep the order the edges were read in.
    assert_eq!(node(&nodes, 1).neighbors, vec![2, 3]);
    assert_eq!(node(&nodes, 2).neighbors, vec![1, 3]);
    assert_eq!(node(&nodes, 3).neighbors, vec![2, 1]);
    assert_eq!(node(&nodes, 4).neighbors, Vec::<i32>::new());
    // Edge lists are sorted by weight.
    assert_eq!(node(&nodes, 1).edges, vec![(3, 3), (2, 5)]);
    assert_eq!(node(&nodes, 2).edges, vec![(3, 1), (1, 5)]);
    assert_eq!(node(&nodes, 3).edges, vec![(2, 1), (1, 3)]);
}

#[test]
fn junk_lines_and_whitespace_are_tolerated() {
    let text = "# a comment line\n\
                \n\
                  2  \r\n\
                note: addresses below\n\
                  1   localhost   4000  \n\
                2 localhost 4001\n\
                   (1,2)   7 \n\
                (1)\n\
                this trailing text is ignored\n";
    let (nodes, leader) = parse_config(text).expect("parses");
    assert_eq!(leader, 1);
    assert_eq!(nodes.len(), 2);
    assert_eq!(node(&nodes, 1).ip, "localhost");
    assert_eq!(node(&nodes, 1).port, 4000);
    assert_eq!(node(&nodes, 1).edges, vec![(2, 7)]);
    assert_eq!(node(&nodes, 2).edges, vec![(1, 7)]);
}

#[test]
fn lines_after_the_leader_are_ignored() {
    let text = "1\n1 h 1\n(1)\n(9,9) 1\n";
    let (nodes, leader) = parse_config(text).expect("parses");
    assert_eq!(leader, 1);
    assert_eq!(nodes.len(), 1);
}

#[test]
fn equal_weights_keep_declaration_order() {
    let text = "3\n1 h 1\n2 h 2\n3 h 3\n(1,2) 4\n(1,3) 4\n(2)\n";
    let (nodes, _) = parse_config(text).expect("parses");
    assert_eq!(node(&nodes, 1).edges, vec![(2, 4), (3, 4)]);
}

#[test]
fn error_empty() {
    assert_eq!(parse_config(""), Err(ConfigError::Empty));
    assert_eq!(parse_config("no data lines here\n\n"), Err(ConfigError::Empty));
}

#[test]
fn error_bad_count() {
    assert_eq!(parse_config("2x\n"), Err(ConfigError::BadCount));
}

#[test]
fn error_bad_node_id() {
    assert_eq!(parse_config("1\n1x host 80\n(1)\n"), Err(ConfigError::BadNodeId));
}

#[test]
fn error_missing_ip() {
    assert_eq!(parse_config("1\n7\n(7)\n"), Err(ConfigError::MissingIp));
}

#[test]
fn error_missing_port() {
    assert_eq!(parse_config("1\n7 host\n(7)\n"), Err(ConfigError::MissingPort));
}

#[test]
fn error_bad_port() {
    assert_eq!(parse_config("1\n7 host eighty\n(7)\n"), Err(ConfigError::BadPort));
    assert_eq!(
        parse_config("1\n7 host 2147483648\n(7)\n"),
        Err(ConfigError::BadPort),
        "out-of-range port"
    );
}

#[test]
fn error_bad_edge_vertex() {
    assert_eq!(
        parse_config("2\n1 h 1\n2 h 2\n(1,two) 3\n(1)\n"),
        Err(ConfigError::BadEdgeVertex)
    );
}

#[test]
fn error_bad_edge_shape() {
    assert_eq!(
        parse_config("2\n1 h 1\n2 h 2\n(1,2,1) 3\n(1)\n"),
        Err(ConfigError::BadEdgeShape)
    );
}

#[test]
fn error_missing_weight() {
    assert_eq!(
        parse_config("2\n1 h 1\n2 h 2\n(1,2)\n(1)\n"),
        Err(ConfigError::MissingWeight)
    );
}

#[test]
fn error_bad_weight() {
    assert_eq!(
        parse_config("2\n1 h 1\n2 h 2\n(1,2) heavy\n(1)\n"),
        Err(ConfigError::BadWeight)
    );
}

#[test]
fn error_unknown_endpoint() {
    assert_eq!(
        parse_config("2\n1 h 1\n2 h 2\n(1,9) 3\n(1)\n"),
        Err(ConfigError::UnknownEndpoint)
    );
}

#[test]
fn error_no_leader() {
    assert_eq!(
        parse_config("2\n1 h 1\n2 h 2\n(1,2) 3\n"),
        Err(ConfigError::NoLeader)
    );
}

#[test]
fn later_vertex_record_replaces_earlier() {
    let text = "2\n1 a 1\n1 b 2\n(1)\n";
    let (nodes, _) = parse_config(text).expect("parses");
    assert_eq!(nodes.len(), 1);
    assert_eq!(node(&nodes, 1).ip, "b");
    assert_eq!(node(&nodes, 1).port, 2);
}

#[test]
fn count_beyond_the_lines_swallows_the_rest() {
    // The declared count eats the remaining data lines as vertex lines,
    // so the leader line is read as one and rejected.
    assert_eq!(parse_config("5\n1 h 1\n(1)\n"), Err(ConfigError::BadNodeId));
}

#[test]
fn zero_vertices_parse() {
    let (nodes, leader) = parse_config("0\n(7)\n").expect("parses");
    assert_eq!(nodes.len(), 0);
    assert_eq!(leader, 7);
}

#[test]
fn negative_count_is_no_data_line() {
    // A line opening with a sign is filtered out, so the first data
    // line here is the parenthesized one, which is no integer.
    assert_eq!(parse_config("-3\n(1)\n"), Err(ConfigError::BadCount));
}

#[test]
fn negative_weights_parse_and_sort_first() {
    let text = "2\n1 h 1\n2 h 2\n(1,2) -5\n(1)\n";
    let (nodes, leader) = parse_config(text).expect("parses");
    assert_eq!(leader, 1);
    assert_eq!(node(&nodes, 1).edges, vec![(2, -5)]);
    assert_eq!(node(&nodes, 2).edges, vec![(1, -5)]);
}
