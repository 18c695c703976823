use swh_origin_stats::accessor::NodeType;
use swh_origin_stats::memory::MemoryGraph;
use swh_origin_stats::utils::{filter_by_node_type, read_node_ids, write_node_ids};

fn graph_of(kinds: &[NodeType]) -> MemoryGraph {
    let mut g = MemoryGraph::new();
    for kind in kinds {
        g.add_node(*kind);
    }
    g
}

#[test]
fn filter_by_node_type_lists_in_ascending_order() {
    let g = graph_of(&[
        NodeType::Revision,
        NodeType::Origin,
        NodeType::Revision,
        NodeType::Snapshot,
        NodeType::Origin,
        NodeType::Origin,
    ]);
    assert_eq!(filter_by_node_type(&g, NodeType::Origin), vec![1, 4, 5]);
    assert_eq!(filter_by_node_type(&g, NodeType::Revision), vec![0, 2]);
    assert_eq!(filter_by_node_type(&g, NodeType::Snapshot), vec![3]);
    assert_eq!(filter_by_node_type(&g, NodeType::Release), Vec::<usize>::new());
}

#[test]
fn filter_by_node_type_of_an_empty_graph() {
    let g = MemoryGraph::new();
    assert_eq!(filter_by_node_type(&g, NodeType::Origin), Vec::<usize>::new());
}

#[test]
fn write_node_ids_puts_one_identifier_per_line() {
    assert_eq!(write_node_ids(&vec![]), b"".to_vec());
    assert_eq!(write_node_ids(&vec![0]), b"0\n".to_vec());
    assert_eq!(write_node_ids(&vec![12, 7, 300]), b"12\n7\n300\n".to_vec());
    assert_eq!(
        write_node_ids(&vec![usize::MAX]),
        format!("{}\n", usize::MAX).into_bytes()
    );
}

#[test]
fn read_node_ids_reads_one_identifier_per_line() {
    assert_eq!(read_node_ids(b""), Some(vec![]));
    assert_eq!(read_node_ids(b"0\n"), Some(vec![0]));
    assert_eq!(read_node_ids(b"12\n7\n300\n"), Some(vec![12, 7, 300]));
    assert_eq!(read_node_ids(b"5\n5\n"), Some(vec![5, 5]));
}

#[test]
fn read_node_ids_accepts_a_last_line_without_line_feed() {
    assert_eq!(read_node_ids(b"12\n7"), Some(vec![12, 7]));
    assert_eq!(read_node_ids(b"9"), Some(vec![9]));
}

#[test]
fn read_node_ids_drops_a_carriage_return_before_a_line_feed() {
    assert_eq!(read_node_ids(b"12\r\n7\r\n"), Some(vec![12, 7]));
    assert_eq!(read_node_ids(b"12\r\n7"), Some(vec![12, 7]));
    // Not before the end of the text, and only one.
    assert_eq!(read_node_ids(b"12\r"), None);
    assert_eq!(read_node_ids(b"12\r\r\n"), None);
    assert_eq!(read_node_ids(b"\r\n"), None);
}

#[test]
fn read_node_ids_accepts_a_plus_sign_and_leading_zeros() {
    assert_eq!(read_node_ids(b"+12\n007\n"), Some(vec![12, 7]));
    assert_eq!(read_node_ids(b"+0\n"), Some(vec![0]));
    assert_eq!(read_node_ids(b"+\n"), None);
    assert_eq!(read_node_ids(b"++1\n"), None);
    assert_eq!(read_node_ids(b"1+\n"), None);
}

#[test]
fn read_node_ids_refuses_what_is_not_a_number() {
    assert_eq!(read_node_ids(b"\n"), None);
    assert_eq!(read_node_ids(b"1\n\n2\n"), None);
    assert_eq!(read_node_ids(b"-1\n"), None);
    assert_eq!(read_node_ids(b" 1\n"), None);
    assert_eq!(read_node_ids(b"1 \n"), None);
    assert_eq!(read_node_ids(b"1,2\n"), None);
    assert_eq!(read_node_ids(b"0x10\n"), None);
    assert_eq!(read_node_ids(b"12a\n"), None);
    assert_eq!(read_node_ids("１２\n".as_bytes()), None);
    assert_eq!(read_node_ids(b"1\n2\nx"), None);
}

#[test]
fn read_node_ids_refuses_a_number_that_is_too_large() {
    let largest = usize::MAX.to_string();
    assert_eq!(read_node_ids(largest.as_bytes()), Some(vec![usize::MAX]));
    let too_large = format!("{}0\n", largest);
    assert_eq!(read_node_ids(too_large.as_bytes()), None);
    let mut next = largest.into_bytes();
    let last = next.len() - 1;
    next[last] += 1;
    assert_eq!(read_node_ids(&next), None);
    assert_eq!(read_node_ids(b"99999999999999999999999999999999999999\n"), None);
}

#[test]
fn read_node_ids_agrees_with_the_standard_parser() {
    for text in ["1\n22\n333", "+4\r\n5\n", "", "\n", "6\n \n", "7\n+\n", "0008\n", "9\r"] {
        let standard: Option<Vec<usize>> =
            text.lines().map(|line| line.parse::<usize>().ok()).collect();
        assert_eq!(read_node_ids(text.as_bytes()), standard);
    }
}

#[test]
fn what_is_written_is_read_back() {
    for ids in [vec![], vec![0], vec![3, 1, 2], vec![usize::MAX, 0, 10, 100, 1000]] {
        assert_eq!(read_node_ids(&write_node_ids(&ids)), Some(ids));
    }
}
