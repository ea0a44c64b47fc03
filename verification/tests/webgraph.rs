use k2tree::webgraph::{comment, find_tab, from_file, parse_edge, parse_number};
use k2tree::K2tree;

#[test]
fn test() {
    let size = 10000;
    // An edge list that cannot be opened gives no line: the grid has no edge.
    let lines: Vec<Vec<u8>> = Vec::new();
    let matrix = from_file(&lines, size).unwrap();
    let k2tree = K2tree::new(matrix, 2);

    let mut size_nodes =
        k2tree.get_nodes().get_data().len() * std::mem::size_of::<Option<usize>>();
    size_nodes += k2tree.get_nodes().get_target_index().len() * std::mem::size_of::<usize>();
    let size_leaves = k2tree.get_leaf().len() * std::mem::size_of::<usize>();
    let size_static = std::mem::size_of::<K2tree<usize>>();
    let total_size = size_static + size_nodes + size_leaves;
    let raw_size = size * size * std::mem::size_of::<usize>();
    println!(
        "K2tree size (bytes) {{static:{}, nodes: {}, leaves: {}}}: {}",
        size_static, size_nodes, size_leaves, total_size
    );
    println!("raw size (bytes): {}", raw_size);
    println!(
        "compression rate: {}%",
        (1.0 - (total_size as f64 / raw_size as f64)) * 100.0
    );
    assert_eq!(k2tree.get_nodes().len(), 4);
    assert_eq!(k2tree.get_leaf().len(), 0);
    assert_eq!(k2tree.get(9999, 9999), Some(&false));
}

fn lines(text: &[&str]) -> Vec<Vec<u8>> {
    text.iter().map(|line| line.as_bytes().to_vec()).collect()
}

#[test]
fn comment_lines_start_with_hash_or_percent() {
    assert!(comment(b"# nodes: 3"));
    assert!(comment(b"%"));
    assert!(!comment(b""));
    assert!(!comment(b" #"));
    assert!(!comment(b"1\t2"));
}

#[test]
fn find_tab_stops_at_the_first_tab_or_the_end() {
    assert_eq!(find_tab(b"12\t3\t4", 0), 2);
    assert_eq!(find_tab(b"12\t3\t4", 2), 2);
    assert_eq!(find_tab(b"12\t3\t4", 3), 4);
    assert_eq!(find_tab(b"12\t3\t4", 5), 6);
    assert_eq!(find_tab(b"12", 0), 2);
    assert_eq!(find_tab(b"", 0), 0);
}

#[test]
fn parse_number_reads_decimal_digits() {
    assert_eq!(parse_number(b"0", 0, 1), Some(0));
    assert_eq!(parse_number(b"007", 0, 3), Some(7));
    assert_eq!(parse_number(b"12345", 0, 5), Some(12345));
    assert_eq!(parse_number(b"12345", 1, 3), Some(23));
    assert_eq!(parse_number(b"+42", 0, 3), Some(42));
    assert_eq!(parse_number(b"", 0, 0), None);
    assert_eq!(parse_number(b"+", 0, 1), None);
    assert_eq!(parse_number(b"-1", 0, 2), None);
    assert_eq!(parse_number(b"1+", 0, 2), None);
    assert_eq!(parse_number(b"++1", 0, 3), None);
    assert_eq!(parse_number(b" 1", 0, 2), None);
    assert_eq!(parse_number(b"1a", 0, 2), None);
    let most = usize::MAX.to_string();
    assert_eq!(parse_number(most.as_bytes(), 0, most.len()), Some(usize::MAX));
    let more = format!("{}0", most);
    assert_eq!(parse_number(more.as_bytes(), 0, more.len()), None);
    let next = (usize::MAX as u128 + 1).to_string();
    assert_eq!(parse_number(next.as_bytes(), 0, next.len()), None);
    assert_eq!(parse_number(b"99999999999999999999999999999999x", 0, 33), None);
}

#[test]
fn parse_edge_reads_the_first_two_fields() {
    assert_eq!(parse_edge(b"1\t2"), Some((1, 2)));
    assert_eq!(parse_edge(b"10\t+20\tweight"), Some((10, 20)));
    assert_eq!(parse_edge(b"3\t4\t"), Some((3, 4)));
    assert_eq!(parse_edge(b"1 2"), None);
    assert_eq!(parse_edge(b"12"), None);
    assert_eq!(parse_edge(b""), None);
    assert_eq!(parse_edge(b"\t2"), None);
    assert_eq!(parse_edge(b"1\t"), None);
    assert_eq!(parse_edge(b"1\t\t2"), None);
    assert_eq!(parse_edge(b"a\t2"), None);
    assert_eq!(parse_edge(b"1\t2 "), None);
}

#[test]
fn from_file_marks_the_edges() {
    let read = lines(&["# a graph", "0\t1", "% more", "2\t0", "0\t1", "10002\t100001"]);
    let matrix = from_file(&read, 3).unwrap();
    assert_eq!(matrix.get_rows(), 3);
    assert_eq!(matrix.get_columns(), 3);
    assert_eq!(matrix.get_virtual_rows(), 3);
    assert_eq!(matrix.get_virtual_cols(), 3);
    assert_eq!(
        matrix.get_inner(),
        &vec![false, true, false, false, false, false, true, true, false]
    );
}

#[test]
fn from_file_of_no_line_is_all_false() {
    let matrix = from_file(&Vec::new(), 2).unwrap();
    assert_eq!(matrix.get_inner(), &vec![false; 4]);
    let matrix = from_file(&lines(&["#1\t1", "%"]), 2).unwrap();
    assert_eq!(matrix.get_inner(), &vec![false; 4]);
}

#[test]
fn from_file_refuses_a_line_that_marks_no_cell() {
    assert!(from_file(&lines(&["0\t1", "1"]), 3).is_none());
    assert!(from_file(&lines(&["0\t1", ""]), 3).is_none());
    assert!(from_file(&lines(&["x\t1"]), 3).is_none());
    assert!(from_file(&lines(&["0\t3"]), 3).is_none());
    assert!(from_file(&lines(&["3\t0"]), 3).is_none());
    assert!(from_file(&lines(&["10000\t100000"]), 3).is_some());
    assert!(from_file(&lines(&["0\t10000"]), 3).is_none());
}
