use bkindex::bk::BkData;
use bkindex::bk::BkNode;
use bkindex::bk::BkTree;

fn tree_of(entries: &[(&str, &[u32])]) -> BkTree {
    let (first_id, first_refs) = entries[0];
    let mut tree = BkTree::init(BkNode::create(first_id.to_string(), first_refs.to_vec()));
    for (id, refs) in &entries[1..] {
        tree.add_node(id.to_string(), refs.to_vec());
    }
    tree
}

#[test]
fn scenario_dune_library() {
    let tree = tree_of(&[("Dune", &[1]), ("Dune Messiah", &[2]), ("@Frank Herbert", &[1, 2])]);

    let near = tree.search("Dun", 2);
    assert!(near.iter().any(|r| r.contents.get_refs() == vec![1]));
    for r in &near {
        assert!(r.distance <= 2);
    }

    let exact = tree.search("@Frank Herbert", 0);
    assert_eq!(exact.len(), 1);
    assert_eq!(exact[0].contents.get_refs(), vec![1, 2]);
    assert_eq!(exact[0].distance, 0);
    assert!(matches!(exact[0].contents, BkData::Author(_)));
}

#[test]
fn scenario_duplicate_insertion_merges() {
    let mut tree = BkTree::init(BkNode::create("Dune".to_string(), vec![1]));
    assert_eq!(tree.paths.len(), 0);
    tree.add_node("Dune".to_string(), vec![99]);
    // still one node: no path was recorded for the merged insertion
    assert_eq!(tree.paths.len(), 0);
    let hits = tree.search("Dune", 0);
    assert_eq!(hits.len(), 1);
    assert_eq!(hits[0].contents.get_refs(), vec![1, 99]);
}

#[test]
fn merge_is_case_insensitive_but_keeps_first_spelling() {
    let mut tree = BkTree::init(BkNode::create("Dune".to_string(), vec![1]));
    tree.add_node("DUNE".to_string(), vec![2]);
    assert_eq!(tree.paths.len(), 0);
    let hits = tree.search("dune", 0);
    assert_eq!(hits.len(), 1);
    assert_eq!(hits[0].contents.get_refs(), vec![1, 2]);
    assert_eq!(tree.root.identifier, "Dune");
}

#[test]
fn search_prunes_nothing_it_should_return() {
    // a chain of near-identical identifiers exercises the pruning bound
    let tree = tree_of(&[
        ("abcd", &[0]),
        ("abce", &[1]),
        ("abef", &[2]),
        ("xbcd", &[3]),
        ("wxyz", &[4]),
    ]);
    // brute force over the inserted identifiers
    let idents = ["abcd", "abce", "abef", "xbcd", "wxyz"];
    for (tol, query) in [(1u16, "abcd"), (2, "abcf"), (0, "wxyz"), (4, "abcd")] {
        let hits = tree.search(query, tol);
        for (i, id) in idents.iter().enumerate() {
            let d = bkindex::distance::distance(id, query);
            let expected = d <= tol as usize;
            let got = hits.iter().any(|r| r.contents.get_refs() == vec![i as u32]);
            assert_eq!(expected, got, "query {query} tolerance {tol} identifier {id}");
        }
    }
}

#[test]
fn search_empty_results_on_tight_tolerance() {
    let tree = tree_of(&[("Dune", &[1]), ("Neuromancer", &[2])]);
    let hits = tree.search("Hyperion", 2);
    assert!(hits.is_empty());
}

#[test]
fn author_and_title_with_same_name_share_a_node() {
    // an author marker is stripped, so the title and the author merge
    let mut tree = BkTree::init(BkNode::create("Herbert".to_string(), vec![7]));
    tree.add_node("@Herbert".to_string(), vec![9]);
    let hits = tree.search("Herbert", 0);
    assert_eq!(hits.len(), 1);
    assert_eq!(hits[0].contents.get_refs(), vec![7, 9]);
    // the node keeps its original kind
    assert!(matches!(hits[0].contents, BkData::Book(_)));
}

#[test]
fn per_query_tolerance_is_floored_square_root() {
    assert_eq!(BkTree::per_query_tolerance(""), 1);
    assert_eq!(BkTree::per_query_tolerance("abc"), 1);
    assert_eq!(BkTree::per_query_tolerance("abcd"), 2);
    assert_eq!(BkTree::per_query_tolerance("abcdefgh"), 2);
    assert_eq!(BkTree::per_query_tolerance("abcdefghi"), 3);
    assert_eq!(BkTree::per_query_tolerance("abcdefghij"), 3);
    assert_eq!(BkTree::per_query_tolerance(&"x".repeat(100)), 10);
}

#[test]
fn paths_record_every_non_root_node() {
    let tree = tree_of(&[("one", &[1]), ("two", &[2]), ("three", &[3]), ("four", &[4])]);
    assert_eq!(tree.paths.len(), 3);
}

#[test]
fn empty_identifier_is_indexable() {
    let mut tree = BkTree::init(BkNode::create(String::new(), vec![5]));
    tree.add_node("a".to_string(), vec![6]);
    let hits = tree.search("", 0);
    assert_eq!(hits.len(), 1);
    assert_eq!(hits[0].contents.get_refs(), vec![5]);
    let text = tree.encode();
    let back = BkTree::decode(&text).unwrap();
    assert_eq!(back.encode(), text);
}
