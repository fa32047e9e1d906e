use bkindex::bk::BkNode;
use bkindex::bk::BkTree;
use bkindex::codec::DecodeError;

fn tree_of(entries: &[(&str, &[u32])]) -> BkTree {
    let (first_id, first_refs) = entries[0];
    let mut tree = BkTree::init(BkNode::create(first_id.to_string(), first_refs.to_vec()));
    for (id, refs) in &entries[1..] {
        tree.add_node(id.to_string(), refs.to_vec());
    }
    tree
}

fn results_of(tree: &BkTree, query: &str, tolerance: u16) -> Vec<(Vec<u32>, u16, bool)> {
    tree.search(query, tolerance)
        .iter()
        .map(|r| {
            let author = matches!(
                r.contents,
                bkindex::bk::BkData::Author(_)
            );
            (r.contents.get_refs(), r.distance, author)
        })
        .collect()
}

#[test]
fn encode_writes_one_line_per_node() {
    let tree = tree_of(&[("ab", &[1]), ("ad", &[2])]);
    assert_eq!(tree.encode(), "ab;1\n1;ad;2");
}

#[test]
fn encode_restores_the_author_marker() {
    let tree = tree_of(&[("x", &[1]), ("@y", &[2])]);
    assert_eq!(tree.encode(), "x;1\n1;@y;2");
}

#[test]
fn encode_joins_references_with_commas() {
    let tree = tree_of(&[("solo", &[3, 1, 4, 1, 5])]);
    assert_eq!(tree.encode(), "solo;3,1,4,1,5");
}

#[test]
fn encode_of_empty_reference_set() {
    let tree = tree_of(&[("solo", &[])]);
    assert_eq!(tree.encode(), "solo;");
    let back = BkTree::decode(&tree.encode()).unwrap();
    assert_eq!(back.encode(), "solo;");
}

#[test]
fn round_trip_small_tree() {
    let tree = tree_of(&[
        ("Dune", &[1]),
        ("Dune Messiah", &[2]),
        ("@Frank Herbert", &[1, 2]),
        ("Neuromancer", &[3]),
        ("@William Gibson", &[3]),
    ]);
    let text = tree.encode();
    let back = BkTree::decode(&text).expect("decoding an encoded tree");
    assert_eq!(back.encode(), text);
    assert_eq!(back.paths.len(), tree.paths.len());
    assert_eq!(back.root.identifier, tree.root.identifier);
    for (q, t) in [("Dune", 2u16), ("@Frank Herbert", 0), ("Gibson", 8), ("", 4)] {
        assert_eq!(results_of(&tree, q, t), results_of(&back, q, t));
    }
}

#[test]
fn round_trip_escapes_delimiters_in_identifiers() {
    let tree = tree_of(&[
        ("plain", &[1]),
        ("semi;colon", &[2]),
        ("comma,name", &[3]),
        ("line\nbreak", &[4]),
        ("back\\slash", &[5]),
        ("@odd;author\n\\", &[6]),
    ]);
    let text = tree.encode();
    let back = BkTree::decode(&text).expect("decoding identifiers with delimiters");
    assert_eq!(back.encode(), text);
    for q in ["semi;colon", "comma,name", "line\nbreak", "back\\slash", "@odd;author\n\\"] {
        assert_eq!(results_of(&tree, q, 0), results_of(&back, q, 0));
        assert_eq!(results_of(&tree, q, 0).len(), 1);
    }
}

#[test]
fn round_trip_pseudo_random_library() {
    // a small deterministic generator stands in for arbitrary catalog data
    let mut state: u64 = 0x2545_f491_4f6c_dd1d;
    let mut next = move || {
        state ^= state << 13;
        state ^= state >> 7;
        state ^= state << 17;
        state
    };
    let word = |n: u64| {
        let mut s = String::new();
        let len = 3 + (n % 9) as usize;
        let mut v = n;
        for _ in 0..len {
            let c = (b'a' + (v % 26) as u8) as char;
            s.push(c);
            v = v / 26 + 7;
        }
        s
    };
    let first = word(next());
    let mut tree = BkTree::init(BkNode::create(first, vec![0]));
    let mut queries: Vec<String> = Vec::new();
    for i in 0..50u32 {
        let title = word(next());
        let author = format!("@{}", word(next()));
        tree.add_node(title.clone(), vec![i]);
        tree.add_node(author.clone(), vec![i]);
        if i % 5 == 0 {
            queries.push(title);
        }
        if i % 7 == 0 {
            queries.push(author);
        }
    }
    let text = tree.encode();
    let back = BkTree::decode(&text).expect("decoding a pseudo-random tree");
    assert_eq!(back.encode(), text);
    for q in &queries {
        for tol in [0u16, 1, 2, BkTree::per_query_tolerance(q)] {
            assert_eq!(results_of(&tree, q, tol), results_of(&back, q, tol));
        }
    }
}

#[test]
fn decode_rejects_empty_input() {
    assert!(matches!(BkTree::decode(""), Err(DecodeError::CorruptIndex)));
}

#[test]
fn decode_rejects_missing_fields() {
    // the root line has no reference field at all
    assert!(matches!(BkTree::decode("just a name"), Err(DecodeError::CorruptIndex)));
    // a node line without its path
    assert!(matches!(BkTree::decode("a;1\nb;2"), Err(DecodeError::CorruptIndex)));
}

#[test]
fn decode_rejects_bad_references() {
    assert!(matches!(BkTree::decode("a;x"), Err(DecodeError::InvalidReference)));
    assert!(matches!(BkTree::decode("a;1,"), Err(DecodeError::InvalidReference)));
    assert!(matches!(BkTree::decode("a;99999999999999999999"), Err(DecodeError::InvalidReference)));
    assert!(matches!(BkTree::decode("a;1\n1;b;2,x"), Err(DecodeError::InvalidReference)));
}

#[test]
fn decode_rejects_a_path_with_no_ancestor() {
    // the node claims to sit two steps deep in a tree with a bare root
    assert!(matches!(BkTree::decode("a;1\n5,7;bcdef;2"), Err(DecodeError::CorruptIndex)));
}

#[test]
fn decode_rejects_a_wrong_distance() {
    // "ad" lies at distance 1 from "ab", not 3
    assert!(matches!(BkTree::decode("ab;1\n3;ad;2"), Err(DecodeError::CorruptIndex)));
}

#[test]
fn decode_rejects_a_duplicate_identifier() {
    assert!(matches!(BkTree::decode("ab;1\n1;ab;2"), Err(DecodeError::CorruptIndex)));
}

#[test]
fn decode_rejects_a_bad_escape() {
    assert!(matches!(BkTree::decode("a\\q;1"), Err(DecodeError::CorruptIndex)));
}

#[test]
fn decode_accepts_what_it_wrote_after_mutation() {
    let mut tree = tree_of(&[("alpha", &[1]), ("beta", &[2])]);
    let text1 = tree.encode();
    let mut back = BkTree::decode(&text1).unwrap();
    // keep inserting into the decoded tree: it behaves like the one it mirrors
    back.add_node("gamma".to_string(), vec![3]);
    tree.add_node("gamma".to_string(), vec![3]);
    assert_eq!(tree.encode(), back.encode());
}
