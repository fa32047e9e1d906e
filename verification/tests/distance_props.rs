use bkindex::distance::distance;

#[test]
fn distance_of_equal_strings_is_zero() {
    assert_eq!(distance("", ""), 0);
    assert_eq!(distance("Dune", "Dune"), 0);
    assert_eq!(distance("Frank Herbert", "Frank Herbert"), 0);
}

#[test]
fn distance_against_empty_is_length() {
    assert_eq!(distance("", "Dune"), 4);
    assert_eq!(distance("Messiah", ""), 7);
    assert_eq!(distance("", ""), 0);
}

#[test]
fn distance_is_symmetric() {
    let pairs = [
        ("kitten", "sitting"),
        ("Dune", "Dune Messiah"),
        ("", "abc"),
        ("toolkien", "Tolkien"),
        ("flaw", "lawn"),
    ];
    for (a, b) in pairs {
        assert_eq!(distance(a, b), distance(b, a));
    }
}

#[test]
fn distance_classic_values() {
    assert_eq!(distance("kitten", "sitting"), 3);
    assert_eq!(distance("flaw", "lawn"), 2);
    assert_eq!(distance("Dune", "Dune Messiah"), 8);
    assert_eq!(distance("book", "back"), 2);
}

#[test]
fn distance_ignores_ascii_case() {
    assert_eq!(distance("TOLKIEN", "tolkien"), 0);
    assert_eq!(distance("toolkien", "Tolkien"), 1);
    assert_eq!(distance("Dune", "dUNE"), 0);
}

#[test]
fn distance_triangle_inequality_samples() {
    let words = ["kitten", "sitting", "mitten", "", "Dune", "dune messiah"];
    for a in words {
        for b in words {
            for c in words {
                assert!(distance(a, c) <= distance(a, b) + distance(b, c));
            }
        }
    }
}
