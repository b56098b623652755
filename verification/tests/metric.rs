use bktree::metric::distance;

#[test]
fn exact_distances() {
    assert_eq!(distance("example", "samples"), 3);
    assert_eq!(distance("book", "books"), 1);
    assert_eq!(distance("book", "boo"), 1);
    assert_eq!(distance("bo", "book"), 2);
    assert_eq!(distance("bo", "cake"), 4);
    assert_eq!(distance("kitten", "sitting"), 3);
}

#[test]
fn distance_to_empty_is_length() {
    assert_eq!(distance("", ""), 0);
    assert_eq!(distance("", "abc"), 3);
    assert_eq!(distance("abc", ""), 3);
}

#[test]
fn distance_to_self_is_zero() {
    for w in ["", "a", "book", "a longer phrase"] {
        assert_eq!(distance(w, w), 0);
    }
}

#[test]
fn distance_is_symmetric_on_samples() {
    let words = ["", "a", "ab", "book", "cake", "samples"];
    for a in words {
        for b in words {
            assert_eq!(distance(a, b), distance(b, a));
        }
    }
}

#[test]
fn triangle_inequality_on_samples() {
    let words = ["", "a", "ab", "book", "boo", "cake", "example", "samples"];
    for a in words {
        for b in words {
            for c in words {
                assert!(distance(a, c) <= distance(a, b) + distance(b, c));
            }
        }
    }
}
