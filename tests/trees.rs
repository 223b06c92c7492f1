use edit_tree::py_tree::{CompareOp, PyEditTree, TreeError};
use edit_tree::tree::EditTree;

fn chars(s: &str) -> Vec<char> {
    s.chars().collect()
}

#[test]
fn round_trip_on_sample_pairs() {
    let pairs = [
        ("walking", "walked"),
        ("abc", "xyz"),
        ("", "abc"),
        ("abc", ""),
        ("ab", "ba"),
        ("gesprochen", "sprechen"),
        ("mice", "mouse"),
        ("aaaa", "aa"),
        ("über", "uber"),
    ];
    for (a, b) in pairs.iter() {
        let t = PyEditTree::__new__(a, b);
        match t.apply(a) {
            Ok(s) => assert_eq!(s, *b),
            Err(_) => panic!("could not apply the tree of {} -> {}", a, b),
        }
    }
}

#[test]
fn building_twice_gives_equal_trees() {
    let t1 = PyEditTree::__new__("singing", "sang");
    let t2 = PyEditTree::__new__("singing", "sang");
    assert!(t1.inner().same(t2.inner()));
    assert!(t1.inner() == t2.inner());
    assert!(matches!(t1.__richcmp__(&t2, CompareOp::Eq), Ok(true)));
    assert!(matches!(t1.__richcmp__(&t2, CompareOp::Ne), Ok(false)));
}

#[test]
fn different_trees_are_unequal() {
    let t1 = PyEditTree::__new__("walking", "walked");
    let t2 = PyEditTree::__new__("abc", "xyz");
    assert!(!t1.inner().same(t2.inner()));
    assert!(matches!(t1.__richcmp__(&t2, CompareOp::Eq), Ok(false)));
    assert!(matches!(t1.__richcmp__(&t2, CompareOp::Ne), Ok(true)));
}

#[test]
fn empty_pair_gives_empty_match() {
    let t = PyEditTree::__new__("", "");
    match t.inner() {
        EditTree::MatchNode { pre, suf, left, right } => {
            assert_eq!(*pre, 0);
            assert_eq!(*suf, 0);
            assert!(left.is_none());
            assert!(right.is_none());
        }
        EditTree::ReplaceNode { .. } => panic!("expected a match node"),
    }
    assert!(matches!(t.apply(""), Ok(ref s) if s.is_empty()));
    assert!(EditTree::create_tree(&[], &[]).is_none());
}

#[test]
fn unrelated_input_is_rejected() {
    let t = PyEditTree::__new__("abc", "xyz");
    match t.apply("ab") {
        Err(TreeError::CannotApply { input }) => assert_eq!(input, "ab"),
        _ => panic!("expected a failure"),
    }
    assert!(matches!(t.apply("abd"), Err(TreeError::CannotApply { .. })));
    assert!(matches!(t.apply("abc"), Ok(ref s) if s == "xyz"));
}

#[test]
fn walking_walked_applies_to_talking() {
    let t = PyEditTree::__new__("walking", "walked");
    match t.inner() {
        EditTree::MatchNode { pre, suf, left, right } => {
            assert_eq!(*pre, 0);
            assert_eq!(*suf, 3);
            assert!(left.is_none());
            match right.as_deref() {
                Some(EditTree::ReplaceNode { replacee, replacement }) => {
                    assert_eq!(*replacee, chars("ing"));
                    assert_eq!(*replacement, chars("ed"));
                }
                _ => panic!("expected a replacement on the right"),
            }
        }
        EditTree::ReplaceNode { .. } => panic!("expected a match node"),
    }
    assert!(matches!(t.apply("walking"), Ok(ref s) if s == "walked"));
    assert!(matches!(t.apply("talking"), Ok(ref s) if s == "talked"));
    assert!(matches!(t.apply("ing"), Ok(ref s) if s == "ed"));
    assert!(matches!(t.apply("in"), Err(TreeError::CannotApply { .. })));
    assert!(matches!(t.apply("talked"), Err(TreeError::CannotApply { .. })));
}

#[test]
fn ties_go_to_the_first_start_in_the_source() {
    let (i, j, n) = edit_tree::builder::longest_common_substring(&chars("ab"), &chars("ba"));
    assert_eq!((i, j, n), (0, 1, 1));
    let (i, j, n) = edit_tree::builder::longest_common_substring(&chars("xabyab"), &chars("abzab"));
    assert_eq!((i, j, n), (1, 0, 2));
    let (_, _, n) = edit_tree::builder::longest_common_substring(&chars("abc"), &chars("xyz"));
    assert_eq!(n, 0);
    let t = PyEditTree::__new__("ab", "ba");
    match t.inner() {
        EditTree::MatchNode { pre, suf, .. } => {
            assert_eq!(*pre, 0);
            assert_eq!(*suf, 1);
        }
        EditTree::ReplaceNode { .. } => panic!("expected a match node"),
    }
    assert!(matches!(t.apply("ab"), Ok(ref s) if s == "ba"));
}

#[test]
fn ordering_comparisons_fail() {
    let t1 = PyEditTree::__new__("a", "b");
    let t2 = PyEditTree::__new__("a", "b");
    for op in [CompareOp::Lt, CompareOp::Le, CompareOp::Gt, CompareOp::Ge] {
        assert!(matches!(t1.__richcmp__(&t2, op), Err(TreeError::Unordered)));
    }
}

#[test]
fn text_round_trip() {
    for (a, b) in [("walking", "walked"), ("", ""), ("mice", "mouse"), ("ü€", "x")] {
        let t = PyEditTree::__new__(a, b);
        let text = match t.serialize_to_string() {
            Ok(s) => s,
            Err(_) => panic!("could not write the tree"),
        };
        match PyEditTree::deserialize_from_string(&text) {
            Ok(u) => assert!(u.inner().same(t.inner())),
            Err(_) => panic!("could not read the tree back"),
        }
        assert!(matches!(t.__str__(), Ok(ref s) if *s == text));
    }
}

#[test]
fn text_of_empty_tree() {
    let t = PyEditTree::__new__("", "");
    assert!(matches!(t.serialize_to_string(), Ok(ref s) if s == "M0:0__"));
}

#[test]
fn text_of_walking_walked() {
    let t = PyEditTree::__new__("walking", "walked");
    assert!(matches!(t.serialize_to_string(), Ok(ref s) if s == "M0:3_(R3:ing2:ed)"));
    let u = PyEditTree::__new__("ab", "ba");
    assert!(matches!(u.serialize_to_string(), Ok(ref s) if s == "M0:1(R0:1:b)(R1:b0:)"));
}

#[test]
fn text_with_large_counts() {
    let t = EditTree::MatchNode { pre: 1234567, suf: 10, left: None, right: None };
    let text = edit_tree::text::to_text(&t);
    assert_eq!(text.iter().collect::<String>(), "M1234567:10__");
    match edit_tree::text::from_text(&text) {
        Some(u) => assert!(u == t),
        None => panic!("could not read the tree back"),
    }
}

#[test]
fn malformed_text_is_rejected() {
    for bad in [
        "",
        "not a tree",
        "M",
        "M0:0_",
        "M0:0__x",
        "M0;0__",
        "M:0__",
        "R5:ab0:",
        "R1:a1:",
        "M99999999999999999999999999:0__",
        "M0:0(M0:0__",
    ] {
        assert!(
            matches!(PyEditTree::deserialize_from_string(bad), Err(TreeError::Malformed)),
            "accepted {:?}",
            bad
        );
    }
}

#[test]
fn text_with_special_characters() {
    let t = PyEditTree::__new__("a:(b)_", "1_2)");
    let text = match t.serialize_to_string() {
        Ok(s) => s,
        Err(_) => panic!("could not write the tree"),
    };
    match PyEditTree::deserialize_from_string(&text) {
        Ok(u) => {
            assert!(u.inner().same(t.inner()));
            assert!(matches!(u.apply("a:(b)_"), Ok(ref s) if s == "1_2)"));
        }
        Err(_) => panic!("could not read the tree back"),
    }
}

#[test]
fn bytes_round_trip() {
    for (a, b) in [("walking", "walked"), ("", ""), ("ab", "ba"), ("ü€", "x")] {
        let t = PyEditTree::__new__(a, b);
        let state = t.__getstate__();
        let mut u = PyEditTree::__new__("", "");
        assert!(u.__setstate__(&state).is_ok());
        assert!(u.inner().same(t.inner()));
        assert!(matches!(u.apply(a), Ok(ref s) if s == b));
    }
}

#[test]
fn bytes_of_replacement() {
    let t = PyEditTree::__new__("a", "b");
    let state = t.__getstate__();
    assert_eq!(
        state,
        vec![1, 1, 0, 0, 0, 0, 0, 0, 0, 97, 0, 0, 0, 1, 0, 0, 0, 0, 0, 0, 0, 98, 0, 0, 0]
    );
}

#[test]
fn malformed_bytes_are_rejected() {
    let mut t = PyEditTree::__new__("walking", "walked");
    let good = t.__getstate__();
    let truncated = &good[..good.len() - 1];
    assert!(matches!(t.__setstate__(truncated), Err(TreeError::Malformed)));
    assert!(matches!(t.__setstate__(&[9]), Err(TreeError::Malformed)));
    assert!(matches!(t.__setstate__(&[]), Err(TreeError::Malformed)));
    let mut longer = good.clone();
    longer.push(0);
    assert!(matches!(t.__setstate__(&longer), Err(TreeError::Malformed)));
    // a replacement whose character is no scalar value
    let bad_char = vec![1, 1, 0, 0, 0, 0, 0, 0, 0, 0, 0xd8, 0, 0, 0, 0, 0, 0, 0, 0, 0, 0];
    assert!(matches!(t.__setstate__(&bad_char), Err(TreeError::Malformed)));
    // the tree is left as it was
    assert!(matches!(t.apply("talking"), Ok(ref s) if s == "talked"));
}

#[test]
fn equal_trees_hash_alike() {
    let t1 = PyEditTree::__new__("walking", "walked");
    let t2 = PyEditTree::__new__("walking", "walked");
    assert_eq!(t1.__hash__(), t2.__hash__());
    let mut t3 = PyEditTree::__new__("", "");
    assert!(t3.__setstate__(&t1.__getstate__()).is_ok());
    assert_eq!(t1.__hash__(), t3.__hash__());
}

#[test]
fn new_args_are_empty() {
    assert_eq!(PyEditTree::__getnewargs__(), ("", ""));
}

#[test]
fn apply_on_hand_built_tree() {
    let t = EditTree::MatchNode {
        pre: 1,
        suf: 1,
        left: Some(Box::new(EditTree::ReplaceNode { replacee: chars("x"), replacement: chars("yy") })),
        right: None,
    };
    assert_eq!(t.apply(&chars("xabz")), Some(chars("yyab")));
    assert_eq!(t.apply(&chars("qabz")), None);
    assert_eq!(t.apply(&chars("x")), None);
}
