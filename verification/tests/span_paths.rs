use dynamecs::SpanPath;

fn path(names: &[&str]) -> SpanPath {
    SpanPath::new(names.iter().map(|s| s.to_string()).collect())
}

#[test]
fn is_parent_of() {
    let root = path(&[]);
    let a = path(&["a"]);
    let b = path(&["b"]);
    let ab = path(&["a", "b"]);
    let ac = path(&["a", "c"]);
    let bc = path(&["b", "c"]);

    {
        assert!(root.is_parent_of(&path(&["a"])));

        assert!(!root.is_parent_of(&path(&["a", "b"])));
        assert!(!root.is_parent_of(&root));
    }

    {
        assert!(a.is_parent_of(&ab));
        assert!(a.is_parent_of(&ac));

        assert!(!a.is_parent_of(&a));
        assert!(!a.is_parent_of(&b));
        assert!(!a.is_parent_of(&bc));
        assert!(!a.is_parent_of(&path(&["aa"])));
        assert!(!a.is_parent_of(&path(&["aa", "b"])));
    }

    {
        assert!(ab.is_parent_of(&path(&["a", "b", "c"])));

        assert!(!ab.is_parent_of(&path(&["a", "b", "c", "d"])));
        assert!(!ab.is_parent_of(&path(&["a", "b", "c", "d", "e"])));
        assert!(!ab.is_parent_of(&path(&["a", "b"])));
        assert!(!ab.is_parent_of(&path(&["a"])));
        assert!(!ab.is_parent_of(&path(&["b"])));
        assert!(!ab.is_parent_of(&path(&["b", "c"])));
    }
}

#[test]
fn is_ancestor_of() {
    let root = path(&[]);
    let a = path(&["a"]);
    let b = path(&["b"]);
    let ab = path(&["a", "b"]);
    let ac = path(&["a", "c"]);
    let bc = path(&["b", "c"]);

    {
        assert!(root.is_ancestor_of(&a));
        assert!(root.is_ancestor_of(&b));
        assert!(root.is_ancestor_of(&ab));
        assert!(root.is_ancestor_of(&ac));
        assert!(root.is_ancestor_of(&bc));

        assert!(!root.is_ancestor_of(&root));
    }

    {
        assert!(a.is_ancestor_of(&ab));
        assert!(a.is_ancestor_of(&ac));

        assert!(!a.is_ancestor_of(&a));
        assert!(!a.is_ancestor_of(&b));
        assert!(!a.is_ancestor_of(&bc));
    }
}

#[test]
fn common_ancestor() {
    let root = path(&[]);
    let a = path(&["a"]);
    let ab = path(&["a", "b"]);
    let b = path(&["b"]);
    let ac = path(&["a", "c"]);

    assert_eq!(root.common_ancestor(&root), root);
    assert_eq!(root.common_ancestor(&a), root);
    assert_eq!(a.common_ancestor(&root), root);
    assert_eq!(root.common_ancestor(&ab), root);
    assert_eq!(ab.common_ancestor(&root), root);

    assert_eq!(a.common_ancestor(&a), a);
    assert_eq!(a.common_ancestor(&ab), a);
    assert_eq!(ab.common_ancestor(&a), a);

    assert_eq!(a.common_ancestor(&b), root);

    assert_eq!(ab.common_ancestor(&ab), ab);

    assert_eq!(ab.common_ancestor(&ac), a);
    assert_eq!(ac.common_ancestor(&ab), a);
}

#[test]
fn parent_and_depth() {
    let abc = path(&["a", "b", "c"]);
    assert_eq!(abc.depth(), 3);
    let ab = abc.parent().unwrap();
    assert_eq!(ab, path(&["a", "b"]));
    assert_eq!(ab.parent().unwrap(), path(&["a"]));
    assert_eq!(path(&[]).parent(), None);
    assert_eq!(abc.span_name(), Some("c"));
    assert_eq!(path(&[]).span_name(), None);
}

#[test]
fn push_span_name_extends_path() {
    let mut p = path(&["a"]);
    p.push_span_name("b".to_string());
    assert_eq!(p, path(&["a", "b"]));
    assert_eq!(p.depth(), 2);
}
