use plist_tree::{access_path, compare, Node, PathSegment, PlistError, PlistType};

fn key(k: &str) -> PathSegment {
    PathSegment::Key(k.to_string())
}

fn sample() -> Node {
    let mut inner = Node::new_dict();
    inner.dict_set_item("b", Node::new_uint(3)).unwrap();
    let mut arr = Node::new_array();
    arr.array_append_item(Node::new_uint(1)).unwrap();
    arr.array_append_item(Node::new_uint(2)).unwrap();
    arr.array_append_item(inner).unwrap();
    let mut root = Node::new_dict();
    root.dict_set_item("a", arr).unwrap();
    root
}

fn keys_of(d: &Node) -> Vec<String> {
    let n = d.dict_get_size().unwrap();
    (0..n).map(|i| d.dict_get_entry(i).unwrap().0.to_string()).collect()
}

#[test]
fn access_path_walks_keys_and_indices() {
    let root = sample();
    let path = vec![key("a"), PathSegment::Index(2), key("b")];
    assert_eq!(access_path(&root, &path), Ok(&Node::new_uint(3)));
    assert_eq!(root.access_path(&[]), Ok(&root));
}

#[test]
fn access_path_index_beyond_array_is_out_of_range() {
    let root = sample();
    let path = vec![key("a"), PathSegment::Index(5)];
    assert_eq!(access_path(&root, &path), Err(PlistError::IndexOutOfRange));
}

#[test]
fn access_path_missing_segment_is_path_not_found() {
    let root = sample();
    assert_eq!(access_path(&root, &[key("zz")]), Err(PlistError::PathNotFound));
    assert_eq!(access_path(&root, &[PathSegment::Index(0)]), Err(PlistError::PathNotFound));
    assert_eq!(
        access_path(&root, &[key("a"), PathSegment::Index(0), key("b")]),
        Err(PlistError::PathNotFound)
    );
    assert_eq!(
        access_path(&root, &[key("zz"), PathSegment::Index(9)]),
        Err(PlistError::PathNotFound)
    );
}

#[test]
fn dictionary_keeps_insertion_order() {
    let mut d = Node::new_dict();
    d.dict_set_item("a", Node::new_uint(1)).unwrap();
    d.dict_set_item("b", Node::new_uint(2)).unwrap();
    d.dict_set_item("c", Node::new_uint(3)).unwrap();
    assert_eq!(keys_of(&d), ["a", "b", "c"]);
    d.dict_set_item("b", Node::new_uint(20)).unwrap();
    assert_eq!(keys_of(&d), ["a", "b", "c"]);
    assert_eq!(d.dict_get_item("b"), Ok(&Node::new_uint(20)));
    assert_eq!(d.dict_remove_item("b"), Ok(Node::new_uint(20)));
    assert_eq!(keys_of(&d), ["a", "c"]);
    d.dict_set_item("b", Node::new_uint(2)).unwrap();
    assert_eq!(keys_of(&d), ["a", "c", "b"]);
    assert_eq!(d.dict_get_size(), Ok(3));
}

#[test]
fn copy_compares_equal_and_is_independent() {
    let root = sample();
    let mut copy = root.copy();
    assert!(compare(&copy, &root));
    assert!(copy.compare_node_value(&root));
    copy.dict_set_item("extra", Node::new_bool(true)).unwrap();
    assert!(!compare(&copy, &root));
    assert_eq!(root.dict_get_size(), Ok(1));
    assert_eq!(root, sample());
}

#[test]
fn compare_ignores_dictionary_order_but_not_array_order() {
    let mut x = Node::new_dict();
    x.dict_set_item("a", Node::new_uint(1)).unwrap();
    x.dict_set_item("b", Node::new_string("s")).unwrap();
    let mut y = Node::new_dict();
    y.dict_set_item("b", Node::new_string("s")).unwrap();
    y.dict_set_item("a", Node::new_uint(1)).unwrap();
    assert!(compare(&x, &y));
    y.dict_set_item("a", Node::new_uint(2)).unwrap();
    assert!(!compare(&x, &y));
    y.dict_set_item("a", Node::new_uint(1)).unwrap();
    y.dict_set_item("c", Node::Null).unwrap();
    assert!(!compare(&x, &y));
    assert!(!compare(&y, &x));

    let mut p = Node::new_array();
    p.array_append_item(Node::new_uint(1)).unwrap();
    p.array_append_item(Node::new_uint(2)).unwrap();
    let mut q = Node::new_array();
    q.array_append_item(Node::new_uint(2)).unwrap();
    q.array_append_item(Node::new_uint(1)).unwrap();
    assert!(!compare(&p, &q));
    assert!(!compare(&Node::new_uint(1), &Node::new_uid(1)));
    assert!(!compare(&Node::new_string("k"), &Node::new_key("k")));
    assert!(compare(&Node::new_date(5, 6), &Node::new_date(5, 6)));
    assert!(!compare(&Node::new_date(5, 6), &Node::new_date(5, 7)));
    assert!(compare(&Node::new_data(vec![1, 2]), &Node::new_data(vec![1, 2])));
    assert!(!compare(&Node::new_data(vec![1, 2]), &Node::new_data(vec![1, 3])));
}

#[test]
fn accessors_are_strict_about_the_variant() {
    assert_eq!(Node::new_bool(true).get_bool_val(), Ok(true));
    assert_eq!(Node::new_uint(7).get_bool_val(), Err(PlistError::TypeMismatch));
    assert_eq!(Node::new_uint(7).get_uint_val(), Ok(7));
    assert_eq!(Node::new_uid(7).get_uint_val(), Err(PlistError::TypeMismatch));
    assert_eq!(Node::new_uid(9).get_uid_val(), Ok(9));
    assert_eq!(Node::new_real(1.5f64.to_bits()).get_real_val().map(f64::from_bits), Ok(1.5));
    assert_eq!(Node::new_string("s").get_real_val(), Err(PlistError::TypeMismatch));
    assert_eq!(Node::new_string("hello").get_string_val(), Ok("hello"));
    assert_eq!(Node::new_key("hello").get_string_val(), Err(PlistError::TypeMismatch));
    assert_eq!(Node::new_key("k").get_key_val(), Ok("k"));
    assert_eq!(Node::new_string("k").get_key_val(), Err(PlistError::TypeMismatch));
    assert_eq!(Node::new_data(vec![1, 2, 3]).get_data_val(), Ok(&[1u8, 2, 3][..]));
    assert_eq!(Node::new_array().get_data_val(), Err(PlistError::TypeMismatch));
    assert_eq!(Node::new_date(-5, 12).get_date_val(), Ok((-5, 12)));
    assert_eq!(Node::new_dict().get_date_val(), Err(PlistError::TypeMismatch));
    assert_eq!(Node::Null.get_node_type(), PlistType::Null);
    assert_eq!(Node::new_key("k").get_node_type(), PlistType::Key);
    assert_eq!(Node::new_uid(1).get_node_type(), PlistType::Uid);
}

#[test]
fn setters_change_the_payload_of_a_matching_node_only() {
    let mut n = Node::new_bool(false);
    assert_eq!(n.set_bool_val(true), Ok(()));
    assert_eq!(n, Node::new_bool(true));
    assert_eq!(n.set_uint_val(3), Err(PlistError::TypeMismatch));
    assert_eq!(n.set_string_val("x"), Err(PlistError::TypeMismatch));
    assert_eq!(n.set_key_val("x"), Err(PlistError::TypeMismatch));
    assert_eq!(n.set_real_val(0), Err(PlistError::TypeMismatch));
    assert_eq!(n.set_data_val(vec![1]), Err(PlistError::TypeMismatch));
    assert_eq!(n.set_date_val(1, 2), Err(PlistError::TypeMismatch));
    assert_eq!(n.set_uid_val(1), Err(PlistError::TypeMismatch));
    assert_eq!(n, Node::new_bool(true));

    let mut s = Node::new_string("a");
    assert_eq!(s.set_string_val("b"), Ok(()));
    assert_eq!(s.get_string_val(), Ok("b"));
    assert_eq!(s.set_bool_val(true), Err(PlistError::TypeMismatch));
    let mut u = Node::new_uint(1);
    assert_eq!(u.set_uint_val(2), Ok(()));
    assert_eq!(u, Node::new_uint(2));
    let mut k = Node::new_key("a");
    assert_eq!(k.set_key_val("b"), Ok(()));
    assert_eq!(k, Node::new_key("b"));
    let mut r = Node::new_real(0);
    assert_eq!(r.set_real_val(2.5f64.to_bits()), Ok(()));
    assert_eq!(r, Node::new_real(2.5f64.to_bits()));
    let mut d = Node::new_data(vec![]);
    assert_eq!(d.set_data_val(vec![9]), Ok(()));
    assert_eq!(d, Node::new_data(vec![9]));
    let mut t = Node::new_date(0, 0);
    assert_eq!(t.set_date_val(3, 4), Ok(()));
    assert_eq!(t, Node::new_date(3, 4));
    let mut i = Node::new_uid(0);
    assert_eq!(i.set_uid_val(8), Ok(()));
    assert_eq!(i, Node::new_uid(8));
}

#[test]
fn array_operations() {
    let mut a = Node::new_array();
    assert_eq!(a.array_get_size(), Ok(0));
    a.array_append_item(Node::new_uint(1)).unwrap();
    a.array_append_item(Node::new_uint(3)).unwrap();
    assert_eq!(a.array_insert_item(Node::new_uint(2), 1), Ok(()));
    assert_eq!(a.array_insert_item(Node::new_uint(4), 3), Ok(()));
    assert_eq!(a.array_insert_item(Node::new_uint(9), 5), Err(PlistError::IndexOutOfRange));
    assert_eq!(a.array_get_size(), Ok(4));
    assert_eq!(a.array_get_item(0), Ok(&Node::new_uint(1)));
    assert_eq!(a.array_get_item(1), Ok(&Node::new_uint(2)));
    assert_eq!(a.array_get_item(3), Ok(&Node::new_uint(4)));
    assert_eq!(a.array_get_item(4), Err(PlistError::IndexOutOfRange));
    assert_eq!(a.array_set_item(Node::new_bool(true), 0), Ok(()));
    assert_eq!(a.array_set_item(Node::new_bool(true), 4), Err(PlistError::IndexOutOfRange));
    assert_eq!(a.array_get_item(0), Ok(&Node::new_bool(true)));
    assert_eq!(a.array_remove_item(1), Ok(Node::new_uint(2)));
    assert_eq!(a.array_remove_item(3), Err(PlistError::IndexOutOfRange));
    assert_eq!(a.array_get_size(), Ok(3));
    assert_eq!(a.array_get_item(1), Ok(&Node::new_uint(3)));

    let mut s = Node::new_string("x");
    assert_eq!(s.array_get_size(), Err(PlistError::TypeMismatch));
    assert_eq!(s.array_get_item(0), Err(PlistError::TypeMismatch));
    assert_eq!(s.array_set_item(Node::Null, 0), Err(PlistError::TypeMismatch));
    assert_eq!(s.array_append_item(Node::Null), Err(PlistError::TypeMismatch));
    assert_eq!(s.array_insert_item(Node::Null, 0), Err(PlistError::TypeMismatch));
    assert_eq!(s.array_remove_item(0), Err(PlistError::TypeMismatch));
    assert_eq!(s, Node::new_string("x"));
}

#[test]
fn dictionary_operations() {
    let mut d = Node::new_dict();
    assert_eq!(d.dict_get_size(), Ok(0));
    assert_eq!(d.dict_get_item("a"), Err(PlistError::KeyNotFound));
    assert_eq!(d.dict_remove_item("a"), Err(PlistError::KeyNotFound));
    d.dict_set_item("a", Node::new_uint(1)).unwrap();
    assert_eq!(d.dict_get_item("a"), Ok(&Node::new_uint(1)));
    assert_eq!(d.dict_get_entry(0), Ok(("a", &Node::new_uint(1))));
    assert_eq!(d.dict_get_entry(1), Err(PlistError::IndexOutOfRange));

    let mut a = Node::new_array();
    assert_eq!(a.dict_get_size(), Err(PlistError::TypeMismatch));
    assert_eq!(a.dict_get_item("a"), Err(PlistError::TypeMismatch));
    assert_eq!(a.dict_get_entry(0), Err(PlistError::TypeMismatch));
    assert_eq!(a.dict_set_item("a", Node::Null), Err(PlistError::TypeMismatch));
    assert_eq!(a.dict_remove_item("a"), Err(PlistError::TypeMismatch));
    assert_eq!(a.dict_merge(&d), Err(PlistError::TypeMismatch));
    assert_eq!(d.dict_merge(&a), Err(PlistError::TypeMismatch));
}

#[test]
fn dictionary_merge_sets_the_entries_of_the_source_in_order() {
    let mut t = Node::new_dict();
    t.dict_set_item("a", Node::new_uint(1)).unwrap();
    t.dict_set_item("b", Node::new_uint(2)).unwrap();
    let mut s = Node::new_dict();
    s.dict_set_item("c", Node::new_uint(30)).unwrap();
    s.dict_set_item("a", Node::new_uint(10)).unwrap();
    assert_eq!(t.dict_merge(&s), Ok(()));
    assert_eq!(keys_of(&t), ["a", "b", "c"]);
    assert_eq!(t.dict_get_item("a"), Ok(&Node::new_uint(10)));
    assert_eq!(t.dict_get_item("b"), Ok(&Node::new_uint(2)));
    assert_eq!(t.dict_get_item("c"), Ok(&Node::new_uint(30)));
    assert_eq!(s.dict_get_size(), Ok(2));
}

#[test]
fn parent_key_and_index_of_a_node_come_from_its_path() {
    let root = sample();
    let path = vec![key("a"), PathSegment::Index(2), key("b")];
    let parent = root.get_parent(&path).unwrap();
    assert_eq!(parent.get_node_type(), PlistType::Dictionary);
    assert_eq!(parent.dict_get_item("b"), Ok(&Node::new_uint(3)));
    assert_eq!(root.dict_get_item_key(&path), Ok("b"));
    assert_eq!(root.array_get_item_index(&path), Err(PlistError::TypeMismatch));
    assert_eq!(root.array_get_item_index(&path[..2]), Ok(2));
    assert_eq!(root.dict_get_item_key(&path[..2]), Err(PlistError::TypeMismatch));
    assert_eq!(root.get_parent(&path[..1]), Ok(&root));
    assert_eq!(root.get_parent(&[]), Err(PlistError::PathNotFound));
    assert_eq!(root.dict_get_item_key(&[]), Err(PlistError::TypeMismatch));
    assert_eq!(root.get_parent(&[key("a"), PathSegment::Index(7)]), Err(PlistError::IndexOutOfRange));
    assert_eq!(root.dict_get_item_key(&[key("nope")]), Err(PlistError::PathNotFound));
}
