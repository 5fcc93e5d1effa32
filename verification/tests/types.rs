use plist_tree::{plist_is_type, Node, PlistType};

#[test]
fn test_plist_types() {
    let boolean = PlistType::Boolean;
    assert!(boolean.is_boolean());
    let uint = PlistType::UInt;
    assert!(uint.is_uint());
    let real = PlistType::Real;
    assert!(real.is_real());
    let string = PlistType::String;
    assert!(string.is_string());
    let array = PlistType::Array;
    assert!(array.is_array());
    let dic = PlistType::Dictionary;
    assert!(dic.is_dictionary());
    let date = PlistType::Date;
    assert!(date.is_date());
    let data = PlistType::Data;
    assert!(data.is_data());
    let key = PlistType::Key;
    assert!(key.is_key());
    let uid = PlistType::Uid;
    assert!(uid.is_uid());
}

#[test]
fn test_plist_is_type_boolean() {
    let n = Node::new_bool(false);
    assert!(plist_is_type(Some(&n), PlistType::Boolean));
}

#[test]
#[should_panic]
fn test_plist_is_type_boolean_panic() {
    let n = Node::new_uint(0);
    assert!(plist_is_type(Some(&n), PlistType::Boolean));
}

#[test]
fn test_plist_is_type_uint() {
    let n = Node::new_uint(0);
    assert!(plist_is_type(Some(&n), PlistType::UInt));
}

#[test]
#[should_panic]
fn test_plist_is_type_uint_panic() {
    let n = Node::new_real(0.0f64.to_bits());
    assert!(plist_is_type(Some(&n), PlistType::UInt));
}

#[test]
fn test_plist_is_type_real() {
    let n = Node::new_real(0.0f64.to_bits());
    assert!(plist_is_type(Some(&n), PlistType::Real));
}

#[test]
#[should_panic]
fn test_plist_is_type_real_panic() {
    let n = Node::new_string("hello");
    assert!(plist_is_type(Some(&n), PlistType::Real));
}

#[test]
fn test_plist_is_type_string() {
    let n = Node::new_string("hello");
    assert!(plist_is_type(Some(&n), PlistType::String));
}

#[test]
#[should_panic]
fn test_plist_is_type_string_panic() {
    let n = Node::new_string("hello");
    assert!(plist_is_type(Some(&n), PlistType::Array));
}

#[test]
fn test_plist_is_type_array() {
    let n = Node::new_array();
    assert!(plist_is_type(Some(&n), PlistType::Array));
}

#[test]
#[should_panic]
fn test_plist_is_type_array_panic() {
    let n = Node::new_array();
    assert!(plist_is_type(Some(&n), PlistType::Dictionary));
}

#[test]
fn test_plist_is_type_dictionary() {
    let n = Node::new_dict();
    assert!(plist_is_type(Some(&n), PlistType::Dictionary));
}

#[test]
#[should_panic]
fn test_plist_is_type_dictionary_panic() {
    let n = Node::new_dict();
    assert!(plist_is_type(Some(&n), PlistType::Date));
}

#[test]
fn test_plist_is_type_date() {
    let n = Node::new_date(0, 0);
    assert!(plist_is_type(Some(&n), PlistType::Date));
}

#[test]
fn test_plist_is_type_data() {
    let r = b"hello".to_vec();
    let n = Node::new_data(r);
    assert!(plist_is_type(Some(&n), PlistType::Data));
}

#[test]
#[should_panic]
fn test_plist_is_type_data_panic() {
    let r = b"hello".to_vec();
    let n = Node::new_data(r);
    assert!(plist_is_type(Some(&n), PlistType::Key));
}

#[test]
fn is_type_of_absent_node_is_false() {
    assert!(!plist_is_type(None, PlistType::Boolean));
    assert!(!plist_is_type(None, PlistType::Null));
}
