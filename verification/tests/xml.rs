use plist_tree::ParseMessage::{
    BadDictionary, BadEscape, BadTag, BadText, BadValue, MissingReal, TrailingBytes, UnknownElement,
};
use plist_tree::{
    decode, decode_xml, encode_xml, real_values, sniff_format, xml_real_texts, Node, ParseMessage,
    PlistError, PlistFormat, RealText,
};

fn table_for_tree(tree: &Node) -> Vec<RealText> {
    real_values(tree)
        .into_iter()
        .map(|bits| RealText { bits, text: format!("{}", f64::from_bits(bits)).into_bytes() })
        .collect()
}

fn table_for_text(bytes: &[u8]) -> Vec<RealText> {
    xml_real_texts(bytes)
        .into_iter()
        .map(|text| {
            let value: f64 = std::str::from_utf8(&text).unwrap().parse().unwrap();
            RealText { bits: value.to_bits(), text }
        })
        .collect()
}

fn sample() -> Node {
    let mut inner = Node::new_dict();
    inner.dict_set_item("b", Node::new_uint(3)).unwrap();
    inner.dict_set_item("text", Node::new_string("a < b & c > d")).unwrap();
    inner.dict_set_item("when", Node::new_date(86400 * 366 + 3661, 0)).unwrap();
    inner.dict_set_item("blob", Node::new_data((0u8..=200).collect())).unwrap();
    inner.dict_set_item("pi", Node::new_real(3.25f64.to_bits())).unwrap();
    inner.dict_set_item("yes", Node::new_bool(true)).unwrap();
    let mut arr = Node::new_array();
    arr.array_append_item(Node::new_uint(1)).unwrap();
    arr.array_append_item(Node::new_uint(2)).unwrap();
    arr.array_append_item(inner).unwrap();
    let mut root = Node::new_dict();
    root.dict_set_item("a", arr).unwrap();
    root
}

#[test]
fn xml_round_trip_of_nested_tree() {
    let tree = sample();
    let text = encode_xml(&tree, &table_for_tree(&tree)).unwrap();
    println!("{}", String::from_utf8(text.clone()).unwrap());
    let back = decode_xml(&text, &table_for_text(&text)).unwrap();
    assert_eq!(back, tree);
}

#[test]
fn xml_document_of_a_small_tree_is_exact() {
    let mut root = Node::new_dict();
    root.dict_set_item("n", Node::new_uint(300)).unwrap();
    root.dict_set_item("d", Node::new_date(0, 0)).unwrap();
    root.dict_set_item("x", Node::new_data(b"hello".to_vec())).unwrap();
    let text = encode_xml(&root, &[]).unwrap();
    let want = "<?xml version=\"1.0\" encoding=\"UTF-8\"?>\n<!DOCTYPE plist PUBLIC \"-//Apple//DTD PLIST 1.0//EN\" \"http://www.apple.com/DTDs/PropertyList-1.0.dtd\">\n<plist version=\"1.0\">\n<dict>\n<key>n</key>\n<integer>300</integer>\n<key>d</key>\n<date>2001-01-01T00:00:00Z</date>\n<key>x</key>\n<data>\naGVsbG8=\n</data>\n</dict>\n</plist>\n";
    assert_eq!(String::from_utf8(text).unwrap(), want);
}

#[test]
fn xml_duplicate_key_last_write_wins() {
    let text = b"<plist version=\"1.0\"><dict><key>a</key><integer>1</integer><key>b</key><true/><key>a</key><integer>2</integer></dict></plist>";
    let tree = decode_xml(text, &[]).unwrap();
    assert_eq!(tree.dict_get_size(), Ok(2));
    assert_eq!(tree.dict_get_item("a"), Ok(&Node::new_uint(2)));
    assert_eq!(tree.dict_get_entry(0).unwrap().0, "a");
    assert_eq!(tree.dict_get_entry(1).unwrap().0, "b");
}

#[test]
fn xml_unknown_element_is_reported_with_its_position() {
    let text = b"<plist><nope/></plist>";
    assert_eq!(
        decode_xml(text, &[]),
        Err(PlistError::ParseError { position: 7, message: UnknownElement })
    );
}

#[test]
fn sniffer_tells_binary_from_xml() {
    assert_eq!(sniff_format(&[0x62, 0x70, 0x6c, 0x69, 0x73, 0x74, 0x30, 0x30, 1, 2]), PlistFormat::Binary);
    assert_eq!(sniff_format(b"<?xml version=\"1.0\"?>"), PlistFormat::Xml);
    assert_eq!(sniff_format(b"bplist01"), PlistFormat::Xml);
    assert_eq!(sniff_format(b""), PlistFormat::Xml);
}

#[test]
fn decode_dispatches_on_the_sniffed_format() {
    let tree = sample();
    let bin = plist_tree::encode_binary(&tree).unwrap();
    assert_eq!(decode(&bin, &[]).unwrap(), tree);
    let xml = encode_xml(&tree, &table_for_tree(&tree)).unwrap();
    assert_eq!(decode(&xml, &table_for_text(&xml)).unwrap(), tree);
}

fn xml_error(position: usize, message: ParseMessage) -> Result<Node, PlistError> {
    Err(PlistError::ParseError { position, message })
}

#[test]
fn xml_prolog_comments_and_white_space_are_skipped() {
    let text = b"  <?xml version=\"1.0\"?>\n<!-- a > comment --><!DOCTYPE plist>\n <plist version=\"1.0\">\n\t<array>\n <true/> <false/>\r\n<string/><data/><array/><dict/></array>\n</plist>\n \n";
    let mut want = Node::new_array();
    for n in [
        Node::new_bool(true),
        Node::new_bool(false),
        Node::new_string(""),
        Node::new_data(vec![]),
        Node::new_array(),
        Node::new_dict(),
    ] {
        want.array_append_item(n).unwrap();
    }
    assert_eq!(decode_xml(text, &[]), Ok(want));
}

#[test]
fn xml_text_is_escaped_and_read_back() {
    let tree = Node::new_string("<a href=\"x\">T&C's \u{e9}\u{1f600}</a>");
    let text = encode_xml(&tree, &[]).unwrap();
    let body = String::from_utf8(text.clone()).unwrap();
    assert!(body.contains(
        "<string>&lt;a href=\"x\"&gt;T&amp;C's \u{e9}\u{1f600}&lt;/a&gt;</string>\n"
    ));
    assert_eq!(decode_xml(&text, &[]), Ok(tree));
    let quoted = b"<plist><string>&quot;q&quot; &apos;a&apos;</string></plist>";
    assert_eq!(decode_xml(quoted, &[]), Ok(Node::new_string("\"q\" 'a'")));
}

#[test]
fn xml_data_is_wrapped_at_76_columns() {
    let tree = Node::new_data((0u8..100).collect());
    let text = String::from_utf8(encode_xml(&tree, &[]).unwrap()).unwrap();
    let start = text.find("<data>\n").unwrap() + 7;
    let end = text.find("</data>").unwrap();
    let lines: Vec<&str> = text[start..end].lines().collect();
    assert_eq!(lines.len(), 2);
    assert_eq!(lines[0].len(), 76);
    assert_eq!(lines[1].len(), 136 - 76);
    assert!(lines[1].ends_with("=="));
    assert_eq!(decode_xml(text.as_bytes(), &[]), Ok(tree));
    for n in 0..8usize {
        let d = Node::new_data((0..n as u8).map(|i| i.wrapping_mul(37).wrapping_add(250)).collect());
        let t = encode_xml(&d, &[]).unwrap();
        assert_eq!(decode_xml(&t, &[]), Ok(d));
    }
}

#[test]
fn xml_dates_follow_the_calendar() {
    for (sec, want) in [
        (0, "2001-01-01T00:00:00Z"),
        (-1, "2000-12-31T23:59:59Z"),
        (86400 * 59, "2001-03-01T00:00:00Z"),
        (86400 * (365 * 3 + 59), "2004-02-29T00:00:00Z"),
        (86400 * (365 * 3 + 60) + 3723, "2004-03-01T01:02:03Z"),
        (i32::MAX, "2069-01-19T03:14:07Z"),
        (i32::MIN, "1932-12-13T20:45:52Z"),
        (-86400 * 307, "2000-02-29T00:00:00Z"),
        (-86400 * 306, "2000-03-01T00:00:00Z"),
    ] {
        let text = String::from_utf8(encode_xml(&Node::new_date(sec, 0), &[]).unwrap()).unwrap();
        assert!(text.contains(&format!("<date>{}</date>\n", want)), "{} in {}", want, text);
        assert_eq!(decode_xml(text.as_bytes(), &[]), Ok(Node::new_date(sec, 0)));
    }
    let with_usec = encode_xml(&Node::new_date(5, 999), &[]).unwrap();
    assert_eq!(decode_xml(&with_usec, &[]), Ok(Node::new_date(5, 0)));
}

#[test]
fn xml_bad_values_are_reported_with_their_position() {
    assert_eq!(decode_xml(b"<plist><integer>x</integer></plist>", &[]), xml_error(16, BadValue));
    assert_eq!(decode_xml(b"<plist><integer></integer></plist>", &[]), xml_error(16, BadValue));
    assert_eq!(
        decode_xml(b"<plist><integer>18446744073709551616</integer></plist>", &[]),
        xml_error(16, BadValue)
    );
    assert_eq!(
        decode_xml(b"<plist><integer>18446744073709551615</integer></plist>", &[]),
        Ok(Node::new_uint(u64::MAX))
    );
    assert_eq!(decode_xml(b"<plist><integer>007</integer></plist>", &[]), Ok(Node::new_uint(7)));
    assert_eq!(
        decode_xml(b"<plist><date>2001-02-29T00:00:00Z</date></plist>", &[]),
        xml_error(13, BadValue)
    );
    assert_eq!(
        decode_xml(b"<plist><date>2070-01-01T00:00:00Z</date></plist>", &[]),
        xml_error(13, BadValue)
    );
    assert_eq!(
        decode_xml(b"<plist><date>2001-01-01 00:00:00Z</date></plist>", &[]),
        xml_error(13, BadValue)
    );
    assert_eq!(decode_xml(b"<plist><data>abc</data></plist>", &[]), xml_error(13, BadValue));
    assert_eq!(decode_xml(b"<plist><data>a=bc</data></plist>", &[]), xml_error(13, BadValue));
    assert_eq!(decode_xml(b"<plist><data>ab==abcd</data></plist>", &[]), xml_error(13, BadValue));
    assert_eq!(decode_xml(b"<plist><data>a b\nc\td</data></plist>", &[]), Ok(Node::new_data(vec![0x69, 0xb7, 0x1d])));
    assert_eq!(decode_xml(b"<plist><real>1.5</real></plist>", &[]), xml_error(13, MissingReal));
}

#[test]
fn xml_bad_structure_is_reported_with_its_position() {
    assert_eq!(decode_xml(b"", &[]), xml_error(0, BadTag));
    assert_eq!(decode_xml(b"<true/>", &[]), xml_error(0, BadTag));
    assert_eq!(decode_xml(b"<plist", &[]), xml_error(0, BadTag));
    assert_eq!(decode_xml(b"<?xml <plist><true/></plist>", &[]), xml_error(0, BadTag));
    assert_eq!(decode_xml(b"<plist>", &[]), xml_error(7, UnknownElement));
    assert_eq!(decode_xml(b"<plist><true/>", &[]), xml_error(14, BadTag));
    assert_eq!(decode_xml(b"<plist><true/></plist>x", &[]), xml_error(22, TrailingBytes));
    assert_eq!(decode_xml(b"<plist><true/><false/></plist>", &[]), xml_error(14, BadTag));
    assert_eq!(decode_xml(b"<plist><integer>1</integr></plist>", &[]), xml_error(17, BadTag));
    assert_eq!(decode_xml(b"<plist><string>abc", &[]), xml_error(18, BadTag));
    assert_eq!(decode_xml(b"<plist><string>a</key></plist>", &[]), xml_error(16, BadTag));
    assert_eq!(decode_xml(b"<plist><string>a&nbsp;b</string></plist>", &[]), xml_error(16, BadEscape));
    assert_eq!(decode_xml(b"<plist><string>\xff</string></plist>", &[]), xml_error(15, BadText));
    assert_eq!(decode_xml(b"<plist><array><true/></plist>", &[]), xml_error(21, UnknownElement));
    assert_eq!(decode_xml(b"<plist><dict><true/></dict></plist>", &[]), xml_error(13, BadDictionary));
    assert_eq!(decode_xml(b"<plist><dict><key>k</key></dict></plist>", &[]), xml_error(25, UnknownElement));
    assert_eq!(decode_xml(b"<plist><dict><key>\xc3</key><true/></dict></plist>", &[]), xml_error(18, BadText));
    assert_eq!(decode_xml(b"<plist><true /></plist>", &[]), xml_error(7, UnknownElement));
}

#[test]
fn xml_nodes_without_an_element_cannot_be_written() {
    assert_eq!(encode_xml(&Node::new_key("k"), &[]), Err(PlistError::TypeMismatch));
    assert_eq!(encode_xml(&Node::new_uid(1), &[]), Err(PlistError::TypeMismatch));
    assert_eq!(encode_xml(&Node::Null, &[]), Err(PlistError::TypeMismatch));
    let real = Node::new_real(1.5f64.to_bits());
    let missing = Err(PlistError::ParseError { position: 0, message: MissingReal });
    assert_eq!(encode_xml(&real, &[]), missing);
    let empty = [RealText { bits: 1.5f64.to_bits(), text: vec![] }];
    assert_eq!(encode_xml(&real, &empty), missing);
    let unfit = [RealText { bits: 1.5f64.to_bits(), text: b"1<5".to_vec() }];
    assert_eq!(encode_xml(&real, &unfit), missing);
    let mut arr = Node::new_array();
    arr.array_append_item(real).unwrap();
    arr.array_append_item(Node::Null).unwrap();
    assert_eq!(encode_xml(&arr, &[]), missing);
    let fit = [RealText { bits: 1.5f64.to_bits(), text: b"1.5".to_vec() }];
    assert_eq!(encode_xml(&arr, &fit), Err(PlistError::TypeMismatch));
}

#[test]
fn xml_reals_are_listed_in_document_order() {
    let mut d = Node::new_dict();
    d.dict_set_item("x", Node::new_real(1)).unwrap();
    d.dict_set_item("y", Node::new_uint(5)).unwrap();
    let mut arr = Node::new_array();
    arr.array_append_item(Node::new_real(2)).unwrap();
    arr.array_append_item(d).unwrap();
    arr.array_append_item(Node::new_real(2)).unwrap();
    assert_eq!(real_values(&arr), vec![2, 1, 2]);
    assert_eq!(real_values(&Node::new_uint(1)), Vec::<u64>::new());
    let text = b"<plist><array><real>1.5</real><string>&lt;real&gt;</string><real></real><real>-2e3</real></array>";
    assert_eq!(xml_real_texts(text), vec![b"1.5".to_vec(), b"".to_vec(), b"-2e3".to_vec()]);
    assert_eq!(xml_real_texts(b"<real>12"), vec![b"12".to_vec()]);
    assert_eq!(xml_real_texts(b"nothing"), Vec::<Vec<u8>>::new());
}
