use plist_tree::binary::ints::{push_be, read_be, width_of};
use plist_tree::binary::single::widen;
use plist_tree::binary::utf16::{decode_utf16_units, encode_utf16};
use plist_tree::text::{bytes_eq, chars_to_string, str_chars, str_eq, text_of_utf8};
use plist_tree::xml::base64::{decode_base64, encode_base64};
use plist_tree::xml::number::{push_decimal, read_uint};

#[test]
fn text_comparison_is_by_content() {
    assert!(bytes_eq(b"abc", b"abc"));
    assert!(!bytes_eq(b"abc", b"abd"));
    assert!(!bytes_eq(b"abc", b"ab"));
    assert!(bytes_eq(b"", b""));
    assert!(str_eq("gr\u{fc}n", "gr\u{fc}n"));
    assert!(!str_eq("gr\u{fc}n", "grun"));
}

#[test]
fn text_and_characters_convert_both_ways() {
    assert_eq!(str_chars("a\u{e9}\u{1f600}"), vec!['a', '\u{e9}', '\u{1f600}']);
    assert_eq!(str_chars(""), Vec::<char>::new());
    assert_eq!(chars_to_string(&['a', '\u{e9}', '\u{1f600}']), "a\u{e9}\u{1f600}");
    assert_eq!(text_of_utf8(vec![0x61, 0xc3, 0xa9]), Some("a\u{e9}".to_string()));
    assert_eq!(text_of_utf8(vec![0x61, 0xc3]), None);
}

#[test]
fn big_endian_integers_have_the_asked_width() {
    let mut out = vec![7];
    push_be(&mut out, 0x0102_0304, 4);
    push_be(&mut out, 0x0102_0304, 2);
    push_be(&mut out, 5, 0);
    push_be(&mut out, u64::MAX, 8);
    assert_eq!(out, [7, 1, 2, 3, 4, 3, 4, 255, 255, 255, 255, 255, 255, 255, 255]);
    assert_eq!(read_be(&out, 1, 4), 0x0102_0304);
    assert_eq!(read_be(&out, 1, 0), 0);
    assert_eq!(read_be(&out, 7, 8), u64::MAX);
    assert_eq!(width_of(0), (1, 0));
    assert_eq!(width_of(255), (1, 0));
    assert_eq!(width_of(256), (2, 1));
    assert_eq!(width_of(300), (2, 1));
    assert_eq!(width_of(65535), (2, 1));
    assert_eq!(width_of(70000), (4, 2));
    assert_eq!(width_of(u32::MAX as u64), (4, 2));
    assert_eq!(width_of(u32::MAX as u64 + 1), (8, 3));
}

#[test]
fn utf16_units_of_text() {
    assert_eq!(encode_utf16(&['A', '\u{20ac}', '\u{1f600}']), [0x41, 0x20ac, 0xd83d, 0xde00]);
    assert_eq!(encode_utf16(&['\u{ffff}', '\u{10000}', '\u{10ffff}']), [0xffff, 0xd800, 0xdc00, 0xdbff, 0xdfff]);
    assert_eq!(decode_utf16_units(&[0x41, 0x20ac, 0xd83d, 0xde00]), Some(vec!['A', '\u{20ac}', '\u{1f600}']));
    assert_eq!(decode_utf16_units(&[0xd83d]), None);
    assert_eq!(decode_utf16_units(&[0xde00, 0xd83d]), None);
    assert_eq!(decode_utf16_units(&[0xd83d, 0x41]), None);
    assert_eq!(decode_utf16_units(&[]), Some(vec![]));
}

#[test]
fn single_width_numbers_widen_as_the_machine_does() {
    let mut bits: u32 = 1;
    for _ in 0..2000 {
        bits = bits.wrapping_mul(1_664_525).wrapping_add(1_013_904_223);
        let x = f32::from_bits(bits);
        if !x.is_nan() {
            assert_eq!(widen(bits), (x as f64).to_bits(), "{:#x}", bits);
        }
        let sub = bits & 0x807f_ffff;
        assert_eq!(widen(sub), (f32::from_bits(sub) as f64).to_bits(), "{:#x}", sub);
    }
    assert_eq!(widen(0x7fc0_0000), 0x7ff8_0000_0000_0000);
    assert_eq!(widen(0xffc0_0001), 0xfff8_0000_2000_0000);
}

#[test]
fn base64_of_known_texts() {
    for (plain, coded) in [
        ("", ""),
        ("f", "Zg=="),
        ("fo", "Zm8="),
        ("foo", "Zm9v"),
        ("foob", "Zm9vYg=="),
        ("fooba", "Zm9vYmE="),
        ("foobar", "Zm9vYmFy"),
    ] {
        assert_eq!(encode_base64(plain.as_bytes()), coded.as_bytes());
        assert_eq!(decode_base64(coded.as_bytes()), Some(plain.as_bytes().to_vec()));
    }
    assert_eq!(encode_base64(&[0xfb, 0xff, 0xbe]), b"+/++");
    assert_eq!(decode_base64(b"+/++"), Some(vec![0xfb, 0xff, 0xbe]));
    assert_eq!(decode_base64(b"Zg="), None);
    assert_eq!(decode_base64(b"Z==="), None);
    assert_eq!(decode_base64(b"Zg==Zg=="), None);
    assert_eq!(decode_base64(b"Zm9-"), None);
}

#[test]
fn decimal_digits_of_numbers() {
    let mut out = Vec::new();
    push_decimal(&mut out, 0);
    out.push(b',');
    push_decimal(&mut out, 10);
    out.push(b',');
    push_decimal(&mut out, u64::MAX);
    assert_eq!(out, b"0,10,18446744073709551615");
    assert_eq!(read_uint(&out, 0), Some((0, 1)));
    assert_eq!(read_uint(&out, 1), None);
    assert_eq!(read_uint(&out, 2), Some((10, 4)));
    assert_eq!(read_uint(&out, 5), Some((u64::MAX, 25)));
    assert_eq!(read_uint(b"18446744073709551616", 0), None);
    assert_eq!(read_uint(b"99999999999999999999999", 0), None);
    assert_eq!(read_uint(b"", 0), None);
}
