//! The objects of the object table and their byte forms.

use vstd::prelude::*;
use vstd::utf8::{is_ascii_chars, is_ascii_chars_encode_utf8};
use crate::binary::ints::{
    be_bytes, be_value, bits_i32, i32_bits, int_width, int_width_log, lemma_be_value_bound,
    lemma_pow256_values, push_be, read_be, width_of, width_of_log,
};
use crate::binary::single::{widen, widen_single};
use crate::binary::utf16::{
    bytes_units, decode_utf16, decode_utf16_units, encode_utf16, units_bytes, utf16_units,
};
use crate::text::{chars_to_string, push_char, str_chars};
use crate::error::{ParseMessage, PlistError};

verus! {

/// One entry of the object table. Arrays and dictionaries hold the table
/// positions of their items; a dictionary holds those of its keys too.
pub enum Obj {
    Null,
    Bool(bool),
    UInt(u64),
    Real(u64),
    Date { sec: i32, usec: i32 },
    Data(Seq<u8>),
    Str(Seq<char>),
    Uid(u64),
    Array(Seq<nat>),
    Dict { keys: Seq<nat>, vals: Seq<nat> },
}

/// A marker byte: the object's kind in the high half, `low` in the low
/// half.
pub open spec fn marker(tag: nat, low: nat) -> u8 {
    (tag * 16 + low) as u8
}

/// The marker of an object of kind `tag` with the length or count `n`:
/// `n` itself up to 14, else 15 followed by `n` as an integer object.
pub open spec fn encode_head(tag: nat, n: nat) -> Seq<u8> {
    if n < 15 {
        seq![marker(tag, n)]
    } else {
        seq![marker(tag, 15), marker(1, int_width_log(n as u64))] + be_bytes(
            n,
            int_width(n as u64),
        )
    }
}

/// The references `refs`, each `width` bytes wide.
pub open spec fn encode_refs(refs: Seq<nat>, width: nat) -> Seq<u8>
    decreases refs.len(),
{
    if refs.len() == 0 {
        Seq::empty()
    } else {
        be_bytes(refs[0], width) + encode_refs(refs.drop_first(), width)
    }
}

/// The bytes of ASCII text, one for each character.
pub open spec fn ascii_bytes(s: Seq<char>) -> Seq<u8> {
    Seq::new(s.len(), |i: int| s[i] as u8)
}

/// The text that ASCII bytes spell.
pub open spec fn ascii_chars(b: Seq<u8>) -> Seq<char> {
    Seq::new(b.len(), |i: int| b[i] as char)
}

/// Every byte is below 128.
pub open spec fn is_ascii_bytes(b: Seq<u8>) -> bool {
    forall|i: int| 0 <= i < b.len() ==> #[trigger] b[i] < 128
}

/// The byte form of the object `o` in a table whose references are
/// `ref_size` bytes wide.
pub open spec fn encode_object(o: Obj, ref_size: nat) -> Seq<u8> {
    match o {
        Obj::Null => seq![0x00u8],
        Obj::Bool(b) => if b {
            seq![0x09u8]
        } else {
            seq![0x08u8]
        },
        Obj::UInt(v) => seq![marker(1, int_width_log(v))] + be_bytes(v as nat, int_width(v)),
        Obj::Real(bits) => seq![0x23u8] + be_bytes(bits as nat, 8),
        Obj::Date { sec, usec } => seq![0x33u8] + be_bytes(i32_bits(sec), 4) + be_bytes(
            i32_bits(usec),
            4,
        ),
        Obj::Data(d) => encode_head(4, d.len()) + d,
        Obj::Str(s) => if is_ascii_chars(s) {
            encode_head(5, s.len()) + ascii_bytes(s)
        } else {
            encode_head(6, utf16_units(s).len()) + units_bytes(utf16_units(s))
        },
        Obj::Uid(v) => seq![marker(8, (int_width(v) - 1) as nat)] + be_bytes(
            v as nat,
            int_width(v),
        ),
        Obj::Array(refs) => encode_head(10, refs.len()) + encode_refs(refs, ref_size),
        Obj::Dict { keys, vals } => encode_head(13, keys.len()) + encode_refs(keys, ref_size)
            + encode_refs(vals, ref_size),
    }
}

/// A malformed object at the position `at`.
pub open spec fn bad(at: usize, message: ParseMessage) -> PlistError {
    PlistError::ParseError { position: at, message }
}

/// The length or count that the marker at the start of `s` gives, and the
/// number of bytes that the marker takes with it.
pub open spec fn parse_head(s: Seq<u8>, at: usize) -> Result<(nat, nat), PlistError> {
    let low = (s[0] % 16) as nat;
    if low < 15 {
        Ok((low, 1))
    } else if s.len() < 2 {
        Err(PlistError::TruncatedInput)
    } else if s[1] / 16 != 1 || s[1] % 16 > 3 {
        Err(bad(at, ParseMessage::BadLength))
    } else {
        let w = width_of_log((s[1] % 16) as nat);
        if s.len() < 2 + w {
            Err(PlistError::TruncatedInput)
        } else {
            Ok((be_value(s.subrange(2, 2 + w as int)), 2 + w))
        }
    }
}

/// The `count` references of `width` bytes each at the start of `s`.
pub open spec fn parse_refs(s: Seq<u8>, width: nat, count: nat) -> Seq<nat> {
    Seq::new(count, |i: int| be_value(s.subrange(i * width, (i + 1) * width)))
}

/// Every reference names one of `n` objects.
pub open spec fn refs_in_range(refs: Seq<nat>, n: nat) -> bool {
    forall|i: int| 0 <= i < refs.len() ==> #[trigger] refs[i] < n
}

/// The integer object of width `w` behind the marker at the start of `s`.
pub open spec fn parse_fixed(s: Seq<u8>, w: nat) -> Result<nat, PlistError> {
    if s.len() < 1 + w {
        Err(PlistError::TruncatedInput)
    } else {
        Ok(be_value(s.subrange(1, 1 + w as int)))
    }
}

/// The object whose byte form starts `s`, the rest of the object area, in
/// a table of `n` objects with references of `ref_size` bytes. `at` is the
/// position of `s` in the document, which a `ParseError` reports.
pub open spec fn parse_object(s: Seq<u8>, at: usize, ref_size: nat, n: nat) -> Result<
    Obj,
    PlistError,
> {
    if s.len() == 0 {
        Err(PlistError::TruncatedInput)
    } else {
        let tag = s[0] / 16;
        let low = (s[0] % 16) as nat;
        if tag == 0 {
            if low == 0 {
                Ok(Obj::Null)
            } else if low == 8 {
                Ok(Obj::Bool(false))
            } else if low == 9 {
                Ok(Obj::Bool(true))
            } else {
                Err(bad(at, ParseMessage::BadMarker))
            }
        } else if tag == 1 {
            if low > 3 {
                Err(bad(at, ParseMessage::BadMarker))
            } else {
                match parse_fixed(s, width_of_log(low)) {
                    Ok(v) => Ok(Obj::UInt(v as u64)),
                    Err(e) => Err(e),
                }
            }
        } else if tag == 2 {
            if low == 2 {
                match parse_fixed(s, 4) {
                    Ok(v) => Ok(Obj::Real(widen_single(v as u32))),
                    Err(e) => Err(e),
                }
            } else if low == 3 {
                match parse_fixed(s, 8) {
                    Ok(v) => Ok(Obj::Real(v as u64)),
                    Err(e) => Err(e),
                }
            } else {
                Err(bad(at, ParseMessage::BadMarker))
            }
        } else if tag == 3 {
            if low != 3 {
                Err(bad(at, ParseMessage::BadMarker))
            } else if s.len() < 9 {
                Err(PlistError::TruncatedInput)
            } else {
                Ok(
                    Obj::Date {
                        sec: bits_i32(be_value(s.subrange(1, 5))),
                        usec: bits_i32(be_value(s.subrange(5, 9))),
                    },
                )
            }
        } else if tag == 4 {
            match parse_head(s, at) {
                Err(e) => Err(e),
                Ok((count, h)) => if s.len() < h + count {
                    Err(PlistError::TruncatedInput)
                } else {
                    Ok(Obj::Data(s.subrange(h as int, h as int + count)))
                },
            }
        } else if tag == 5 {
            match parse_head(s, at) {
                Err(e) => Err(e),
                Ok((count, h)) => if s.len() < h + count {
                    Err(PlistError::TruncatedInput)
                } else if !is_ascii_bytes(s.subrange(h as int, h as int + count)) {
                    Err(bad(at, ParseMessage::BadText))
                } else {
                    Ok(Obj::Str(ascii_chars(s.subrange(h as int, h as int + count))))
                },
            }
        } else if tag == 6 {
            match parse_head(s, at) {
                Err(e) => Err(e),
                Ok((count, h)) => if s.len() < h + 2 * count {
                    Err(PlistError::TruncatedInput)
                } else {
                    match decode_utf16(bytes_units(s.subrange(h as int, h as int + 2 * count), count)) {
                        Some(text) => Ok(Obj::Str(text)),
                        None => Err(bad(at, ParseMessage::BadText)),
                    }
                },
            }
        } else if tag == 8 {
            if low > 7 {
                Err(bad(at, ParseMessage::BadMarker))
            } else {
                match parse_fixed(s, low + 1) {
                    Ok(v) => Ok(Obj::Uid(v as u64)),
                    Err(e) => Err(e),
                }
            }
        } else if tag == 10 {
            match parse_head(s, at) {
                Err(e) => Err(e),
                Ok((count, h)) => if s.len() < h + count * ref_size {
                    Err(PlistError::TruncatedInput)
                } else {
                    let refs = parse_refs(s.skip(h as int), ref_size, count);
                    if refs_in_range(refs, n) {
                        Ok(Obj::Array(refs))
                    } else {
                        Err(bad(at, ParseMessage::BadReference))
                    }
                },
            }
        } else if tag == 13 {
            match parse_head(s, at) {
                Err(e) => Err(e),
                Ok((count, h)) => if s.len() < h + 2 * count * ref_size {
                    Err(PlistError::TruncatedInput)
                } else {
                    let keys = parse_refs(s.skip(h as int), ref_size, count);
                    let vals = parse_refs(s.skip(h as int + count * ref_size), ref_size, count);
                    if refs_in_range(keys, n) && refs_in_range(vals, n) {
                        Ok(Obj::Dict { keys, vals })
                    } else {
                        Err(bad(at, ParseMessage::BadReference))
                    }
                },
            }
        } else {
            Err(bad(at, ParseMessage::BadMarker))
        }
    }
}

/// One entry of the object table.
#[derive(Debug)]
pub enum Object {
    Null,
    Bool(bool),
    UInt(u64),
    Real(u64),
    Date { sec: i32, usec: i32 },
    Data(Vec<u8>),
    Str(String),
    Uid(u64),
    Array(Vec<usize>),
    Dict { keys: Vec<usize>, vals: Vec<usize> },
}

/// The references `v` as numbers.
pub open spec fn refs_view(v: Seq<usize>) -> Seq<nat> {
    Seq::new(v.len(), |i: int| v[i] as nat)
}

impl View for Object {
    type V = Obj;

    open spec fn view(&self) -> Obj {
        match self {
            Object::Null => Obj::Null,
            Object::Bool(b) => Obj::Bool(*b),
            Object::UInt(v) => Obj::UInt(*v),
            Object::Real(bits) => Obj::Real(*bits),
            Object::Date { sec, usec } => Obj::Date { sec: *sec, usec: *usec },
            Object::Data(d) => Obj::Data(d@),
            Object::Str(s) => Obj::Str(s@),
            Object::Uid(v) => Obj::Uid(*v),
            Object::Array(refs) => Obj::Array(refs_view(refs@)),
            Object::Dict { keys, vals } => Obj::Dict {
                keys: refs_view(keys@),
                vals: refs_view(vals@),
            },
        }
    }
}

/// Appends the marker of an object of kind `tag` with the length `n`.
fn write_head(out: &mut Vec<u8>, tag: u8, n: usize)
    requires
        tag < 16,
    ensures
        final(out)@ == old(out)@ + encode_head(tag as nat, n as nat),
{
    if n < 15 {
        out.push(tag * 16 + n as u8);
        assert(out@ =~= old(out)@ + encode_head(tag as nat, n as nat));
    } else {
        let (w, k) = width_of(n as u64);
        out.push(tag * 16 + 15);
        out.push(16 + k);
        push_be(out, n as u64, w);
        assert(out@ =~= old(out)@ + encode_head(tag as nat, n as nat));
    }
}

/// Appends the references `refs`, each `ref_size` bytes wide.
fn write_refs(out: &mut Vec<u8>, refs: &Vec<usize>, ref_size: usize)
    ensures
        final(out)@ == old(out)@ + encode_refs(refs_view(refs@), ref_size as nat),
{
    let ghost all = refs_view(refs@);
    let mut i: usize = 0;
    assert(all.skip(0) =~= all);
    assert(out@ + encode_refs(all, ref_size as nat) =~= old(out)@ + encode_refs(
        all,
        ref_size as nat,
    ));
    while i < refs.len()
        invariant
            i <= refs.len(),
            all == refs_view(refs@),
            out@ + encode_refs(all.skip(i as int), ref_size as nat) == old(out)@ + encode_refs(
                all,
                ref_size as nat,
            ),
        decreases refs.len() - i,
    {
        let ghost before = out@;
        let ghost tail = all.skip(i as int);
        push_be(out, refs[i] as u64, ref_size);
        proof {
            assert(tail.drop_first() =~= all.skip(i + 1));
            assert(tail[0] == refs@[i as int] as nat);
            assert(out@ + encode_refs(all.skip(i + 1), ref_size as nat) =~= before + encode_refs(
                tail,
                ref_size as nat,
            ));
        }
        i += 1;
    }
    assert(out@ + encode_refs(all.skip(i as int), ref_size as nat) =~= out@);
}

/// Appends the code units `units`, each most significant byte first.
fn write_units(out: &mut Vec<u8>, units: &Vec<u16>)
    ensures
        final(out)@ == old(out)@ + units_bytes(units@),
{
    let mut i: usize = 0;
    assert(out@ =~= old(out)@ + units_bytes(units@.take(0)));
    while i < units.len()
        invariant
            i <= units.len(),
            out@ == old(out)@ + units_bytes(units@.take(i as int)),
        decreases units.len() - i,
    {
        let u: u16 = units[i];
        out.push((u / 256) as u8);
        out.push((u % 256) as u8);
        assert(out@ =~= old(out)@ + units_bytes(units@.take(i + 1)));
        i += 1;
    }
    assert(units@.take(i as int) =~= units@);
}

/// Appends the bit pattern of `x`, four bytes.
fn write_i32(out: &mut Vec<u8>, x: i32)
    ensures
        final(out)@ == old(out)@ + be_bytes(i32_bits(x), 4),
{
    let wide: i64 = x as i64;
    let bits: u64 = if wide >= 0 {
        wide as u64
    } else {
        (wide + 0x1_0000_0000) as u64
    };
    push_be(out, bits, 4);
}

/// Appends the byte form of the object `o` in a table whose references are
/// `ref_size` bytes wide.
pub fn write_object(out: &mut Vec<u8>, o: &Object, ref_size: usize)
    ensures
        final(out)@ == old(out)@ + encode_object(o@, ref_size as nat),
{
    match o {
        Object::Null => {
            out.push(0x00);
            assert(out@ =~= old(out)@ + encode_object(o@, ref_size as nat));
        },
        Object::Bool(b) => {
            if *b {
                out.push(0x09);
            } else {
                out.push(0x08);
            }
            assert(out@ =~= old(out)@ + encode_object(o@, ref_size as nat));
        },
        Object::UInt(v) => {
            let (w, k) = width_of(*v);
            out.push(16 + k);
            push_be(out, *v, w);
            assert(out@ =~= old(out)@ + encode_object(o@, ref_size as nat));
        },
        Object::Real(bits) => {
            out.push(0x23);
            push_be(out, *bits, 8);
            assert(out@ =~= old(out)@ + encode_object(o@, ref_size as nat));
        },
        Object::Date { sec, usec } => {
            out.push(0x33);
            write_i32(out, *sec);
            write_i32(out, *usec);
            assert(out@ =~= old(out)@ + encode_object(o@, ref_size as nat));
        },
        Object::Data(d) => {
            write_head(out, 4, d.len());
            out.extend_from_slice(d.as_slice());
            assert(out@ =~= old(out)@ + encode_object(o@, ref_size as nat));
        },
        Object::Str(s) => {
            let text = s.as_str();
            if text.is_ascii() {
                let bytes = text.as_bytes();
                proof {
                    is_ascii_chars_encode_utf8(s@);
                    assert(bytes@ =~= ascii_bytes(s@));
                }
                write_head(out, 5, bytes.len());
                out.extend_from_slice(bytes);
                assert(out@ =~= old(out)@ + encode_object(o@, ref_size as nat));
            } else {
                let chars = str_chars(text);
                let units = encode_utf16(chars.as_slice());
                write_head(out, 6, units.len());
                write_units(out, &units);
                assert(out@ =~= old(out)@ + encode_object(o@, ref_size as nat));
            }
        },
        Object::Uid(v) => {
            let (w, _) = width_of(*v);
            out.push(128 + (w as u8 - 1));
            push_be(out, *v, w);
            assert(out@ =~= old(out)@ + encode_object(o@, ref_size as nat));
        },
        Object::Array(refs) => {
            write_head(out, 10, refs.len());
            write_refs(out, refs, ref_size);
            assert(out@ =~= old(out)@ + encode_object(o@, ref_size as nat));
        },
        Object::Dict { keys, vals } => {
            write_head(out, 13, keys.len());
            write_refs(out, keys, ref_size);
            write_refs(out, vals, ref_size);
            assert(out@ =~= old(out)@ + encode_object(o@, ref_size as nat));
        },
    }
}

/// A product is within a bound exactly if one factor is within the
/// bound's quotient by the other.
proof fn lemma_count_fits(count: nat, width: nat, room: nat)
    requires
        width > 0,
    ensures
        count * width <= room <==> count <= room / width,
{
    assert(count * width <= room <==> count <= room / width) by (nonlinear_arith)
        requires
            width > 0,
    ;
}

/// The number of `width` bytes behind the marker at `start`.
fn read_fixed(bytes: &[u8], start: usize, end: usize, width: usize) -> (r: Result<
    u64,
    PlistError,
>)
    requires
        start < end <= bytes@.len(),
        1 <= width <= 8,
    ensures
        match parse_fixed(bytes@.subrange(start as int, end as int), width as nat) {
            Ok(v) => r == Ok::<u64, PlistError>(v as u64) && v <= u64::MAX,
            Err(e) => r == Err::<u64, PlistError>(e),
        },
{
    let ghost s = bytes@.subrange(start as int, end as int);
    if end - start < 1 + width {
        Err(PlistError::TruncatedInput)
    } else {
        let v = read_be(bytes, start + 1, width);
        proof {
            assert(s.subrange(1, 1 + width as int) =~= bytes@.subrange(
                start + 1,
                start + 1 + width,
            ));
            lemma_be_value_bound(s.subrange(1, 1 + width as int));
            lemma_pow256_values();
        }
        Ok(v)
    }
}

/// The length or count that the marker at `start` gives, and the number of
/// bytes that the marker takes with it.
fn read_head(bytes: &[u8], start: usize, end: usize) -> (r: Result<(u64, usize), PlistError>)
    requires
        start < end <= bytes@.len(),
    ensures
        match parse_head(bytes@.subrange(start as int, end as int), start) {
            Ok((count, h)) => r == Ok::<(u64, usize), PlistError>((count as u64, h as usize))
                && count <= u64::MAX && h <= 10 && h <= end - start,
            Err(e) => r == Err::<(u64, usize), PlistError>(e),
        },
{
    let ghost s = bytes@.subrange(start as int, end as int);
    let low: u8 = bytes[start] % 16;
    if low < 15 {
        Ok((low as u64, 1))
    } else if end - start < 2 {
        Err(PlistError::TruncatedInput)
    } else {
        let next: u8 = bytes[start + 1];
        assert(next == s[1]);
        if next / 16 != 1 || next % 16 > 3 {
            Err(PlistError::ParseError { position: start, message: ParseMessage::BadLength })
        } else {
            let k: u8 = next % 16;
            let w: usize = if k == 0 {
                1
            } else if k == 1 {
                2
            } else if k == 2 {
                4
            } else {
                8
            };
            if end - start < 2 + w {
                Err(PlistError::TruncatedInput)
            } else {
                let v = read_be(bytes, start + 2, w);
                proof {
                    assert(s.subrange(2, 2 + w as int) =~= bytes@.subrange(start + 2, start + 2 + w));
                    lemma_be_value_bound(s.subrange(2, 2 + w as int));
                    lemma_pow256_values();
                }
                Ok((v, 2 + w))
            }
        }
    }
}

/// The `count` references of `ref_size` bytes each from `start` on, if
/// each names one of `n` objects.
fn read_refs(bytes: &[u8], start: usize, count: usize, ref_size: usize, n: usize) -> (r: Option<
    Vec<usize>,
>)
    requires
        1 <= ref_size <= 8,
        start + count * ref_size <= bytes@.len(),
    ensures
        match r {
            Some(refs) => refs_view(refs@) == parse_refs(
                bytes@.skip(start as int),
                ref_size as nat,
                count as nat,
            ) && refs_in_range(refs_view(refs@), n as nat),
            None => !refs_in_range(
                parse_refs(bytes@.skip(start as int), ref_size as nat, count as nat),
                n as nat,
            ),
        },
{
    let ghost s = bytes@.skip(start as int);
    let ghost all = parse_refs(s, ref_size as nat, count as nat);
    let len = bytes.len();
    let mut out: Vec<usize> = Vec::new();
    let mut i: usize = 0;
    let mut p: usize = start;
    while i < count
        invariant
            i <= count,
            1 <= ref_size <= 8,
            len == bytes@.len(),
            start + count * ref_size <= len,
            p == start + i * ref_size,
            s == bytes@.skip(start as int),
            all == parse_refs(s, ref_size as nat, count as nat),
            out@.len() == i,
            refs_view(out@) == all.take(i as int),
            refs_in_range(all.take(i as int), n as nat),
        decreases count - i,
    {
        proof {
            assert((i + 1) * ref_size == i * ref_size + ref_size) by (nonlinear_arith);
            assert((i + 1) * ref_size <= count * ref_size) by (nonlinear_arith)
                requires
                    i < count,
            ;
            assert(s.subrange(i * ref_size, (i + 1) * ref_size) =~= bytes@.subrange(
                p as int,
                p + ref_size,
            ));
        }
        let v = read_be(bytes, p, ref_size);
        if v >= n as u64 {
            proof {
                assert(all[i as int] == v);
            }
            return None;
        }
        let ghost prev = out@;
        out.push(v as usize);
        proof {
            assert(all[i as int] == v);
            assert forall|j: int| 0 <= j < i + 1 implies refs_view(out@)[j] == all.take(i + 1)[j] by {
                if j < i {
                    assert(refs_view(prev)[j] == all.take(i as int)[j]);
                    assert(out@[j] == prev[j]);
                }
            }
            assert(refs_view(out@) =~= all.take(i + 1));
        }
        i += 1;
        p += ref_size;
    }
    assert(all.take(i as int) =~= all);
    Some(out)
}

/// The ASCII text of the `count` bytes from `start` on, if every byte is
/// below 128.
fn read_ascii(bytes: &[u8], start: usize, count: usize) -> (r: Option<String>)
    requires
        start + count <= bytes@.len(),
    ensures
        match r {
            Some(text) => is_ascii_bytes(bytes@.subrange(start as int, start + count)) && text@
                == ascii_chars(bytes@.subrange(start as int, start + count)),
            None => !is_ascii_bytes(bytes@.subrange(start as int, start + count)),
        },
{
    let ghost s = bytes@.subrange(start as int, start + count);
    let len = bytes.len();
    let mut out = String::new();
    let mut i: usize = 0;
    while i < count
        invariant
            i <= count,
            len == bytes@.len(),
            start + count <= len,
            s == bytes@.subrange(start as int, start + count),
            is_ascii_bytes(s.take(i as int)),
            out@ == ascii_chars(s.take(i as int)),
        decreases count - i,
    {
        let b: u8 = bytes[start + i];
        assert(b == s[i as int]);
        if b >= 128 {
            return None;
        }
        push_char(&mut out, b as char);
        proof {
            assert(out@ =~= ascii_chars(s.take(i + 1)));
            assert forall|j: int| 0 <= j < s.take(i + 1).len() implies #[trigger] s.take(i + 1)[j]
                < 128 by {
                if j < i {
                    assert(s.take(i as int)[j] < 128);
                }
            }
        }
        i += 1;
    }
    assert(s.take(i as int) =~= s);
    Some(out)
}

/// The `count` code units from `start` on, each two bytes.
fn read_units(bytes: &[u8], start: usize, count: usize) -> (r: Vec<u16>)
    requires
        start + 2 * count <= bytes@.len(),
    ensures
        r@ == bytes_units(bytes@.subrange(start as int, start + 2 * count), count as nat),
{
    let ghost s = bytes@.subrange(start as int, start + 2 * count);
    let len = bytes.len();
    let mut out: Vec<u16> = Vec::new();
    let mut i: usize = 0;
    while i < count
        invariant
            i <= count,
            len == bytes@.len(),
            start + 2 * count <= len,
            s == bytes@.subrange(start as int, start + 2 * count),
            out@ == bytes_units(s, count as nat).take(i as int),
        decreases count - i,
    {
        let hi: u16 = bytes[start + 2 * i] as u16;
        let lo: u16 = bytes[start + 2 * i + 1] as u16;
        out.push(hi * 256 + lo);
        assert(out@ =~= bytes_units(s, count as nat).take(i + 1));
        i += 1;
    }
    assert(bytes_units(s, count as nat).take(i as int) =~= bytes_units(s, count as nat));
    out
}

/// The bytes from `start` up to `end`.
fn copy_bytes(bytes: &[u8], start: usize, end: usize) -> (r: Vec<u8>)
    requires
        start <= end <= bytes@.len(),
    ensures
        r@ == bytes@.subrange(start as int, end as int),
{
    let mut out: Vec<u8> = Vec::new();
    let mut i: usize = start;
    while i < end
        invariant
            start <= i <= end <= bytes@.len(),
            out@ == bytes@.subrange(start as int, i as int),
        decreases end - i,
    {
        out.push(bytes[i]);
        assert(out@ =~= bytes@.subrange(start as int, i + 1));
        i += 1;
    }
    out
}

/// References read from two byte sequences that agree where the
/// references stand are the same.
proof fn lemma_parse_refs_window(a: Seq<u8>, b: Seq<u8>, width: nat, count: nat)
    requires
        count * width <= a.len(),
        count * width <= b.len(),
        forall|j: int| 0 <= j < count * width ==> a[j] == b[j],
    ensures
        parse_refs(a, width, count) == parse_refs(b, width, count),
{
    assert forall|i: int| 0 <= i < count implies parse_refs(a, width, count)[i] == parse_refs(
        b,
        width,
        count,
    )[i] by {
        assert(0 <= i * width && (i + 1) * width <= count * width) by (nonlinear_arith)
            requires
                0 <= i < count,
        ;
        assert(i * width <= (i + 1) * width) by (nonlinear_arith)
            requires
                0 <= i,
        ;
        assert(a.subrange(i * width, (i + 1) * width) =~= b.subrange(i * width, (i + 1) * width));
    }
    assert(parse_refs(a, width, count) =~= parse_refs(b, width, count));
}

/// The signed number with the 32-bit pattern `v`.
fn to_i32(v: u64) -> (r: i32)
    requires
        v < 0x1_0000_0000,
    ensures
        r == bits_i32(v as nat),
{
    if v < 0x8000_0000 {
        v as i32
    } else {
        (v as i64 - 0x1_0000_0000) as i32
    }
}

/// The data or string object at `start`.
fn read_sized(bytes: &[u8], start: usize, end: usize, ref_size: usize, n: usize) -> (r: Result<
    Object,
    PlistError,
>)
    requires
        start < end <= bytes@.len(),
        4 <= bytes@[start as int] / 16 <= 6,
    ensures
        match parse_object(
            bytes@.subrange(start as int, end as int),
            start,
            ref_size as nat,
            n as nat,
        ) {
            Ok(o) => r matches Ok(x) && x@ == o,
            Err(e) => r matches Err(x) && x == e,
        },
{
    let ghost s = bytes@.subrange(start as int, end as int);
    assert(s[0] == bytes@[start as int]);
    let tag: u8 = bytes[start] / 16;
    let (count, h) = match read_head(bytes, start, end) {
        Ok(p) => p,
        Err(e) => {
            return Err(e);
        },
    };
    let room: usize = end - start - h;
    if tag == 4 {
        if count > room as u64 {
            return Err(PlistError::TruncatedInput);
        }
        let len: usize = count as usize;
        let data = copy_bytes(bytes, start + h, start + h + len);
        assert(s.subrange(h as int, h + len) =~= bytes@.subrange(start + h, start + h + len));
        Ok(Object::Data(data))
    } else if tag == 5 {
        if count > room as u64 {
            return Err(PlistError::TruncatedInput);
        }
        let len: usize = count as usize;
        assert(s.subrange(h as int, h + len) =~= bytes@.subrange(start + h, start + h + len));
        match read_ascii(bytes, start + h, len) {
            Some(text) => Ok(Object::Str(text)),
            None => Err(PlistError::ParseError { position: start, message: ParseMessage::BadText }),
        }
    } else {
        if count > (room / 2) as u64 {
            return Err(PlistError::TruncatedInput);
        }
        let len: usize = count as usize;
        assert(s.subrange(h as int, h + 2 * len) =~= bytes@.subrange(
            start + h,
            start + h + 2 * len,
        ));
        let units = read_units(bytes, start + h, len);
        match decode_utf16_units(units.as_slice()) {
            Some(chars) => Ok(Object::Str(chars_to_string(chars.as_slice()))),
            None => Err(PlistError::ParseError { position: start, message: ParseMessage::BadText }),
        }
    }
}

/// The array or dictionary object at `start`.
fn read_container(bytes: &[u8], start: usize, end: usize, ref_size: usize, n: usize) -> (r:
    Result<Object, PlistError>)
    requires
        start < end <= bytes@.len(),
        1 <= ref_size <= 8,
        bytes@[start as int] / 16 == 10 || bytes@[start as int] / 16 == 13,
    ensures
        match parse_object(
            bytes@.subrange(start as int, end as int),
            start,
            ref_size as nat,
            n as nat,
        ) {
            Ok(o) => r matches Ok(x) && x@ == o,
            Err(e) => r matches Err(x) && x == e,
        },
{
    let ghost s = bytes@.subrange(start as int, end as int);
    assert(s[0] == bytes@[start as int]);
    let tag: u8 = bytes[start] / 16;
    let (count, h) = match read_head(bytes, start, end) {
        Ok(p) => p,
        Err(e) => {
            return Err(e);
        },
    };
    let room: usize = end - start - h;
    if tag == 10 {
        proof {
            lemma_count_fits(count as nat, ref_size as nat, room as nat);
        }
        if count > (room / ref_size) as u64 {
            return Err(PlistError::TruncatedInput);
        }
        let len: usize = count as usize;
        proof {
            lemma_parse_refs_window(
                s.skip(h as int),
                bytes@.skip(start + h),
                ref_size as nat,
                len as nat,
            );
        }
        match read_refs(bytes, start + h, len, ref_size, n) {
            Some(refs) => Ok(Object::Array(refs)),
            None => Err(
                PlistError::ParseError { position: start, message: ParseMessage::BadReference },
            ),
        }
    } else {
        proof {
            lemma_count_fits(count as nat, (2 * ref_size) as nat, room as nat);
            assert(2 * count * ref_size == count * (2 * ref_size)) by (nonlinear_arith);
        }
        if count > (room / (2 * ref_size)) as u64 {
            return Err(PlistError::TruncatedInput);
        }
        let len: usize = count as usize;
        proof {
            assert(2 * len * ref_size == len * ref_size + len * ref_size) by (nonlinear_arith);
            assert(0 <= len * ref_size) by (nonlinear_arith);
        }
        let half: usize = len * ref_size;
        proof {
            lemma_parse_refs_window(
                s.skip(h as int),
                bytes@.skip(start + h),
                ref_size as nat,
                len as nat,
            );
            lemma_parse_refs_window(
                s.skip(h + half),
                bytes@.skip(start + h + half),
                ref_size as nat,
                len as nat,
            );
        }
        let keys = read_refs(bytes, start + h, len, ref_size, n);
        let vals = read_refs(bytes, start + h + half, len, ref_size, n);
        match (keys, vals) {
            (Some(keys), Some(vals)) => Ok(Object::Dict { keys, vals }),
            _ => Err(
                PlistError::ParseError { position: start, message: ParseMessage::BadReference },
            ),
        }
    }
}

/// The object at `start` of a document whose object area ends at `end`,
/// in a table of `n` objects with references of `ref_size` bytes.
pub fn read_object(bytes: &[u8], start: usize, end: usize, ref_size: usize, n: usize) -> (r:
    Result<Object, PlistError>)
    requires
        start <= end <= bytes@.len(),
        1 <= ref_size <= 8,
    ensures
        match parse_object(
            bytes@.subrange(start as int, end as int),
            start,
            ref_size as nat,
            n as nat,
        ) {
            Ok(o) => r matches Ok(x) && x@ == o,
            Err(e) => r matches Err(x) && x == e,
        },
{
    let ghost s = bytes@.subrange(start as int, end as int);
    if start >= end {
        return Err(PlistError::TruncatedInput);
    }
    assert(s[0] == bytes@[start as int]);
    let m: u8 = bytes[start];
    let tag: u8 = m / 16;
    let low: u8 = m % 16;
    let bad_marker = PlistError::ParseError { position: start, message: ParseMessage::BadMarker };
    if tag == 0 {
        if low == 0 {
            Ok(Object::Null)
        } else if low == 8 {
            Ok(Object::Bool(false))
        } else if low == 9 {
            Ok(Object::Bool(true))
        } else {
            Err(bad_marker)
        }
    } else if tag == 1 {
        if low > 3 {
            Err(bad_marker)
        } else {
            let w: usize = if low == 0 {
                1
            } else if low == 1 {
                2
            } else if low == 2 {
                4
            } else {
                8
            };
            match read_fixed(bytes, start, end, w) {
                Ok(v) => Ok(Object::UInt(v)),
                Err(e) => Err(e),
            }
        }
    } else if tag == 2 {
        if low == 2 {
            match read_fixed(bytes, start, end, 4) {
                Ok(v) => {
                    proof {
                        lemma_be_value_bound(s.subrange(1, 5));
                        lemma_pow256_values();
                    }
                    Ok(Object::Real(widen(v as u32)))
                },
                Err(e) => Err(e),
            }
        } else if low == 3 {
            match read_fixed(bytes, start, end, 8) {
                Ok(v) => Ok(Object::Real(v)),
                Err(e) => Err(e),
            }
        } else {
            Err(bad_marker)
        }
    } else if tag == 3 {
        if low != 3 {
            Err(bad_marker)
        } else if end - start < 9 {
            Err(PlistError::TruncatedInput)
        } else {
            proof {
                assert(s.subrange(1, 5) =~= bytes@.subrange(start + 1, start + 5));
                assert(s.subrange(5, 9) =~= bytes@.subrange(start + 5, start + 9));
                lemma_be_value_bound(s.subrange(1, 5));
                lemma_be_value_bound(s.subrange(5, 9));
                lemma_pow256_values();
            }
            let sec = to_i32(read_be(bytes, start + 1, 4));
            let usec = to_i32(read_be(bytes, start + 5, 4));
            Ok(Object::Date { sec, usec })
        }
    } else if tag <= 6 {
        read_sized(bytes, start, end, ref_size, n)
    } else if tag == 8 {
        if low > 7 {
            Err(bad_marker)
        } else {
            match read_fixed(bytes, start, end, low as usize + 1) {
                Ok(v) => Ok(Object::Uid(v)),
                Err(e) => Err(e),
            }
        }
    } else if tag == 10 || tag == 13 {
        read_container(bytes, start, end, ref_size, n)
    } else {
        Err(bad_marker)
    }
}

} // verus!
