//! Reading an object back from its byte form.

use vstd::prelude::*;
use vstd::utf8::{char_u32_cast, is_ascii_chars};
use crate::binary::ints::{
    be_bytes, i32_bits, int_width, int_width_log, lemma_be_bytes_len,
    lemma_be_round_trip, lemma_int_width_fits, lemma_pow256_values, pow256, width_of_log,
};
use crate::binary::object::{
    ascii_bytes, ascii_chars, encode_head, encode_object, encode_refs, is_ascii_bytes, marker,
    parse_fixed, parse_head, parse_object, parse_refs, refs_in_range, Obj,
};
use crate::error::PlistError;
use crate::binary::utf16::{
    lemma_units_bytes_round_trip, lemma_utf16_round_trip, units_bytes,
    utf16_units,
};

verus! {

/// Every reference fits in `width` bytes.
pub open spec fn refs_fit(refs: Seq<nat>, width: nat) -> bool {
    forall|i: int| 0 <= i < refs.len() ==> #[trigger] refs[i] < pow256(width)
}

/// The object can stand in a table of `n` objects whose references are
/// `ref_size` bytes wide: its lengths can be written down, and its
/// references name objects and fit their width.
pub open spec fn obj_valid(o: Obj, ref_size: nat, n: nat) -> bool {
    match o {
        Obj::Data(d) => d.len() <= u64::MAX,
        Obj::Str(s) => if is_ascii_chars(s) {
            s.len() <= u64::MAX
        } else {
            utf16_units(s).len() <= u64::MAX
        },
        Obj::Array(refs) => refs.len() <= u64::MAX && refs_in_range(refs, n) && refs_fit(
            refs,
            ref_size,
        ),
        Obj::Dict { keys, vals } => keys.len() == vals.len() && keys.len() <= u64::MAX
            && refs_in_range(keys, n) && refs_in_range(vals, n) && refs_fit(keys, ref_size)
            && refs_fit(vals, ref_size),
        _ => true,
    }
}

/// The bytes of a marker with a length.
pub proof fn lemma_head_round_trip(tag: nat, n: nat, rest: Seq<u8>, at: usize)
    requires
        tag < 16,
        n <= u64::MAX,
    ensures
        encode_head(tag, n).len() >= 1,
        (encode_head(tag, n) + rest)[0] / 16 == tag,
        parse_head(encode_head(tag, n) + rest, at) == Ok::<(nat, nat), PlistError>(
            (n, encode_head(tag, n).len()),
        ),
{
    let head = encode_head(tag, n);
    let s = head + rest;
    if n < 15 {
        assert(s[0] == marker(tag, n));
    } else {
        let w = int_width(n as u64);
        let k = int_width_log(n as u64);
        lemma_be_bytes_len(n, w);
        lemma_int_width_fits(n as u64);
        lemma_be_round_trip(n, w);
        assert(s[0] == marker(tag, 15));
        assert(s[1] == marker(1, k));
        assert(width_of_log(k) == w);
        assert(s.subrange(2, 2 + w as int) =~= be_bytes(n, w));
    }
}

/// The length of the byte form of references.
pub proof fn lemma_encode_refs_len(refs: Seq<nat>, width: nat)
    ensures
        encode_refs(refs, width).len() == refs.len() * width,
    decreases refs.len(),
{
    if refs.len() > 0 {
        lemma_encode_refs_len(refs.drop_first(), width);
        lemma_be_bytes_len(refs[0], width);
        assert((refs.len() - 1) * width + width == refs.len() * width) by (nonlinear_arith);
    } else {
        assert(0 * width == 0) by (nonlinear_arith);
    }
}

/// References are read back from their byte form.
pub proof fn lemma_refs_round_trip(refs: Seq<nat>, width: nat, rest: Seq<u8>)
    requires
        refs_fit(refs, width),
    ensures
        parse_refs(encode_refs(refs, width) + rest, width, refs.len()) == refs,
    decreases refs.len(),
{
    let s = encode_refs(refs, width) + rest;
    if refs.len() > 0 {
        let tail = refs.drop_first();
        let first = be_bytes(refs[0], width);
        let s2 = encode_refs(tail, width) + rest;
        assert(refs_fit(tail, width)) by {
            assert forall|i: int| 0 <= i < tail.len() implies #[trigger] tail[i] < pow256(width) by {
                assert(tail[i] == refs[i + 1]);
            }
        }
        lemma_refs_round_trip(tail, width, rest);
        lemma_be_bytes_len(refs[0], width);
        lemma_encode_refs_len(tail, width);
        lemma_be_round_trip(refs[0], width);
        assert(s =~= first + s2);
        assert forall|i: int| 0 <= i < refs.len() implies parse_refs(s, width, refs.len())[i]
            == refs[i] by {
            if i == 0 {
                assert(0int * width == 0) by (nonlinear_arith);
                assert((0int + 1) * width == width) by (nonlinear_arith);
                assert(s.subrange(0int * width, (0int + 1) * width) =~= first);
            } else {
                assert(i * width == (i - 1) * width + width) by (nonlinear_arith);
                assert((i + 1) * width == i * width + width) by (nonlinear_arith);
                assert(0 <= (i - 1) * width) by (nonlinear_arith)
                    requires
                        i >= 1,
                ;
                assert(i * width <= tail.len() * width) by (nonlinear_arith)
                    requires
                        i <= tail.len(),
                ;
                assert(s.subrange(i * width, (i + 1) * width) =~= s2.subrange(
                    (i - 1) * width,
                    (i - 1 + 1) * width,
                ));
                assert(parse_refs(s2, width, tail.len())[i - 1] == tail[i - 1]);
            }
        }
    }
    assert(parse_refs(s, width, refs.len()) =~= refs);
}

/// ASCII text is read back from its bytes.
pub proof fn lemma_ascii_round_trip(s: Seq<char>)
    requires
        is_ascii_chars(s),
    ensures
        is_ascii_bytes(ascii_bytes(s)),
        ascii_chars(ascii_bytes(s)) == s,
{
    assert forall|i: int| 0 <= i < s.len() implies #[trigger] ascii_bytes(s)[i] < 128 && ascii_bytes(
        s,
    )[i] as char == s[i] by {
        let c = s[i];
        assert('\0' <= c <= '\u{7f}');
        char_u32_cast(c, c as u32);
    }
    assert(ascii_chars(ascii_bytes(s)) =~= s);
}

proof fn lemma_round_trip_small(o: Obj, rest: Seq<u8>, at: usize, ref_size: nat, n: nat)
    requires
        o is Null || o is Bool || o is Real || o is Date,
    ensures
        parse_object(encode_object(o, ref_size) + rest, at, ref_size, n) == Ok::<Obj, PlistError>(
            o,
        ),
{
    let e = encode_object(o, ref_size);
    let s = e + rest;
    lemma_pow256_values();
    match o {
        Obj::Null => {
            assert(s[0] == 0x00u8);
        },
        Obj::Bool(b) => {
            assert(s[0] == if b { 0x09u8 } else { 0x08u8 });
        },
        Obj::Real(bits) => {
            lemma_be_bytes_len(bits as nat, 8);
            lemma_be_round_trip(bits as nat, 8);
            assert(s[0] == 0x23u8);
            assert(s.subrange(1, 9) =~= be_bytes(bits as nat, 8));
            assert(parse_fixed(s, 8) == Ok::<nat, PlistError>(bits as nat));
        },
        Obj::Date { sec, usec } => {
            lemma_be_bytes_len(i32_bits(sec), 4);
            lemma_be_bytes_len(i32_bits(usec), 4);
            lemma_be_round_trip(i32_bits(sec), 4);
            lemma_be_round_trip(i32_bits(usec), 4);
            assert(s[0] == 0x33u8);
            assert(s.subrange(1, 5) =~= be_bytes(i32_bits(sec), 4));
            assert(s.subrange(5, 9) =~= be_bytes(i32_bits(usec), 4));
        },
        _ => {},
    }
}

proof fn lemma_round_trip_number(o: Obj, rest: Seq<u8>, at: usize, ref_size: nat, n: nat)
    requires
        o is UInt || o is Uid,
    ensures
        parse_object(encode_object(o, ref_size) + rest, at, ref_size, n) == Ok::<Obj, PlistError>(
            o,
        ),
{
    let e = encode_object(o, ref_size);
    let s = e + rest;
    lemma_pow256_values();
    match o {
        Obj::UInt(v) => {
            let w = int_width(v);
            lemma_be_bytes_len(v as nat, w);
            lemma_int_width_fits(v);
            lemma_be_round_trip(v as nat, w);
            assert(s[0] == marker(1, int_width_log(v)));
            assert(s[0] / 16 == 1);
            assert(s[0] % 16 == int_width_log(v));
            assert(width_of_log(int_width_log(v)) == w);
            assert(s.subrange(1, 1 + w as int) =~= be_bytes(v as nat, w));
            assert(parse_fixed(s, w) == Ok::<nat, PlistError>(v as nat));
        },
        Obj::Uid(v) => {
            let w = int_width(v);
            lemma_be_bytes_len(v as nat, w);
            lemma_int_width_fits(v);
            lemma_be_round_trip(v as nat, w);
            assert(s[0] == marker(8, (w - 1) as nat));
            assert(s[0] / 16 == 8);
            assert(s[0] % 16 == w - 1);
            assert(s.subrange(1, 1 + w as int) =~= be_bytes(v as nat, w));
            assert(parse_fixed(s, w) == Ok::<nat, PlistError>(v as nat));
        },
        _ => {},
    }
}

proof fn lemma_round_trip_data(d: Seq<u8>, rest: Seq<u8>, at: usize, ref_size: nat, n: nat)
    requires
        d.len() <= u64::MAX,
    ensures
        parse_object(encode_object(Obj::Data(d), ref_size) + rest, at, ref_size, n) == Ok::<
            Obj,
            PlistError,
        >(Obj::Data(d)),
{
    let s = encode_object(Obj::Data(d), ref_size) + rest;
    let head = encode_head(4, d.len());
    lemma_head_round_trip(4, d.len(), d + rest, at);
    assert(s =~= head + (d + rest));
    let h = head.len();
    assert(s.subrange(h as int, h as int + d.len()) =~= d);
}

proof fn lemma_round_trip_ascii(t: Seq<char>, rest: Seq<u8>, at: usize, ref_size: nat, n: nat)
    requires
        t.len() <= u64::MAX,
        is_ascii_chars(t),
    ensures
        parse_object(encode_object(Obj::Str(t), ref_size) + rest, at, ref_size, n) == Ok::<
            Obj,
            PlistError,
        >(Obj::Str(t)),
{
    let s = encode_object(Obj::Str(t), ref_size) + rest;
    let head = encode_head(5, t.len());
    let body = ascii_bytes(t);
    lemma_head_round_trip(5, t.len(), body + rest, at);
    lemma_ascii_round_trip(t);
    assert(s =~= head + (body + rest));
    let h = head.len();
    assert(s.subrange(h as int, h as int + t.len()) =~= body);
}

proof fn lemma_round_trip_wide(t: Seq<char>, rest: Seq<u8>, at: usize, ref_size: nat, n: nat)
    requires
        utf16_units(t).len() <= u64::MAX,
        !is_ascii_chars(t),
    ensures
        parse_object(encode_object(Obj::Str(t), ref_size) + rest, at, ref_size, n) == Ok::<
            Obj,
            PlistError,
        >(Obj::Str(t)),
{
    let s = encode_object(Obj::Str(t), ref_size) + rest;
    let units = utf16_units(t);
    let head = encode_head(6, units.len());
    let body = units_bytes(units);
    lemma_head_round_trip(6, units.len(), body + rest, at);
    lemma_units_bytes_round_trip(units);
    lemma_utf16_round_trip(t);
    assert(s =~= head + (body + rest));
    let h = head.len();
    assert(s.subrange(h as int, h as int + 2 * units.len()) =~= body);
}

proof fn lemma_round_trip_array(refs: Seq<nat>, rest: Seq<u8>, at: usize, ref_size: nat, n: nat)
    requires
        obj_valid(Obj::Array(refs), ref_size, n),
    ensures
        parse_object(encode_object(Obj::Array(refs), ref_size) + rest, at, ref_size, n) == Ok::<
            Obj,
            PlistError,
        >(Obj::Array(refs)),
{
    let s = encode_object(Obj::Array(refs), ref_size) + rest;
    let head = encode_head(10, refs.len());
    let body = encode_refs(refs, ref_size);
    lemma_head_round_trip(10, refs.len(), body + rest, at);
    lemma_encode_refs_len(refs, ref_size);
    lemma_refs_round_trip(refs, ref_size, rest);
    assert(s =~= head + (body + rest));
    let h = head.len();
    assert(s.skip(h as int) =~= body + rest);
}

proof fn lemma_round_trip_dict(
    keys: Seq<nat>,
    vals: Seq<nat>,
    rest: Seq<u8>,
    at: usize,
    ref_size: nat,
    n: nat,
)
    requires
        obj_valid(Obj::Dict { keys, vals }, ref_size, n),
    ensures
        parse_object(encode_object(Obj::Dict { keys, vals }, ref_size) + rest, at, ref_size, n)
            == Ok::<Obj, PlistError>(Obj::Dict { keys, vals }),
{
    let s = encode_object(Obj::Dict { keys, vals }, ref_size) + rest;
    let head = encode_head(13, keys.len());
    let kb = encode_refs(keys, ref_size);
    let vb = encode_refs(vals, ref_size);
    lemma_head_round_trip(13, keys.len(), kb + vb + rest, at);
    lemma_encode_refs_len(keys, ref_size);
    lemma_encode_refs_len(vals, ref_size);
    lemma_refs_round_trip(keys, ref_size, vb + rest);
    lemma_refs_round_trip(vals, ref_size, rest);
    assert(s =~= head + (kb + vb + rest));
    let h = head.len();
    let count = keys.len();
    assert(2 * count * ref_size == count * ref_size + count * ref_size) by (nonlinear_arith);
    assert(s.skip(h as int) =~= kb + (vb + rest));
    assert(s.skip(h as int + count * ref_size) =~= vb + rest);
}

/// The byte form of an object is not empty, and it is at least as long as
/// the length or count that it holds.
pub proof fn lemma_object_len(o: Obj, ref_size: nat)
    requires
        ref_size >= 1,
    ensures
        encode_object(o, ref_size).len() >= 1,
        match o {
            Obj::Data(d) => encode_object(o, ref_size).len() >= d.len(),
            Obj::Str(s) => if is_ascii_chars(s) {
                encode_object(o, ref_size).len() >= s.len()
            } else {
                encode_object(o, ref_size).len() >= utf16_units(s).len()
            },
            Obj::Array(refs) => encode_object(o, ref_size).len() >= refs.len(),
            Obj::Dict { keys, vals } => encode_object(o, ref_size).len() >= keys.len(),
            _ => true,
        },
{
    match o {
        Obj::Array(refs) => {
            lemma_encode_refs_len(refs, ref_size);
            assert(refs.len() * ref_size >= refs.len()) by (nonlinear_arith)
                requires
                    ref_size >= 1,
            ;
        },
        Obj::Dict { keys, vals } => {
            lemma_encode_refs_len(keys, ref_size);
            assert(keys.len() * ref_size >= keys.len()) by (nonlinear_arith)
                requires
                    ref_size >= 1,
            ;
        },
        _ => {},
    }
}

/// An object is read back from its byte form, whatever follows it.
pub proof fn lemma_object_round_trip(o: Obj, rest: Seq<u8>, at: usize, ref_size: nat, n: nat)
    requires
        obj_valid(o, ref_size, n),
    ensures
        parse_object(encode_object(o, ref_size) + rest, at, ref_size, n) == Ok::<Obj, PlistError>(
            o,
        ),
{
    match o {
        Obj::UInt(_) => lemma_round_trip_number(o, rest, at, ref_size, n),
        Obj::Uid(_) => lemma_round_trip_number(o, rest, at, ref_size, n),
        Obj::Data(d) => lemma_round_trip_data(d, rest, at, ref_size, n),
        Obj::Str(t) => {
            if is_ascii_chars(t) {
                lemma_round_trip_ascii(t, rest, at, ref_size, n);
            } else {
                lemma_round_trip_wide(t, rest, at, ref_size, n);
            }
        },
        Obj::Array(refs) => lemma_round_trip_array(refs, rest, at, ref_size, n),
        Obj::Dict { keys, vals } => lemma_round_trip_dict(keys, vals, rest, at, ref_size, n),
        _ => lemma_round_trip_small(o, rest, at, ref_size, n),
    }
}

} // verus!
