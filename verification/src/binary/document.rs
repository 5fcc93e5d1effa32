//! The whole document: magic, objects, offset table, trailer.

use vstd::prelude::*;
use crate::binary::ints::{
    be_bytes, be_value, int_width, lemma_be_value_bound, lemma_pow256_values, push_be, read_be,
    width_of,
};
use crate::binary::object::{
    bad, encode_object, parse_object, parse_refs, read_object, refs_view, write_object, Obj, Object,
};
use crate::binary::rebuild::{build_node, unflatten};
use crate::binary::table::{encodable, flatten, flatten_node, objects_view};
use crate::error::{ParseMessage, PlistError};
use crate::node::Node;
use crate::value::Value;

verus! {

/// The eight bytes that a binary document starts with: `bplist00`.
pub open spec fn magic() -> Seq<u8> {
    seq![0x62u8, 0x70u8, 0x6cu8, 0x69u8, 0x73u8, 0x74u8, 0x30u8, 0x30u8]
}

/// The buffer starts with the six bytes `bplist`.
pub open spec fn has_magic(bytes: Seq<u8>) -> bool {
    &&& bytes.len() >= 6
    &&& bytes[0] == 0x62
    &&& bytes[1] == 0x70
    &&& bytes[2] == 0x6c
    &&& bytes[3] == 0x69
    &&& bytes[4] == 0x73
    &&& bytes[5] == 0x74
}

/// The two bytes behind the magic name the version `00`.
pub open spec fn has_version(bytes: Seq<u8>) -> bool {
    &&& bytes.len() >= 8
    &&& bytes[6] == 0x30
    &&& bytes[7] == 0x30
}

/// The byte forms of the first `k` objects of the table, one after the
/// other.
pub open spec fn encode_objects(table: Seq<Obj>, ref_size: nat, k: nat) -> Seq<u8>
    decreases k,
{
    if k == 0 || k > table.len() {
        Seq::empty()
    } else {
        encode_objects(table, ref_size, (k - 1) as nat) + encode_object(table[k - 1], ref_size)
    }
}

/// The position of object `i` in the document.
pub open spec fn object_offset(table: Seq<Obj>, ref_size: nat, i: nat) -> nat {
    8 + encode_objects(table, ref_size, i).len()
}

/// The first `k` entries of the offset table, each `off_size` bytes wide.
pub open spec fn encode_offsets(table: Seq<Obj>, ref_size: nat, off_size: nat, k: nat) -> Seq<u8>
    decreases k,
{
    if k == 0 || k > table.len() {
        Seq::empty()
    } else {
        encode_offsets(table, ref_size, off_size, (k - 1) as nat) + be_bytes(
            object_offset(table, ref_size, (k - 1) as nat),
            off_size,
        )
    }
}

/// What the trailer says of a document.
pub struct Trailer {
    /// The width of an entry of the offset table.
    pub off_size: nat,
    /// The width of an object reference.
    pub ref_size: nat,
    /// The number of objects.
    pub count: nat,
    /// The table position of the object that stands for the whole tree.
    pub top: nat,
    /// The position at which the object area ends and the offset table
    /// starts.
    pub table_offset: nat,
}

/// The 32 bytes of a trailer: six unused bytes, the two widths, then the
/// count, the top object and the offset table's position, eight bytes
/// each.
pub open spec fn encode_trailer(tr: Trailer) -> Seq<u8> {
    seq![0u8, 0u8, 0u8, 0u8, 0u8, 0u8, tr.off_size as u8, tr.ref_size as u8] + be_bytes(tr.count, 8)
        + be_bytes(tr.top, 8) + be_bytes(tr.table_offset, 8)
}

/// What the last 32 bytes of `bytes` say.
pub open spec fn parse_trailer(bytes: Seq<u8>) -> Trailer {
    let at = bytes.len() - 32;
    Trailer {
        off_size: bytes[at + 6] as nat,
        ref_size: bytes[at + 7] as nat,
        count: be_value(bytes.subrange(at + 8, at + 16)),
        top: be_value(bytes.subrange(at + 16, at + 24)),
        table_offset: be_value(bytes.subrange(at + 24, at + 32)),
    }
}

/// The trailer of the document of `table`.
pub open spec fn trailer_of(table: Seq<Obj>, top: nat) -> Trailer {
    let ref_size = int_width(table.len() as u64);
    let table_offset = object_offset(table, ref_size, table.len());
    Trailer {
        off_size: int_width(table_offset as u64),
        ref_size,
        count: table.len(),
        top,
        table_offset,
    }
}

/// The document of the object table `table` whose object `top` stands
/// for the whole tree. References are as wide as the object count needs,
/// offsets as wide as the offset table's own position needs.
#[verifier::opaque]
pub open spec fn encode_table(table: Seq<Obj>, top: nat) -> Seq<u8> {
    let tr = trailer_of(table, top);
    magic() + encode_objects(table, tr.ref_size, table.len()) + encode_offsets(
        table,
        tr.ref_size,
        tr.off_size,
        table.len(),
    ) + encode_trailer(tr)
}

/// The binary document of the tree `v`.
pub open spec fn encode_document(v: Value) -> Seq<u8> {
    let (table, top) = flatten(Seq::empty(), v);
    encode_table(table, top)
}

/// The objects from `i` on that the offsets point to, or the first error
/// among them. An offset has to point into the object area.
pub open spec fn parse_objects(bytes: Seq<u8>, tr: Trailer, offsets: Seq<nat>, i: nat) -> Result<
    Seq<Obj>,
    PlistError,
>
    decreases offsets.len() - i,
{
    if i >= offsets.len() {
        Ok(Seq::empty())
    } else if offsets[i as int] < 8 || offsets[i as int] >= tr.table_offset {
        Err(bad((tr.table_offset + i * tr.off_size) as usize, ParseMessage::BadOffset))
    } else {
        match parse_object(
            bytes.subrange(offsets[i as int] as int, tr.table_offset as int),
            offsets[i as int] as usize,
            tr.ref_size,
            tr.count,
        ) {
            Err(e) => Err(e),
            Ok(o) => match parse_objects(bytes, tr, offsets, i + 1) {
                Ok(rest) => Ok(seq![o] + rest),
                Err(e) => Err(e),
            },
        }
    }
}

/// Whether the trailer's fields can describe a document.
pub open spec fn trailer_ok(tr: Trailer) -> bool {
    &&& 1 <= tr.off_size <= 8
    &&& 1 <= tr.ref_size <= 8
    &&& tr.count >= 1
    &&& tr.top < tr.count
    &&& tr.table_offset >= 8
}

/// The tree that the binary document `bytes` holds, or what is wrong with
/// it.
pub open spec fn decode_document(bytes: Seq<u8>) -> Result<Value, PlistError> {
    if bytes.len() < 40 {
        Err(PlistError::TruncatedInput)
    } else if !has_magic(bytes) {
        Err(bad(0, ParseMessage::BadMagic))
    } else if !has_version(bytes) {
        Err(PlistError::UnsupportedVersion)
    } else {
        let tr = parse_trailer(bytes);
        if !trailer_ok(tr) {
            Err(bad((bytes.len() - 32) as usize, ParseMessage::BadTrailer))
        } else if tr.table_offset + tr.count * tr.off_size > bytes.len() - 32 {
            Err(PlistError::TruncatedInput)
        } else {
            let offsets = parse_refs(bytes.skip(tr.table_offset as int), tr.off_size, tr.count);
            match parse_objects(bytes, tr, offsets, 0) {
                Err(e) => Err(e),
                Ok(table) => unflatten(table, offsets, tr.top, tr.count),
            }
        }
    }
}

/// Writes the tree as a binary document. Fails with `TypeMismatch` on a
/// tree that holds a key node in the place of a value.
pub fn encode_binary(tree: &Node) -> (r: Result<Vec<u8>, PlistError>)
    ensures
        match r {
            Ok(b) => encodable(tree@) && b@ == encode_document(tree@),
            Err(e) => e == PlistError::TypeMismatch && !encodable(tree@),
        },
{
    let mut table: Vec<Object> = Vec::new();
    assert(objects_view(table@) =~= Seq::<Obj>::empty());
    let top = match flatten_node(&mut table, tree) {
        Ok(top) => top,
        Err(e) => {
            return Err(e);
        },
    };
    let ghost t = objects_view(table@);
    let ghost tr = trailer_of(t, top as nat);
    let n = table.len();
    let (ref_size, _) = width_of(n as u64);
    let mut out: Vec<u8> = Vec::new();
    out.push(0x62);
    out.push(0x70);
    out.push(0x6c);
    out.push(0x69);
    out.push(0x73);
    out.push(0x74);
    out.push(0x30);
    out.push(0x30);
    assert(out@ =~= magic());
    let mut offsets: Vec<usize> = Vec::new();
    let mut i: usize = 0;
    assert(out@ =~= magic() + encode_objects(t, ref_size as nat, 0));
    while i < n
        invariant
            i <= n,
            n == table@.len(),
            t == objects_view(table@),
            offsets@.len() == i,
            out@ == magic() + encode_objects(t, ref_size as nat, i as nat),
            forall|j: int|
                0 <= j < i ==> #[trigger] offsets@[j] == object_offset(t, ref_size as nat, j as nat),
        decreases n - i,
    {
        offsets.push(out.len());
        write_object(&mut out, &table[i], ref_size);
        assert(out@ =~= magic() + encode_objects(t, ref_size as nat, (i + 1) as nat));
        i += 1;
    }
    let table_offset = out.len();
    let (off_size, _) = width_of(table_offset as u64);
    let ghost objs = out@;
    let mut k: usize = 0;
    assert(out@ =~= objs + encode_offsets(t, ref_size as nat, off_size as nat, 0));
    while k < n
        invariant
            k <= n,
            n == table@.len(),
            t == objects_view(table@),
            offsets@.len() == n,
            out@ == objs + encode_offsets(t, ref_size as nat, off_size as nat, k as nat),
            forall|j: int|
                0 <= j < n ==> #[trigger] offsets@[j] == object_offset(t, ref_size as nat, j as nat),
        decreases n - k,
    {
        push_be(&mut out, offsets[k] as u64, off_size);
        assert(out@ =~= objs + encode_offsets(t, ref_size as nat, off_size as nat, (k + 1) as nat));
        k += 1;
    }
    let ghost body = out@;
    out.push(0);
    out.push(0);
    out.push(0);
    out.push(0);
    out.push(0);
    out.push(0);
    out.push(off_size as u8);
    out.push(ref_size as u8);
    push_be(&mut out, n as u64, 8);
    push_be(&mut out, top as u64, 8);
    push_be(&mut out, table_offset as u64, 8);
    assert(out@ =~= body + encode_trailer(tr));
    proof {
        reveal(encode_table);
    }
    Ok(out)
}

/// A product is within a bound exactly if one factor is within the
/// bound's quotient by the other.
proof fn lemma_entries_fit(count: nat, width: nat, room: nat)
    requires
        width > 0,
    ensures
        count * width <= room <==> count <= room / width,
{
    assert(count * width <= room <==> count <= room / width) by (nonlinear_arith)
        requires
            width > 0,
    ;
}

/// Reads the tree that a binary document holds.
///
/// A buffer too short for header and trailer, an offset table that does
/// not fit before the trailer and an object that runs beyond the object
/// area fail with `TruncatedInput`; a version other than `00` fails with
/// `UnsupportedVersion`; an array or dictionary that contains itself
/// fails with `CyclicReference`; anything else that is malformed fails
/// with a `ParseError` that carries the position. Where a dictionary
/// gives a key twice, the later item replaces the earlier one.
pub fn decode_binary(bytes: &[u8]) -> (r: Result<Node, PlistError>)
    ensures
        match decode_document(bytes@) {
            Ok(v) => r matches Ok(n) && n@ == v && n@.wf(),
            Err(e) => r matches Err(x) && x == e,
        },
{
    proof {
        crate::binary::document_proofs::lemma_decode_wf(bytes@);
    }
    let len = bytes.len();
    if len < 40 {
        return Err(PlistError::TruncatedInput);
    }
    if !(bytes[0] == 0x62 && bytes[1] == 0x70 && bytes[2] == 0x6c && bytes[3] == 0x69 && bytes[4]
        == 0x73 && bytes[5] == 0x74) {
        return Err(PlistError::ParseError { position: 0, message: ParseMessage::BadMagic });
    }
    if !(bytes[6] == 0x30 && bytes[7] == 0x30) {
        return Err(PlistError::UnsupportedVersion);
    }
    let at: usize = len - 32;
    let off_size: usize = bytes[at + 6] as usize;
    let ref_size: usize = bytes[at + 7] as usize;
    let count = read_be(bytes, at + 8, 8);
    let top = read_be(bytes, at + 16, 8);
    let table_offset = read_be(bytes, at + 24, 8);
    let ghost tr = parse_trailer(bytes@);
    proof {
        lemma_be_value_bound(bytes@.subrange(at + 8, at + 16));
        lemma_be_value_bound(bytes@.subrange(at + 16, at + 24));
        lemma_be_value_bound(bytes@.subrange(at + 24, at + 32));
        lemma_pow256_values();
    }
    if !(1 <= off_size && off_size <= 8 && 1 <= ref_size && ref_size <= 8 && count >= 1 && top
        < count && table_offset >= 8) {
        return Err(PlistError::ParseError { position: at, message: ParseMessage::BadTrailer });
    }
    if table_offset > at as u64 {
        proof {
            assert(tr.count * tr.off_size >= 0) by (nonlinear_arith);
        }
        return Err(PlistError::TruncatedInput);
    }
    let table_offset: usize = table_offset as usize;
    let room: usize = at - table_offset;
    proof {
        lemma_entries_fit(tr.count, tr.off_size, room as nat);
    }
    if count > (room / off_size) as u64 {
        return Err(PlistError::TruncatedInput);
    }
    let n: usize = count as usize;
    let ghost offs = parse_refs(bytes@.skip(table_offset as int), off_size as nat, n as nat);
    let mut table: Vec<Object> = Vec::new();
    let mut offsets: Vec<usize> = Vec::new();
    let mut i: usize = 0;
    let mut p: usize = table_offset;
    assert(Seq::<Obj>::empty() + objects_view(table@) =~= objects_view(table@));
    assert(decode_document(bytes@) == match parse_objects(bytes@, tr, offs, 0) {
        Err(e) => Err::<Value, PlistError>(e),
        Ok(table) => unflatten(table, offs, tr.top, tr.count),
    });
    while i < n
        invariant
            i <= n,
            len == bytes@.len(),
            decode_document(bytes@) == match parse_objects(bytes@, tr, offs, 0) {
                Err(e) => Err::<Value, PlistError>(e),
                Ok(table) => unflatten(table, offs, tr.top, tr.count),
            },
            at == len - 32,
            1 <= off_size <= 8,
            1 <= ref_size <= 8,
            8 <= table_offset <= at,
            table_offset + n * off_size <= at,
            p == table_offset + i * off_size,
            tr == parse_trailer(bytes@),
            tr.off_size == off_size,
            tr.ref_size == ref_size,
            tr.count == n,
            tr.table_offset == table_offset,
            offs == parse_refs(bytes@.skip(table_offset as int), off_size as nat, n as nat),
            table@.len() == i,
            offsets@.len() == i,
            refs_view(offsets@) == offs.take(i as int),
            parse_objects(bytes@, tr, offs, 0) == match parse_objects(bytes@, tr, offs, i as nat) {
                Ok(rest) => Ok::<Seq<Obj>, PlistError>(objects_view(table@) + rest),
                Err(e) => Err(e),
            },
        decreases n - i,
    {
        proof {
            assert((i + 1) * off_size == i * off_size + off_size) by (nonlinear_arith);
            assert((i + 1) * off_size <= n * off_size) by (nonlinear_arith)
                requires
                    i < n,
            ;
            assert(bytes@.skip(table_offset as int).subrange(i * off_size, (i + 1) * off_size)
                =~= bytes@.subrange(p as int, p + off_size));
            lemma_be_value_bound(bytes@.subrange(p as int, p + off_size));
            lemma_pow256_values();
        }
        let off = read_be(bytes, p, off_size);
        assert(offs[i as int] == off);
        if off < 8 || off >= table_offset as u64 {
            return Err(PlistError::ParseError { position: p, message: ParseMessage::BadOffset });
        }
        let start: usize = off as usize;
        let ghost prev = objects_view(table@);
        let ghost prev_offsets = refs_view(offsets@);
        match read_object(bytes, start, table_offset, ref_size, n) {
            Ok(o) => {
                table.push(o);
                offsets.push(start);
                proof {
                    assert(objects_view(table@) =~= prev + seq![o@]);
                    assert(refs_view(offsets@) =~= offs.take(i + 1)) by {
                        assert forall|j: int| 0 <= j < i + 1 implies refs_view(offsets@)[j]
                            == offs.take(i + 1)[j] by {
                            if j < i {
                                assert(prev_offsets[j] == offs.take(i as int)[j]);
                            }
                        }
                    }
                    match parse_objects(bytes@, tr, offs, (i + 1) as nat) {
                        Ok(rest) => {
                            assert(objects_view(table@) + rest =~= prev + (seq![o@] + rest));
                        },
                        Err(_) => {},
                    }
                }
            },
            Err(e) => {
                return Err(e);
            },
        }
        i += 1;
        p += off_size;
    }
    proof {
        assert(offs.take(i as int) =~= offs);
        assert(objects_view(table@) + Seq::<Obj>::empty() =~= objects_view(table@));
    }
    build_node(&table, &offsets, top as usize, n)
}

} // verus!
