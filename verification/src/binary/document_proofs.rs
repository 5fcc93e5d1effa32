//! Reading a document back from its bytes.

use vstd::prelude::*;
use crate::binary::document::{
    decode_document, encode_document, encode_objects, encode_offsets, encode_table,
    encode_trailer, has_magic, has_version, magic, object_offset, parse_objects, parse_trailer,
    trailer_of, trailer_ok, Trailer,
};
use crate::binary::ints::{
    be_bytes, lemma_be_bytes_len, lemma_be_round_trip, lemma_int_width_fits,
    lemma_pow256_values, pow256,
};
use crate::binary::object::{encode_object, encode_refs, parse_object, parse_refs, Obj};
use crate::binary::object_proofs::{
    lemma_encode_refs_len, lemma_object_len, lemma_object_round_trip, lemma_refs_round_trip,
    obj_valid, refs_fit,
};
use crate::binary::rebuild::unflatten;
use crate::binary::table::{encodable, flatten};
use crate::binary::table_proofs::{
    lemma_table_round_trip, lemma_unflatten_wf, ordered, ordered_obj,
};
use crate::error::PlistError;
use crate::value::Value;

verus! {

/// The positions of the objects of `table` in its document.
pub open spec fn offsets_of(table: Seq<Obj>, ref_size: nat) -> Seq<nat> {
    Seq::new(table.len(), |i: int| object_offset(table, ref_size, i as nat))
}

/// The objects up to `i` are the start of the objects up to `k`; each
/// object takes at least one byte.
proof fn lemma_objects_prefix(table: Seq<Obj>, ref_size: nat, i: nat, k: nat)
    requires
        ref_size >= 1,
        i <= k <= table.len(),
    ensures
        encode_objects(table, ref_size, i).len() + (k - i) <= encode_objects(
            table,
            ref_size,
            k,
        ).len(),
        encode_objects(table, ref_size, k).subrange(
            0,
            encode_objects(table, ref_size, i).len() as int,
        ) == encode_objects(table, ref_size, i),
    decreases k - i,
{
    let a = encode_objects(table, ref_size, i);
    let b = encode_objects(table, ref_size, k);
    if i < k {
        let c = encode_objects(table, ref_size, (k - 1) as nat);
        lemma_objects_prefix(table, ref_size, i, (k - 1) as nat);
        lemma_object_len(table[k - 1], ref_size);
        assert(b.subrange(0, a.len() as int) =~= c.subrange(0, a.len() as int));
    } else {
        assert(b.subrange(0, a.len() as int) =~= a);
    }
}

/// Where object `i` stands among the objects, and what follows it.
proof fn lemma_object_at(table: Seq<Obj>, ref_size: nat, i: nat)
    requires
        ref_size >= 1,
        i < table.len(),
    ensures
        ({
            let all = encode_objects(table, ref_size, table.len());
            let start = encode_objects(table, ref_size, i).len() as int;
            let next = encode_objects(table, ref_size, i + 1).len() as int;
            &&& start < next <= all.len()
            &&& all.subrange(start, all.len() as int) == encode_object(table[i as int], ref_size)
                + all.subrange(next, all.len() as int)
        }),
{
    let all = encode_objects(table, ref_size, table.len());
    let a = encode_objects(table, ref_size, i);
    let b = encode_objects(table, ref_size, i + 1);
    let start = a.len() as int;
    let next = b.len() as int;
    lemma_objects_prefix(table, ref_size, i + 1, table.len());
    lemma_object_len(table[i as int], ref_size);
    assert(b == a + encode_object(table[i as int], ref_size));
    assert(all.subrange(0, next) == b);
    assert forall|j: int| start <= j < next implies all[j] == encode_object(
        table[i as int],
        ref_size,
    )[j - start] by {
        assert(all.subrange(0, next)[j] == b[j]);
    }
    assert(all.subrange(start, all.len() as int) =~= encode_object(table[i as int], ref_size)
        + all.subrange(next, all.len() as int));
}

/// The byte form of references with one more at the end.
proof fn lemma_encode_refs_push(refs: Seq<nat>, x: nat, width: nat)
    ensures
        encode_refs(refs.push(x), width) == encode_refs(refs, width) + be_bytes(x, width),
    decreases refs.len(),
{
    let all = refs.push(x);
    if refs.len() == 0 {
        assert(all.drop_first() =~= Seq::<nat>::empty());
        assert(refs =~= Seq::<nat>::empty());
        assert(encode_refs(Seq::<nat>::empty(), width) =~= Seq::<u8>::empty());
        assert(all[0] == x);
        assert(encode_refs(all, width) =~= encode_refs(refs, width) + be_bytes(x, width));
    } else {
        lemma_encode_refs_push(refs.drop_first(), x, width);
        assert(all.drop_first() =~= refs.drop_first().push(x));
        assert(encode_refs(all, width) =~= encode_refs(refs, width) + be_bytes(x, width));
    }
}

/// The offset table is the byte form of the objects' positions.
proof fn lemma_offsets_are_refs(table: Seq<Obj>, ref_size: nat, off_size: nat, k: nat)
    requires
        k <= table.len(),
    ensures
        encode_offsets(table, ref_size, off_size, k) == encode_refs(
            offsets_of(table, ref_size).take(k as int),
            off_size,
        ),
    decreases k,
{
    let offs = offsets_of(table, ref_size);
    if k > 0 {
        lemma_offsets_are_refs(table, ref_size, off_size, (k - 1) as nat);
        lemma_encode_refs_push(offs.take(k - 1), offs[k - 1], off_size);
        assert(offs.take(k as int) =~= offs.take(k - 1).push(offs[k - 1]));
    } else {
        assert(offs.take(0) =~= Seq::<nat>::empty());
    }
}

/// The parts of a document and where they stand.
pub open spec fn layout_ok(table: Seq<Obj>, top: nat) -> bool {
    let tr = trailer_of(table, top);
    let doc = encode_table(table, top);
    let objs = encode_objects(table, tr.ref_size, table.len());
    &&& doc.len() == tr.table_offset + table.len() * tr.off_size + 32
    &&& tr.table_offset == 8 + objs.len()
    &&& table.len() <= objs.len()
    &&& doc.subrange(8, tr.table_offset as int) == objs
    &&& doc.skip(tr.table_offset as int) == encode_offsets(
        table,
        tr.ref_size,
        tr.off_size,
        table.len(),
    ) + encode_trailer(tr)
    &&& doc.skip(doc.len() - 32) == encode_trailer(tr)
    &&& has_magic(doc)
    &&& has_version(doc)
}

proof fn lemma_layout(table: Seq<Obj>, top: nat)
    ensures
        layout_ok(table, top),
{
    let tr = trailer_of(table, top);
    let doc = encode_table(table, top);
    let n = table.len();
    let objs = encode_objects(table, tr.ref_size, n);
    let offb = encode_offsets(table, tr.ref_size, tr.off_size, n);
    let trb = encode_trailer(tr);
    reveal(encode_table);
    lemma_offsets_are_refs(table, tr.ref_size, tr.off_size, n);
    lemma_encode_refs_len(offsets_of(table, tr.ref_size).take(n as int), tr.off_size);
    lemma_be_bytes_len(tr.count, 8);
    lemma_be_bytes_len(tr.top, 8);
    lemma_be_bytes_len(tr.table_offset, 8);
    lemma_objects_prefix(table, tr.ref_size, 0, n);
    assert(magic().len() == 8);
    assert(trb.len() == 32);
    assert(doc.subrange(8, tr.table_offset as int) =~= objs);
    assert(doc.skip(tr.table_offset as int) =~= offb + trb);
    assert(doc.skip(doc.len() - 32) =~= trb);
    assert(doc[0] == magic()[0]);
    assert(doc[1] == magic()[1]);
    assert(doc[2] == magic()[2]);
    assert(doc[3] == magic()[3]);
    assert(doc[4] == magic()[4]);
    assert(doc[5] == magic()[5]);
    assert(doc[6] == magic()[6]);
    assert(doc[7] == magic()[7]);
}

/// What a table needs for its document to be read back: a top object,
/// references that point backwards, and a length that eight bytes can
/// hold.
pub open spec fn table_ok(table: Seq<Obj>, top: nat) -> bool {
    &&& top < table.len()
    &&& ordered(table)
    &&& encode_table(table, top).len() <= u64::MAX
}

/// A trailer is read back from the end of a buffer.
proof fn lemma_parse_trailer(doc: Seq<u8>, tr: Trailer)
    requires
        doc.len() >= 32,
        doc.skip(doc.len() - 32) == encode_trailer(tr),
        tr.off_size <= 8,
        tr.ref_size <= 8,
        tr.count < pow256(8),
        tr.top < pow256(8),
        tr.table_offset < pow256(8),
    ensures
        parse_trailer(doc) == tr,
{
    let trb = encode_trailer(tr);
    let at = doc.len() - 32;
    let tail = doc.skip(at);
    lemma_be_bytes_len(tr.count, 8);
    lemma_be_bytes_len(tr.top, 8);
    lemma_be_bytes_len(tr.table_offset, 8);
    lemma_be_round_trip(tr.count, 8);
    lemma_be_round_trip(tr.top, 8);
    lemma_be_round_trip(tr.table_offset, 8);
    assert(doc[at + 6] == tail[6]);
    assert(doc[at + 7] == tail[7]);
    assert(trb[6] == tr.off_size as u8);
    assert(trb[7] == tr.ref_size as u8);
    assert(doc.subrange(at + 8, at + 16) =~= tail.subrange(8, 16));
    assert(doc.subrange(at + 16, at + 24) =~= tail.subrange(16, 24));
    assert(doc.subrange(at + 24, at + 32) =~= tail.subrange(24, 32));
    assert(trb.subrange(8, 16) =~= be_bytes(tr.count, 8));
    assert(trb.subrange(16, 24) =~= be_bytes(tr.top, 8));
    assert(trb.subrange(24, 32) =~= be_bytes(tr.table_offset, 8));
    let got = parse_trailer(doc);
    assert(got.off_size == tr.off_size);
    assert(got.ref_size == tr.ref_size);
    assert(got.count == tr.count);
    assert(got.top == tr.top);
    assert(got.table_offset == tr.table_offset);
}

proof fn lemma_trailer(table: Seq<Obj>, top: nat)
    requires
        table_ok(table, top),
    ensures
        parse_trailer(encode_table(table, top)) == trailer_of(table, top),
        trailer_ok(trailer_of(table, top)),
        table.len() < pow256(trailer_of(table, top).ref_size),
        trailer_of(table, top).table_offset < pow256(trailer_of(table, top).off_size),
{
    let tr = trailer_of(table, top);
    let doc = encode_table(table, top);
    lemma_layout(table, top);
    lemma_pow256_values();
    lemma_int_width_fits(table.len() as u64);
    lemma_int_width_fits(tr.table_offset as u64);
    assert(doc.len() >= tr.table_offset + 32) by {
        assert(table.len() * tr.off_size >= 0) by (nonlinear_arith);
    }
    lemma_parse_trailer(doc, tr);
}

proof fn lemma_offsets_parse(table: Seq<Obj>, top: nat)
    requires
        table_ok(table, top),
    ensures
        ({
            let tr = trailer_of(table, top);
            let doc = encode_table(table, top);
            parse_refs(doc.skip(tr.table_offset as int), tr.off_size, table.len()) == offsets_of(
                table,
                tr.ref_size,
            )
        }),
{
    let tr = trailer_of(table, top);
    let doc = encode_table(table, top);
    let offs = offsets_of(table, tr.ref_size);
    lemma_layout(table, top);
    lemma_trailer(table, top);
    lemma_offsets_are_refs(table, tr.ref_size, tr.off_size, table.len());
    assert(offs.take(table.len() as int) =~= offs);
    assert(refs_fit(offs, tr.off_size)) by {
        assert forall|i: int| 0 <= i < offs.len() implies #[trigger] offs[i] < pow256(
            tr.off_size,
        ) by {
            lemma_objects_prefix(table, tr.ref_size, i as nat, table.len());
        }
    }
    lemma_refs_round_trip(offs, tr.off_size, encode_trailer(tr));
}

proof fn lemma_obj_valid(table: Seq<Obj>, top: nat, i: nat)
    requires
        table_ok(table, top),
        i < table.len(),
    ensures
        obj_valid(table[i as int], trailer_of(table, top).ref_size, table.len()),
{
    let tr = trailer_of(table, top);
    let o = table[i as int];
    lemma_layout(table, top);
    lemma_trailer(table, top);
    lemma_object_len(o, tr.ref_size);
    lemma_object_at(table, tr.ref_size, i);
    lemma_objects_prefix(table, tr.ref_size, i + 1, table.len());
    let start = encode_objects(table, tr.ref_size, i).len();
    let next = encode_objects(table, tr.ref_size, i + 1).len();
    assert(encode_objects(table, tr.ref_size, i + 1) == encode_objects(table, tr.ref_size, i)
        + encode_object(o, tr.ref_size));
    assert(encode_object(o, tr.ref_size).len() <= u64::MAX);
    assert(ordered_obj(o, i));
    match o {
        Obj::Array(refs) => {
            assert forall|j: int| 0 <= j < refs.len() implies #[trigger] refs[j] < table.len()
                && refs[j] < pow256(tr.ref_size) by {}
        },
        Obj::Dict { keys, vals } => {
            assert forall|j: int| 0 <= j < keys.len() implies #[trigger] keys[j] < table.len()
                && keys[j] < pow256(tr.ref_size) by {}
            assert forall|j: int| 0 <= j < vals.len() implies #[trigger] vals[j] < table.len()
                && vals[j] < pow256(tr.ref_size) by {}
        },
        _ => {},
    }
}

/// Object `i` is read back from its position in the document.
proof fn lemma_object_parse_at(table: Seq<Obj>, top: nat, i: nat)
    requires
        table_ok(table, top),
        i < table.len(),
    ensures
        ({
            let tr = trailer_of(table, top);
            let at = object_offset(table, tr.ref_size, i);
            &&& 8 <= at < tr.table_offset
            &&& parse_object(
                encode_table(table, top).subrange(at as int, tr.table_offset as int),
                at as usize,
                tr.ref_size,
                table.len(),
            ) == Ok::<Obj, PlistError>(table[i as int])
        }),
{
    let tr = trailer_of(table, top);
    let doc = encode_table(table, top);
    let n = table.len();
    let all = encode_objects(table, tr.ref_size, n);
    let start = encode_objects(table, tr.ref_size, i).len() as int;
    let next = encode_objects(table, tr.ref_size, i + 1).len() as int;
    let rest = all.subrange(next, all.len() as int);
    lemma_layout(table, top);
    lemma_trailer(table, top);
    lemma_object_at(table, tr.ref_size, i);
    lemma_obj_valid(table, top, i);
    assert(doc.subrange(8 + start, tr.table_offset as int) =~= all.subrange(start, all.len() as int))
        by {
        assert forall|j: int| 0 <= j < all.len() - start implies doc.subrange(
            8 + start,
            tr.table_offset as int,
        )[j] == all.subrange(start, all.len() as int)[j] by {
            assert(doc.subrange(8, tr.table_offset as int)[j + start] == all[j + start]);
        }
    }
    lemma_object_round_trip(table[i as int], rest, (8 + start) as usize, tr.ref_size, n);
}

proof fn lemma_objects_parse(table: Seq<Obj>, top: nat, i: nat)
    requires
        table_ok(table, top),
        i <= table.len(),
    ensures
        ({
            let tr = trailer_of(table, top);
            parse_objects(encode_table(table, top), tr, offsets_of(table, tr.ref_size), i) == Ok::<
                Seq<Obj>,
                PlistError,
            >(table.skip(i as int))
        }),
    decreases table.len() - i,
{
    let tr = trailer_of(table, top);
    let offs = offsets_of(table, tr.ref_size);
    if i < table.len() {
        lemma_object_parse_at(table, top, i);
        lemma_objects_parse(table, top, i + 1);
        assert(offs[i as int] == object_offset(table, tr.ref_size, i));
        assert(seq![table[i as int]] + table.skip(i as int + 1) =~= table.skip(i as int));
    } else {
        assert(table.skip(i as int) =~= Seq::<Obj>::empty());
    }
}

/// The document of a table is read back as the tree that the table's top
/// object stands for.
pub proof fn lemma_document_round_trip(table: Seq<Obj>, top: nat)
    requires
        table_ok(table, top),
    ensures
        decode_document(encode_table(table, top)) == unflatten(
            table,
            offsets_of(table, trailer_of(table, top).ref_size),
            top,
            table.len(),
        ),
{
    let tr = trailer_of(table, top);
    let doc = encode_table(table, top);
    lemma_layout(table, top);
    lemma_trailer(table, top);
    lemma_offsets_parse(table, top);
    lemma_objects_parse(table, top, 0);
    assert(table.skip(0) =~= table);
    assert(doc.len() >= 40) by {
        assert(table.len() * tr.off_size >= 0) by (nonlinear_arith);
    }
}

/// A tree read from a binary document is well-formed.
pub proof fn lemma_decode_wf(bytes: Seq<u8>)
    ensures
        decode_document(bytes) matches Ok(v) ==> v.wf(),
{
    if bytes.len() >= 40 {
        let tr = parse_trailer(bytes);
        let offsets = parse_refs(bytes.skip(tr.table_offset as int), tr.off_size, tr.count);
        match parse_objects(bytes, tr, offsets, 0) {
            Ok(table) => {
                lemma_unflatten_wf(table, offsets, tr.top, tr.count);
            },
            Err(_) => {},
        }
    }
}

/// Round trip: the binary document of a well-formed tree without key
/// nodes is read back as that tree. The document has to fit in memory.
pub proof fn lemma_binary_round_trip(v: Value)
    requires
        v.wf(),
        encodable(v),
        encode_document(v).len() <= usize::MAX,
    ensures
        decode_document(encode_document(v)) == Ok::<Value, PlistError>(v),
{
    let (table, top) = flatten(Seq::empty(), v);
    let tr = trailer_of(table, top);
    lemma_table_round_trip(v, offsets_of(table, tr.ref_size));
    lemma_document_round_trip(table, top);
}

} // verus!
