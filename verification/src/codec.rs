use vstd::prelude::*;

use crate::error::DbError;
use crate::schema::{lemma_field_within_record, lemma_offset_monotone, FieldDesc, Schema};

verus! {

/// A record: one byte string per schema field, held in schema order. The
/// field values are raw bytes; the engine never interprets them beyond
/// equality, so any fixed-size value a caller serializes fits.
#[derive(Clone, Debug)]
pub struct Record {
    pub fields: Vec<Vec<u8>>,
}

impl View for Record {
    type V = Seq<Seq<u8>>;

    open spec fn view(&self) -> Seq<Seq<u8>> {
        Seq::new(self.fields@.len(), |i: int| self.fields@[i]@)
    }
}

/// The record has one value per schema field, of that field's declared size.
pub open spec fn record_valid(fields: Seq<FieldDesc>, rec: Seq<Seq<u8>>) -> bool {
    &&& rec.len() == fields.len()
    &&& forall|f: int| 0 <= f < rec.len() ==> (#[trigger] rec[f]).len() == fields[f].size
}

/// `bytes` is the encoding of `rec` under `schema`: a buffer of exactly
/// `record_size` bytes in which each field's value sits at its declared
/// offset, fields in schema order with no padding between them.
pub open spec fn encodes(schema: Schema, bytes: Seq<u8>, rec: Seq<Seq<u8>>) -> bool {
    &&& bytes.len() == schema.record_size
    &&& rec.len() == schema.fields@.len()
    &&& forall|f: int|
        0 <= f < schema.fields@.len() ==> bytes.subrange(
            (#[trigger] schema.fields@[f]).offset as int,
            schema.fields@[f].offset + schema.fields@[f].size,
        ) == rec[f]
}

/// A subrange that lies inside the left part of a concatenation reads from
/// the left part alone.
pub proof fn lemma_concat_subrange_left(a: Seq<u8>, b: Seq<u8>, i: int, j: int)
    requires
        0 <= i <= j <= a.len(),
    ensures
        (a + b).subrange(i, j) == a.subrange(i, j),
{
    assert((a + b).subrange(i, j) =~= a.subrange(i, j));
}

/// The subrange covering the right part of a concatenation is that part.
pub proof fn lemma_concat_subrange_right(a: Seq<u8>, b: Seq<u8>)
    ensures
        (a + b).subrange(a.len() as int, (a.len() + b.len()) as int) == b,
{
    assert((a + b).subrange(a.len() as int, (a.len() + b.len()) as int) =~= b);
}

/// Round trip: a buffer is the encoding of at most one record, so decoding
/// an encoded record gives that record back. `encode` ensures
/// `encodes(schema, out, rec)` and `decode` ensures `encodes(schema, bytes,
/// result)`; this law closes the loop between them.
pub proof fn lemma_round_trip(schema: Schema, bytes: Seq<u8>, r1: Seq<Seq<u8>>, r2: Seq<Seq<u8>>)
    requires
        encodes(schema, bytes, r1),
        encodes(schema, bytes, r2),
    ensures
        r1 == r2,
{
    assert forall|f: int| 0 <= f < r1.len() implies r1[f] == r2[f] by {
        assert(bytes.subrange(
            schema.fields@[f].offset as int,
            schema.fields@[f].offset + schema.fields@[f].size,
        ) == r1[f]);
    }
    assert(r1 =~= r2);
}

/// Appends `src` whole to the end of `out`.
pub(crate) fn append_bytes(out: &mut Vec<u8>, src: &Vec<u8>)
    ensures
        final(out)@ == old(out)@ + src@,
{
    let ghost prefix = out@;
    let mut j: usize = 0;
    while j < src.len()
        invariant
            0 <= j <= src@.len(),
            out@ == prefix + src@.subrange(0, j as int),
        decreases src@.len() - j,
    {
        out.push(src[j]);
        proof {
            assert(prefix + src@.subrange(0, j as int) + seq![src@[j as int]] =~= prefix
                + src@.subrange(0, j + 1));
        }
        j += 1;
    }
    proof {
        assert(src@.subrange(0, src@.len() as int) =~= src@);
    }
}

/// After a field's bytes are appended at its own offset, every field laid
/// down so far still reads back from its declared byte range.
proof fn lemma_encode_step(schema: Schema, rec: Seq<Seq<u8>>, prefix: Seq<u8>, fld: Seq<u8>, f: int)
    requires
        schema.wf(),
        record_valid(schema.fields@, rec),
        0 <= f < schema.fields@.len(),
        prefix.len() == schema.fields@[f].offset,
        fld == rec[f],
        forall|g: int|
            0 <= g < f ==> prefix.subrange(
                (#[trigger] schema.fields@[g]).offset as int,
                schema.fields@[g].offset + schema.fields@[g].size,
            ) == rec[g],
    ensures
        (prefix + fld).len() == schema.fields@[f].offset + schema.fields@[f].size,
        forall|g: int|
            0 <= g <= f ==> (prefix + fld).subrange(
                (#[trigger] schema.fields@[g]).offset as int,
                schema.fields@[g].offset + schema.fields@[g].size,
            ) == rec[g],
{
    assert forall|g: int|
        0 <= g <= f implies (prefix + fld).subrange(
        (#[trigger] schema.fields@[g]).offset as int,
        schema.fields@[g].offset + schema.fields@[g].size,
    ) == rec[g] by {
        if g < f {
            lemma_offset_monotone(schema.fields@, schema.record_size as int, g, f);
            lemma_concat_subrange_left(
                prefix,
                fld,
                schema.fields@[g].offset as int,
                schema.fields@[g].offset + schema.fields@[g].size,
            );
        } else {
            lemma_concat_subrange_right(prefix, fld);
        }
    }
}

/// Serializes the record's fields in schema order, each at its declared
/// offset, into a fresh buffer of exactly `record_size` bytes.
pub fn encode(schema: &Schema, rec: &Record) -> (out: Vec<u8>)
    requires
        schema.wf(),
        record_valid(schema.fields@, rec@),
    ensures
        encodes(*schema, out@, rec@),
{
    let mut out: Vec<u8> = Vec::new();
    let mut f: usize = 0;
    while f < schema.fields.len()
        invariant
            schema.wf(),
            record_valid(schema.fields@, rec@),
            0 <= f <= schema.fields@.len(),
            out@.len() == if f < schema.fields@.len() {
                schema.fields@[f as int].offset as int
            } else {
                schema.record_size as int
            },
            forall|g: int|
                0 <= g < f ==> out@.subrange(
                    (#[trigger] schema.fields@[g]).offset as int,
                    schema.fields@[g].offset + schema.fields@[g].size,
                ) == rec@[g],
        decreases schema.fields@.len() - f,
    {
        let ghost prefix = out@;
        append_bytes(&mut out, &rec.fields[f]);
        proof {
            assert(rec.fields@[f as int]@ == rec@[f as int]);
            lemma_encode_step(*schema, rec@, prefix, rec.fields@[f as int]@, f as int);
        }
        f += 1;
    }
    out
}

/// Copies the declared byte range of field `f` out of an encoded record.
fn read_field(schema: &Schema, bytes: &[u8], f: usize) -> (value: Vec<u8>)
    requires
        schema.wf(),
        bytes@.len() == schema.record_size,
        f < schema.fields@.len(),
    ensures
        value@ == bytes@.subrange(
            schema.fields@[f as int].offset as int,
            schema.fields@[f as int].offset + schema.fields@[f as int].size,
        ),
{
    proof {
        lemma_field_within_record(schema.fields@, schema.record_size as int, f as int);
    }
    let off = schema.fields[f].offset;
    let size = schema.fields[f].size;
    let part = vstd::slice::slice_subrange(bytes, off, off + size);
    vstd::slice::slice_to_vec(part)
}

/// A record assembled from the byte ranges of an encoded buffer is valid
/// and is encoded by that buffer.
proof fn lemma_fields_read_back(schema: Schema, bytes: Seq<u8>, rec: Record)
    requires
        schema.wf(),
        bytes.len() == schema.record_size,
        rec.fields@.len() == schema.fields@.len(),
        forall|g: int|
            0 <= g < schema.fields@.len() ==> rec.fields@[g]@ == bytes.subrange(
                (#[trigger] schema.fields@[g]).offset as int,
                schema.fields@[g].offset + schema.fields@[g].size,
            ),
    ensures
        record_valid(schema.fields@, rec@),
        encodes(schema, bytes, rec@),
{
    assert forall|g: int| 0 <= g < rec@.len() implies (#[trigger] rec@[g]).len()
        == schema.fields@[g].size by {
        lemma_field_within_record(schema.fields@, schema.record_size as int, g);
        assert(rec@[g] == rec.fields@[g]@);
    }
    assert forall|g: int|
        0 <= g < schema.fields@.len() implies bytes.subrange(
        (#[trigger] schema.fields@[g]).offset as int,
        schema.fields@[g].offset + schema.fields@[g].size,
    ) == rec@[g] by {
        assert(rec@[g] == rec.fields@[g]@);
    }
}

/// The inverse of `encode`: reads each field's value out of its declared
/// byte range. Fails with `CorruptRecord` exactly when the buffer's length
/// is not `record_size`; the engine never decodes a partial record.
pub fn decode(schema: &Schema, bytes: &[u8]) -> (result: Result<Record, DbError>)
    requires
        schema.wf(),
    ensures
        match result {
            Ok(rec) => {
                &&& bytes@.len() == schema.record_size
                &&& record_valid(schema.fields@, rec@)
                &&& encodes(*schema, bytes@, rec@)
            },
            Err(e) => {
                &&& e == DbError::CorruptRecord
                &&& bytes@.len() != schema.record_size
            },
        },
{
    if bytes.len() != schema.record_size {
        return Err(DbError::CorruptRecord);
    }
    let mut values: Vec<Vec<u8>> = Vec::new();
    let mut f: usize = 0;
    while f < schema.fields.len()
        invariant
            schema.wf(),
            bytes@.len() == schema.record_size,
            0 <= f <= schema.fields@.len(),
            values@.len() == f,
            forall|g: int|
                0 <= g < f ==> values@[g]@ == bytes@.subrange(
                    (#[trigger] schema.fields@[g]).offset as int,
                    schema.fields@[g].offset + schema.fields@[g].size,
                ),
        decreases schema.fields@.len() - f,
    {
        let value = read_field(schema, bytes, f);
        values.push(value);
        f += 1;
    }
    let rec = Record { fields: values };
    proof {
        lemma_fields_read_back(*schema, bytes@, rec);
    }
    Ok(rec)
}

} // verus!
