use vstd::arithmetic::div_mod::lemma_fundamental_div_mod;
use vstd::arithmetic::mul::lemma_mul_inequality;
use vstd::prelude::*;

use crate::codec::{
    append_bytes, decode, encode, encodes, lemma_concat_subrange_left,
    lemma_concat_subrange_right, lemma_round_trip, record_valid, Record,
};
use crate::error::DbError;
use crate::index::{bytes_eq, IndexSet};
use crate::schema::{
    has_field, lemma_field_index, lemma_field_index_unique, lemma_field_within_record,
    lemma_offset_monotone, spec_field_index, Schema,
};

verus! {

/// One byte write a mutating operation asks for: `bytes` belongs at file
/// offset `offset`. The store keeps its own byte image in step; the caller
/// owning the file handle replays the write to disk.
pub struct FileWrite {
    pub offset: usize,
    pub bytes: Vec<u8>,
}

/// The store: the schema, the in-memory mirror of every decoded record, the
/// byte image of the file, and one equality index per schema field (used
/// only for the fields marked indexed). The invariant `inv` ties the three
/// together: the file image is exactly the concatenated encodings of the
/// mirror, and each index holds exactly the rows whose record holds the key.
pub struct Store {
    pub schema: Schema,
    pub mirror: Vec<Record>,
    pub file_image: Vec<u8>,
    pub indexes: Vec<IndexSet>,
}

impl Store {
    /// The number of rows the store holds.
    pub open spec fn rows(self) -> int {
        self.mirror@.len() as int
    }

    /// The value of field `f` of the record at row `r`.
    pub open spec fn field_at(self, r: int, f: int) -> Seq<u8> {
        self.mirror@[r]@[f]
    }

    /// Whether the index of field `f` records `row` under `key`.
    pub open spec fn index_has(self, f: int, key: Seq<u8>, row: usize) -> bool {
        self.indexes@[f].contains_row(key, row)
    }

    /// Every mirrored record has one value per schema field, of the
    /// declared size.
    pub open spec fn mirror_valid(self) -> bool {
        forall|i: int|
            0 <= i < self.rows() ==> record_valid(self.schema.fields@, (#[trigger] self.mirror@[i])@)
    }

    /// The file image is exactly the mirror's records encoded back to back:
    /// record `i` occupies byte range `[i*record_size, (i+1)*record_size)`.
    pub open spec fn file_matches(self) -> bool {
        &&& self.file_image@.len() == self.rows() * self.schema.record_size
        &&& forall|i: int|
            0 <= i < self.rows() ==> encodes(
                self.schema,
                self.file_image@.subrange(
                    i * self.schema.record_size,
                    (i + 1) * self.schema.record_size,
                ),
                (#[trigger] self.mirror@[i])@,
            )
    }

    /// Index completeness: for every indexed field `f` and value `k`, the
    /// index records exactly the rows whose record holds `k` in field `f`;
    /// a field not marked indexed records nothing.
    pub open spec fn indexes_complete(self) -> bool {
        &&& self.indexes@.len() == self.schema.fields@.len()
        &&& forall|f: int| 0 <= f < self.indexes@.len() ==> (#[trigger] self.indexes@[f]).wf()
        &&& forall|f: int, k: Seq<u8>, r: usize|
            0 <= f < self.indexes@.len() ==> (#[trigger] self.indexes@[f].contains_row(k, r)) == (
            self.schema.fields@[f].indexed && r < self.rows() && self.field_at(r as int, f) == k)
    }

    /// The store's invariant, established by `open_or_create` and preserved
    /// by every operation.
    pub open spec fn inv(self) -> bool {
        &&& self.schema.wf()
        &&& self.mirror_valid()
        &&& self.file_matches()
        &&& self.indexes_complete()
    }
}

/// Overwrites `buf[start .. start + patch.len()]` with `patch`, leaving
/// every byte outside that range as it was.
fn splice_bytes(buf: &mut Vec<u8>, start: usize, patch: &Vec<u8>)
    requires
        start + patch@.len() <= old(buf)@.len(),
    ensures
        final(buf)@.len() == old(buf)@.len(),
        forall|p: int|
            0 <= p < old(buf)@.len() && !(start <= p < start + patch@.len()) ==> final(buf)@[p]
                == old(buf)@[p],
        forall|p: int|
            start <= p < start + patch@.len() ==> final(buf)@[p] == patch@[p - start],
{
    let total = buf.len();
    let mut j: usize = 0;
    while j < patch.len()
        invariant
            start + patch@.len() <= buf@.len(),
            buf@.len() == total,
            buf@.len() == old(buf)@.len(),
            0 <= j <= patch@.len(),
            forall|p: int|
                0 <= p < buf@.len() && !(start <= p < start + j) ==> buf@[p] == old(buf)@[p],
            forall|p: int| start <= p < start + j ==> buf@[p] == patch@[p - start],
        decreases patch@.len() - j,
    {
        buf[start + j] = patch[j];
        j += 1;
    }
}

/// Calls `IndexSet::add` with `row` on every indexed field's index, using
/// the record's value of that field as the key.
fn add_record_to_indexes(indexes: &mut Vec<IndexSet>, schema: &Schema, rec: &Record, row: usize)
    requires
        old(indexes)@.len() == schema.fields@.len(),
        rec@.len() == schema.fields@.len(),
        forall|f: int| 0 <= f < old(indexes)@.len() ==> (#[trigger] old(indexes)@[f]).wf(),
    ensures
        final(indexes)@.len() == old(indexes)@.len(),
        forall|f: int| 0 <= f < final(indexes)@.len() ==> (#[trigger] final(indexes)@[f]).wf(),
        forall|f: int, k: Seq<u8>, r: usize|
            0 <= f < final(indexes)@.len() ==> (#[trigger] final(indexes)@[f].contains_row(k, r))
                == (old(indexes)@[f].contains_row(k, r) || (schema.fields@[f].indexed && k
                == rec@[f] && r == row)),
{
    let ghost pre = indexes@;
    let mut f: usize = 0;
    while f < schema.fields.len()
        invariant
            indexes@.len() == pre.len(),
            pre.len() == schema.fields@.len(),
            rec@.len() == schema.fields@.len(),
            0 <= f <= schema.fields@.len(),
            forall|g: int| 0 <= g < pre.len() ==> (#[trigger] pre[g]).wf(),
            forall|g: int| 0 <= g < indexes@.len() ==> (#[trigger] indexes@[g]).wf(),
            forall|g: int| f <= g < indexes@.len() ==> indexes@[g] == pre[g],
            forall|g: int, k: Seq<u8>, r: usize|
                0 <= g < f ==> (#[trigger] indexes@[g].contains_row(k, r)) == (
                pre[g].contains_row(k, r) || (schema.fields@[g].indexed && k == rec@[g] && r
                    == row)),
        decreases schema.fields@.len() - f,
    {
        if schema.fields[f].indexed {
            indexes[f].add(&rec.fields[f], row);
            proof {
                assert(rec@[f as int] == rec.fields@[f as int]@);
            }
        }
        f += 1;
    }
}

/// Calls `IndexSet::remove` with `row` on every indexed field's index,
/// using the record's value of that field as the key.
fn remove_record_from_indexes(
    indexes: &mut Vec<IndexSet>,
    schema: &Schema,
    rec: &Record,
    row: usize,
)
    requires
        old(indexes)@.len() == schema.fields@.len(),
        rec@.len() == schema.fields@.len(),
        forall|f: int| 0 <= f < old(indexes)@.len() ==> (#[trigger] old(indexes)@[f]).wf(),
    ensures
        final(indexes)@.len() == old(indexes)@.len(),
        forall|f: int| 0 <= f < final(indexes)@.len() ==> (#[trigger] final(indexes)@[f]).wf(),
        forall|f: int, k: Seq<u8>, r: usize|
            0 <= f < final(indexes)@.len() ==> (#[trigger] final(indexes)@[f].contains_row(k, r))
                == (old(indexes)@[f].contains_row(k, r) && !(schema.fields@[f].indexed && k
                == rec@[f] && r == row)),
{
    let ghost pre = indexes@;
    let mut f: usize = 0;
    while f < schema.fields.len()
        invariant
            indexes@.len() == pre.len(),
            pre.len() == schema.fields@.len(),
            rec@.len() == schema.fields@.len(),
            0 <= f <= schema.fields@.len(),
            forall|g: int| 0 <= g < pre.len() ==> (#[trigger] pre[g]).wf(),
            forall|g: int| 0 <= g < indexes@.len() ==> (#[trigger] indexes@[g]).wf(),
            forall|g: int| f <= g < indexes@.len() ==> indexes@[g] == pre[g],
            forall|g: int, k: Seq<u8>, r: usize|
                0 <= g < f ==> (#[trigger] indexes@[g].contains_row(k, r)) == (
                pre[g].contains_row(k, r) && !(schema.fields@[g].indexed && k == rec@[g] && r
                    == row)),
        decreases schema.fields@.len() - f,
    {
        if schema.fields[f].indexed {
            indexes[f].remove(&rec.fields[f], row);
            proof {
                assert(rec@[f as int] == rec.fields@[f as int]@);
            }
        }
        f += 1;
    }
}

impl Store {
    /// Builds a store from the file's bytes (empty for a file that was just
    /// created): replays the file record by record, decoding each and
    /// entering it into the mirror and into every indexed field's index.
    /// Fails with `CorruptRecord` exactly when the file's length is not a
    /// multiple of the record size: a trailing partial record is surfaced,
    /// never silently dropped.
    pub fn open_or_create(schema: Schema, contents: Vec<u8>) -> (result: Result<Store, DbError>)
        requires
            schema.wf(),
        ensures
            match result {
                Ok(s) => {
                    &&& (contents@.len() as int) % (schema.record_size as int) == 0
                    &&& s.inv()
                    &&& s.schema == schema
                    &&& s.file_image@ == contents@
                },
                Err(e) => {
                    &&& e == DbError::CorruptRecord
                    &&& (contents@.len() as int) % (schema.record_size as int) != 0
                },
            },
    {
        let rs = schema.record_size;
        if contents.len() % rs != 0 {
            return Err(DbError::CorruptRecord);
        }
        let n = contents.len() / rs;
        proof {
            lemma_fundamental_div_mod(contents@.len() as int, rs as int);
            assert(contents@.len() == (rs as int) * (n as int));
            assert((rs as int) * (n as int) == (n as int) * (rs as int)) by (nonlinear_arith);
        }
        let mut indexes: Vec<IndexSet> = Vec::new();
        let mut f: usize = 0;
        while f < schema.fields.len()
            invariant
                0 <= f <= schema.fields@.len(),
                indexes@.len() == f,
                forall|g: int| 0 <= g < f ==> (#[trigger] indexes@[g]).wf(),
                forall|g: int, k: Seq<u8>, r: usize|
                    0 <= g < f ==> !(#[trigger] indexes@[g].contains_row(k, r)),
            decreases schema.fields@.len() - f,
        {
            let idx = IndexSet::new();
            indexes.push(idx);
            f += 1;
        }
        let total = contents.len();
        let mut mirror: Vec<Record> = Vec::new();
        let mut i: usize = 0;
        while i < n
            invariant
                schema.wf(),
                rs == schema.record_size,
                contents@.len() == total,
                contents@.len() == n * schema.record_size,
                0 <= i <= n,
                mirror@.len() == i,
                forall|g: int|
                    0 <= g < i ==> record_valid(schema.fields@, (#[trigger] mirror@[g])@),
                forall|g: int|
                    0 <= g < i ==> encodes(
                        schema,
                        contents@.subrange(
                            g * schema.record_size,
                            (g + 1) * schema.record_size,
                        ),
                        (#[trigger] mirror@[g])@,
                    ),
                indexes@.len() == schema.fields@.len(),
                forall|g: int| 0 <= g < indexes@.len() ==> (#[trigger] indexes@[g]).wf(),
                forall|f2: int, k: Seq<u8>, r: usize|
                    0 <= f2 < indexes@.len() ==> (#[trigger] indexes@[f2].contains_row(k, r)) == (
                    schema.fields@[f2].indexed && r < i && mirror@[r as int]@[f2] == k),
            decreases n - i,
        {
            proof {
                lemma_mul_inequality(i + 1, n as int, schema.record_size as int);
                lemma_mul_inequality(i as int, n as int, schema.record_size as int);
                assert((i + 1) * (schema.record_size as int) == i * (schema.record_size as int)
                    + schema.record_size) by (nonlinear_arith);
                assert(i * (schema.record_size as int) <= n * (schema.record_size as int));
                assert((i + 1) * (schema.record_size as int) <= n * (schema.record_size as int));
            }
            let start = i * rs;
            let chunk = vstd::slice::slice_subrange(contents.as_slice(), start, start + rs);
            let rec = match decode(&schema, chunk) {
                Ok(r) => r,
                Err(_) => {
                    proof {
                        assert(false);
                    }
                    return Err(DbError::CorruptRecord);
                },
            };
            add_record_to_indexes(&mut indexes, &schema, &rec, i);
            mirror.push(rec);
            i += 1;
        }
        let store = Store { schema, mirror, file_image: contents, indexes };
        Ok(store)
    }

    /// Appends the record at the current end of the file: the returned
    /// write puts its encoding right after the existing records, the mirror
    /// grows by the record, and every indexed field's index gains the new
    /// row under the record's value. The new row's position is the row
    /// count before the call; positions are handed out in order and never
    /// reused.
    pub fn append(&mut self, rec: Record) -> (w: FileWrite)
        requires
            old(self).inv(),
            record_valid(old(self).schema.fields@, rec@),
            old(self).file_image@.len() + old(self).schema.record_size <= usize::MAX,
        ensures
            final(self).inv(),
            final(self).schema == old(self).schema,
            final(self).rows() == old(self).rows() + 1,
            forall|i: int|
                0 <= i < old(self).rows() ==> final(self).mirror@[i] == old(self).mirror@[i],
            final(self).mirror@[old(self).rows()] == rec,
            w.offset == old(self).file_image@.len(),
            encodes(old(self).schema, w.bytes@, rec@),
            final(self).file_image@ == old(self).file_image@ + w.bytes@,
            encodes(
                old(self).schema,
                final(self).file_image@.subrange(
                    old(self).rows() * old(self).schema.record_size,
                    (old(self).rows() + 1) * old(self).schema.record_size,
                ),
                rec@,
            ),
            forall|f: int, k: Seq<u8>, r: usize|
                0 <= f < final(self).indexes@.len() ==> (#[trigger] final(self).index_has(f, k, r))
                    == (old(self).index_has(f, k, r) || (old(self).schema.fields@[f].indexed && k
                    == rec@[f] && r as int == old(self).rows())),
    {
        let ghost pre = *self;
        let bytes = encode(&self.schema, &rec);
        let offset = self.file_image.len();
        append_bytes(&mut self.file_image, &bytes);
        let row = self.mirror.len();
        self.mirror.push(rec);
        add_record_to_indexes(&mut self.indexes, &self.schema, &self.mirror[row], row);
        proof {
            let rs = pre.schema.record_size as int;
            let n = pre.rows();
            assert((n + 1) * rs == n * rs + rs) by (nonlinear_arith);
            assert(self.file_image@.len() == (n + 1) * rs);
            assert forall|i: int|
                0 <= i < self.rows() implies encodes(
                self.schema,
                self.file_image@.subrange(i * rs, (i + 1) * rs),
                (#[trigger] self.mirror@[i])@,
            ) by {
                if i < n {
                    lemma_mul_inequality(0, i, rs);
                    lemma_mul_inequality(i, i + 1, rs);
                    lemma_mul_inequality(i + 1, n, rs);
                    lemma_concat_subrange_left(pre.file_image@, bytes@, i * rs, (i + 1) * rs);
                } else {
                    lemma_concat_subrange_right(pre.file_image@, bytes@);
                }
            }
            assert forall|f: int, k: Seq<u8>, r: usize|
                0 <= f < self.indexes@.len() implies (#[trigger] self.indexes@[
                f].contains_row(k, r)) == (self.schema.fields@[f].indexed && r < self.rows()
                && self.field_at(r as int, f) == k) by {
                assert(self.indexes@[f].contains_row(k, r) == (pre.indexes@[f].contains_row(k, r)
                    || (self.schema.fields@[f].indexed && k == self.mirror@[n]@[f] && r == row)));
                assert(pre.indexes@[f].contains_row(k, r) == (pre.schema.fields@[f].indexed && r
                    < pre.rows() && pre.field_at(r as int, f) == k));
                if (r as int) < n {
                    assert(self.mirror@[r as int] == pre.mirror@[r as int]);
                }
            }
        }
        FileWrite { offset, bytes }
    }

    /// Overwrites the record at `row` in place: the returned write puts the
    /// new encoding at `row * record_size`, every indexed field's index
    /// drops the row under the old record's value and gains it under the
    /// new one, and the mirror's entry is replaced. Fails with `OutOfRange`
    /// exactly when `row` is at or past the current row count, leaving the
    /// store untouched.
    pub fn update_whole_record(&mut self, row: usize, rec: Record) -> (result: Result<
        FileWrite,
        DbError,
    >)
        requires
            old(self).inv(),
            record_valid(old(self).schema.fields@, rec@),
        ensures
            final(self).schema == old(self).schema,
            match result {
                Ok(w) => {
                    &&& (row as int) < old(self).rows()
                    &&& final(self).inv()
                    &&& final(self).rows() == old(self).rows()
                    &&& forall|i: int|
                        0 <= i < old(self).rows() && i != row ==> final(self).mirror@[i]
                            == old(self).mirror@[i]
                    &&& final(self).mirror@[row as int] == rec
                    &&& w.offset == row * old(self).schema.record_size
                    &&& encodes(old(self).schema, w.bytes@, rec@)
                    &&& final(self).file_image@.len() == old(self).file_image@.len()
                    &&& forall|p: int|
                        0 <= p < old(self).file_image@.len() && !(w.offset <= p < w.offset + (
                        old(self).schema.record_size as int)) ==> final(self).file_image@[p]
                            == old(self).file_image@[p]
                    &&& forall|p: int|
                        w.offset <= p < w.offset + old(self).schema.record_size
                            ==> final(self).file_image@[p] == w.bytes@[p - w.offset]
                    &&& forall|f: int, k: Seq<u8>, r: usize|
                        0 <= f < final(self).indexes@.len() ==> (#[trigger] final(self).index_has(f, k, r))
                            == (if r == row {
                            old(self).schema.fields@[f].indexed && k == rec@[f]
                        } else {
                            old(self).index_has(f, k, r)
                        })
                },
                Err(e) => {
                    &&& e == DbError::OutOfRange
                    &&& (row as int) >= old(self).rows()
                    &&& *final(self) == *old(self)
                },
            },
    {
        if row >= self.mirror.len() {
            return Err(DbError::OutOfRange);
        }
        let ghost pre = *self;
        let rs = self.schema.record_size;
        let total = self.file_image.len();
        let bytes = encode(&self.schema, &rec);
        proof {
            let rsi = rs as int;
            lemma_mul_inequality(0, row as int, rsi);
            lemma_mul_inequality(row as int, row as int + 1, rsi);
            lemma_mul_inequality(row as int + 1, pre.rows(), rsi);
            assert((row as int + 1) * rsi == (row as int) * rsi + rsi) by (nonlinear_arith);
            assert(pre.rows() * rsi == total);
        }
        let base = row * rs;
        splice_bytes(&mut self.file_image, base, &bytes);
        remove_record_from_indexes(&mut self.indexes, &self.schema, &self.mirror[row], row);
        add_record_to_indexes(&mut self.indexes, &self.schema, &rec, row);
        self.mirror[row] = rec;
        proof {
            let rsi = rs as int;
            let n = pre.rows();
            let rowi = row as int;
            assert forall|i: int|
                0 <= i < self.rows() implies encodes(
                self.schema,
                self.file_image@.subrange(i * rsi, (i + 1) * rsi),
                (#[trigger] self.mirror@[i])@,
            ) by {
                lemma_mul_inequality(0, i, rsi);
                lemma_mul_inequality(i, i + 1, rsi);
                lemma_mul_inequality(i + 1, n, rsi);
                if i != rowi {
                    if i < rowi {
                        lemma_mul_inequality(i + 1, rowi, rsi);
                    } else {
                        lemma_mul_inequality(rowi + 1, i, rsi);
                    }
                    assert(self.file_image@.subrange(i * rsi, (i + 1) * rsi) =~= pre.file_image@
                        .subrange(i * rsi, (i + 1) * rsi));
                } else {
                    assert(self.file_image@.subrange(i * rsi, (i + 1) * rsi) =~= bytes@);
                }
            }
            assert forall|f: int, k: Seq<u8>, r: usize|
                0 <= f < self.indexes@.len() implies (#[trigger] self.indexes@[f].contains_row(
                k,
                r,
            )) == (self.schema.fields@[f].indexed && r < self.rows() && self.field_at(
                r as int,
                f,
            ) == k) by {
                assert(pre.indexes@[f].contains_row(k, r) == (pre.schema.fields@[f].indexed && r
                    < pre.rows() && pre.field_at(r as int, f) == k));
                if r != row && (r as int) < n {
                    assert(self.mirror@[r as int] == pre.mirror@[r as int]);
                }
                if r == row {
                    assert(pre.field_at(rowi, f) == pre.mirror@[rowi]@[f]);
                    assert(pre.mirror@[rowi]@[f] == pre.mirror@[rowi].fields@[f]@);
                }
            }
        }
        Ok(FileWrite { offset: base, bytes })
    }

    /// Finds the position of the first schema field named `name`.
    fn find_field(schema: &Schema, name: &String) -> (position: Option<usize>)
        ensures
            match position {
                Some(f) => f as int == spec_field_index(schema.fields@, name@) && (f as int)
                    < schema.fields@.len(),
                None => !has_field(schema.fields@, name@),
            },
    {
        let mut f: usize = 0;
        while f < schema.fields.len()
            invariant
                0 <= f <= schema.fields@.len(),
                forall|g: int| 0 <= g < f ==> (#[trigger] schema.fields@[g]).name@ != name@,
            decreases schema.fields@.len() - f,
        {
            if schema.fields[f].name == *name {
                proof {
                    lemma_field_index_unique(schema.fields@, name@, f as int);
                }
                return Some(f);
            }
            f += 1;
        }
        proof {
            lemma_field_index(schema.fields@, name@);
        }
        None
    }

    /// The set of rows whose record holds `value` in the field named
    /// `name`: exactly the rows `r` with `mirror[r].name == value`, with no
    /// duplicates and the empty set when no row holds the value. Fails with
    /// `UnknownField` exactly when no schema field bears that name or the
    /// field is not marked indexed (the engine keeps no index to answer
    /// from).
    pub fn lookup(&self, name: &String, value: &Vec<u8>) -> (result: Result<Vec<usize>, DbError>)
        requires
            self.inv(),
        ensures
            match result {
                Ok(rows) => {
                    let f = spec_field_index(self.schema.fields@, name@);
                    &&& has_field(self.schema.fields@, name@)
                    &&& self.schema.fields@[f].indexed
                    &&& forall|r: usize|
                        rows@.contains(r) == ((r as int) < self.rows() && self.field_at(
                            r as int,
                            f,
                        ) == value@)
                    &&& forall|i: int, j: int| 0 <= i < j < rows@.len() ==> rows@[i] != rows@[j]
                },
                Err(e) => {
                    &&& e == DbError::UnknownField
                    &&& !(has_field(self.schema.fields@, name@) && self.schema.fields@[
                        spec_field_index(self.schema.fields@, name@)].indexed)
                },
            },
    {
        let f = match Self::find_field(&self.schema, name) {
            None => {
                return Err(DbError::UnknownField);
            },
            Some(f) => f,
        };
        if !self.schema.fields[f].indexed {
            return Err(DbError::UnknownField);
        }
        let rows = self.indexes[f].lookup(value);
        proof {
            assert forall|r: usize|
                rows@.contains(r) == ((r as int) < self.rows() && self.field_at(r as int, f as int)
                    == value@) by {
                assert(rows@.contains(r) == self.indexes@[f as int].contains_row(value@, r));
            }
        }
        Ok(rows)
    }

    /// Updates one field of one record in place. If the stored value
    /// already equals `value` byte for byte, nothing is written, nothing
    /// changes, and no write is returned; otherwise the returned write puts
    /// exactly the field's bytes at `row * record_size + field offset`, the
    /// mirror's record is patched in that field alone, and if the field is
    /// indexed its index drops the row under the old value and gains it
    /// under the new one. The end state equals a whole-record update that
    /// changes only this field, at a fraction of the bytes written. Fails
    /// with `OutOfRange` exactly when `row` is at or past the row count,
    /// and otherwise with `UnknownField` exactly when no schema field bears
    /// the name; either failure leaves the store untouched.
    #[verifier::rlimit(100)]
    pub fn patch_field(&mut self, row: usize, name: &String, value: Vec<u8>) -> (result: Result<
        Option<FileWrite>,
        DbError,
    >)
        requires
            old(self).inv(),
            forall|f: int|
                0 <= f < old(self).schema.fields@.len() && (#[trigger] old(self).schema.fields@[f]).name@ == name@ ==> value@.len() == old(self).schema.fields@[f].size,
        ensures
            final(self).schema == old(self).schema,
            match result {
                Err(e) => {
                    &&& *final(self) == *old(self)
                    &&& (e == DbError::OutOfRange || e == DbError::UnknownField)
                    &&& (e == DbError::OutOfRange <==> (row as int) >= old(self).rows())
                    &&& (e == DbError::UnknownField ==> !has_field(old(self).schema.fields@, name@))
                },
                Ok(opt) => {
                    let f = spec_field_index(old(self).schema.fields@, name@);
                    &&& (row as int) < old(self).rows()
                    &&& has_field(old(self).schema.fields@, name@)
                    &&& final(self).inv()
                    &&& match opt {
                        None => {
                            &&& old(self).field_at(row as int, f) == value@
                            &&& *final(self) == *old(self)
                        },
                        Some(w) => {
                            &&& old(self).field_at(row as int, f) != value@
                            &&& w.offset == row * old(self).schema.record_size + old(self).schema.fields@[f].offset
                            &&& w.bytes@ == value@
                            &&& final(self).rows() == old(self).rows()
                            &&& forall|i: int|
                                0 <= i < old(self).rows() && i != row ==> final(self).mirror@[i]
                                    == old(self).mirror@[i]
                            &&& final(self).mirror@[row as int]@ == old(self).mirror@[row as int]@
                                .update(f, value@)
                            &&& final(self).file_image@.len() == old(self).file_image@.len()
                            &&& forall|p: int|
                                0 <= p < old(self).file_image@.len() && !(w.offset <= p < w.offset
                                    + value@.len()) ==> final(self).file_image@[p]
                                    == old(self).file_image@[p]
                            &&& forall|p: int|
                                w.offset <= p < w.offset + value@.len()
                                    ==> final(self).file_image@[p] == value@[p - w.offset]
                            &&& forall|f2: int, k: Seq<u8>, r: usize|
                                0 <= f2 < final(self).indexes@.len() ==> (#[trigger] final(self).index_has(f2, k, r)) == (if f2 == f && r == row && old(self).schema.fields@[f].indexed {
                                    k == value@
                                } else {
                                    old(self).index_has(f2, k, r)
                                })
                        },
                    }
                },
            },
    {
        if row >= self.mirror.len() {
            return Err(DbError::OutOfRange);
        }
        let f = match Self::find_field(&self.schema, name) {
            None => {
                return Err(DbError::UnknownField);
            },
            Some(f) => f,
        };
        proof {
            lemma_field_index(self.schema.fields@, name@);
            assert(self.mirror@[row as int]@[f as int] == self.mirror@[row as int].fields@[
                f as int]@);
        }
        let same = bytes_eq(&self.mirror[row].fields[f], &value);
        if same {
            return Ok(None);
        }
        let ghost pre = *self;
        let rs = self.schema.record_size;
        let total = self.file_image.len();
        let off = self.schema.fields[f].offset;
        let size = self.schema.fields[f].size;
        proof {
            let rsi = rs as int;
            lemma_field_within_record(self.schema.fields@, rsi, f as int);
            lemma_mul_inequality(0, row as int, rsi);
            lemma_mul_inequality(row as int, row as int + 1, rsi);
            lemma_mul_inequality(row as int + 1, pre.rows(), rsi);
            assert((row as int + 1) * rsi == (row as int) * rsi + rsi) by (nonlinear_arith);
            assert(pre.rows() * rsi == total);
        }
        let base = row * rs;
        let woff = base + off;
        splice_bytes(&mut self.file_image, woff, &value);
        if self.schema.fields[f].indexed {
            self.indexes[f].remove(&self.mirror[row].fields[f], row);
            self.indexes[f].add(&value, row);
        }
        let new_field = vstd::slice::slice_to_vec(value.as_slice());
        self.mirror[row].fields[f] = new_field;
        proof {
            let rsi = rs as int;
            let n = pre.rows();
            let rowi = row as int;
            let fi = f as int;
            let woffi = woff as int;
            assert(self.mirror@[rowi]@ =~= pre.mirror@[rowi]@.update(fi, value@));
            assert forall|i: int|
                0 <= i < self.rows() implies encodes(
                self.schema,
                self.file_image@.subrange(i * rsi, (i + 1) * rsi),
                (#[trigger] self.mirror@[i])@,
            ) by {
                lemma_mul_inequality(0, i, rsi);
                lemma_mul_inequality(i, i + 1, rsi);
                lemma_mul_inequality(i + 1, n, rsi);
                if i != rowi {
                    if i < rowi {
                        lemma_mul_inequality(i + 1, rowi, rsi);
                    } else {
                        lemma_mul_inequality(rowi + 1, i, rsi);
                    }
                    assert(self.file_image@.subrange(i * rsi, (i + 1) * rsi) =~= pre.file_image@
                        .subrange(i * rsi, (i + 1) * rsi));
                    assert(self.mirror@[i] == pre.mirror@[i]);
                } else {
                    let oldchunk = pre.file_image@.subrange(rowi * rsi, (rowi + 1) * rsi);
                    let newchunk = self.file_image@.subrange(rowi * rsi, (rowi + 1) * rsi);
                    assert(encodes(pre.schema, oldchunk, pre.mirror@[rowi]@));
                    assert forall|g: int|
                        0 <= g < self.schema.fields@.len() implies newchunk.subrange(
                        (#[trigger] self.schema.fields@[g]).offset as int,
                        self.schema.fields@[g].offset + self.schema.fields@[g].size,
                    ) == self.mirror@[rowi]@[g] by {
                        lemma_field_within_record(self.schema.fields@, rsi, g);
                        if g == fi {
                            assert(newchunk.subrange(
                                self.schema.fields@[g].offset as int,
                                self.schema.fields@[g].offset + self.schema.fields@[g].size,
                            ) =~= value@);
                        } else {
                            if g < fi {
                                lemma_offset_monotone(self.schema.fields@, rsi, g, fi);
                            } else {
                                lemma_offset_monotone(self.schema.fields@, rsi, fi, g);
                            }
                            assert(newchunk.subrange(
                                self.schema.fields@[g].offset as int,
                                self.schema.fields@[g].offset + self.schema.fields@[g].size,
                            ) =~= oldchunk.subrange(
                                self.schema.fields@[g].offset as int,
                                self.schema.fields@[g].offset + self.schema.fields@[g].size,
                            ));
                        }
                    }
                }
            }
            assert forall|f2: int, k: Seq<u8>, r: usize|
                0 <= f2 < self.indexes@.len() implies (#[trigger] self.indexes@[f2].contains_row(
                k,
                r,
            )) == (self.schema.fields@[f2].indexed && r < self.rows() && self.field_at(
                r as int,
                f2,
            ) == k) by {
                assert(pre.indexes@[f2].contains_row(k, r) == (pre.schema.fields@[f2].indexed && r
                    < pre.rows() && pre.field_at(r as int, f2) == k));
                if r != row && (r as int) < n {
                    assert(self.mirror@[r as int] == pre.mirror@[r as int]);
                }
                if r == row {
                    assert(pre.field_at(rowi, fi) == pre.mirror@[rowi].fields@[fi]@);
                    assert(self.field_at(rowi, f2) == self.mirror@[rowi]@[f2]);
                    if f2 != fi {
                        assert(self.mirror@[rowi]@[f2] == pre.mirror@[rowi]@[f2]);
                    }
                }
            }
        }
        Ok(Some(FileWrite { offset: woff, bytes: value }))
    }
}

/// Reopen equivalence: two stores over the same schema whose file bytes
/// agree hold the same records, row for row, and answer every index query
/// alike. `open_or_create` builds its store from the file bytes alone, so
/// closing a store and reopening its file yields the same mirror and the
/// same index contents as before, whatever sequence of appends, updates
/// and patches produced them.
pub proof fn lemma_reopen_equivalence(s1: Store, s2: Store)
    requires
        s1.inv(),
        s2.inv(),
        s1.schema == s2.schema,
        s1.file_image@ == s2.file_image@,
    ensures
        s1.rows() == s2.rows(),
        forall|i: int| 0 <= i < s1.rows() ==> s1.mirror@[i]@ == s2.mirror@[i]@,
        forall|f: int, k: Seq<u8>, r: usize|
            0 <= f < s1.indexes@.len() ==> (s1.index_has(f, k, r) == s2.index_has(f, k, r)),
{
    let rs = s1.schema.record_size as int;
    let n1 = s1.rows();
    let n2 = s2.rows();
    assert(n1 * rs == n2 * rs);
    assert(n1 == n2) by (nonlinear_arith)
        requires
            n1 * rs == n2 * rs,
            rs >= 1,
            n1 >= 0,
            n2 >= 0,
    ;
    assert forall|i: int| 0 <= i < s1.rows() implies s1.mirror@[i]@ == s2.mirror@[i]@ by {
        lemma_round_trip(
            s1.schema,
            s1.file_image@.subrange(i * rs, (i + 1) * rs),
            s1.mirror@[i]@,
            s2.mirror@[i]@,
        );
    }
    assert forall|f: int, k: Seq<u8>, r: usize|
        0 <= f < s1.indexes@.len() implies (s1.index_has(f, k, r) == s2.index_has(f, k, r)) by {
        assert(s1.indexes@[f].contains_row(k, r) == (s1.schema.fields@[f].indexed && r < s1.rows()
            && s1.field_at(r as int, f) == k));
        assert(s2.indexes@[f].contains_row(k, r) == (s2.schema.fields@[f].indexed && r < s2.rows()
            && s2.field_at(r as int, f) == k));
        if r < s1.rows() {
            assert(s1.mirror@[r as int]@ == s2.mirror@[r as int]@);
        }
    }
}

} // verus!
