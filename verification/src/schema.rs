use vstd::prelude::*;

verus! {

/// One field of the record layout: its name, the number of bytes it
/// occupies, its byte offset inside an encoded record, and whether an
/// equality index is kept for it.
#[derive(Clone, Debug)]
pub struct FieldDesc {
    pub name: String,
    pub size: usize,
    pub offset: usize,
    pub indexed: bool,
}

/// The schema descriptor: the ordered field list together with the total
/// record size. It is supplied once, at store construction, and never
/// changes for the lifetime of a file. A well-formed schema has contiguous,
/// non-overlapping field offsets covering exactly `[0, record_size)`.
#[derive(Clone, Debug)]
pub struct Schema {
    pub fields: Vec<FieldDesc>,
    pub record_size: usize,
}

/// The offsets start at zero and each field begins where the previous one
/// ends, so together the fields cover exactly `[0, record_size)`.
pub open spec fn fields_contiguous(fields: Seq<FieldDesc>, record_size: int) -> bool {
    &&& fields.len() > 0
    &&& fields[0].offset == 0
    &&& forall|i: int|
        1 <= i < fields.len() ==> (#[trigger] fields[i]).offset == fields[i - 1].offset
            + fields[i - 1].size
    &&& record_size == fields.last().offset + fields.last().size
}

/// A field list from which a well-formed schema can be built: contiguous
/// offsets, a record size of at least one byte, and a record size that fits
/// the machine's word.
pub open spec fn valid_layout(fields: Seq<FieldDesc>) -> bool {
    &&& fields.len() > 0
    &&& fields[0].offset == 0
    &&& forall|i: int|
        1 <= i < fields.len() ==> (#[trigger] fields[i]).offset == fields[i - 1].offset
            + fields[i - 1].size
    &&& 1 <= fields.last().offset + fields.last().size <= usize::MAX
}

impl Schema {
    /// The stored record size agrees with the field layout and is at least
    /// one byte, so replaying a file one record at a time terminates.
    pub open spec fn wf(self) -> bool {
        &&& fields_contiguous(self.fields@, self.record_size as int)
        &&& self.record_size >= 1
    }

    /// Validates a field list and computes the record size. Returns `None`
    /// exactly when the offsets are not contiguous from zero or the total
    /// size is zero or does not fit the machine's word.
    pub fn new(fields: Vec<FieldDesc>) -> (result: Option<Schema>)
        ensures
            match result {
                Some(s) => valid_layout(fields@) && s.fields == fields && s.wf(),
                None => !valid_layout(fields@),
            },
    {
        if fields.len() == 0 {
            return None;
        }
        if fields[0].offset != 0 {
            return None;
        }
        let mut i: usize = 1;
        while i < fields.len()
            invariant
                1 <= i <= fields@.len(),
                fields@.len() > 0,
                fields@[0].offset == 0,
                forall|j: int|
                    1 <= j < i ==> (#[trigger] fields@[j]).offset == fields@[j - 1].offset
                        + fields@[j - 1].size,
            decreases fields@.len() - i,
        {
            let prev_off = fields[i - 1].offset;
            let prev_size = fields[i - 1].size;
            let cur_off = fields[i].offset;
            if !(cur_off >= prev_off && cur_off - prev_off == prev_size) {
                return None;
            }
            i += 1;
        }
        let last_off = fields[fields.len() - 1].offset;
        let last_size = fields[fields.len() - 1].size;
        if last_size > usize::MAX - last_off {
            return None;
        }
        let record_size = last_off + last_size;
        if record_size == 0 {
            return None;
        }
        Some(Schema { fields, record_size })
    }
}

/// Fields earlier in the schema end at or before a later field begins:
/// distinct fields occupy disjoint byte ranges.
pub proof fn lemma_offset_monotone(fields: Seq<FieldDesc>, record_size: int, g: int, f: int)
    requires
        fields_contiguous(fields, record_size),
        0 <= g < f < fields.len(),
    ensures
        fields[g].offset + fields[g].size <= fields[f].offset,
    decreases f - g,
{
    if g + 1 < f {
        lemma_offset_monotone(fields, record_size, g + 1, f);
    }
}

/// Every field's byte range lies inside `[0, record_size)`.
pub proof fn lemma_field_within_record(fields: Seq<FieldDesc>, record_size: int, f: int)
    requires
        fields_contiguous(fields, record_size),
        0 <= f < fields.len(),
    ensures
        fields[f].offset + fields[f].size <= record_size,
    decreases fields.len() - f,
{
    if f < fields.len() - 1 {
        lemma_field_within_record(fields, record_size, f + 1);
    }
}

/// The position of the first schema field whose name is `name`, or a
/// negative value when no field has that name.
pub open spec fn spec_field_index(fields: Seq<FieldDesc>, name: Seq<char>) -> int
    decreases fields.len(),
{
    if fields.len() == 0 {
        -1
    } else if fields[0].name@ == name {
        0
    } else {
        let rest = spec_field_index(fields.drop_first(), name);
        if rest < 0 {
            -1
        } else {
            rest + 1
        }
    }
}

/// Whether some schema field is named `name`.
pub open spec fn has_field(fields: Seq<FieldDesc>, name: Seq<char>) -> bool {
    spec_field_index(fields, name) >= 0
}

/// `spec_field_index` finds a field exactly when one of that name exists,
/// and what it finds is the first such field.
pub proof fn lemma_field_index(fields: Seq<FieldDesc>, name: Seq<char>)
    ensures
        has_field(fields, name) <==> exists|f: int|
            0 <= f < fields.len() && (#[trigger] fields[f]).name@ == name,
        has_field(fields, name) ==> {
            let f = spec_field_index(fields, name);
            &&& 0 <= f < fields.len()
            &&& fields[f].name@ == name
            &&& forall|g: int| 0 <= g < f ==> (#[trigger] fields[g]).name@ != name
        },
    decreases fields.len(),
{
    if fields.len() == 0 {
    } else if fields[0].name@ == name {
    } else {
        lemma_field_index(fields.drop_first(), name);
        assert forall|i: int| 0 <= i < fields.drop_first().len() implies #[trigger] fields.drop_first()[i]
            == fields[i + 1] by {}
        if has_field(fields, name) {
            let f = spec_field_index(fields, name);
            assert(fields.drop_first()[f - 1] == fields[f]);
            assert forall|g: int| 0 <= g < f implies (#[trigger] fields[g]).name@ != name by {
                if g > 0 {
                    assert(fields.drop_first()[g - 1] == fields[g]);
                }
            }
        } else {
            assert forall|f: int| 0 <= f < fields.len() implies (#[trigger] fields[f]).name@
                != name by {
                if f > 0 {
                    assert(fields.drop_first()[f - 1] == fields[f]);
                }
            }
        }
    }
}

/// A field of the sought name at position `i`, with no earlier field of that
/// name, is exactly what `spec_field_index` returns.
pub proof fn lemma_field_index_unique(fields: Seq<FieldDesc>, name: Seq<char>, i: int)
    requires
        0 <= i < fields.len(),
        fields[i].name@ == name,
        forall|g: int| 0 <= g < i ==> (#[trigger] fields[g]).name@ != name,
    ensures
        spec_field_index(fields, name) == i,
{
    lemma_field_index(fields, name);
    let f = spec_field_index(fields, name);
    if f < i {
        assert(fields[f].name@ != name);
    }
    if f > i {
        assert(fields[i].name@ != name);
    }
}

} // verus!
