use vstd::prelude::*;

verus! {

/// Compares two byte strings for equality.
pub fn bytes_eq(a: &Vec<u8>, b: &Vec<u8>) -> (r: bool)
    ensures
        r == (a@ == b@),
{
    if a.len() != b.len() {
        return false;
    }
    let mut i: usize = 0;
    while i < a.len()
        invariant
            a@.len() == b@.len(),
            0 <= i <= a@.len(),
            forall|j: int| 0 <= j < i ==> a@[j] == b@[j],
        decreases a@.len() - i,
    {
        if a[i] != b[i] {
            return false;
        }
        i += 1;
    }
    proof {
        assert(a@ =~= b@);
    }
    true
}

/// One key of the index: a field value and the rows holding it.
pub struct IndexEntry {
    pub key: Vec<u8>,
    pub rows: Vec<usize>,
}

/// An equality index for one field: a mapping from field value to the set
/// of row positions whose record holds that value in the field. Keys are
/// unique, row lists hold no duplicates, and a key whose row set becomes
/// empty is removed outright, so no empty set ever persists.
pub struct IndexSet {
    pub entries: Vec<IndexEntry>,
}

impl IndexSet {
    /// The index maps `key` to a set of rows that includes `row`.
    pub open spec fn contains_row(self, key: Seq<u8>, row: usize) -> bool {
        exists|e: int|
            0 <= e < self.entries@.len() && (#[trigger] self.entries@[e]).key@ == key
                && self.entries@[e].rows@.contains(row)
    }

    /// Keys are unique, every row list is non-empty (empty sets are pruned)
    /// and free of duplicates.
    pub open spec fn wf(self) -> bool {
        &&& forall|e1: int, e2: int|
            0 <= e1 < e2 < self.entries@.len() ==> (#[trigger] self.entries@[e1]).key@ != (
            #[trigger] self.entries@[e2]).key@
        &&& forall|e: int| 0 <= e < self.entries@.len() ==> (#[trigger] self.entries@[e]).rows@.len() > 0
        &&& forall|e: int, i: int, j: int|
            #![trigger self.entries@[e].rows@[i], self.entries@[e].rows@[j]]
            0 <= e < self.entries@.len() && 0 <= i < j < self.entries@[e].rows@.len()
                ==> self.entries@[e].rows@[i] != self.entries@[e].rows@[j]
    }

    /// An empty index: no key maps to anything.
    pub fn new() -> (s: IndexSet)
        ensures
            s.wf(),
            forall|k: Seq<u8>, r: usize| !s.contains_row(k, r),
    {
        IndexSet { entries: Vec::new() }
    }

    /// Finds the position of the entry for `key`, if the key is present.
    fn find_entry(&self, key: &Vec<u8>) -> (position: Option<usize>)
        ensures
            match position {
                Some(e) => e < self.entries@.len() && self.entries@[e as int].key@ == key@,
                None => forall|e: int|
                    0 <= e < self.entries@.len() ==> (#[trigger] self.entries@[e]).key@ != key@,
            },
    {
        let mut e: usize = 0;
        while e < self.entries.len()
            invariant
                0 <= e <= self.entries@.len(),
                forall|g: int| 0 <= g < e ==> (#[trigger] self.entries@[g]).key@ != key@,
            decreases self.entries@.len() - e,
        {
            if bytes_eq(&self.entries[e].key, key) {
                return Some(e);
            }
            e += 1;
        }
        None
    }

    /// Whether `rows` holds `row`, and where.
    fn find_row(rows: &Vec<usize>, row: usize) -> (position: Option<usize>)
        ensures
            match position {
                Some(i) => i < rows@.len() && rows@[i as int] == row,
                None => !rows@.contains(row),
            },
    {
        let mut i: usize = 0;
        while i < rows.len()
            invariant
                0 <= i <= rows@.len(),
                forall|j: int| 0 <= j < i ==> rows@[j] != row,
            decreases rows@.len() - i,
        {
            if rows[i] == row {
                return Some(i);
            }
            i += 1;
        }
        None
    }

    /// Inserts `row` into the set for `key`, creating the set if the key is
    /// absent. Every other pairing is untouched.
    pub fn add(&mut self, key: &Vec<u8>, row: usize)
        requires
            old(self).wf(),
        ensures
            final(self).wf(),
            forall|k: Seq<u8>, r: usize|
                final(self).contains_row(k, r) == (old(self).contains_row(k, r) || (k == key@ && r
                    == row)),
    {
        let ghost pre = *self;
        match self.find_entry(key) {
            Some(e) => {
                let ghost eidx = e as int;
                match Self::find_row(&self.entries[e].rows, row) {
                    Some(_) => {
                        proof {
                            assert(pre.contains_row(key@, row));
                            assert forall|k: Seq<u8>, r: usize|
                                self.contains_row(k, r) == (pre.contains_row(k, r) || (k == key@
                                    && r == row)) by {}
                        }
                    },
                    None => {
                        let ghost old_rows = self.entries@[eidx].rows@;
                        self.entries[e].rows.push(row);
                        proof {
                            assert(self.entries@[eidx].rows@ == old_rows.push(row));
                            assert(self.entries@[eidx].key@ == key@);
                            assert forall|g: int|
                                0 <= g < self.entries@.len() && g != eidx implies self.entries@[g]
                                == pre.entries@[g] by {}
                            assert forall|k: Seq<u8>, r: usize|
                                self.contains_row(k, r) == (pre.contains_row(k, r) || (k == key@
                                    && r == row)) by {
                                if k == key@ {
                                    if self.contains_row(k, r) {
                                        let w = choose|w: int|
                                            0 <= w < self.entries@.len() && (#[trigger] self.entries@[w]).key@
                                                == k && self.entries@[w].rows@.contains(r);
                                        if w != eidx {
                                            assert(pre.entries@[w].key@ == k);
                                            assert(pre.contains_row(k, r));
                                        } else {
                                            if r != row {
                                                let i = choose|i: int|
                                                    0 <= i < old_rows.push(row).len()
                                                        && old_rows.push(row)[i] == r;
                                                assert(old_rows[i] == r);
                                                assert(pre.contains_row(k, r));
                                            }
                                        }
                                    }
                                    if pre.contains_row(k, r) {
                                        let w = choose|w: int|
                                            0 <= w < pre.entries@.len() && (#[trigger] pre.entries@[w]).key@
                                                == k && pre.entries@[w].rows@.contains(r);
                                        if w == eidx {
                                            let i = choose|i: int|
                                                0 <= i < old_rows.len() && old_rows[i] == r;
                                            assert(old_rows.push(row)[i] == r);
                                        }
                                        assert(self.contains_row(k, r));
                                    }
                                    if r == row {
                                        assert(old_rows.push(row).last() == row);
                                        assert(self.entries@[eidx].rows@.contains(row));
                                        assert(self.contains_row(k, r));
                                    }
                                } else {
                                    if self.contains_row(k, r) {
                                        let w = choose|w: int|
                                            0 <= w < self.entries@.len() && (#[trigger] self.entries@[w]).key@
                                                == k && self.entries@[w].rows@.contains(r);
                                        assert(w != eidx);
                                        assert(pre.contains_row(k, r));
                                    }
                                    if pre.contains_row(k, r) {
                                        let w = choose|w: int|
                                            0 <= w < pre.entries@.len() && (#[trigger] pre.entries@[w]).key@
                                                == k && pre.entries@[w].rows@.contains(r);
                                        assert(w != eidx);
                                        assert(self.contains_row(k, r));
                                    }
                                }
                            }
                        }
                    },
                }
            },
            None => {
                let mut rows: Vec<usize> = Vec::new();
                rows.push(row);
                let key_copy = vstd::slice::slice_to_vec(key.as_slice());
                let entry = IndexEntry { key: key_copy, rows };
                self.entries.push(entry);
                proof {
                    let n = pre.entries@.len() as int;
                    assert(self.entries@ == pre.entries@.push(entry));
                    assert forall|k: Seq<u8>, r: usize|
                        self.contains_row(k, r) == (pre.contains_row(k, r) || (k == key@ && r
                            == row)) by {
                        if self.contains_row(k, r) {
                            let w = choose|w: int|
                                0 <= w < self.entries@.len() && (#[trigger] self.entries@[w]).key@
                                    == k && self.entries@[w].rows@.contains(r);
                            if w < n {
                                assert(pre.entries@[w] == self.entries@[w]);
                                assert(pre.contains_row(k, r));
                            } else {
                                assert(self.entries@[w] == entry);
                                assert(k == key@ && r == row);
                            }
                        }
                        if pre.contains_row(k, r) {
                            let w = choose|w: int|
                                0 <= w < pre.entries@.len() && (#[trigger] pre.entries@[w]).key@
                                    == k && pre.entries@[w].rows@.contains(r);
                            assert(self.entries@[w] == pre.entries@[w]);
                            assert(self.contains_row(k, r));
                        }
                        if k == key@ && r == row {
                            assert(self.entries@[n] == entry);
                            assert(entry.rows@[0] == row);
                            assert(entry.rows@.contains(row));
                            assert(self.contains_row(k, r));
                        }
                    }
                }
            },
        }
    }

    /// Removes `row` from the set for `key`; a set that becomes empty is
    /// removed together with its key. Every other pairing is untouched.
    pub fn remove(&mut self, key: &Vec<u8>, row: usize)
        requires
            old(self).wf(),
        ensures
            final(self).wf(),
            forall|k: Seq<u8>, r: usize|
                final(self).contains_row(k, r) == (old(self).contains_row(k, r) && !(k == key@ && r
                    == row)),
    {
        let ghost pre = *self;
        let e_opt = self.find_entry(key);
        match e_opt {
            None => {
                proof {
                    assert forall|k: Seq<u8>, r: usize|
                        self.contains_row(k, r) == (pre.contains_row(k, r) && !(k == key@ && r
                            == row)) by {
                        if k == key@ && pre.contains_row(k, r) {
                            let w = choose|w: int|
                                0 <= w < pre.entries@.len() && (#[trigger] pre.entries@[w]).key@
                                    == k && pre.entries@[w].rows@.contains(r);
                            assert(false);
                        }
                    }
                }
            },
            Some(e) => {
                let ghost eidx = e as int;
                let pos_opt = Self::find_row(&self.entries[e].rows, row);
                match pos_opt {
                    None => {
                        proof {
                            assert forall|k: Seq<u8>, r: usize|
                                self.contains_row(k, r) == (pre.contains_row(k, r) && !(k == key@
                                    && r == row)) by {
                                if k == key@ && r == row && pre.contains_row(k, r) {
                                    let w = choose|w: int|
                                        0 <= w < pre.entries@.len() && (#[trigger] pre.entries@[w]).key@
                                            == k && pre.entries@[w].rows@.contains(r);
                                    assert(w == eidx);
                                }
                            }
                        }
                    },
                    Some(pos) => {
                        let ghost old_rows = self.entries@[eidx].rows@;
                        let _ = self.entries[e].rows.remove(pos);
                        if self.entries[e].rows.len() == 0 {
                            let _ = self.entries.remove(e);
                            proof {
                                assert(old_rows.len() == 1);
                                assert forall|i: int|
                                    0 <= i < old_rows.len() implies old_rows[i] == row by {
                                    if i != pos {
                                        assert(false);
                                    }
                                }
                                assert(self.entries@ =~= pre.entries@.remove(eidx));
                                lemma_contains_after_entry_removal(pre, *self, eidx, key@, row);
                            }
                        } else {
                            proof {
                                lemma_contains_after_row_removal(
                                    pre,
                                    *self,
                                    eidx,
                                    pos as int,
                                    key@,
                                    row,
                                );
                            }
                        }
                    },
                }
            },
        }
    }

    /// The set of rows recorded for `key`: empty if the key is absent,
    /// never an error. The result holds no duplicates.
    pub fn lookup(&self, key: &Vec<u8>) -> (rows: Vec<usize>)
        requires
            self.wf(),
        ensures
            forall|r: usize| rows@.contains(r) == self.contains_row(key@, r),
            forall|i: int, j: int| 0 <= i < j < rows@.len() ==> rows@[i] != rows@[j],
    {
        match self.find_entry(key) {
            None => {
                let rows: Vec<usize> = Vec::new();
                proof {
                    assert forall|r: usize| !self.contains_row(key@, r) by {
                        if self.contains_row(key@, r) {
                            let w = choose|w: int|
                                0 <= w < self.entries@.len() && (#[trigger] self.entries@[w]).key@
                                    == key@ && self.entries@[w].rows@.contains(r);
                            assert(false);
                        }
                    }
                }
                rows
            },
            Some(e) => {
                let ghost eidx = e as int;
                let mut rows: Vec<usize> = Vec::new();
                let stored = &self.entries[e].rows;
                let mut i: usize = 0;
                while i < stored.len()
                    invariant
                        0 <= i <= stored@.len(),
                        rows@ == stored@.subrange(0, i as int),
                    decreases stored@.len() - i,
                {
                    rows.push(stored[i]);
                    proof {
                        assert(stored@.subrange(0, i as int).push(stored@[i as int]) =~= stored@
                            .subrange(0, i + 1));
                    }
                    i += 1;
                }
                proof {
                    assert(rows@ =~= stored@);
                    assert forall|r: usize| rows@.contains(r) == self.contains_row(key@, r) by {
                        if rows@.contains(r) {
                            assert(self.entries@[eidx].rows@.contains(r));
                            assert(self.contains_row(key@, r));
                        }
                        if self.contains_row(key@, r) {
                            let w = choose|w: int|
                                0 <= w < self.entries@.len() && (#[trigger] self.entries@[w]).key@
                                    == key@ && self.entries@[w].rows@.contains(r);
                            assert(w == eidx);
                        }
                    }
                }
                rows
            },
        }
    }
}

/// After a key's only row was removed and the entry dropped, the index
/// holds every old pairing except those of the dropped key.
proof fn lemma_contains_after_entry_removal(
    pre: IndexSet,
    post: IndexSet,
    eidx: int,
    key: Seq<u8>,
    row: usize,
)
    requires
        pre.wf(),
        0 <= eidx < pre.entries@.len(),
        pre.entries@[eidx].key@ == key,
        forall|i: int| 0 <= i < pre.entries@[eidx].rows@.len() ==> pre.entries@[eidx].rows@[i] == row,
        pre.entries@[eidx].rows@.len() > 0,
        post.entries@ == pre.entries@.remove(eidx),
    ensures
        post.wf(),
        forall|k: Seq<u8>, r: usize|
            post.contains_row(k, r) == (pre.contains_row(k, r) && !(k == key && r == row)),
{
    assert forall|k: Seq<u8>, r: usize|
        post.contains_row(k, r) == (pre.contains_row(k, r) && !(k == key && r == row)) by {
        if post.contains_row(k, r) {
            let w = choose|w: int|
                0 <= w < post.entries@.len() && (#[trigger] post.entries@[w]).key@ == k
                    && post.entries@[w].rows@.contains(r);
            let orig = if w < eidx {
                w
            } else {
                w + 1
            };
            assert(pre.entries@[orig] == post.entries@[w]);
            assert(pre.contains_row(k, r));
            assert(orig != eidx);
            if k == key {
                assert(pre.entries@[orig].key@ == pre.entries@[eidx].key@);
                assert(false);
            }
        }
        if pre.contains_row(k, r) && !(k == key && r == row) {
            let w = choose|w: int|
                0 <= w < pre.entries@.len() && (#[trigger] pre.entries@[w]).key@ == k
                    && pre.entries@[w].rows@.contains(r);
            if w == eidx {
                let i = choose|i: int|
                    0 <= i < pre.entries@[eidx].rows@.len() && pre.entries@[eidx].rows@[i] == r;
                assert(r == row);
                assert(k == key);
                assert(false);
            } else {
                let new_pos = if w < eidx {
                    w
                } else {
                    w - 1
                };
                assert(post.entries@[new_pos] == pre.entries@[w]);
                assert(post.contains_row(k, r));
            }
        }
    }
}

/// After one row was removed from a key's non-empty set, the index holds
/// every old pairing except that one row under that key.
proof fn lemma_contains_after_row_removal(
    pre: IndexSet,
    post: IndexSet,
    eidx: int,
    pos: int,
    key: Seq<u8>,
    row: usize,
)
    requires
        pre.wf(),
        0 <= eidx < pre.entries@.len(),
        pre.entries@[eidx].key@ == key,
        0 <= pos < pre.entries@[eidx].rows@.len(),
        pre.entries@[eidx].rows@[pos] == row,
        post.entries@.len() == pre.entries@.len(),
        forall|g: int| 0 <= g < pre.entries@.len() && g != eidx ==> post.entries@[g] == pre.entries@[g],
        post.entries@[eidx].key@ == pre.entries@[eidx].key@,
        post.entries@[eidx].rows@ == pre.entries@[eidx].rows@.remove(pos),
        post.entries@[eidx].rows@.len() > 0,
    ensures
        post.wf(),
        forall|k: Seq<u8>, r: usize|
            post.contains_row(k, r) == (pre.contains_row(k, r) && !(k == key && r == row)),
{
    let old_rows = pre.entries@[eidx].rows@;
    let new_rows = post.entries@[eidx].rows@;
    assert forall|k: Seq<u8>, r: usize|
        post.contains_row(k, r) == (pre.contains_row(k, r) && !(k == key && r == row)) by {
        if post.contains_row(k, r) {
            let w = choose|w: int|
                0 <= w < post.entries@.len() && (#[trigger] post.entries@[w]).key@ == k
                    && post.entries@[w].rows@.contains(r);
            if w != eidx {
                assert(pre.entries@[w] == post.entries@[w]);
                assert(pre.contains_row(k, r));
                if k == key {
                    assert(pre.entries@[w].key@ == pre.entries@[eidx].key@);
                    assert(false);
                }
            } else {
                let i = choose|i: int| 0 <= i < new_rows.len() && new_rows[i] == r;
                let orig = if i < pos {
                    i
                } else {
                    i + 1
                };
                assert(old_rows[orig] == r);
                assert(pre.contains_row(k, r));
                if r == row && k == key {
                    assert(old_rows[orig] == old_rows[pos]);
                    assert(false);
                }
            }
        }
        if pre.contains_row(k, r) && !(k == key && r == row) {
            let w = choose|w: int|
                0 <= w < pre.entries@.len() && (#[trigger] pre.entries@[w]).key@ == k
                    && pre.entries@[w].rows@.contains(r);
            if w != eidx {
                assert(post.entries@[w] == pre.entries@[w]);
                assert(post.contains_row(k, r));
            } else {
                assert(k == key);
                let i = choose|i: int| 0 <= i < old_rows.len() && old_rows[i] == r;
                assert(i != pos);
                let new_pos = if i < pos {
                    i
                } else {
                    i - 1
                };
                assert(new_rows[new_pos] == r);
                assert(post.contains_row(k, r));
            }
        }
    }
    assert forall|e: int, i: int, j: int|
        #![trigger post.entries@[e].rows@[i], post.entries@[e].rows@[j]]
        0 <= e < post.entries@.len() && 0 <= i < j < post.entries@[e].rows@.len()
            implies post.entries@[e].rows@[i] != post.entries@[e].rows@[j] by {
        if e == eidx {
            let oi = if i < pos {
                i
            } else {
                i + 1
            };
            let oj = if j < pos {
                j
            } else {
                j + 1
            };
            assert(old_rows[oi] == new_rows[i]);
            assert(old_rows[oj] == new_rows[j]);
        }
    }
}

} // verus!
