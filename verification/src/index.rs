//! The inverted index and the entity store.
//!
//! The index maps a field name to a value map, and a value map maps a field
//! value to the posting list of the entities holding that (name, value)
//! pair.  The store keeps each entity's full field list under its id; ids
//! are dense, assigned in insertion order from zero, and never reused.
//!
//! The database invariant ties the two together: an id sits in the posting
//! list of (name, value) exactly when the stored entity holds that pair,
//! and each posting list holds an id at most once.

use vstd::prelude::*;
use vstd::string::*;
use crate::metrics::str_eq;

verus! {

/// One (field name, field value) pair of an entity.
pub struct Field {
    pub name: String,
    pub value: String,
}

/// One record: an ordered list of fields.
pub struct Entity {
    pub fields: Vec<Field>,
}

/// One field value with the ids of the entities holding it.
pub struct ValueEntry {
    pub value: String,
    pub ids: Vec<u64>,
}

/// One field name with its value map.
pub struct FieldEntry {
    pub name: String,
    pub values: Vec<ValueEntry>,
}

/// The inverted index: field name to value map to posting list.
pub struct FieldIndex {
    pub fields: Vec<FieldEntry>,
}

/// Whether the field list holds the (name, value) pair.
pub open spec fn pair_in(fs: Seq<Field>, n: Seq<char>, v: Seq<char>) -> bool {
    exists|i: int| 0 <= i < fs.len() && (#[trigger] fs[i]).name@ == n && fs[i].value@ == v
}

/// Whether the field list holds a field of the given name.
pub open spec fn name_in(fs: Seq<Field>, n: Seq<char>) -> bool {
    exists|i: int| 0 <= i < fs.len() && (#[trigger] fs[i]).name@ == n
}

pub(crate) proof fn lemma_push_contains<A>(u: Seq<A>, l: A, e: A)
    ensures
        u.push(l).contains(e) == (u.contains(e) || l == e),
{
    if u.contains(e) {
        let i = choose|i: int| 0 <= i < u.len() && u[i] == e;
        assert(u.push(l)[i] == e);
    }
    if l == e {
        assert(u.push(l)[u.len() as int] == e);
    }
    if u.push(l).contains(e) {
        let i = choose|i: int| 0 <= i < u.push(l).len() && u.push(l)[i] == e;
        if i < u.len() {
            assert(u[i] == e);
        }
    }
}

proof fn lemma_pair_in_push(fs: Seq<Field>, f: Field, n: Seq<char>, v: Seq<char>)
    ensures
        pair_in(fs.push(f), n, v) == (pair_in(fs, n, v) || (f.name@ == n && f.value@ == v)),
        name_in(fs.push(f), n) == (name_in(fs, n) || f.name@ == n),
{
    if pair_in(fs, n, v) {
        let i = choose|i: int| 0 <= i < fs.len() && (#[trigger] fs[i]).name@ == n && fs[i].value@
            == v;
        assert(fs.push(f)[i].name@ == n && fs.push(f)[i].value@ == v);
    }
    if name_in(fs, n) {
        let i = choose|i: int| 0 <= i < fs.len() && (#[trigger] fs[i]).name@ == n;
        assert(fs.push(f)[i].name@ == n);
    }
    if f.name@ == n {
        assert(fs.push(f)[fs.len() as int].name@ == n);
    }
    if pair_in(fs.push(f), n, v) {
        let i = choose|i: int|
            0 <= i < fs.push(f).len() && (#[trigger] fs.push(f)[i]).name@ == n
                && fs.push(f)[i].value@ == v;
        if i < fs.len() {
            assert(fs[i].name@ == n && fs[i].value@ == v);
        }
    }
    if name_in(fs.push(f), n) {
        let i = choose|i: int| 0 <= i < fs.push(f).len() && (#[trigger] fs.push(f)[i]).name@ == n;
        if i < fs.len() {
            assert(fs[i].name@ == n);
        }
    }
}

impl FieldEntry {
    /// Distinct values, and every posting list free of duplicates and
    /// non-empty.
    pub open spec fn wf(self) -> bool {
        &&& (forall|i: int, j: int|
            0 <= i < j < self.values@.len() ==> (#[trigger] self.values@[i]).value@ != (
            #[trigger] self.values@[j]).value@)
        &&& (forall|i: int|
            0 <= i < self.values@.len() ==> (#[trigger] self.values@[i]).ids@.no_duplicates())
        &&& (forall|i: int|
            0 <= i < self.values@.len() ==> (#[trigger] self.values@[i]).ids@.len() >= 1)
    }

    pub open spec fn has_value(self, v: Seq<char>) -> bool {
        exists|i: int| 0 <= i < self.values@.len() && (#[trigger] self.values@[i]).value@ == v
    }

    /// The posting list for a value; empty when the value is unknown.
    pub open spec fn postings_of(self, v: Seq<char>) -> Seq<u64> {
        if self.has_value(v) {
            let i = choose|i: int|
                0 <= i < self.values@.len() && (#[trigger] self.values@[i]).value@ == v;
            self.values@[i].ids@
        } else {
            Seq::empty()
        }
    }
}

/// Under distinct values, the value entry at an index is the one the
/// lookup functions name.
pub(crate) proof fn lemma_value_at(e: FieldEntry, i: int)
    requires
        e.wf(),
        0 <= i < e.values@.len(),
    ensures
        e.has_value(e.values@[i].value@),
        e.postings_of(e.values@[i].value@) == e.values@[i].ids@,
{
    let v = e.values@[i].value@;
    assert(e.has_value(v));
    let j = choose|j: int| 0 <= j < e.values@.len() && (#[trigger] e.values@[j]).value@ == v;
    if i < j {
        assert(e.values@[i].value@ != e.values@[j].value@);
    }
    if j < i {
        assert(e.values@[j].value@ != e.values@[i].value@);
    }
}

/// Under distinct names, the field entry at an index is the one the lookup
/// functions name.
pub(crate) proof fn lemma_field_at(idx: FieldIndex, i: int)
    requires
        idx.wf(),
        0 <= i < idx.fields@.len(),
    ensures
        idx.has_field(idx.fields@[i].name@),
        idx.entry_of(idx.fields@[i].name@) == idx.fields@[i],
{
    let n = idx.fields@[i].name@;
    assert(idx.has_field(n));
    let j = choose|j: int| 0 <= j < idx.fields@.len() && (#[trigger] idx.fields@[j]).name@ == n;
    if i < j {
        assert(idx.fields@[i].name@ != idx.fields@[j].name@);
    }
    if j < i {
        assert(idx.fields@[j].name@ != idx.fields@[i].name@);
    }
}

impl FieldIndex {
    /// Distinct field names, well-formed value maps, no empty field entry.
    pub open spec fn wf(self) -> bool {
        &&& (forall|i: int, j: int|
            0 <= i < j < self.fields@.len() ==> (#[trigger] self.fields@[i]).name@ != (
            #[trigger] self.fields@[j]).name@)
        &&& (forall|i: int| 0 <= i < self.fields@.len() ==> (#[trigger] self.fields@[i]).wf())
        &&& (forall|i: int|
            0 <= i < self.fields@.len() ==> (#[trigger] self.fields@[i]).values@.len() >= 1)
    }

    pub open spec fn has_field(self, n: Seq<char>) -> bool {
        exists|i: int| 0 <= i < self.fields@.len() && (#[trigger] self.fields@[i]).name@ == n
    }

    /// The value map of a field; meaningful when the field exists.
    pub open spec fn entry_of(self, n: Seq<char>) -> FieldEntry {
        let i = choose|i: int|
            0 <= i < self.fields@.len() && (#[trigger] self.fields@[i]).name@ == n;
        self.fields@[i]
    }

    /// The posting list of a (name, value) pair; empty when either is
    /// unknown.
    pub open spec fn postings(self, n: Seq<char>, v: Seq<char>) -> Seq<u64> {
        if self.has_field(n) {
            self.entry_of(n).postings_of(v)
        } else {
            Seq::empty()
        }
    }

    pub fn new() -> (r: Self)
        ensures
            r.wf(),
            r.fields@.len() == 0,
            forall|n: Seq<char>| !r.has_field(n),
    {
        FieldIndex { fields: Vec::new() }
    }

    /// Index of the entry for a field name, if any.
    pub fn find_field(&self, name: &str) -> (r: Option<usize>)
        ensures
            (r is Some) == self.has_field(name@),
            r matches Some(i) ==> i < self.fields@.len() && self.fields@[i as int].name@ == name@,
    {
        let mut i: usize = 0;
        while i < self.fields.len()
            invariant
                0 <= i <= self.fields@.len(),
                forall|j: int| 0 <= j < i ==> (#[trigger] self.fields@[j]).name@ != name@,
            decreases self.fields@.len() - i,
        {
            if str_eq(self.fields[i].name.as_str(), name) {
                return Some(i);
            }
            i += 1;
        }
        None
    }

    /// Records one (name, value, id) triple: creates the field and value
    /// entries as needed and appends the id to the posting list unless it
    /// is already there.
    fn add_pair(&mut self, id: u64, name: &str, value: &str)
        requires
            old(self).wf(),
        ensures
            final(self).wf(),
            final(self).postings(name@, value@) == (if old(self).postings(
                name@,
                value@,
            ).contains(id) {
                old(self).postings(name@, value@)
            } else {
                old(self).postings(name@, value@).push(id)
            }),
            forall|n: Seq<char>, v: Seq<char>|
                !(n == name@ && v == value@) ==> #[trigger] final(self).postings(n, v) == old(
                    self,
                ).postings(n, v),
            forall|n: Seq<char>|
                #[trigger] final(self).has_field(n) == (old(self).has_field(n) || n == name@),
    {
        let ghost old_idx = *self;
        match self.find_field(name) {
            None => {
                let mut ids: Vec<u64> = Vec::new();
                ids.push(id);
                let ve = ValueEntry { value: value.to_owned(), ids };
                let mut values: Vec<ValueEntry> = Vec::new();
                values.push(ve);
                let fe = FieldEntry { name: name.to_owned(), values };
                proof {
                    assert(fe.wf());
                }
                self.fields.push(fe);
                proof {
                    let nf = self.fields@.len() - 1;
                    assert(self.fields@[nf].name@ == name@);
                    assert forall|n: Seq<char>| #[trigger]
                        self.has_field(n) == (old_idx.has_field(n) || n == name@) by {
                        if old_idx.has_field(n) {
                            let i = choose|i: int|
                                0 <= i < old_idx.fields@.len() && (
                                #[trigger] old_idx.fields@[i]).name@ == n;
                            assert(self.fields@[i].name@ == n);
                        }
                        if self.has_field(n) {
                            let i = choose|i: int|
                                0 <= i < self.fields@.len() && (#[trigger] self.fields@[i]).name@
                                    == n;
                            if i < old_idx.fields@.len() {
                                assert(old_idx.fields@[i].name@ == n);
                            }
                        }
                    }
                    assert(self.wf());
                    assert forall|n: Seq<char>, v: Seq<char>|
                        !(n == name@ && v == value@) implies #[trigger] self.postings(n, v)
                        == old_idx.postings(n, v) by {
                        if old_idx.has_field(n) {
                            let i = choose|i: int|
                                0 <= i < old_idx.fields@.len() && (
                                #[trigger] old_idx.fields@[i]).name@ == n;
                            assert(self.fields@[i].name@ == n);
                            assert(self.entry_of(n) == old_idx.entry_of(n)) by {
                                let j = choose|j: int|
                                    0 <= j < self.fields@.len() && (
                                    #[trigger] self.fields@[j]).name@ == n;
                                if j == nf {
                                    assert(n == name@);
                                    assert(old_idx.fields@[i].name@ == name@);
                                    assert(!old_idx.has_field(name@));
                                }
                            };
                        } else if self.has_field(n) {
                            // only the new entry can match, so n == name@
                            // and v != value@: its single value is value@
                            let e = self.entry_of(n);
                            assert(e == self.fields@[nf as int]);
                            if e.has_value(v) {
                                let k = choose|k: int|
                                    0 <= k < e.values@.len() && (#[trigger] e.values@[k]).value@
                                        == v;
                                assert(e.values@[k].value@ == value@);
                            }
                        }
                    }
                    let e = self.entry_of(name@);
                    assert(e == self.fields@[nf as int]);
                    lemma_value_at(e, 0);
                    assert(e.postings_of(value@) =~= Seq::<u64>::empty().push(id));
                    assert(old_idx.postings(name@, value@) == Seq::<u64>::empty());
                }
            },
            Some(fi) => {
                let ghost oldfs = self.fields@;
                let mut entry = self.fields.remove(fi);
                let ghost oldentry = entry;
                let r = Self::find_value(&entry, value);
                match r {
                    None => {
                        let mut ids: Vec<u64> = Vec::new();
                        ids.push(id);
                        let ve = ValueEntry { value: value.to_owned(), ids };
                        entry.values.push(ve);
                        proof {
                            let nv = entry.values@.len() - 1;
                            assert(entry.values@[nv] == ve);
                            assert(ve.value@ == value@);
                            assert forall|v: Seq<char>| #[trigger]
                                entry.has_value(v) == (oldentry.has_value(v) || v == value@) by {
                                if oldentry.has_value(v) {
                                    let i = choose|i: int|
                                        0 <= i < oldentry.values@.len() && (
                                        #[trigger] oldentry.values@[i]).value@ == v;
                                    assert(entry.values@[i].value@ == v);
                                }
                                if v == value@ {
                                    assert(entry.values@[nv].value@ == v);
                                }
                                if entry.has_value(v) {
                                    let i = choose|i: int|
                                        0 <= i < entry.values@.len() && (
                                        #[trigger] entry.values@[i]).value@ == v;
                                    if i < oldentry.values@.len() {
                                        assert(oldentry.values@[i].value@ == v);
                                    } else {
                                        assert(entry.values@[i] == ve);
                                    }
                                }
                            }
                            assert(entry.wf());
                            lemma_value_at(entry, nv);
                            assert(entry.postings_of(value@) =~= Seq::<u64>::empty().push(id));
                            assert forall|v: Seq<char>|
                                v != value@ implies #[trigger] entry.postings_of(v)
                                == oldentry.postings_of(v) by {
                                if oldentry.has_value(v) {
                                    let i = choose|i: int|
                                        0 <= i < oldentry.values@.len() && (
                                        #[trigger] oldentry.values@[i]).value@ == v;
                                    lemma_value_at(entry, i);
                                    lemma_value_at(oldentry, i);
                                }
                            }
                        }
                    },
                    Some(vi) => {
                        let mut ve = entry.values.remove(vi);
                        let ghost oldve = ve;
                        if !Self::contains_id(&ve.ids, id) {
                            ve.ids.push(id);
                            proof {
                                lemma_push_contains_all(oldve.ids@, id);
                            }
                        }
                        entry.values.insert(vi, ve);
                        proof {
                            assert(entry.values@ =~= oldentry.values@.update(vi as int, ve));
                            assert forall|v: Seq<char>| #[trigger]
                                entry.has_value(v) == oldentry.has_value(v) by {
                                if oldentry.has_value(v) {
                                    let i = choose|i: int|
                                        0 <= i < oldentry.values@.len() && (
                                        #[trigger] oldentry.values@[i]).value@ == v;
                                    assert(entry.values@[i].value@ == v);
                                }
                                if entry.has_value(v) {
                                    let i = choose|i: int|
                                        0 <= i < entry.values@.len() && (
                                        #[trigger] entry.values@[i]).value@ == v;
                                    assert(oldentry.values@[i].value@ == v);
                                }
                            }
                            assert(entry.wf());
                            lemma_value_at(entry, vi as int);
                            lemma_value_at(oldentry, vi as int);
                            assert(oldentry.postings_of(value@) == oldve.ids@);
                            assert(entry.postings_of(value@) == ve.ids@);
                            assert forall|v: Seq<char>|
                                v != value@ implies #[trigger] entry.postings_of(v)
                                == oldentry.postings_of(v) by {
                                if oldentry.has_value(v) {
                                    let i = choose|i: int|
                                        0 <= i < oldentry.values@.len() && (
                                        #[trigger] oldentry.values@[i]).value@ == v;
                                    lemma_value_at(entry, i);
                                    lemma_value_at(oldentry, i);
                                }
                            }
                        }
                    },
                }
                self.fields.insert(fi, entry);
                proof {
                    assert(self.fields@ =~= oldfs.update(fi as int, entry));
                    assert(entry.name@ == name@);
                    assert forall|n: Seq<char>| #[trigger]
                        self.has_field(n) == (old_idx.has_field(n) || n == name@) by {
                        if old_idx.has_field(n) {
                            let i = choose|i: int|
                                0 <= i < oldfs.len() && (#[trigger] oldfs[i]).name@ == n;
                            assert(self.fields@[i].name@ == n);
                        }
                        if self.has_field(n) {
                            let i = choose|i: int|
                                0 <= i < self.fields@.len() && (#[trigger] self.fields@[i]).name@
                                    == n;
                            assert(oldfs[i].name@ == n || n == name@);
                        }
                        if n == name@ {
                            assert(oldfs[fi as int].name@ == name@);
                        }
                    }
                    assert(self.wf());
                    assert(self.entry_of(name@) == entry) by {
                        assert(self.fields@[fi as int] == entry);
                        assert(self.has_field(name@));
                        let j = choose|j: int|
                            0 <= j < self.fields@.len() && (#[trigger] self.fields@[j]).name@
                                == name@;
                        if j < fi {
                            assert(oldfs[j].name@ == name@);
                            assert(oldfs[j].name@ != oldfs[fi as int].name@);
                        }
                        if j > fi {
                            assert(oldfs[j].name@ == name@);
                            assert(oldfs[fi as int].name@ != oldfs[j].name@);
                        }
                    };
                    assert(old_idx.entry_of(name@) == oldentry) by {
                        assert(oldfs[fi as int].name@ == name@);
                        assert(old_idx.has_field(name@));
                        let j = choose|j: int|
                            0 <= j < oldfs.len() && (#[trigger] oldfs[j]).name@ == name@;
                        if j < fi {
                            assert(oldfs[j].name@ != oldfs[fi as int].name@);
                        }
                        if j > fi {
                            assert(oldfs[fi as int].name@ != oldfs[j].name@);
                        }
                    };
                    assert forall|n: Seq<char>, v: Seq<char>|
                        !(n == name@ && v == value@) implies #[trigger] self.postings(n, v)
                        == old_idx.postings(n, v) by {
                        if n == name@ {
                            assert(self.postings(n, v) == entry.postings_of(v));
                            assert(old_idx.postings(n, v) == oldentry.postings_of(v));
                        } else {
                            if old_idx.has_field(n) {
                                let i = choose|i: int|
                                    0 <= i < oldfs.len() && (#[trigger] oldfs[i]).name@ == n;
                                assert(self.fields@[i].name@ == n);
                                assert(i != fi);
                                let j = choose|j: int|
                                    0 <= j < self.fields@.len() && (
                                    #[trigger] self.fields@[j]).name@ == n;
                                if j != i {
                                    assert(self.fields@[i].name@ == self.fields@[j].name@);
                                }
                                assert(self.entry_of(n) == old_idx.entry_of(n)) by {
                                    let k = choose|k: int|
                                        0 <= k < oldfs.len() && (#[trigger] oldfs[k]).name@ == n;
                                    if k != i {
                                        assert(oldfs[i].name@ == oldfs[k].name@);
                                    }
                                };
                            }
                        }
                    }
                }
            },
        }
    }

    /// Index of the entry for a field value within a value map, if any.
    fn find_value(e: &FieldEntry, value: &str) -> (r: Option<usize>)
        ensures
            (r is Some) == e.has_value(value@),
            r matches Some(i) ==> i < e.values@.len() && e.values@[i as int].value@ == value@,
    {
        let mut i: usize = 0;
        while i < e.values.len()
            invariant
                0 <= i <= e.values@.len(),
                forall|j: int| 0 <= j < i ==> (#[trigger] e.values@[j]).value@ != value@,
            decreases e.values@.len() - i,
        {
            if str_eq(e.values[i].value.as_str(), value) {
                return Some(i);
            }
            i += 1;
        }
        None
    }

    /// Whether a posting list already holds an id.
    pub(crate) fn contains_id(ids: &Vec<u64>, id: u64) -> (r: bool)
        ensures
            r == ids@.contains(id),
    {
        let mut i: usize = 0;
        while i < ids.len()
            invariant
                0 <= i <= ids@.len(),
                forall|j: int| 0 <= j < i ==> ids@[j] != id,
            decreases ids@.len() - i,
        {
            if ids[i] == id {
                return true;
            }
            i += 1;
        }
        false
    }

    /// Records every (name, value) pair of one entity under its id.  The id
    /// must be fresh: it ends up in the posting list of exactly the pairs
    /// the field list holds, once each.
    pub fn insert(&mut self, id: u64, fields: &Vec<Field>)
        requires
            old(self).wf(),
            forall|n: Seq<char>, v: Seq<char>| !#[trigger] old(self).postings(n, v).contains(id),
        ensures
            final(self).wf(),
            forall|n: Seq<char>, v: Seq<char>|
                pair_in(fields@, n, v) ==> #[trigger] final(self).postings(n, v) == old(
                    self,
                ).postings(n, v).push(id),
            forall|n: Seq<char>, v: Seq<char>|
                !pair_in(fields@, n, v) ==> #[trigger] final(self).postings(n, v) == old(
                    self,
                ).postings(n, v),
            forall|n: Seq<char>|
                #[trigger] final(self).has_field(n) == (old(self).has_field(n) || name_in(
                    fields@,
                    n,
                )),
    {
        let ghost orig = *self;
        let mut pi: usize = 0;
        while pi < fields.len()
            invariant
                0 <= pi <= fields@.len(),
                self.wf(),
                forall|n: Seq<char>, v: Seq<char>|
                    pair_in(fields@.take(pi as int), n, v) ==> #[trigger] self.postings(n, v)
                        == orig.postings(n, v).push(id),
                forall|n: Seq<char>, v: Seq<char>|
                    !pair_in(fields@.take(pi as int), n, v) ==> #[trigger] self.postings(n, v)
                        == orig.postings(n, v),
                forall|n: Seq<char>, v: Seq<char>| !#[trigger] orig.postings(n, v).contains(id),
                forall|n: Seq<char>|
                    #[trigger] self.has_field(n) == (orig.has_field(n) || name_in(
                        fields@.take(pi as int),
                        n,
                    )),
            decreases fields@.len() - pi,
        {
            let ghost prev = *self;
            let f = &fields[pi];
            let ghost np = f.name@;
            let ghost vp = f.value@;
            self.add_pair(id, f.name.as_str(), f.value.as_str());
            proof {
                assert(fields@.take(pi as int + 1) =~= fields@.take(pi as int).push(fields@[pi as int]));
                lemma_push_contains(orig.postings(np, vp), id, id);
                assert forall|n: Seq<char>, v: Seq<char>|
                    pair_in(fields@.take(pi as int + 1), n, v) implies #[trigger] self.postings(
                    n,
                    v,
                ) == orig.postings(n, v).push(id) by {
                    lemma_pair_in_push(fields@.take(pi as int), fields@[pi as int], n, v);
                    if n == np && v == vp {
                        if pair_in(fields@.take(pi as int), n, v) {
                            assert(prev.postings(n, v) == orig.postings(n, v).push(id));
                            assert(prev.postings(n, v).contains(id));
                        } else {
                            assert(prev.postings(n, v) == orig.postings(n, v));
                        }
                    }
                }
                assert forall|n: Seq<char>, v: Seq<char>|
                    !pair_in(fields@.take(pi as int + 1), n, v) implies #[trigger] self.postings(
                    n,
                    v,
                ) == orig.postings(n, v) by {
                    lemma_pair_in_push(fields@.take(pi as int), fields@[pi as int], n, v);
                }
                assert forall|n: Seq<char>| #[trigger]
                    self.has_field(n) == (orig.has_field(n) || name_in(
                        fields@.take(pi as int + 1),
                        n,
                    )) by {
                    lemma_pair_in_push(fields@.take(pi as int), fields@[pi as int], n, n);
                }
            }
            pi += 1;
        }
        proof {
            assert(fields@.take(fields@.len() as int) =~= fields@);
        }
    }
}

proof fn lemma_push_contains_all(u: Seq<u64>, l: u64)
    ensures
        forall|e: u64| u.push(l).contains(e) == (u.contains(e) || l == e),
{
    assert forall|e: u64| #[trigger]
        u.push(l).contains(e) == (u.contains(e) || l == e) by {
        lemma_push_contains(u, l, e);
    }
}

/// The database: the entity store and the inverted index over it.
pub struct Database {
    pub index: FieldIndex,
    pub store: Vec<Entity>,
}

impl Database {
    /// Every posting points at a stored entity holding the pair, and every
    /// stored pair is posted under its entity's id.
    pub open spec fn wf(self) -> bool {
        &&& self.index.wf()
        &&& (forall|n: Seq<char>, v: Seq<char>, id: u64|
            #[trigger] self.index.postings(n, v).contains(id) ==> id < self.store@.len()
                && pair_in(self.store@[id as int].fields@, n, v))
        &&& (forall|e: int, p: int|
            0 <= e < self.store@.len() && 0 <= p < self.store@[e].fields@.len()
                ==> self.index.postings(
                (#[trigger] self.store@[e].fields@[p]).name@,
                self.store@[e].fields@[p].value@,
            ).contains(e as u64))
    }

    pub fn new() -> (r: Self)
        ensures
            r.wf(),
            r.store@.len() == 0,
    {
        let r = Database { index: FieldIndex::new(), store: Vec::new() };
        proof {
            assert forall|n: Seq<char>, v: Seq<char>, id: u64| !(#[trigger] r.index.postings(
                n,
                v,
            ).contains(id)) by {
                assert(r.index.postings(n, v) == Seq::<u64>::empty());
            }
        }
        r
    }

    /// Stores one entity under a fresh id and indexes each of its pairs.
    /// Ids are dense: the fresh id is the number of entities stored before.
    pub fn insert(&mut self, fields: Vec<Field>) -> (id: u64)
        requires
            old(self).wf(),
            old(self).store@.len() < u64::MAX,
        ensures
            final(self).wf(),
            id == old(self).store@.len(),
            final(self).store@.len() == old(self).store@.len() + 1,
            final(self).store@[id as int].fields@ == fields@,
            forall|i: int|
                0 <= i < old(self).store@.len() ==> #[trigger] final(self).store@[i] == old(
                    self,
                ).store@[i],
    {
        let id: u64 = self.store.len() as u64;
        proof {
            assert forall|n: Seq<char>, v: Seq<char>| !#[trigger] self.index.postings(
                n,
                v,
            ).contains(id) by {
                if self.index.postings(n, v).contains(id) {
                    assert(id < self.store@.len());
                }
            }
        }
        let ghost orig = *self;
        self.index.insert(id, &fields);
        self.store.push(Entity { fields });
        proof {
            let newdb = *self;
            assert forall|n: Seq<char>, v: Seq<char>, jd: u64|
                #[trigger] newdb.index.postings(n, v).contains(jd) implies jd
                < newdb.store@.len() && pair_in(newdb.store@[jd as int].fields@, n, v) by {
                lemma_push_contains(orig.index.postings(n, v), id, jd);
                if pair_in(newdb.store@[newdb.store@.len() - 1].fields@, n, v) && jd == id {
                } else {
                    if pair_in(newdb.store@[newdb.store@.len() - 1].fields@, n, v) {
                        assert(orig.index.postings(n, v).contains(jd) || jd == id);
                    } else {
                        assert(newdb.index.postings(n, v) == orig.index.postings(n, v));
                    }
                    if orig.index.postings(n, v).contains(jd) {
                        assert(jd < orig.store@.len());
                        assert(newdb.store@[jd as int] == orig.store@[jd as int]);
                    }
                }
            }
            assert forall|e: int, p: int|
                0 <= e < newdb.store@.len() && 0 <= p < newdb.store@[e].fields@.len() implies
                newdb.index.postings(
                (#[trigger] newdb.store@[e].fields@[p]).name@,
                newdb.store@[e].fields@[p].value@,
            ).contains(e as u64) by {
                let n = newdb.store@[e].fields@[p].name@;
                let v = newdb.store@[e].fields@[p].value@;
                lemma_push_contains(orig.index.postings(n, v), id, e as u64);
                if e < orig.store@.len() {
                    assert(orig.store@[e] == newdb.store@[e]);
                    assert(orig.index.postings(n, v).contains(e as u64));
                    if pair_in(fields@, n, v) {
                        assert(newdb.index.postings(n, v) == orig.index.postings(n, v).push(id));
                    }
                } else {
                    assert(e == id);
                    assert(pair_in(fields@, n, v));
                    assert(newdb.index.postings(n, v) == orig.index.postings(n, v).push(id));
                }
            }
        }
        id
    }

    /// The field list stored under an id; None exactly when no entity has
    /// been stored under it.
    pub fn get(&self, id: u64) -> (r: Option<&Entity>)
        ensures
            (r is Some) == (id < self.store@.len()),
            r matches Some(e) ==> *e == self.store@[id as int],
    {
        let n = self.store.len();
        if id < (n as u64) {
            Some(&self.store[id as usize])
        } else {
            None
        }
    }

    /// Law: every stored (name, value) pair of an entity is found in the
    /// posting list of that pair, so an equality query on the pair reaches
    /// the entity's id.
    pub proof fn lemma_inserted_pair_posted(self, e: int, p: int)
        requires
            self.wf(),
            0 <= e < self.store@.len(),
            0 <= p < self.store@[e].fields@.len(),
        ensures
            self.index.postings(
                self.store@[e].fields@[p].name@,
                self.store@[e].fields@[p].value@,
            ).contains(e as u64),
    {
    }

    /// Law: every id in any posting list belongs to a stored entity whose
    /// field list holds exactly the pair it was indexed under.
    pub proof fn lemma_posting_points_at_pair(self, n: Seq<char>, v: Seq<char>, id: u64)
        requires
            self.wf(),
            self.index.postings(n, v).contains(id),
        ensures
            id < self.store@.len(),
            pair_in(self.store@[id as int].fields@, n, v),
    {
    }
}

} // verus!
