//! The PDF object graph that the form engine reads and mutates.

use vstd::prelude::*;

verus! {

/// Identity of an indirect object: object number and generation number.
#[derive(Clone, Copy, Debug, PartialEq, Eq, Structural)]
pub struct ObjectId {
    pub num: u32,
    pub generation: u16,
}

impl View for ObjectId {
    type V = ObjectId;

    open spec fn view(&self) -> ObjectId {
        *self
    }
}

/// How a string object is written in the file.
#[derive(Clone, Copy, Debug, PartialEq, Eq, Structural)]
pub enum StringFormat {
    Literal,
    Hexadecimal,
}

/// A PDF object value.
#[derive(Debug)]
pub enum PdfObject {
    Null,
    Boolean(bool),
    Integer(i64),
    /// A real number, held as the bit pattern of its 32-bit IEEE value.
    Real(u32),
    Name(Vec<u8>),
    String(Vec<u8>, StringFormat),
    Array(Vec<PdfObject>),
    Dictionary(Dictionary),
    /// A stream: its dictionary, its content, and whether it may be compressed.
    Stream(Dictionary, Vec<u8>, bool),
    Reference(ObjectId),
}

/// A dictionary: key/value entries in their order of insertion.
#[derive(Debug)]
pub struct Dictionary {
    pub entries: Vec<(Vec<u8>, PdfObject)>,
}

/// A document: its trailer dictionary and its indirect objects.
#[derive(Debug)]
pub struct PdfDocument {
    pub trailer: Dictionary,
    pub objects: Vec<(ObjectId, PdfObject)>,
}

/// Position of the last entry whose key is `k`, or -1 where there is none.
pub open spec fn last_index_of<K: View, V>(e: Seq<(K, V)>, k: K::V) -> int
    decreases e.len(),
{
    if e.len() == 0 {
        -1
    } else if e.last().0@ == k {
        e.len() - 1
    } else {
        last_index_of(e.drop_last(), k)
    }
}

/// The value bound to `k`: that of the last entry with this key.
pub open spec fn lookup<K: View, V>(e: Seq<(K, V)>, k: K::V) -> Option<V> {
    let i = last_index_of(e, k);
    if i >= 0 {
        Some(e[i].1)
    } else {
        None
    }
}

pub proof fn lemma_last_index_of<K: View, V>(e: Seq<(K, V)>, k: K::V)
    ensures
        -1 <= last_index_of(e, k) < e.len(),
        last_index_of(e, k) >= 0 ==> e[last_index_of(e, k)].0@ == k,
        forall|j: int| last_index_of(e, k) < j < e.len() ==> e[j].0@ != k,
    decreases e.len(),
{
    if e.len() > 0 && e.last().0@ != k {
        let d = e.drop_last();
        lemma_last_index_of(d, k);
        assert forall|j: int| last_index_of(e, k) < j < e.len() implies e[j].0@ != k by {
            if j < e.len() - 1 {
                assert(e[j] == d[j]);
            }
        }
    }
}

/// Entries with `k` bound to `v`: the last entry with key `k` takes the value,
/// or, where there is none, a new entry is appended.
pub open spec fn dict_set(e: Seq<(Vec<u8>, PdfObject)>, k: Vec<u8>, v: PdfObject) -> Seq<(Vec<u8>, PdfObject)> {
    let i = last_index_of(e, k@);
    if i >= 0 {
        e.update(i, (e[i].0, v))
    } else {
        e.push((k, v))
    }
}

/// Entries with the last entry of key `k` removed, where there is one.
pub open spec fn dict_remove(e: Seq<(Vec<u8>, PdfObject)>, k: Seq<u8>) -> Seq<(Vec<u8>, PdfObject)> {
    let i = last_index_of(e, k);
    if i >= 0 {
        e.remove(i)
    } else {
        e
    }
}

/// `new` binds `k` to `v` (`None`: leaves it unbound), and every other key as `old` does.
pub open spec fn binds(
    old: Seq<(Vec<u8>, PdfObject)>,
    new: Seq<(Vec<u8>, PdfObject)>,
    k: Seq<u8>,
    v: Option<PdfObject>,
) -> bool {
    &&& lookup(new, k) == v
    &&& forall|k2: Seq<u8>| k2 != k ==> #[trigger] lookup(new, k2) == lookup(old, k2)
}

/// Two entry sequences with the same keys at the same places find a key at the same place.
pub proof fn lemma_same_keys<K: View, V>(a: Seq<(K, V)>, b: Seq<(K, V)>, k: K::V)
    requires
        a.len() == b.len(),
        forall|i: int| 0 <= i < a.len() ==> a[i].0@ == b[i].0@,
    ensures
        last_index_of(a, k) == last_index_of(b, k),
    decreases a.len(),
{
    if a.len() > 0 {
        assert(a.last().0@ == b.last().0@);
        let da = a.drop_last();
        let db = b.drop_last();
        assert forall|i: int| 0 <= i < da.len() implies da[i].0@ == db[i].0@ by {
            assert(da[i] == a[i] && db[i] == b[i]);
        }
        lemma_same_keys(da, db, k);
    }
}

/// Where no entry has key `k`, there is none to find.
pub proof fn lemma_no_key<K: View, V>(e: Seq<(K, V)>, k: K::V)
    requires
        forall|j: int| 0 <= j < e.len() ==> e[j].0@ != k,
    ensures
        last_index_of(e, k) == -1,
        lookup(e, k) is None,
    decreases e.len(),
{
    if e.len() > 0 {
        let d = e.drop_last();
        assert forall|j: int| 0 <= j < d.len() implies d[j].0@ != k by {
            assert(d[j] == e[j]);
        }
        lemma_no_key(d, k);
    }
}

/// Removing an entry with another key does not change what a key is bound to.
pub proof fn lemma_lookup_remove<K: View, V>(e: Seq<(K, V)>, i: int, k: K::V)
    requires
        0 <= i < e.len(),
        e[i].0@ != k,
    ensures
        lookup(e.remove(i), k) == lookup(e, k),
    decreases e.len(),
{
    let r = e.remove(i);
    lemma_last_index_of(e, k);
    lemma_last_index_of(r, k);
    if i == e.len() - 1 {
        assert(r =~= e.drop_last());
    } else {
        assert(r.last() == e.last());
        if e.last().0@ != k {
            assert(r.drop_last() =~= e.drop_last().remove(i));
            lemma_lookup_remove(e.drop_last(), i, k);
            lemma_last_index_of(e.drop_last(), k);
            lemma_last_index_of(r.drop_last(), k);
        }
    }
}

pub proof fn lemma_dict_set(e: Seq<(Vec<u8>, PdfObject)>, k: Vec<u8>, v: PdfObject)
    ensures
        binds(e, dict_set(e, k, v), k@, Some(v)),
{
    let r = dict_set(e, k, v);
    lemma_last_index_of(e, k@);
    let i = last_index_of(e, k@);
    if i >= 0 {
        assert forall|k2: Seq<u8>| true implies last_index_of(r, k2) == last_index_of(e, k2) by {
            assert forall|j: int| 0 <= j < e.len() implies e[j].0@ == r[j].0@ by {}
            lemma_same_keys(e, r, k2);
        }
        assert forall|k2: Seq<u8>| k2 != k@ implies #[trigger] lookup(r, k2) == lookup(e, k2) by {
            lemma_last_index_of(e, k2);
            assert(last_index_of(r, k2) == last_index_of(e, k2));
        }
        assert(last_index_of(r, k@) == i);
    } else {
        assert(r.drop_last() =~= e);
        assert forall|k2: Seq<u8>| k2 != k@ implies #[trigger] lookup(r, k2) == lookup(e, k2) by {
            lemma_last_index_of(e, k2);
        }
    }
}

pub fn bytes_equal(a: &[u8], b: &[u8]) -> (r: bool)
    ensures
        r == (a@ == b@),
{
    if a.len() != b.len() {
        return false;
    }
    let mut i: usize = 0;
    while i < a.len()
        invariant
            a@.len() == b@.len(),
            0 <= i <= a@.len(),
            forall|j: int| 0 <= j < i ==> a@[j] == b@[j],
        decreases a@.len() - i,
    {
        if a[i] != b[i] {
            return false;
        }
        i = i + 1;
    }
    assert(a@ =~= b@);
    true
}

impl Dictionary {
    pub fn new() -> (r: Dictionary)
        ensures
            r.entries@.len() == 0,
    {
        Dictionary { entries: Vec::new() }
    }

    /// Position of the last entry with key `key`.
    pub fn find(&self, key: &[u8]) -> (r: Option<usize>)
        ensures
            match r {
                Some(i) => i as int == last_index_of(self.entries@, key@),
                None => last_index_of(self.entries@, key@) == -1,
            },
            r matches Some(i) ==> i < self.entries@.len() && self.entries@[i as int].0@ == key@,
    {
        proof {
            lemma_last_index_of(self.entries@, key@);
        }
        let mut i: usize = self.entries.len();
        assert(self.entries@.take(i as int) =~= self.entries@);
        while i > 0
            invariant
                0 <= i <= self.entries@.len(),
                last_index_of(self.entries@, key@) == last_index_of(self.entries@.take(i as int), key@),
            decreases i,
        {
            let ghost t = self.entries@.take(i as int);
            assert(t.drop_last() =~= self.entries@.take(i - 1));
            if bytes_equal(self.entries[i - 1].0.as_slice(), key) {
                return Some(i - 1);
            }
            i = i - 1;
        }
        None
    }

    pub fn get(&self, key: &[u8]) -> (r: Option<&PdfObject>)
        ensures
            match r {
                Some(o) => lookup(self.entries@, key@) == Some(*o),
                None => lookup(self.entries@, key@) is None,
            },
    {
        match self.find(key) {
            Some(i) => Some(&self.entries[i].1),
            None => None,
        }
    }

    pub fn has(&self, key: &[u8]) -> (r: bool)
        ensures
            r == lookup(self.entries@, key@) is Some,
    {
        self.find(key).is_some()
    }

    /// Binds `key` to `value`: the last entry with this key takes the value, or a
    /// new entry is appended.
    pub fn set(&mut self, key: Vec<u8>, value: PdfObject)
        ensures
            final(self).entries@ == dict_set(old(self).entries@, key, value),
            binds(old(self).entries@, final(self).entries@, key@, Some(value)),
    {
        proof {
            lemma_dict_set(self.entries@, key, value);
        }
        match self.find(key.as_slice()) {
            Some(i) => {
                let (k, _old) = self.entries.remove(i);
                self.entries.insert(i, (k, value));
                assert(self.entries@ =~= dict_set(old(self).entries@, key, value));
            },
            None => {
                self.entries.push((key, value));
            },
        }
    }

    /// Removes every entry with key `key`.
    pub fn remove(&mut self, key: &[u8])
        ensures
            binds(old(self).entries@, final(self).entries@, key@, None),
    {
        let mut i: usize = 0;
        while i < self.entries.len()
            invariant
                0 <= i <= self.entries@.len(),
                forall|j: int| 0 <= j < i ==> self.entries@[j].0@ != key@,
                forall|k2: Seq<u8>|
                    k2 != key@ ==> #[trigger] lookup(self.entries@, k2) == lookup(
                        old(self).entries@,
                        k2,
                    ),
            decreases self.entries@.len() - i,
        {
            if bytes_equal(self.entries[i].0.as_slice(), key) {
                let ghost before = self.entries@;
                self.entries.remove(i);
                proof {
                    assert forall|k2: Seq<u8>| k2 != key@ implies #[trigger] lookup(self.entries@, k2)
                        == lookup(old(self).entries@, k2) by {
                        lemma_lookup_remove(before, i as int, k2);
                    }
                }
            } else {
                i = i + 1;
            }
        }
        proof {
            lemma_no_key(self.entries@, key@);
        }
    }
}

/// The object that an optional reference points to.
pub open spec fn owned(o: Option<&PdfObject>) -> Option<PdfObject> {
    match o {
        Some(x) => Some(*x),
        None => None,
    }
}

/// The dictionary that an optional object is, if it is one.
pub open spec fn as_dict(o: Option<PdfObject>) -> Option<Dictionary> {
    match o {
        Some(PdfObject::Dictionary(d)) => Some(d),
        _ => None,
    }
}

/// The dictionary that object `id` of `objs` is, if it exists and is one.
pub open spec fn dict_at(objs: Seq<(ObjectId, PdfObject)>, id: ObjectId) -> Option<Dictionary> {
    as_dict(lookup(objs, id))
}

impl PdfObject {
    pub fn as_dict(&self) -> (r: Option<&Dictionary>)
        ensures
            match r {
                Some(d) => as_dict(Some(*self)) == Some(*d),
                None => as_dict(Some(*self)) is None,
            },
    {
        match self {
            PdfObject::Dictionary(d) => Some(d),
            _ => None,
        }
    }
}

/// `new` is `old` with dictionary object `id` changed to bind `k` to `v` (`None`:
/// to leave it unbound), and every other object as it was. Where `id` is not a
/// dictionary, nothing changes.
pub open spec fn objects_bind(
    old: Seq<(ObjectId, PdfObject)>,
    new: Seq<(ObjectId, PdfObject)>,
    id: ObjectId,
    k: Seq<u8>,
    v: Option<PdfObject>,
) -> bool {
    &&& forall|id2: ObjectId| id2 != id ==> #[trigger] lookup(new, id2) == lookup(old, id2)
    &&& match dict_at(old, id) {
        Some(d) => dict_at(new, id) is Some && binds(d.entries@, dict_at(new, id).unwrap().entries@, k, v),
        None => lookup(new, id) == lookup(old, id),
    }
}

proof fn lemma_objects_update(
    old: Seq<(ObjectId, PdfObject)>,
    pos: int,
    id: ObjectId,
    o: PdfObject,
)
    requires
        pos == last_index_of(old, id),
        0 <= pos < old.len(),
    ensures
        lookup(old.update(pos, (id, o)), id) == Some(o),
        forall|id2: ObjectId| id2 != id ==> #[trigger] lookup(old.update(pos, (id, o)), id2) == lookup(old, id2),
{
    let new = old.update(pos, (id, o));
    lemma_last_index_of(old, id);
    assert forall|id2: ObjectId| true implies last_index_of(new, id2) == last_index_of(old, id2) by {
        assert forall|j: int| 0 <= j < old.len() implies old[j].0@ == new[j].0@ by {}
        lemma_same_keys(old, new, id2);
    }
    assert forall|id2: ObjectId| id2 != id implies #[trigger] lookup(new, id2) == lookup(old, id2) by {
        lemma_last_index_of(old, id2);
    }
}

impl PdfDocument {
    /// Binds `key` to `value` in dictionary object `id`, where that object is a dictionary.
    pub fn set_in(&mut self, id: ObjectId, key: Vec<u8>, value: PdfObject)
        ensures
            objects_bind(old(self).objects@, final(self).objects@, id, key@, Some(value)),
            final(self).trailer == old(self).trailer,
    {
        match self.find_object(id) {
            Some(pos) => {
                let (oid, obj) = self.objects.remove(pos);
                match obj {
                    PdfObject::Dictionary(mut d) => {
                        d.set(key, value);
                        self.objects.insert(pos, (oid, PdfObject::Dictionary(d)));
                    },
                    other => {
                        self.objects.insert(pos, (oid, other));
                    },
                }
                proof {
                    assert(self.objects@ =~= old(self).objects@.update(pos as int, (id, self.objects@[pos as int].1)));
                    lemma_objects_update(old(self).objects@, pos as int, id, self.objects@[pos as int].1);
                }
            },
            None => {},
        }
    }

    /// Removes `key` from dictionary object `id`, where that object is a dictionary.
    pub fn remove_in(&mut self, id: ObjectId, key: &[u8])
        ensures
            objects_bind(old(self).objects@, final(self).objects@, id, key@, None),
            final(self).trailer == old(self).trailer,
    {
        match self.find_object(id) {
            Some(pos) => {
                let (oid, obj) = self.objects.remove(pos);
                match obj {
                    PdfObject::Dictionary(mut d) => {
                        d.remove(key);
                        self.objects.insert(pos, (oid, PdfObject::Dictionary(d)));
                    },
                    other => {
                        self.objects.insert(pos, (oid, other));
                    },
                }
                proof {
                    assert(self.objects@ =~= old(self).objects@.update(pos as int, (id, self.objects@[pos as int].1)));
                    lemma_objects_update(old(self).objects@, pos as int, id, self.objects@[pos as int].1);
                }
            },
            None => {},
        }
    }

    /// Position of the last object entry with identity `id`.
    pub fn find_object(&self, id: ObjectId) -> (r: Option<usize>)
        ensures
            match r {
                Some(i) => i as int == last_index_of(self.objects@, id),
                None => last_index_of(self.objects@, id) == -1,
            },
            r matches Some(i) ==> i < self.objects@.len() && self.objects@[i as int].0 == id,
    {
        proof {
            lemma_last_index_of(self.objects@, id);
        }
        let mut i: usize = self.objects.len();
        assert(self.objects@.take(i as int) =~= self.objects@);
        while i > 0
            invariant
                0 <= i <= self.objects@.len(),
                last_index_of(self.objects@, id) == last_index_of(self.objects@.take(i as int), id),
            decreases i,
        {
            let ghost t = self.objects@.take(i as int);
            assert(t.drop_last() =~= self.objects@.take(i - 1));
            if self.objects[i - 1].0 == id {
                return Some(i - 1);
            }
            i = i - 1;
        }
        None
    }

    pub fn get_object(&self, id: ObjectId) -> (r: Option<&PdfObject>)
        ensures
            match r {
                Some(o) => lookup(self.objects@, id) == Some(*o),
                None => lookup(self.objects@, id) is None,
            },
    {
        match self.find_object(id) {
            Some(i) => Some(&self.objects[i].1),
            None => None,
        }
    }

    pub fn get_dictionary(&self, id: ObjectId) -> (r: Option<&Dictionary>)
        ensures
            match r {
                Some(d) => dict_at(self.objects@, id) == Some(*d),
                None => dict_at(self.objects@, id) is None,
            },
    {
        match self.get_object(id) {
            Some(o) => o.as_dict(),
            None => None,
        }
    }
}

} // verus!
