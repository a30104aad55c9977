//! Field discovery: a breadth-first walk of the AcroForm field tree that names
//! each field by its ancestors.

use vstd::prelude::*;
use vstd::set_lib::{lemma_int_range, lemma_len_subset, set_int_range};
use crate::codec::{chars_of, from_pdf_utf16, pdf_text, string_from_chars};
use crate::form::{Form, LoadError};
use crate::keys::{acro_form, acro_form_bytes, fields, fields_bytes, ft, ft_bytes, kids, kids_bytes, parent, parent_bytes, root, root_bytes, t, t_bytes};
use crate::object::{
    owned, dict_at, last_index_of, lemma_last_index_of, lookup, Dictionary, ObjectId, PdfDocument,
    PdfObject,
};

verus! {

/// The decoded partial name `T` of a field dictionary.
pub open spec fn partial_name(d: Seq<(Vec<u8>, PdfObject)>) -> Option<Seq<char>> {
    match lookup(d, t()) {
        Some(PdfObject::String(b, _)) => pdf_text(b@),
        _ => None,
    }
}

/// The full name of field `id`: the partial names of its `Parent` chain, outermost
/// first, joined by dots. `None` where an object of the chain is missing or not a
/// dictionary, where a partial name is missing or does not decode, or where the
/// chain is longer than `depth` parents.
pub open spec fn full_name(objs: Seq<(ObjectId, PdfObject)>, id: ObjectId, depth: nat) -> Option<
    Seq<char>,
>
    decreases depth,
{
    match dict_at(objs, id) {
        None => None,
        Some(d) => match partial_name(d.entries@) {
            None => None,
            Some(n) => match lookup(d.entries@, parent()) {
                Some(PdfObject::Reference(p)) => if depth == 0 {
                    None
                } else {
                    match full_name(objs, p, (depth - 1) as nat) {
                        Some(pn) => Some(pn + seq!['.'] + n),
                        None => None,
                    }
                },
                _ => Some(n),
            },
        },
    }
}

/// The full name of field `id`, with as many parents as the document has objects:
/// a longer chain revisits an object, so it is a cycle and gives no name.
pub open spec fn field_full_name(objs: Seq<(ObjectId, PdfObject)>, id: ObjectId) -> Option<Seq<char>> {
    full_name(objs, id, objs.len())
}

/// The dictionary that an entry refers to, or the error that following it gives.
pub open spec fn deref_dict(objs: Seq<(ObjectId, PdfObject)>, o: Option<PdfObject>) -> Result<
    Dictionary,
    LoadError,
> {
    match o {
        None => Err(LoadError::DictionaryKeyNotFound),
        Some(PdfObject::Reference(id)) => match lookup(objs, id) {
            None => Err(LoadError::NoSuchReference(id)),
            Some(PdfObject::Dictionary(d)) => Ok(d),
            Some(_) => Err(LoadError::UnexpectedType),
        },
        Some(_) => Err(LoadError::NotAReference),
    }
}

/// The top-level `Fields` array, reached from the trailer through `Root` and `AcroForm`.
pub open spec fn top_fields(doc: PdfDocument) -> Result<Seq<PdfObject>, LoadError> {
    let objs = doc.objects@;
    match deref_dict(objs, lookup(doc.trailer.entries@, root())) {
        Err(e) => Err(e),
        Ok(catalog) => match deref_dict(objs, lookup(catalog.entries@, acro_form())) {
            Err(e) => Err(e),
            Ok(form) => match lookup(form.entries@, fields()) {
                None => Err(LoadError::DictionaryKeyNotFound),
                Some(PdfObject::Array(a)) => Ok(a@),
                Some(_) => Err(LoadError::UnexpectedType),
            },
        },
    }
}

/// An entry of the work queue: the identity it refers to, `None` for a non-reference.
pub open spec fn queue_item(o: PdfObject) -> Option<ObjectId> {
    match o {
        PdfObject::Reference(id) => Some(id),
        _ => None,
    }
}

/// The first top-level field is a typed field dictionary with a full name.
pub open spec fn first_field_named(doc: PdfDocument) -> bool {
    match top_fields(doc) {
        Ok(fs) => fs.len() > 0 && match queue_item(fs[0]) {
            Some(id) => {
                &&& dict_at(doc.objects@, id) is Some
                &&& lookup(dict_at(doc.objects@, id).unwrap().entries@, ft()) is Some
                &&& field_full_name(doc.objects@, id) is Some
            },
            None => false,
        },
        Err(_) => false,
    }
}

fn deref_dictionary<'a>(doc: &'a PdfDocument, o: Option<&PdfObject>) -> (r: Result<&'a Dictionary, LoadError>)
    ensures
        match r {
            Ok(d) => deref_dict(doc.objects@, owned(o)) == Ok::<Dictionary, LoadError>(*d),
            Err(e) => deref_dict(doc.objects@, owned(o)) == Err::<Dictionary, LoadError>(e),
        },
{
    match o {
        None => Err(LoadError::DictionaryKeyNotFound),
        Some(PdfObject::Reference(id)) => match doc.get_object(*id) {
            None => Err(LoadError::NoSuchReference(*id)),
            Some(PdfObject::Dictionary(d)) => Ok(d),
            Some(_) => Err(LoadError::UnexpectedType),
        },
        Some(_) => Err(LoadError::NotAReference),
    }
}

fn get_top_fields(doc: &PdfDocument) -> (r: Result<&Vec<PdfObject>, LoadError>)
    ensures
        match r {
            Ok(a) => top_fields(*doc) == Ok::<Seq<PdfObject>, LoadError>(a@),
            Err(e) => top_fields(*doc) == Err::<Seq<PdfObject>, LoadError>(e),
        },
{
    let kr = root_bytes();
    let catalog = match deref_dictionary(doc, doc.trailer.get(kr.as_slice())) {
        Ok(d) => d,
        Err(e) => return Err(e),
    };
    let ka = acro_form_bytes();
    let form = match deref_dictionary(doc, catalog.get(ka.as_slice())) {
        Ok(d) => d,
        Err(e) => return Err(e),
    };
    let kf = fields_bytes();
    match form.get(kf.as_slice()) {
        None => Err(LoadError::DictionaryKeyNotFound),
        Some(PdfObject::Array(a)) => Ok(a),
        Some(_) => Err(LoadError::UnexpectedType),
    }
}

/// The index with `name` bound to `id`: an entry already called `name` takes the
/// new identity in place, else a new entry is appended.
pub open spec fn index_set(m: Seq<(String, ObjectId)>, name: String, id: ObjectId) -> Seq<
    (String, ObjectId),
> {
    let i = last_index_of(m, name@);
    if i >= 0 {
        m.update(i, (m[i].0, id))
    } else {
        m.push((name, id))
    }
}

fn register(map: &mut Vec<(String, ObjectId)>, name: String, id: ObjectId)
    ensures
        final(map)@ == index_set(old(map)@, name, id),
{
    proof {
        lemma_last_index_of(map@, name@);
    }
    let mut i: usize = map.len();
    assert(map@.take(i as int) =~= map@);
    while i > 0
        invariant
            0 <= i <= map@.len(),
            map@ == old(map)@,
            last_index_of(map@, name@) == last_index_of(map@.take(i as int), name@),
        decreases i,
    {
        let ghost t = map@.take(i as int);
        assert(t.drop_last() =~= map@.take(i - 1));
        if map[i - 1].0 == name {
            let (k, _) = map.remove(i - 1);
            map.insert(i - 1, (k, id));
            assert(map@ =~= index_set(old(map)@, name, id));
            return;
        }
        i = i - 1;
    }
    map.push((name, id));
}

fn queue_item_of(o: &PdfObject) -> (r: Option<ObjectId>)
    ensures
        r == queue_item(*o),
{
    match o {
        PdfObject::Reference(id) => Some(*id),
        _ => None,
    }
}

/// Appends the queue entries of `items` to `queue`.
pub(crate) fn enqueue(queue: &mut Vec<Option<ObjectId>>, items: &Vec<PdfObject>)
    ensures
        final(queue)@ == old(queue)@ + items@.map_values(|o: PdfObject| queue_item(o)),
{
    let mut i: usize = 0;
    while i < items.len()
        invariant
            0 <= i <= items@.len(),
            queue@ == old(queue)@ + items@.take(i as int).map_values(|o: PdfObject| queue_item(o)),
        decreases items@.len() - i,
    {
        queue.push(queue_item_of(&items[i]));
        i = i + 1;
        assert(queue@ =~= old(queue)@ + items@.take(i as int).map_values(|o: PdfObject| queue_item(o)));
    }
    assert(items@.take(i as int) =~= items@);
}

/// The decoded partial name `T` of a field dictionary.
fn get_field_name(d: &Dictionary) -> (r: Option<String>)
    ensures
        r is Some <==> partial_name(d.entries@) is Some,
        r matches Some(s) ==> s@ == partial_name(d.entries@).unwrap(),
{
    let k = t_bytes();
    match d.get(k.as_slice()) {
        Some(PdfObject::String(b, _)) => from_pdf_utf16(b.as_slice()),
        _ => None,
    }
}

/// The full name of field `id`, following at most `depth` parents.
fn get_full_name(doc: &PdfDocument, id: ObjectId, depth: usize) -> (r: Option<String>)
    ensures
        r is Some <==> full_name(doc.objects@, id, depth as nat) is Some,
        r matches Some(s) ==> s@ == full_name(doc.objects@, id, depth as nat).unwrap(),
    decreases depth,
{
    let d = match doc.get_dictionary(id) {
        Some(d) => d,
        None => return None,
    };
    let name = match get_field_name(d) {
        Some(n) => n,
        None => return None,
    };
    let kp = parent_bytes();
    match d.get(kp.as_slice()) {
        Some(PdfObject::Reference(p)) => {
            if depth == 0 {
                return None;
            }
            match get_full_name(doc, *p, depth - 1) {
                Some(pn) => {
                    let mut v = chars_of(pn.as_str());
                    v.push('.');
                    let mut w = chars_of(name.as_str());
                    v.append(&mut w);
                    Some(string_from_chars(v.as_slice()))
                },
                None => None,
            }
        },
        _ => Some(name),
    }
}

/// The index of a loaded form names typed field dictionaries by their full names.
pub open spec fn names_fields(objs: Seq<(ObjectId, PdfObject)>, m: Seq<(String, ObjectId)>) -> bool {
    &&& forall|i: int, j: int| 0 <= i < j < m.len() ==> m[i].0@ != m[j].0@
    &&& forall|i: int|
        0 <= i < m.len() ==> {
            let d = #[trigger] dict_at(objs, m[i].1);
            &&& d is Some
            &&& lookup(d.unwrap().entries@, ft()) is Some
            &&& field_full_name(objs, m[i].1) == Some(m[i].0@)
        }
}

proof fn lemma_register_names_fields(
    objs: Seq<(ObjectId, PdfObject)>,
    m: Seq<(String, ObjectId)>,
    name: String,
    id: ObjectId,
)
    requires
        names_fields(objs, m),
        dict_at(objs, id) is Some,
        lookup(dict_at(objs, id).unwrap().entries@, ft()) is Some,
        field_full_name(objs, id) == Some(name@),
    ensures
        names_fields(objs, index_set(m, name, id)),
        index_set(m, name, id).len() > 0,
        index_set(m, name, id).len() >= m.len(),
{
    lemma_last_index_of(m, name@);
    let r = index_set(m, name, id);
    assert forall|i: int| 0 <= i < r.len() implies {
        let d = #[trigger] dict_at(objs, r[i].1);
        &&& d is Some
        &&& lookup(d.unwrap().entries@, ft()) is Some
        &&& field_full_name(objs, r[i].1) == Some(r[i].0@)
    } by {
        if i < m.len() && r[i] != m[i] {
            assert(r[i].1 == id);
        } else if i == m.len() {
            assert(r[i] == (name, id));
        } else {
            assert(dict_at(objs, m[i].1) is Some);
        }
    }
}

/// The children of object `p`: the `Kids` array of its dictionary.
pub open spec fn kid_list(objs: Seq<(ObjectId, PdfObject)>, p: ObjectId) -> Seq<PdfObject> {
    match dict_at(objs, p) {
        Some(d) => match lookup(d.entries@, kids()) {
            Some(PdfObject::Array(a)) => a@,
            _ => Seq::empty(),
        },
        None => Seq::empty(),
    }
}

/// Object `id` is reached from the top-level fields through at most `depth`
/// `Kids` arrays.
pub open spec fn reaches(doc: PdfDocument, id: ObjectId, depth: nat) -> bool
    decreases depth,
{
    match top_fields(doc) {
        Err(_) => false,
        Ok(fs) => if depth == 0 {
            fs.contains(PdfObject::Reference(id))
        } else {
            reaches(doc, id, (depth - 1) as nat) || exists|p: ObjectId|
                reaches(doc, p, (depth - 1) as nat) && #[trigger] kid_list(doc.objects@, p).contains(
                    PdfObject::Reference(id),
                )
        },
    }
}

/// Entry `o` is met by the walk: it is an entry of the top-level `Fields` array,
/// or of the `Kids` of an object reached through fewer arrays.
pub open spec fn meets(doc: PdfDocument, o: PdfObject, depth: nat) -> bool {
    match top_fields(doc) {
        Err(_) => false,
        Ok(fs) => if depth == 0 {
            fs.contains(o)
        } else {
            exists|p: ObjectId|
                reaches(doc, p, (depth - 1) as nat) && #[trigger] kid_list(doc.objects@, p).contains(o)
        },
    }
}

/// Every entry that the walk meets refers to an object of the document.
pub open spec fn walk_resolves(doc: PdfDocument) -> bool {
    forall|o: PdfObject, k: nat|
        #[trigger] meets(doc, o, k) ==> o is Reference && lookup(doc.objects@, o->Reference_0) is Some
}

/// Every entry that the walk meets is a reference.
pub open spec fn walk_all_references(doc: PdfDocument) -> bool {
    forall|o: PdfObject, k: nat| #[trigger] meets(doc, o, k) ==> o is Reference
}

/// Every reference that the walk meets refers to an object of the document.
pub open spec fn walk_references_resolve(doc: PdfDocument) -> bool {
    forall|o: PdfObject, k: nat|
        #[trigger] meets(doc, o, k) && o is Reference ==> lookup(doc.objects@, o->Reference_0) is Some
}

/// The walk meets a reference to `id`.
pub open spec fn meets_reference(doc: PdfDocument, id: ObjectId) -> bool {
    exists|k: nat| meets(doc, PdfObject::Reference(id), k)
}

/// A queue entry that stands for an entry met by the walk.
pub open spec fn from_walk(doc: PdfDocument, q: Option<ObjectId>) -> bool {
    exists|o: PdfObject, k: nat| #[trigger] meets(doc, o, k) && queue_item(o) == q
}

proof fn lemma_met_reference_reaches(doc: PdfDocument, id: ObjectId, k: nat)
    requires
        meets(doc, PdfObject::Reference(id), k),
    ensures
        reaches(doc, id, k),
{
}

/// Object `id` is reached from the top-level fields.
pub open spec fn reached(doc: PdfDocument, id: ObjectId) -> bool {
    exists|k: nat| reaches(doc, id, k)
}

/// A typed field dictionary with a full name: what the index holds.
pub open spec fn indexable(objs: Seq<(ObjectId, PdfObject)>, id: ObjectId) -> bool {
    &&& dict_at(objs, id) is Some
    &&& lookup(dict_at(objs, id).unwrap().entries@, ft()) is Some
    &&& field_full_name(objs, id) is Some
}

pub open spec fn index_names(m: Seq<(String, ObjectId)>) -> Seq<Seq<char>> {
    m.map_values(|e: (String, ObjectId)| e.0@)
}

proof fn lemma_index_set_names(m: Seq<(String, ObjectId)>, name: String, id: ObjectId)
    ensures
        index_names(index_set(m, name, id)).contains(name@),
        forall|x: Seq<char>| index_names(m).contains(x) ==> index_names(index_set(m, name, id)).contains(x),
{
    lemma_last_index_of(m, name@);
    let i = last_index_of(m, name@);
    let r = index_set(m, name, id);
    if i >= 0 {
        assert(index_names(r) =~= index_names(m));
        assert(index_names(m)[i] == name@);
    } else {
        assert(index_names(r) =~= index_names(m).push(name@));
        assert(index_names(r)[m.len() as int] == name@);
        assert forall|x: Seq<char>| index_names(m).contains(x) implies index_names(r).contains(x) by {
            let w = choose|w: int| 0 <= w < index_names(m).len() && index_names(m)[w] == x;
            assert(index_names(r)[w] == x);
        }
    }
}

proof fn lemma_reached_visited(
    doc: PdfDocument,
    vis: Set<ObjectId>,
    queue: Seq<Option<ObjectId>>,
    id: ObjectId,
    k: nat,
)
    requires
        top_fields(doc) is Ok,
        top_fields(doc)->Ok_0.len() <= queue.len(),
        forall|j: int| 0 <= j < top_fields(doc)->Ok_0.len() ==> queue[j] == queue_item(#[trigger] top_fields(doc)->Ok_0[j]),
        forall|j: int| 0 <= j < queue.len() ==> (#[trigger] queue[j]) is Some && vis.contains(queue[j]->Some_0),
        forall|x: ObjectId, j: int|
            vis.contains(x) && 0 <= j < kid_list(doc.objects@, x).len() ==> queue.contains(
                queue_item(#[trigger] kid_list(doc.objects@, x)[j]),
            ),
        reaches(doc, id, k),
    ensures
        vis.contains(id),
    decreases k,
{
    let fs = top_fields(doc)->Ok_0;
    if k == 0 {
        let j = choose|j: int| 0 <= j < fs.len() && fs[j] == PdfObject::Reference(id);
        assert(queue[j] == Some(id));
    } else if reaches(doc, id, (k - 1) as nat) {
        lemma_reached_visited(doc, vis, queue, id, (k - 1) as nat);
    } else {
        let p = choose|p: ObjectId|
            reaches(doc, p, (k - 1) as nat) && #[trigger] kid_list(doc.objects@, p).contains(
                PdfObject::Reference(id),
            );
        lemma_reached_visited(doc, vis, queue, p, (k - 1) as nat);
        let j = choose|j: int| 0 <= j < kid_list(doc.objects@, p).len() && kid_list(doc.objects@, p)[j] == PdfObject::Reference(id);
        assert(queue.contains(queue_item(kid_list(doc.objects@, p)[j])));
        let w = choose|w: int| 0 <= w < queue.len() && queue[w] == Some(id);
        assert(queue[w] is Some);
    }
}

pub open spec fn queue_items(s: Seq<PdfObject>) -> Seq<Option<ObjectId>> {
    s.map_values(|o: PdfObject| queue_item(o))
}

/// The queue that a walk visiting the objects `order` fills: the entries of the
/// top-level `Fields` array, then the `Kids` entries of each visited object in turn.
pub open spec fn walk_queue(doc: PdfDocument, order: Seq<ObjectId>) -> Seq<Option<ObjectId>>
    decreases order.len(),
{
    if order.len() == 0 {
        queue_items(top_fields(doc)->Ok_0)
    } else {
        walk_queue(doc, order.drop_last()) + queue_items(kid_list(doc.objects@, order.last()))
    }
}

/// The distinct identities that queue `q` holds, in order of first appearance.
pub open spec fn first_seen(q: Seq<Option<ObjectId>>) -> Seq<ObjectId>
    decreases q.len(),
{
    if q.len() == 0 {
        Seq::empty()
    } else {
        let r = first_seen(q.drop_last());
        match q.last() {
            Some(id) => if r.contains(id) {
                r
            } else {
                r.push(id)
            },
            None => r,
        }
    }
}

/// `order` is the breadth-first order of the walk: it holds objects reached from
/// the top-level fields, each visited at the first appearance of its identity in
/// the queue that the visits fill.
pub open spec fn bfs_order(doc: PdfDocument, order: Seq<ObjectId>) -> bool {
    &&& first_seen(walk_queue(doc, order)) == order
    &&& forall|i: int| 0 <= i < order.len() ==> reached(doc, #[trigger] order[i])
}

/// The last object of `order` that is a typed field with full name `n`.
pub open spec fn last_named(objs: Seq<(ObjectId, PdfObject)>, order: Seq<ObjectId>, n: Seq<char>) -> Option<
    ObjectId,
>
    decreases order.len(),
{
    if order.len() == 0 {
        None
    } else if indexable(objs, order.last()) && field_full_name(objs, order.last()) == Some(n) {
        Some(order.last())
    } else {
        last_named(objs, order.drop_last(), n)
    }
}

/// Each name of the index belongs to the last field in breadth-first order that has it.
pub open spec fn later_wins(doc: PdfDocument, f: Form) -> bool {
    exists|order: Seq<ObjectId>|
        #[trigger] bfs_order(doc, order) && forall|i: int|
            0 <= i < f.index().len() ==> last_named(doc.objects@, order, #[trigger] f.index()[i].0@) == Some(
                f.index()[i].1,
            )
}

proof fn lemma_last_named_push(objs: Seq<(ObjectId, PdfObject)>, order: Seq<ObjectId>, id: ObjectId)
    ensures
        forall|n: Seq<char>|
            #[trigger] last_named(objs, order.push(id), n) == if indexable(objs, id) && field_full_name(objs, id)
                == Some(n) {
                Some(id)
            } else {
                last_named(objs, order, n)
            },
{
    assert(order.push(id).drop_last() =~= order);
}

/// `f` is what loading `doc` gives: its `Fields` array is reachable; its index
/// names typed field dictionaries by their full names, and holds exactly the full
/// names of the typed fields that the walk reaches; and it is not empty where the
/// first top-level field is a typed dictionary with a full name.
pub open spec fn loaded(doc: PdfDocument, f: Form) -> bool {
    &&& top_fields(doc) is Ok
    &&& f.wf()
    &&& f.objects() == doc.objects@
    &&& f.trailer() == doc.trailer
    &&& names_fields(f.objects(), f.index())
    &&& first_field_named(doc) ==> f.index().len() > 0
    &&& forall|id: ObjectId, k: nat|
        #[trigger] reaches(doc, id, k) && indexable(doc.objects@, id) ==> f.names().contains(
            field_full_name(doc.objects@, id).unwrap(),
        )
    &&& forall|i: int| 0 <= i < f.index().len() ==> reached(doc, #[trigger] f.index()[i].1)
    &&& later_wins(doc, f)
}

impl Form {
    /// Finds the fields of a document: a breadth-first walk from the `Fields` array
    /// of its AcroForm through the `Kids` arrays. Each dictionary with a field type
    /// `FT` is indexed under its full name, where that name can be decoded. A
    /// missing or mistyped entry on the way to `Fields` fails the load, as does an
    /// entry of the walk that is not a reference or refers to no object. Each
    /// object is visited once, so that a cycle of `Kids` ends the walk.
    pub fn load_doc(doc: PdfDocument) -> (r: Result<Form, LoadError>)
        ensures
            top_fields(doc) is Err ==> r is Err && r->Err_0 == top_fields(doc)->Err_0,
            r matches Ok(f) ==> loaded(doc, f),
            top_fields(doc) is Ok ==> (r is Ok <==> walk_resolves(doc)),
            top_fields(doc) is Ok && r is Err ==> r->Err_0 is NotAReference || r->Err_0 is NoSuchReference,
            r matches Err(LoadError::NotAReference) ==> (top_fields(doc) is Ok ==> !walk_all_references(doc)),
            r matches Err(LoadError::NoSuchReference(id)) ==> (top_fields(doc) is Ok ==> meets_reference(doc, id)),
            top_fields(doc) is Ok && !walk_all_references(doc) && walk_references_resolve(doc) ==> r matches Err(
                LoadError::NotAReference,
            ),
            top_fields(doc) is Ok && walk_all_references(doc) && !walk_references_resolve(doc) ==> r matches Err(
                LoadError::NoSuchReference(_),
            ),
            r matches Err(LoadError::NoSuchReference(id)) ==> lookup(doc.objects@, id) is None,
    {
        let ghost objs = doc.objects@;
        let n: usize = doc.objects.len();
        let mut queue: Vec<Option<ObjectId>> = Vec::new();
        match get_top_fields(&doc) {
            Ok(top) => enqueue(&mut queue, top),
            Err(e) => return Err(e),
        }
        let ghost first_ok = first_field_named(doc);
        let ghost q0 = queue@;
        let ghost fs = top_fields(doc)->Ok_0;
        assert(q0 =~= fs.map_values(|o: PdfObject| queue_item(o)));
        let ghost mut vis_ids: Set<ObjectId> = Set::empty();
        let ghost mut order: Seq<ObjectId> = Seq::empty();
        assert(queue@ =~= walk_queue(doc, order));
        assert(queue@.take(0) =~= Seq::<Option<ObjectId>>::empty());
        assert forall|j: int| 0 <= j < queue@.len() implies from_walk(doc, #[trigger] queue@[j]) by {
            assert(meets(doc, fs[j], 0));
        }
        let mut seen: Vec<bool> = Vec::new();
        while seen.len() < n
            invariant
                seen@.len() <= n,
                forall|p: int| 0 <= p < seen@.len() ==> !seen@[p],
            decreases n - seen@.len(),
        {
            seen.push(false);
        }
        let ghost mut vis: Set<int> = Set::empty();
        let mut map: Vec<(String, ObjectId)> = Vec::new();
        let mut head: usize = 0;
        proof {
            lemma_int_range(0, n as int);
        }
        while head < queue.len()
            invariant
                objs == doc.objects@,
                top_fields(doc) is Ok,
                n == objs.len(),
                seen@.len() == n,
                forall|p: int| 0 <= p < n ==> (seen@[p] <==> vis.contains(p)),
                vis.subset_of(set_int_range(0, n as int)),
                set_int_range(0, n as int).finite(),
                set_int_range(0, n as int).len() == n,
                vis.finite(),
                vis.len() <= n,
                head <= queue@.len(),
                head == 0 ==> vis == Set::<int>::empty(),
                queue@.len() >= q0.len(),
                q0.len() > 0 ==> queue@[0] == q0[0],
                first_ok ==> q0.len() > 0 && q0[0] is Some && {
                    let id = q0[0]->Some_0;
                    &&& dict_at(objs, id) is Some
                    &&& lookup(dict_at(objs, id).unwrap().entries@, ft()) is Some
                    &&& field_full_name(objs, id) is Some
                },
                names_fields(objs, map@),
                first_ok && head >= 1 ==> map@.len() > 0,
                fs == top_fields(doc)->Ok_0,
                q0.len() == fs.len(),
                forall|j: int| 0 <= j < fs.len() ==> queue@[j] == queue_item(#[trigger] fs[j]),
                forall|p: int| 0 <= p < n && #[trigger] seen@[p] ==> vis_ids.contains(objs[p].0),
                forall|x: ObjectId, j: int|
                    vis_ids.contains(x) && 0 <= j < kid_list(objs, x).len() ==> queue@.contains(
                        queue_item(#[trigger] kid_list(objs, x)[j]),
                    ),
                forall|j: int| 0 <= j < head ==> (#[trigger] queue@[j]) is Some && vis_ids.contains(queue@[j]->Some_0),
                forall|x: ObjectId|
                    #[trigger] vis_ids.contains(x) && indexable(objs, x) ==> index_names(map@).contains(
                        field_full_name(objs, x).unwrap(),
                    ),
                forall|j: int| 0 <= j < queue@.len() ==> from_walk(doc, #[trigger] queue@[j]),
                forall|x: ObjectId| #[trigger] vis_ids.contains(x) ==> exists|k: nat| reaches(doc, x, k),
                forall|x: ObjectId| #[trigger] vis_ids.contains(x) ==> lookup(objs, x) is Some,
                forall|i: int| 0 <= i < map@.len() ==> vis_ids.contains(#[trigger] map@[i].1),
                queue@ == walk_queue(doc, order),
                first_seen(queue@.take(head as int)) == order,
                forall|x: ObjectId| #[trigger] vis_ids.contains(x) <==> order.contains(x),
                forall|x: ObjectId| #[trigger] vis_ids.contains(x) ==> seen@[last_index_of(objs, x)],
                forall|i: int|
                    0 <= i < map@.len() ==> last_named(objs, order, #[trigger] map@[i].0@) == Some(map@[i].1),
            decreases n - vis.len(), queue@.len() - head,
        {
            assert(from_walk(doc, queue@[head as int]));
            let id = match queue[head] {
                Some(id) => id,
                None => {
                    assert(!walk_resolves(doc));
                    assert(!walk_all_references(doc)) by {
                        let (o, k) = choose|o: PdfObject, k: nat| #[trigger] meets(doc, o, k) && queue_item(o) == None::<ObjectId>;
                        assert(meets(doc, o, k) && !(o is Reference));
                    }
                    return Err(LoadError::NotAReference);
                },
            };
            let ghost k_id: nat = choose|k: nat| #[trigger] meets(doc, PdfObject::Reference(id), k);
            proof {
                let (o, k) = choose|o: PdfObject, k: nat| #[trigger] meets(doc, o, k) && queue_item(o) == Some(id);
                assert(o == PdfObject::Reference(id));
                assert(meets(doc, PdfObject::Reference(id), k_id));
                lemma_met_reference_reaches(doc, id, k_id);
            }
            proof {
                lemma_last_index_of(objs, id);
            }
            let pos = match doc.find_object(id) {
                Some(p) => p,
                None => {
                    assert(!walk_resolves(doc));
                    assert(meets_reference(doc, id));
                    assert(!walk_references_resolve(doc)) by {
                        assert(meets(doc, PdfObject::Reference(id), k_id));
                    }
                    return Err(LoadError::NoSuchReference(id));
                },
            };
            let ghost was_first = head == 0 && first_ok;
            proof {
                if was_first {
                    assert(lookup(objs, id) == Some(objs[pos as int].1));
                    assert(!vis.contains(pos as int));
                    assert(!seen@[pos as int]);
                }
            }
            let ghost q_before = queue@;
            let ghost m_before = map@;
            let ghost vis_before = vis_ids;
            let ghost order_before = order;
            let ghost seen_before = seen@;
            proof {
                assert(queue@.take(head + 1).drop_last() =~= queue@.take(head as int));
                assert(queue@.take(head + 1).last() == Some(id));
                assert(objs[pos as int].0 == id);
            }
            if !seen[pos] {
                seen[pos] = true;
                proof {
                    vis = vis.insert(pos as int);
                    lemma_len_subset(vis, set_int_range(0, n as int));
                    vis_ids = vis_ids.insert(id);
                    assert(!order.contains(id)) by {
                        if order.contains(id) {
                            assert(vis_before.contains(id));
                        }
                    }
                    order = order.push(id);
                    assert(order.drop_last() =~= order_before);
                    lemma_last_named_push(objs, order_before, id);
                }
                match &doc.objects[pos].1 {
                    PdfObject::Dictionary(d) => {
                        assert(dict_at(objs, id) == Some(*d));
                        let kft = ft_bytes();
                        if d.has(kft.as_slice()) {
                            match get_full_name(&doc, id, n) {
                                Some(name) => {
                                    proof {
                                        lemma_register_names_fields(objs, map@, name, id);
                                        lemma_index_set_names(map@, name, id);
                                    }
                                    register(&mut map, name, id);
                                    proof {
                                        lemma_last_index_of(m_before, name@);
                                        let j = last_index_of(m_before, name@);
                                        assert forall|i: int| 0 <= i < map@.len() implies last_named(
                                            objs,
                                            order,
                                            #[trigger] map@[i].0@,
                                        ) == Some(map@[i].1) by {
                                            if j >= 0 {
                                                assert(map@ == m_before.update(j, (m_before[j].0, id)));
                                                if i != j {
                                                    assert(map@[i] == m_before[i]);
                                                    if map@[i].0@ == name@ {
                                                        assert(m_before[i].0@ == m_before[j].0@);
                                                    }
                                                }
                                            } else {
                                                assert(map@ == m_before.push((name, id)));
                                                if i < m_before.len() {
                                                    assert(map@[i] == m_before[i]);
                                                }
                                            }
                                        }
                                        assert forall|i: int| 0 <= i < map@.len() implies vis_ids.contains(#[trigger] map@[i].1) by {
                                            if i < m_before.len() && map@[i].1 != m_before[i].1 {
                                                assert(map@[i].1 == id);
                                            }
                                        }
                                    }
                                },
                                None => {
                                    assert(!was_first);
                                },
                            }
                        } else {
                            assert(!was_first);
                        }
                        let kk = kids_bytes();
                        match d.get(kk.as_slice()) {
                            Some(PdfObject::Array(ks)) => {
                                enqueue(&mut queue, ks);
                                proof {
                                    assert(kid_list(objs, id) == ks@);
                                    assert forall|j: int| 0 <= j < queue@.len() implies from_walk(doc, #[trigger] queue@[j]) by {
                                        if j < q_before.len() {
                                            assert(queue@[j] == q_before[j]);
                                        } else {
                                            let o = ks@[j - q_before.len()];
                                            assert(queue@[j] == queue_item(o));
                                            assert(kid_list(objs, id).contains(o));
                                            assert(meets(doc, o, k_id + 1));
                                        }
                                    }
                                    assert forall|j: int| 0 <= j < ks@.len() implies queue@.contains(
                                        queue_item(#[trigger] ks@[j]),
                                    ) by {
                                        assert(queue@[q_before.len() + j] == queue_item(ks@[j]));
                                    }
                                }
                            },
                            _ => {
                                assert(kid_list(objs, id) =~= Seq::<PdfObject>::empty());
                            },
                        }
                    },
                    _ => {
                        assert(!was_first);
                    },
                }
            }
            proof {
                assert(queue@.take(head + 1) =~= q_before.take(head + 1));
                if !vis_before.contains(id) {
                    assert(order.drop_last() =~= order_before);
                    assert(walk_queue(doc, order) == walk_queue(doc, order_before) + queue_items(kid_list(objs, id)));
                    assert(queue@ =~= walk_queue(doc, order));
                    assert forall|x: ObjectId| #[trigger] vis_ids.contains(x) implies seen@[last_index_of(objs, x)] by {
                        if x != id {
                            assert(vis_before.contains(x));
                            lemma_last_index_of(objs, x);
                            assert(seen_before[last_index_of(objs, x)]);
                            assert(last_index_of(objs, x) != pos);
                        }
                    }
                    assert forall|x: ObjectId| #[trigger] vis_ids.contains(x) <==> order.contains(x) by {
                        if order.contains(x) && x != id {
                            let w = choose|w: int| 0 <= w < order.len() && order[w] == x;
                            assert(order_before[w] == x);
                        }
                        if vis_before.contains(x) {
                            let w = choose|w: int| 0 <= w < order_before.len() && order_before[w] == x;
                            assert(order[w] == x);
                        }
                        if x == id {
                            assert(order[order.len() - 1] == id);
                        }
                    }
                }
                assert forall|x: ObjectId| #[trigger] vis_ids.contains(x) implies exists|k: nat| reaches(doc, x, k) by {
                    if x == id {
                        assert(reaches(doc, id, k_id));
                    }
                }
                assert(vis_ids.contains(id)) by {
                    assert(objs[pos as int].0 == id);
                }
                assert forall|x: ObjectId, j: int|
                    vis_ids.contains(x) && 0 <= j < kid_list(objs, x).len() implies queue@.contains(
                        queue_item(#[trigger] kid_list(objs, x)[j]),
                    ) by {
                    if x != id || vis_before.contains(x) {
                        if vis_before.contains(x) {
                            let w = choose|w: int| 0 <= w < q_before.len() && q_before[w] == queue_item(kid_list(objs, x)[j]);
                            assert(queue@[w] == q_before[w]);
                        }
                    }
                }
                assert forall|x: ObjectId|
                    #[trigger] vis_ids.contains(x) && indexable(objs, x) implies index_names(map@).contains(
                        field_full_name(objs, x).unwrap(),
                    ) by {
                    if vis_before.contains(x) {
                        assert(index_names(m_before).contains(field_full_name(objs, x).unwrap()));
                    }
                }
                assert forall|j: int| 0 <= j < head + 1 implies (#[trigger] queue@[j]) is Some && vis_ids.contains(queue@[j]->Some_0) by {
                    if j < head {
                        assert(queue@[j] == q_before[j]);
                    }
                }
            }
            head = head + 1;
        }
        proof {
            assert forall|id: ObjectId, k: nat|
                #[trigger] reaches(doc, id, k) && indexable(objs, id) implies index_names(map@).contains(
                    field_full_name(objs, id).unwrap(),
                ) by {
                lemma_reached_visited(doc, vis_ids, queue@, id, k);
            }
        }
        proof {
            assert forall|o: PdfObject, k: nat| #[trigger] meets(doc, o, k) implies o is Reference && lookup(
                objs,
                o->Reference_0,
            ) is Some by {
                let w = if k == 0 {
                    choose|j: int| 0 <= j < fs.len() && fs[j] == o
                } else {
                    let p = choose|p: ObjectId|
                        reaches(doc, p, (k - 1) as nat) && #[trigger] kid_list(doc.objects@, p).contains(o);
                    lemma_reached_visited(doc, vis_ids, queue@, p, (k - 1) as nat);
                    let j = choose|j: int| 0 <= j < kid_list(objs, p).len() && kid_list(objs, p)[j] == o;
                    assert(queue@.contains(queue_item(kid_list(objs, p)[j])));
                    choose|w: int| 0 <= w < queue@.len() && queue@[w] == queue_item(o)
                };
                assert(queue@[w] == queue_item(o));
                assert(queue@[w] is Some);
            }
            assert(walk_resolves(doc));
        }
        proof {
            assert(queue@.take(head as int) =~= queue@);
            assert forall|i: int| 0 <= i < order.len() implies reached(doc, #[trigger] order[i]) by {
                assert(order.contains(order[i]));
                assert(vis_ids.contains(order[i]));
            }
            assert(bfs_order(doc, order));
        }
        let f = Form { doc, form_fields: map };
        assert(f.names() =~= index_names(map@));
        assert(later_wins(doc, f)) by {
            assert forall|i: int| 0 <= i < f.index().len() implies last_named(doc.objects@, order, #[trigger] f.index()[i].0@) == Some(
                f.index()[i].1,
            ) by {
                assert(f.index()[i] == map@[i]);
            }
        }
        assert forall|i: int| 0 <= i < f.index().len() implies reached(doc, #[trigger] f.index()[i].1) by {
            assert(f.index()[i] == map@[i]);
            assert(vis_ids.contains(map@[i].1));
        }
        assert(f.wf()) by {
            assert forall|i: int| 0 <= i < f.index().len() implies {
                let d = #[trigger] dict_at(f.objects(), f.index()[i].1);
                &&& d is Some
                &&& lookup(d.unwrap().entries@, ft()) is Some
            } by {
                assert(dict_at(objs, map@[i].1) is Some);
            }
        }
        Ok(f)
    }
}

} // verus!
