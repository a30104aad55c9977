//! The AcroForm field engine: discovery, classification, state and mutation.

use vstd::prelude::*;
use crate::keys::{btn, btn_bytes, ch, ch_bytes, ff, ff_bytes, ft, ft_bytes};
use crate::object::{objects_bind, binds, bytes_equal, dict_at, last_index_of, lemma_last_index_of, lookup, Dictionary, ObjectId, PdfDocument, PdfObject};

verus! {

/// Button flag: the button is a set of radio buttons.
pub const RADIO: u32 = 0x8000;

/// Button flag: the button is a push button.
pub const PUSHBUTTON: u32 = 0x10000;

/// Choice flag: the choice field is a combo box.
pub const COMBO: u32 = 0x20000;

/// Choice flag: more than one option may be selected.
pub const MULTISELECT: u32 = 0x200000;

/// The kinds of fillable form fields.
#[derive(Clone, Copy, Debug, PartialEq, Eq, Structural)]
pub enum FieldType {
    Button,
    Radio,
    CheckBox,
    ListBox,
    ComboBox,
    Text,
}

/// `std::io::Error`, carried opaquely by `LoadError::IoError`.
#[verifier::external_type_specification]
#[verifier::external_body]
pub struct ExIoError(std::io::Error);

/// Errors that may occur while loading a form.
#[derive(Debug)]
pub enum LoadError {
    /// An I/O error.
    IoError(std::io::Error),
    /// A dictionary key that must be present in order to find the fields was not present.
    DictionaryKeyNotFound,
    /// The reference did not point to any object.
    NoSuchReference(ObjectId),
    /// An element that was expected to be a reference was not a reference.
    NotAReference,
    /// A value that must be of a certain type was not of that type.
    UnexpectedType,
}

/// Errors that may occur while setting the value of a field.
#[derive(Clone, Copy, Debug, PartialEq, Eq, Structural)]
pub enum ValueError {
    /// The method used to set the state does not fit the type of the field.
    TypeMismatch,
    /// One or more selected values are not valid choices.
    InvalidSelection,
    /// Several values were selected where only one is allowed.
    TooManySelected,
}

/// An error while setting the value of a named field from a given input.
#[derive(Debug)]
pub struct FieldError {
    pub error: ValueError,
    pub field: String,
    pub value: String,
}

impl FieldError {
    pub fn new(error: ValueError, field: String, value: String) -> (r: FieldError)
        ensures
            r.error == error,
            r.field@ == field@,
            r.value@ == value@,
    {
        FieldError { error, field, value }
    }
}

/// The flags of a field: its integer `Ff` entry truncated to 32 bits, 0 where there is none.
pub open spec fn field_flags(d: Seq<(Vec<u8>, PdfObject)>) -> u32 {
    match lookup(d, ff()) {
        Some(PdfObject::Integer(n)) => n as u32,
        _ => 0,
    }
}

/// The type of a field with dictionary entries `d`, from its `FT` name and its flags.
pub open spec fn field_type_of(d: Seq<(Vec<u8>, PdfObject)>) -> FieldType {
    let f = field_flags(d);
    match lookup(d, ft()) {
        Some(PdfObject::Name(t)) => if t@ == btn() {
            if f & RADIO != 0 {
                FieldType::Radio
            } else if f & PUSHBUTTON != 0 {
                FieldType::Button
            } else {
                FieldType::CheckBox
            }
        } else if t@ == ch() {
            if f & COMBO != 0 {
                FieldType::ComboBox
            } else {
                FieldType::ListBox
            }
        } else {
            FieldType::Text
        },
        _ => FieldType::Text,
    }
}

pub(crate) fn flags_of(d: &Dictionary) -> (r: u32)
    ensures
        r == field_flags(d.entries@),
{
    let k = ff_bytes();
    match d.get(k.as_slice()) {
        Some(PdfObject::Integer(n)) => *n as u32,
        _ => 0,
    }
}

/// The type of a field, from its dictionary.
pub fn type_of_dict(d: &Dictionary) -> (r: FieldType)
    ensures
        r == field_type_of(d.entries@),
{
    let f = flags_of(d);
    let k = ft_bytes();
    match d.get(k.as_slice()) {
        Some(PdfObject::Name(t)) => {
            let b = btn_bytes();
            let c = ch_bytes();
            if bytes_equal(t.as_slice(), b.as_slice()) {
                if f & RADIO != 0 {
                    FieldType::Radio
                } else if f & PUSHBUTTON != 0 {
                    FieldType::Button
                } else {
                    FieldType::CheckBox
                }
            } else if bytes_equal(t.as_slice(), c.as_slice()) {
                if f & COMBO != 0 {
                    FieldType::ComboBox
                } else {
                    FieldType::ListBox
                }
            } else {
                FieldType::Text
            }
        },
        _ => FieldType::Text,
    }
}

/// The texts of a sequence of strings.
pub open spec fn string_views(s: Seq<String>) -> Seq<Seq<char>> {
    s.map_values(|x: String| x@)
}

/// Binding a key other than `FT` and `Ff` in one object keeps every dictionary a
/// dictionary, with the same `FT` entry and the same field type.
pub proof fn lemma_bind_keeps_types(
    old: Seq<(ObjectId, PdfObject)>,
    new: Seq<(ObjectId, PdfObject)>,
    id: ObjectId,
    k: Seq<u8>,
    v: Option<PdfObject>,
)
    requires
        objects_bind(old, new, id, k, v),
        k != ft(),
        k != ff(),
    ensures
        forall|id2: ObjectId|
            #[trigger] dict_at(old, id2) is Some ==> {
                &&& dict_at(new, id2) is Some
                &&& lookup(dict_at(new, id2).unwrap().entries@, ft()) == lookup(
                    dict_at(old, id2).unwrap().entries@,
                    ft(),
                )
                &&& field_type_of(dict_at(new, id2).unwrap().entries@) == field_type_of(
                    dict_at(old, id2).unwrap().entries@,
                )
            },
{
    assert forall|id2: ObjectId| #[trigger] dict_at(old, id2) is Some implies {
        &&& dict_at(new, id2) is Some
        &&& lookup(dict_at(new, id2).unwrap().entries@, ft()) == lookup(
            dict_at(old, id2).unwrap().entries@,
            ft(),
        )
        &&& field_type_of(dict_at(new, id2).unwrap().entries@) == field_type_of(
            dict_at(old, id2).unwrap().entries@,
        )
    } by {
        if id2 != id {
            assert(lookup(new, id2) == lookup(old, id2));
        } else {
            let d1 = dict_at(old, id).unwrap().entries@;
            let d2 = dict_at(new, id).unwrap().entries@;
            assert(binds(d1, d2, k, v));
            assert(lookup(d2, ft()) == lookup(d1, ft()));
            assert(lookup(d2, ff()) == lookup(d1, ff()));
        }
    }
}

/// Position of the last entry of `m` whose name is `name`.
pub fn find_named<V>(m: &Vec<(String, V)>, name: &String) -> (r: Option<usize>)
    ensures
        match r {
            Some(i) => i as int == last_index_of(m@, name@),
            None => last_index_of(m@, name@) == -1,
        },
        r matches Some(i) ==> i < m@.len() && m@[i as int].0@ == name@,
{
    proof {
        lemma_last_index_of(m@, name@);
    }
    let mut i: usize = m.len();
    assert(m@.take(i as int) =~= m@);
    while i > 0
        invariant
            0 <= i <= m@.len(),
            last_index_of(m@, name@) == last_index_of(m@.take(i as int), name@),
        decreases i,
    {
        let ghost t = m@.take(i as int);
        assert(t.drop_last() =~= m@.take(i - 1));
        if m[i - 1].0 == *name {
            return Some(i - 1);
        }
        i = i - 1;
    }
    None
}

/// A PDF form whose fillable fields have been found.
pub struct Form {
    pub(crate) doc: PdfDocument,
    pub(crate) form_fields: Vec<(String, ObjectId)>,
}

impl Form {
    /// The objects of the document.
    pub open(crate) spec fn objects(&self) -> Seq<(ObjectId, PdfObject)> {
        self.doc.objects@
    }

    /// The trailer of the document.
    pub open(crate) spec fn trailer(&self) -> Dictionary {
        self.doc.trailer
    }

    /// The field index: full field names and the objects that hold them.
    pub open(crate) spec fn index(&self) -> Seq<(String, ObjectId)> {
        self.form_fields@
    }

    /// The names of the index.
    pub open spec fn names(&self) -> Seq<Seq<char>> {
        self.index().map_values(|e: (String, ObjectId)| e.0@)
    }

    pub open spec fn field_id(&self, name: Seq<char>) -> Option<ObjectId> {
        lookup(self.index(), name)
    }

    pub open spec fn has_field(&self, name: Seq<char>) -> bool {
        self.field_id(name) is Some
    }

    /// The dictionary of the field called `name`.
    pub open spec fn field_dict(&self, name: Seq<char>) -> Option<Dictionary> {
        match self.field_id(name) {
            Some(id) => dict_at(self.objects(), id),
            None => None,
        }
    }

    /// The entries of the dictionary of a field that the index holds.
    pub open spec fn entries(&self, name: Seq<char>) -> Seq<(Vec<u8>, PdfObject)> {
        self.field_dict(name).unwrap().entries@
    }

    /// The index names each field once, and each indexed field is a dictionary with a type.
    pub open spec fn wf(&self) -> bool {
        &&& forall|i: int, j: int|
            0 <= i < j < self.index().len() ==> self.index()[i].0@ != self.index()[j].0@
        &&& forall|i: int|
            0 <= i < self.index().len() ==> {
                let d = #[trigger] dict_at(self.objects(), self.index()[i].1);
                &&& d is Some
                &&& lookup(d.unwrap().entries@, ft()) is Some
            }
    }

    /// Another form with the same index, whose objects keep every dictionary a
    /// dictionary with the same `FT` entry, is well formed too.
    pub proof fn lemma_wf_kept(&self, new: &Form)
        requires
            self.wf(),
            new.index() == self.index(),
            forall|id2: ObjectId|
                #[trigger] dict_at(self.objects(), id2) is Some ==> {
                    &&& dict_at(new.objects(), id2) is Some
                    &&& lookup(dict_at(new.objects(), id2).unwrap().entries@, ft()) == lookup(
                        dict_at(self.objects(), id2).unwrap().entries@,
                        ft(),
                    )
                },
        ensures
            new.wf(),
    {
        assert forall|i: int| 0 <= i < new.index().len() implies {
            let d = #[trigger] dict_at(new.objects(), new.index()[i].1);
            &&& d is Some
            &&& lookup(d.unwrap().entries@, ft()) is Some
        } by {
            assert(dict_at(self.objects(), self.index()[i].1) is Some);
        }
    }

    /// Every name of the index names a field.
    pub proof fn lemma_names_have_fields(&self, name: Seq<char>)
        requires
            self.names().contains(name),
        ensures
            self.has_field(name),
    {
        let i = choose|i: int| 0 <= i < self.names().len() && self.names()[i] == name;
        assert(self.index()[i].0@ == name);
        lemma_last_index_of(self.index(), name);
    }

    pub proof fn lemma_field_dict(&self, name: Seq<char>)
        requires
            self.wf(),
            self.has_field(name),
        ensures
            self.field_dict(name) is Some,
            lookup(self.entries(name), ft()) is Some,
    {
        lemma_last_index_of(self.index(), name);
        let i = last_index_of(self.index(), name);
        assert(dict_at(self.objects(), self.index()[i].1) is Some);
    }

    /// Position of the index entry called `name`.
    fn find_field(&self, name: &String) -> (r: Option<usize>)
        ensures
            match r {
                Some(i) => i as int == last_index_of(self.index(), name@),
                None => last_index_of(self.index(), name@) == -1,
            },
            r matches Some(i) ==> i < self.index().len() && self.index()[i as int].0@ == name@,
    {
        find_named(&self.form_fields, name)
    }

    pub(crate) fn field_dictionary(&self, name: &String) -> (r: Option<(ObjectId, &Dictionary)>)
        requires
            self.wf(),
        ensures
            match r {
                Some((id, d)) => self.field_id(name@) == Some(id) && self.field_dict(name@) == Some(*d),
                None => !self.has_field(name@),
            },
    {
        match self.find_field(name) {
            Some(i) => {
                let id = self.form_fields[i].1;
                proof {
                    self.lemma_field_dict(name@);
                }
                match self.doc.get_dictionary(id) {
                    Some(d) => Some((id, d)),
                    None => None,
                }
            },
            None => None,
        }
    }

    /// The document that the form reads and changes.
    pub fn document(&self) -> (r: &PdfDocument)
        ensures
            r.objects@ == self.objects(),
            r.trailer == self.trailer(),
    {
        &self.doc
    }

    /// The number of fields of the form.
    pub fn len(&self) -> (r: usize)
        ensures
            r == self.index().len(),
    {
        self.form_fields.len()
    }

    /// The type of the field called `name`; `DictionaryKeyNotFound` where the form has none.
    pub fn get_type(&self, name: &String) -> (r: Result<FieldType, LoadError>)
        requires
            self.wf(),
        ensures
            !self.has_field(name@) <==> r matches Err(LoadError::DictionaryKeyNotFound),
            self.has_field(name@) <==> r is Ok,
            r matches Ok(t) ==> t == field_type_of(self.entries(name@)),
    {
        match self.field_dictionary(name) {
            Some((_, d)) => Ok(type_of_dict(d)),
            None => Err(LoadError::DictionaryKeyNotFound),
        }
    }

    /// The types of all fields, in the order of `get_field_names`.
    pub fn get_all_types(&self) -> (r: Vec<FieldType>)
        requires
            self.wf(),
        ensures
            r@.len() == self.index().len(),
            forall|i: int|
                0 <= i < r@.len() ==> r@[i] == field_type_of(
                    dict_at(self.objects(), #[trigger] self.index()[i].1).unwrap().entries@,
                ),
    {
        let mut r: Vec<FieldType> = Vec::new();
        let mut i: usize = 0;
        while i < self.form_fields.len()
            invariant
                self.wf(),
                0 <= i <= self.index().len(),
                r@.len() == i,
                forall|j: int|
                    0 <= j < i ==> r@[j] == field_type_of(
                        dict_at(self.objects(), #[trigger] self.index()[j].1).unwrap().entries@,
                    ),
            decreases self.index().len() - i,
        {
            let id = self.form_fields[i].1;
            assert(dict_at(self.objects(), self.index()[i as int].1) is Some);
            match self.doc.get_dictionary(id) {
                Some(d) => r.push(type_of_dict(d)),
                None => {},
            }
            i = i + 1;
        }
        r
    }

    /// The full names of all fields.
    pub fn get_field_names(&self) -> (r: Vec<String>)
        ensures
            string_views(r@) == self.names(),
    {
        let mut r: Vec<String> = Vec::new();
        let mut i: usize = 0;
        while i < self.form_fields.len()
            invariant
                0 <= i <= self.index().len(),
                r@.len() == i,
                forall|j: int| 0 <= j < i ==> (#[trigger] r@[j])@ == self.index()[j].0@,
            decreases self.index().len() - i,
        {
            r.push(self.form_fields[i].0.clone());
            i = i + 1;
        }
        assert(string_views(r@) =~= self.names());
        r
    }

    /// The dictionary of the field called `name`.
    pub fn get_field_by_name(&self, name: String) -> (r: &Dictionary)
        requires
            self.wf(),
            self.has_field(name@),
        ensures
            self.field_dict(name@) == Some(*r),
    {
        let found = self.field_dictionary(&name);
        found.unwrap().1
    }
}

} // verus!
