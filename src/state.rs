//! Decoding the current state of a field from its dictionary.

use vstd::prelude::*;
use vstd::utf8::{decode_utf8, valid_utf8};
use crate::codec::{from_pdf_utf16, pdf_text, string_from_utf8};
use crate::form::{field_flags, field_type_of, string_views, FieldType, Form, MULTISELECT};
use crate::keys::{
    ap, ap_bytes, as_state, as_state_bytes, kids, kids_bytes, n, n_bytes, opt, opt_bytes, v,
    v_bytes, yes, yes_bytes,
};
use crate::object::{
    owned, as_dict, bytes_equal, dict_at, lookup, Dictionary, ObjectId, PdfDocument, PdfObject,
    StringFormat,
};

verus! {

/// The current state of a form field.
#[derive(Debug)]
#[allow(inconsistent_fields)]
pub enum FieldState {
    /// Push buttons have no state.
    Button,
    /// `selected` is the option of `options` that is selected.
    Radio { selected: String, options: Vec<String> },
    /// Whether the check box is checked.
    CheckBox { is_checked: bool },
    /// `selected` lists the selected options among `options`.
    ListBox { selected: Vec<String>, options: Vec<String>, multiselect: bool },
    /// `selected` lists the selected options among `options`.
    ComboBox { selected: Vec<String>, options: Vec<String>, multiselect: bool },
    /// The text of a text field.
    Text { text: String },
}

/// The state of a field, as texts.
#[allow(inconsistent_fields)]
pub enum FieldStateView {
    Button,
    Radio { selected: Seq<char>, options: Seq<Seq<char>> },
    CheckBox { is_checked: bool },
    ListBox { selected: Seq<Seq<char>>, options: Seq<Seq<char>>, multiselect: bool },
    ComboBox { selected: Seq<Seq<char>>, options: Seq<Seq<char>>, multiselect: bool },
    Text { text: Seq<char> },
}

impl View for FieldState {
    type V = FieldStateView;

    open spec fn view(&self) -> FieldStateView {
        match self {
            FieldState::Button => FieldStateView::Button,
            FieldState::Radio { selected, options } => FieldStateView::Radio {
                selected: selected@,
                options: string_views(options@),
            },
            FieldState::CheckBox { is_checked } => FieldStateView::CheckBox { is_checked: *is_checked },
            FieldState::ListBox { selected, options, multiselect } => FieldStateView::ListBox {
                selected: string_views(selected@),
                options: string_views(options@),
                multiselect: *multiselect,
            },
            FieldState::ComboBox { selected, options, multiselect } => FieldStateView::ComboBox {
                selected: string_views(selected@),
                options: string_views(options@),
                multiselect: *multiselect,
            },
            FieldState::Text { text } => FieldStateView::Text { text: text@ },
        }
    }
}

/// The text of a name object whose bytes are UTF-8.
pub open spec fn name_text(o: Option<PdfObject>) -> Option<Seq<char>> {
    match o {
        Some(PdfObject::Name(b)) => if valid_utf8(b@) {
            Some(decode_utf8(b@))
        } else {
            None
        },
        _ => None,
    }
}

/// The text of a literal string object whose bytes are UTF-8.
pub open spec fn literal_text(o: PdfObject) -> Option<Seq<char>> {
    match o {
        PdfObject::String(b, StringFormat::Literal) => if valid_utf8(b@) {
            Some(decode_utf8(b@))
        } else {
            None
        },
        _ => None,
    }
}

/// The selected state of a radio field: the name `V`, else the name `AS`, else empty.
pub open spec fn radio_selected(d: Seq<(Vec<u8>, PdfObject)>) -> Seq<char> {
    match name_text(lookup(d, v())) {
        Some(s) => s,
        None => match name_text(lookup(d, as_state())) {
            Some(s) => s,
            None => Seq::empty(),
        },
    }
}

/// The widgets of a field: its `Kids` array, empty where it has none.
pub open spec fn field_kids(d: Seq<(Vec<u8>, PdfObject)>) -> Seq<PdfObject> {
    match lookup(d, kids()) {
        Some(PdfObject::Array(a)) => a@,
        _ => Seq::empty(),
    }
}

/// The normal appearance dictionary `AP`/`N` of the widget that `kid` refers to.
pub open spec fn appearance_dict(objs: Seq<(ObjectId, PdfObject)>, kid: PdfObject) -> Option<Dictionary> {
    match kid {
        PdfObject::Reference(id) => match dict_at(objs, id) {
            Some(kd) => match as_dict(lookup(kd.entries@, ap())) {
                Some(apd) => as_dict(lookup(apd.entries@, n())),
                None => None,
            },
            None => None,
        },
        _ => None,
    }
}

/// The appearance state names of a widget: the keys of its normal appearance dictionary.
pub open spec fn appearance_states(objs: Seq<(ObjectId, PdfObject)>, kid: PdfObject) -> Seq<Vec<u8>> {
    match appearance_dict(objs, kid) {
        Some(nd) => nd.entries@.map_values(|e: (Vec<u8>, PdfObject)| e.0),
        None => Seq::empty(),
    }
}

/// `acc` extended by the UTF-8 texts of `keys` that it does not hold yet, in order.
pub open spec fn add_names(acc: Seq<Seq<char>>, keys: Seq<Vec<u8>>) -> Seq<Seq<char>>
    decreases keys.len(),
{
    if keys.len() == 0 {
        acc
    } else {
        let a = add_names(acc, keys.drop_last());
        let k = keys.last();
        if valid_utf8(k@) && !a.contains(decode_utf8(k@)) {
            a.push(decode_utf8(k@))
        } else {
            a
        }
    }
}

/// The options of a radio field: the union of the appearance states of its widgets,
/// in order of first appearance.
pub open spec fn radio_options(objs: Seq<(ObjectId, PdfObject)>, kids: Seq<PdfObject>) -> Seq<
    Seq<char>,
>
    decreases kids.len(),
{
    if kids.len() == 0 {
        Seq::empty()
    } else {
        add_names(radio_options(objs, kids.drop_last()), appearance_states(objs, kids.last()))
    }
}

/// Whether an optional object is the name `Yes`.
pub open spec fn is_yes(o: Option<PdfObject>) -> bool {
    match o {
        Some(PdfObject::Name(b)) => b@ == yes(),
        _ => false,
    }
}

/// A check box is checked where its `V`, else its `AS`, is the name `Yes`.
pub open spec fn checkbox_checked(d: Seq<(Vec<u8>, PdfObject)>) -> bool {
    match lookup(d, v()) {
        Some(_) => is_yes(lookup(d, v())),
        None => is_yes(lookup(d, as_state())),
    }
}

/// The texts of the literal strings among `items`, in order.
pub open spec fn literal_texts(items: Seq<PdfObject>) -> Seq<Seq<char>>
    decreases items.len(),
{
    if items.len() == 0 {
        Seq::empty()
    } else {
        let r = literal_texts(items.drop_last());
        match literal_text(items.last()) {
            Some(s) => r.push(s),
            None => r,
        }
    }
}

/// The selection of a choice field: a literal string `V` as one entry, or the
/// literal strings of an array `V`.
pub open spec fn choice_selected(d: Seq<(Vec<u8>, PdfObject)>) -> Seq<Seq<char>> {
    match lookup(d, v()) {
        Some(PdfObject::Array(a)) => literal_texts(a@),
        Some(o) => match literal_text(o) {
            Some(s) => seq![s],
            None => Seq::empty(),
        },
        None => Seq::empty(),
    }
}

/// The text of an `Opt` entry: a literal string, or the second element of a two-element array.
pub open spec fn option_text(o: PdfObject) -> Option<Seq<char>> {
    match o {
        PdfObject::Array(a) => if a@.len() == 2 {
            literal_text(a@[1])
        } else {
            None
        },
        _ => literal_text(o),
    }
}

/// The non-empty option texts of `items`, in order.
pub open spec fn option_texts(items: Seq<PdfObject>) -> Seq<Seq<char>>
    decreases items.len(),
{
    if items.len() == 0 {
        Seq::empty()
    } else {
        let r = option_texts(items.drop_last());
        match option_text(items.last()) {
            Some(s) => if s.len() > 0 {
                r.push(s)
            } else {
                r
            },
            None => r,
        }
    }
}

/// The options of a choice field, from its `Opt` array.
pub open spec fn choice_options(d: Seq<(Vec<u8>, PdfObject)>) -> Seq<Seq<char>> {
    match lookup(d, opt()) {
        Some(PdfObject::Array(a)) => option_texts(a@),
        _ => Seq::empty(),
    }
}

pub open spec fn is_multiselect(d: Seq<(Vec<u8>, PdfObject)>) -> bool {
    field_flags(d) & MULTISELECT != 0
}

/// The text of a literal string: a PDF text string where it begins with the marker
/// `FE FF`, else UTF-8; empty where it does not decode.
pub open spec fn string_text(b: Seq<u8>) -> Seq<char> {
    if b.len() >= 2 && b[0] == 0xFEu8 && b[1] == 0xFFu8 {
        match pdf_text(b) {
            Some(s) => s,
            None => Seq::empty(),
        }
    } else if valid_utf8(b) {
        decode_utf8(b)
    } else {
        Seq::empty()
    }
}

/// The text of a text field: its literal string `V`, else empty.
pub open spec fn text_value(d: Seq<(Vec<u8>, PdfObject)>) -> Seq<char> {
    match lookup(d, v()) {
        Some(PdfObject::String(b, StringFormat::Literal)) => string_text(b@),
        _ => Seq::empty(),
    }
}

/// The state of a field with dictionary entries `d` in a document with objects `objs`.
pub open spec fn decoded_state(objs: Seq<(ObjectId, PdfObject)>, d: Seq<(Vec<u8>, PdfObject)>) -> FieldStateView {
    match field_type_of(d) {
        FieldType::Button => FieldStateView::Button,
        FieldType::Radio => FieldStateView::Radio {
            selected: radio_selected(d),
            options: radio_options(objs, field_kids(d)),
        },
        FieldType::CheckBox => FieldStateView::CheckBox { is_checked: checkbox_checked(d) },
        FieldType::ListBox => FieldStateView::ListBox {
            selected: choice_selected(d),
            options: choice_options(d),
            multiselect: is_multiselect(d),
        },
        FieldType::ComboBox => FieldStateView::ComboBox {
            selected: choice_selected(d),
            options: choice_options(d),
            multiselect: is_multiselect(d),
        },
        FieldType::Text => FieldStateView::Text { text: text_value(d) },
    }
}

fn name_text_of(o: Option<&PdfObject>) -> (r: Option<String>)
    ensures
        r is Some <==> name_text(owned(o)) is Some,
        r matches Some(s) ==> s@ == name_text(owned(o)).unwrap(),
{
    match o {
        Some(PdfObject::Name(b)) => string_from_utf8(b.as_slice()),
        _ => None,
    }
}

fn literal_text_of(o: &PdfObject) -> (r: Option<String>)
    ensures
        r is Some <==> literal_text(*o) is Some,
        r matches Some(s) ==> s@ == literal_text(*o).unwrap(),
{
    match o {
        PdfObject::String(b, StringFormat::Literal) => string_from_utf8(b.as_slice()),
        _ => None,
    }
}

fn get_radio_selected(d: &Dictionary) -> (r: String)
    ensures
        r@ == radio_selected(d.entries@),
{
    let kv = v_bytes();
    match name_text_of(d.get(kv.as_slice())) {
        Some(s) => s,
        None => {
            let ka = as_state_bytes();
            match name_text_of(d.get(ka.as_slice())) {
                Some(s) => s,
                None => String::new(),
            }
        },
    }
}

fn is_yes_of(o: Option<&PdfObject>) -> (r: bool)
    ensures
        r == is_yes(owned(o)),
{
    match o {
        Some(PdfObject::Name(b)) => {
            let y = yes_bytes();
            bytes_equal(b.as_slice(), y.as_slice())
        },
        _ => false,
    }
}

fn get_checked(d: &Dictionary) -> (r: bool)
    ensures
        r == checkbox_checked(d.entries@),
{
    let kv = v_bytes();
    match d.get(kv.as_slice()) {
        Some(o) => is_yes_of(Some(o)),
        None => {
            let ka = as_state_bytes();
            is_yes_of(d.get(ka.as_slice()))
        },
    }
}

fn literal_texts_of(items: &Vec<PdfObject>) -> (r: Vec<String>)
    ensures
        string_views(r@) == literal_texts(items@),
{
    let mut r: Vec<String> = Vec::new();
    let mut i: usize = 0;
    while i < items.len()
        invariant
            0 <= i <= items@.len(),
            string_views(r@) == literal_texts(items@.take(i as int)),
        decreases items@.len() - i,
    {
        assert(items@.take(i + 1).drop_last() =~= items@.take(i as int));
        match literal_text_of(&items[i]) {
            Some(s) => {
                r.push(s);
                assert(string_views(r@) =~= literal_texts(items@.take(i as int)).push(s@));
            },
            None => {},
        }
        i = i + 1;
    }
    assert(items@.take(i as int) =~= items@);
    r
}

fn get_selected(d: &Dictionary) -> (r: Vec<String>)
    ensures
        string_views(r@) == choice_selected(d.entries@),
{
    let kv = v_bytes();
    match d.get(kv.as_slice()) {
        Some(PdfObject::Array(a)) => literal_texts_of(a),
        Some(o) => match literal_text_of(o) {
            Some(s) => {
                let mut r: Vec<String> = Vec::new();
                r.push(s);
                assert(string_views(r@) =~= seq![s@]);
                r
            },
            None => {
                let r: Vec<String> = Vec::new();
                assert(string_views(r@) =~= Seq::<Seq<char>>::empty());
                r
            },
        },
        None => {
            let r: Vec<String> = Vec::new();
            assert(string_views(r@) =~= Seq::<Seq<char>>::empty());
            r
        },
    }
}

fn option_text_of(o: &PdfObject) -> (r: Option<String>)
    ensures
        r is Some <==> option_text(*o) is Some,
        r matches Some(s) ==> s@ == option_text(*o).unwrap(),
{
    match o {
        PdfObject::Array(a) => if a.len() == 2 {
            literal_text_of(&a[1])
        } else {
            None
        },
        _ => literal_text_of(o),
    }
}

pub(crate) fn get_options(d: &Dictionary) -> (r: Vec<String>)
    ensures
        string_views(r@) == choice_options(d.entries@),
{
    let mut r: Vec<String> = Vec::new();
    let ko = opt_bytes();
    match d.get(ko.as_slice()) {
        Some(PdfObject::Array(items)) => {
            let mut i: usize = 0;
            while i < items.len()
                invariant
                    0 <= i <= items@.len(),
                    string_views(r@) == option_texts(items@.take(i as int)),
                decreases items@.len() - i,
            {
                assert(items@.take(i + 1).drop_last() =~= items@.take(i as int));
                match option_text_of(&items[i]) {
                    Some(s) => {
                        if !s.as_str().is_empty() {
                            r.push(s);
                            assert(string_views(r@) =~= option_texts(items@.take(i as int)).push(s@));
                        }
                    },
                    None => {},
                }
                i = i + 1;
            }
            assert(items@.take(i as int) =~= items@);
        },
        _ => {
            assert(string_views(r@) =~= Seq::<Seq<char>>::empty());
        },
    }
    r
}

fn string_text_of(b: &Vec<u8>) -> (r: String)
    ensures
        r@ == string_text(b@),
{
    if b.len() >= 2 && b[0] == 0xFE && b[1] == 0xFF {
        match from_pdf_utf16(b.as_slice()) {
            Some(s) => s,
            None => String::new(),
        }
    } else {
        match string_from_utf8(b.as_slice()) {
            Some(s) => s,
            None => String::new(),
        }
    }
}

fn get_text(d: &Dictionary) -> (r: String)
    ensures
        r@ == text_value(d.entries@),
{
    let kv = v_bytes();
    match d.get(kv.as_slice()) {
        Some(PdfObject::String(b, StringFormat::Literal)) => string_text_of(b),
        _ => String::new(),
    }
}

pub(crate) fn appearance_dict_of<'a>(doc: &'a PdfDocument, kid: &PdfObject) -> (r: Option<&'a Dictionary>)
    ensures
        match r {
            Some(nd) => appearance_dict(doc.objects@, *kid) == Some(*nd),
            None => appearance_dict(doc.objects@, *kid) is None,
        },
{
    match kid {
        PdfObject::Reference(id) => match doc.get_dictionary(*id) {
            Some(kd) => {
                let ka = ap_bytes();
                match kd.get(ka.as_slice()) {
                    Some(PdfObject::Dictionary(apd)) => {
                        let kn = n_bytes();
                        match apd.get(kn.as_slice()) {
                            Some(PdfObject::Dictionary(nd)) => Some(nd),
                            _ => None,
                        }
                    },
                    _ => None,
                }
            },
            None => None,
        },
        _ => None,
    }
}

pub(crate) fn contains_text(v: &Vec<String>, s: &String) -> (r: bool)
    ensures
        r == string_views(v@).contains(s@),
{
    let mut i: usize = 0;
    while i < v.len()
        invariant
            0 <= i <= v@.len(),
            forall|j: int| 0 <= j < i ==> v@[j]@ != s@,
        decreases v@.len() - i,
    {
        if v[i] == *s {
            assert(string_views(v@)[i as int] == s@);
            return true;
        }
        i = i + 1;
    }
    proof {
        if string_views(v@).contains(s@) {
            let j = choose|j: int| 0 <= j < string_views(v@).len() && string_views(v@)[j] == s@;
            assert(v@[j]@ == s@);
        }
    }
    false
}

fn add_names_of(acc: &mut Vec<String>, nd: &Dictionary)
    ensures
        string_views(final(acc)@) == add_names(
            string_views(old(acc)@),
            nd.entries@.map_values(|e: (Vec<u8>, PdfObject)| e.0),
        ),
{
    let ghost keys = nd.entries@.map_values(|e: (Vec<u8>, PdfObject)| e.0);
    let mut j: usize = 0;
    while j < nd.entries.len()
        invariant
            keys == nd.entries@.map_values(|e: (Vec<u8>, PdfObject)| e.0),
            0 <= j <= nd.entries@.len(),
            string_views(acc@) == add_names(string_views(old(acc)@), keys.take(j as int)),
        decreases nd.entries@.len() - j,
    {
        assert(keys.take(j + 1).drop_last() =~= keys.take(j as int));
        assert(keys.take(j + 1).last() == nd.entries@[j as int].0);
        match string_from_utf8(nd.entries[j].0.as_slice()) {
            Some(s) => {
                if !contains_text(acc, &s) {
                    let ghost prev = acc@;
                    acc.push(s);
                    assert(string_views(acc@) =~= string_views(prev).push(s@));
                }
            },
            None => {},
        }
        j = j + 1;
    }
    assert(keys.take(j as int) =~= keys);
}

impl Form {
    /// The options of a radio field with dictionary `d`: the appearance states of its widgets.
    pub(crate) fn get_possibilities(&self, d: &Dictionary) -> (r: Vec<String>)
        ensures
            string_views(r@) == radio_options(self.objects(), field_kids(d.entries@)),
    {
        let mut r: Vec<String> = Vec::new();
        let kk = kids_bytes();
        match d.get(kk.as_slice()) {
            Some(PdfObject::Array(ks)) => {
                let mut i: usize = 0;
                while i < ks.len()
                    invariant
                        0 <= i <= ks@.len(),
                        string_views(r@) == radio_options(self.objects(), ks@.take(i as int)),
                    decreases ks@.len() - i,
                {
                    assert(ks@.take(i + 1).drop_last() =~= ks@.take(i as int));
                    match appearance_dict_of(&self.doc, &ks[i]) {
                        Some(nd) => add_names_of(&mut r, nd),
                        None => {},
                    }
                    i = i + 1;
                }
                assert(ks@.take(i as int) =~= ks@);
            },
            _ => {
                assert(string_views(r@) =~= Seq::<Seq<char>>::empty());
            },
        }
        r
    }

    /// The current state of the field called `name`, decoded from its dictionary.
    pub fn get_state(&self, name: &String) -> (r: FieldState)
        requires
            self.wf(),
            self.has_field(name@),
        ensures
            r@ == decoded_state(self.objects(), self.entries(name@)),
    {
        let found = self.field_dictionary(name);
        let d = found.unwrap().1;
        match crate::form::type_of_dict(d) {
            FieldType::Button => FieldState::Button,
            FieldType::Radio => FieldState::Radio {
                selected: get_radio_selected(d),
                options: self.get_possibilities(d),
            },
            FieldType::CheckBox => FieldState::CheckBox { is_checked: get_checked(d) },
            FieldType::ListBox => FieldState::ListBox {
                selected: get_selected(d),
                options: get_options(d),
                multiselect: crate::form::flags_of(d) & MULTISELECT != 0,
            },
            FieldType::ComboBox => FieldState::ComboBox {
                selected: get_selected(d),
                options: get_options(d),
                multiselect: crate::form::flags_of(d) & MULTISELECT != 0,
            },
            FieldType::Text => FieldState::Text { text: get_text(d) },
        }
    }
}

} // verus!
