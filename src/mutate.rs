//! Setting the values of fields, with the checks that each kind of field asks for.

use vstd::prelude::*;
use vstd::utf8::{decode_utf8, encode_utf8, encode_utf8_decode_utf8, encode_utf8_valid_utf8, valid_utf8};
use crate::codec::{pdf_text_bytes, to_pdf_utf16};
use crate::form::{
    field_type_of, flags_of, lemma_bind_keeps_types, string_views, type_of_dict, FieldType, Form,
    ValueError, MULTISELECT,
};
use crate::keys::{
    ap, ap_bytes, as_state, as_state_bytes, ff, ft, kids, kids_bytes, opt, lemma_written_keys_distinct, off, off_bytes, v,
    v_bytes, yes, yes_bytes,
};
use crate::object::{dict_at, lookup, objects_bind, binds, ObjectId, PdfObject, StringFormat};
use crate::discovery::{enqueue, queue_item};
use crate::state::{appearance_dict, appearance_dict_of, field_kids, name_text, radio_options, choice_options, contains_text, decoded_state, get_options, is_multiselect, literal_text, literal_texts, string_text, FieldStateView};

verus! {

/// `new` keeps the index and the trailer of `old`, and is well formed.
pub open spec fn same_fields(old: Form, new: Form) -> bool {
    &&& new.index() == old.index()
    &&& new.trailer() == old.trailer()
    &&& new.wf()
}

/// `new` differs from `old` only in dictionary object `id`, and there only at `keys`.
pub open spec fn field_changed(
    old: Seq<(ObjectId, PdfObject)>,
    new: Seq<(ObjectId, PdfObject)>,
    id: ObjectId,
    keys: Seq<Seq<u8>>,
) -> bool {
    &&& forall|id2: ObjectId| id2 != id ==> #[trigger] lookup(new, id2) == lookup(old, id2)
    &&& dict_at(new, id) is Some
    &&& forall|k: Seq<u8>|
        !keys.contains(k) ==> #[trigger] lookup(dict_at(new, id).unwrap().entries@, k) == lookup(
            dict_at(old, id).unwrap().entries@,
            k,
        )
}

/// Whether an optional object is a literal string with bytes `b`.
pub open spec fn is_literal(o: Option<PdfObject>, b: Seq<u8>) -> bool {
    match o {
        Some(PdfObject::String(x, StringFormat::Literal)) => x@ == b,
        _ => false,
    }
}

/// Whether an optional object is the name with bytes `b`.
pub open spec fn is_name(o: Option<PdfObject>, b: Seq<u8>) -> bool {
    match o {
        Some(PdfObject::Name(x)) => x@ == b,
        _ => false,
    }
}

/// What `set_text(name, s)` does to form `old`: on a text field it writes `s` as
/// a PDF text string to `V` and drops the appearance `AP`; on any other name it
/// fails with `TypeMismatch` and changes nothing.
pub open spec fn set_text_outcome(
    old: Form,
    new: Form,
    name: Seq<char>,
    s: Seq<char>,
    r: Result<(), ValueError>,
) -> bool {
    if old.has_field(name) && field_type_of(old.entries(name)) == FieldType::Text {
        &&& r is Ok
        &&& same_fields(old, new)
        &&& field_changed(old.objects(), new.objects(), old.field_id(name).unwrap(), seq![v(), ap()])
        &&& is_literal(lookup(new.entries(name), v()), pdf_text_bytes(s))
        &&& lookup(new.entries(name), ap()) is None
        &&& decoded_state(new.objects(), new.entries(name)) == FieldStateView::Text {
            text: string_text(pdf_text_bytes(s)),
        }
    } else {
        &&& r == Err::<(), ValueError>(ValueError::TypeMismatch)
        &&& new == old
    }
}

/// What `set_check_box(name, checked)` does to form `old`: on a check box it sets
/// both `V` and `AS` to the name `Yes` or `Off`; on any other name it fails with
/// `TypeMismatch` and changes nothing.
pub open spec fn set_check_box_outcome(
    old: Form,
    new: Form,
    name: Seq<char>,
    checked: bool,
    r: Result<(), ValueError>,
) -> bool {
    if old.has_field(name) && field_type_of(old.entries(name)) == FieldType::CheckBox {
        let state = if checked {
            yes()
        } else {
            off()
        };
        &&& r is Ok
        &&& same_fields(old, new)
        &&& field_changed(old.objects(), new.objects(), old.field_id(name).unwrap(), seq![v(), as_state()])
        &&& is_name(lookup(new.entries(name), v()), state)
        &&& is_name(lookup(new.entries(name), as_state()), state)
        &&& decoded_state(new.objects(), new.entries(name)) == FieldStateView::CheckBox {
            is_checked: checked,
        }
    } else {
        &&& r == Err::<(), ValueError>(ValueError::TypeMismatch)
        &&& new == old
    }
}

/// Every entry of `choices` is one of `options`.
pub open spec fn all_options(choices: Seq<Seq<char>>, options: Seq<Seq<char>>) -> bool {
    forall|i: int| 0 <= i < choices.len() ==> options.contains(#[trigger] choices[i])
}

/// Whether an optional object is an array of literal strings holding the UTF-8 of `texts`.
pub open spec fn is_literal_array(o: Option<PdfObject>, texts: Seq<Seq<char>>) -> bool {
    match o {
        Some(PdfObject::Array(a)) => {
            &&& a@.len() == texts.len()
            &&& forall|i: int| 0 <= i < a@.len() ==> is_literal(Some(#[trigger] a@[i]), encode_utf8(texts[i]))
        },
        _ => false,
    }
}

/// What `set_choice(name, choices)` does to form `old`: on a list box or combo box
/// whose options hold every choice, and that allows as many choices, it writes
/// them to `V` (null for none, a literal string for one, an array of literal
/// strings for more). A choice that is no option fails with `InvalidSelection`,
/// several choices on a single-select field with `TooManySelected`, and any other
/// field with `TypeMismatch`; a failure changes nothing.
pub open spec fn set_choice_outcome(
    old: Form,
    new: Form,
    name: Seq<char>,
    choices: Seq<Seq<char>>,
    r: Result<(), ValueError>,
) -> bool {
    let d = old.entries(name);
    let ty = field_type_of(d);
    if old.has_field(name) && (ty == FieldType::ListBox || ty == FieldType::ComboBox) {
        if !all_options(choices, choice_options(d)) {
            &&& r == Err::<(), ValueError>(ValueError::InvalidSelection)
            &&& new == old
        } else if !is_multiselect(d) && choices.len() > 1 {
            &&& r == Err::<(), ValueError>(ValueError::TooManySelected)
            &&& new == old
        } else {
            let written = lookup(new.entries(name), v());
            &&& r is Ok
            &&& same_fields(old, new)
            &&& field_changed(old.objects(), new.objects(), old.field_id(name).unwrap(), seq![v()])
            &&& choices.len() == 0 ==> written == Some(PdfObject::Null)
            &&& choices.len() == 1 ==> is_literal(written, encode_utf8(choices[0]))
            &&& choices.len() > 1 ==> is_literal_array(written, choices)
            &&& decoded_state(new.objects(), new.entries(name)) == if ty == FieldType::ListBox {
                FieldStateView::ListBox {
                    selected: choices,
                    options: choice_options(d),
                    multiselect: is_multiselect(d),
                }
            } else {
                FieldStateView::ComboBox {
                    selected: choices,
                    options: choice_options(d),
                    multiselect: is_multiselect(d),
                }
            }
        }
    } else {
        &&& r == Err::<(), ValueError>(ValueError::TypeMismatch)
        &&& new == old
    }
}

proof fn lemma_literal_texts(items: Seq<PdfObject>, texts: Seq<Seq<char>>)
    requires
        items.len() == texts.len(),
        forall|i: int| 0 <= i < items.len() ==> is_literal(Some(#[trigger] items[i]), encode_utf8(texts[i])),
    ensures
        literal_texts(items) == texts,
    decreases items.len(),
{
    if items.len() > 0 {
        let n = items.len() - 1;
        assert forall|i: int| 0 <= i < n implies is_literal(Some(#[trigger] items.drop_last()[i]), encode_utf8(texts.drop_last()[i])) by {
            assert(items.drop_last()[i] == items[i]);
        }
        lemma_literal_texts(items.drop_last(), texts.drop_last());
        assert(is_literal(Some(items[n]), encode_utf8(texts[n])));
        encode_utf8_valid_utf8(texts[n]);
        encode_utf8_decode_utf8(texts[n]);
        assert(literal_text(items.last()) == Some(texts[n]));
        assert(texts.drop_last().push(texts[n]) =~= texts);
    }
}

/// The UTF-8 bytes of a string.
fn utf8_bytes(s: &String) -> (r: Vec<u8>)
    ensures
        r@ == encode_utf8(s@),
{
    vstd::slice::slice_to_vec(s.as_str().as_bytes())
}

impl Form {
    /// Fills the text field called `name` with `s`.
    pub fn set_text(&mut self, name: &String, s: String) -> (r: Result<(), ValueError>)
        requires
            old(self).wf(),
            2 + 2 * s@.len() <= usize::MAX,
        ensures
            set_text_outcome(*old(self), *final(self), name@, s@, r),
    {
        let id = match self.field_dictionary(name) {
            Some((id, d)) => {
                if type_of_dict(d) == FieldType::Text {
                    id
                } else {
                    return Err(ValueError::TypeMismatch);
                }
            },
            None => return Err(ValueError::TypeMismatch),
        };
        proof {
            old(self).lemma_field_dict(name@);
            lemma_written_keys_distinct();
        }
        let bytes = to_pdf_utf16(s.as_str());
        let ghost b = bytes@;
        let ghost objs0 = self.doc.objects@;
        let kv = v_bytes();
        self.doc.set_in(id, kv, PdfObject::String(bytes, StringFormat::Literal));
        let ghost objs1 = self.doc.objects@;
        let ka = ap_bytes();
        self.doc.remove_in(id, ka.as_slice());
        proof {
            let objs2 = self.doc.objects@;
            lemma_bind_keeps_types(objs0, objs1, id, v(), Some(PdfObject::String(bytes, StringFormat::Literal)));
            lemma_bind_keeps_types(objs1, objs2, id, ap(), None);
            old(self).lemma_wf_kept(self);
            assert(dict_at(objs0, id) is Some);
            let d0 = dict_at(objs0, id).unwrap().entries@;
            let d1 = dict_at(objs1, id).unwrap().entries@;
            let d2 = dict_at(objs2, id).unwrap().entries@;
            assert(lookup(d2, v()) == lookup(d1, v()));
            assert(is_literal(lookup(d2, v()), pdf_text_bytes(s@)));
            assert forall|k: Seq<u8>| !seq![v(), ap()].contains(k) implies #[trigger] lookup(d2, k)
                == lookup(d0, k) by {
                assert(k != v() && k != ap()) by {
                    if k == v() {
                        assert(seq![v(), ap()][0] == k);
                    }
                    if k == ap() {
                        assert(seq![v(), ap()][1] == k);
                    }
                }
            }
            assert(self.field_id(name@) == Some(id));
        }
        Ok(())
    }

    /// Checks or unchecks the check box called `name`.
    pub fn set_check_box(&mut self, name: &String, is_checked: bool) -> (r: Result<(), ValueError>)
        requires
            old(self).wf(),
        ensures
            set_check_box_outcome(*old(self), *final(self), name@, is_checked, r),
    {
        let id = match self.field_dictionary(name) {
            Some((id, d)) => {
                if type_of_dict(d) == FieldType::CheckBox {
                    id
                } else {
                    return Err(ValueError::TypeMismatch);
                }
            },
            None => return Err(ValueError::TypeMismatch),
        };
        proof {
            old(self).lemma_field_dict(name@);
            lemma_written_keys_distinct();
        }
        let ghost objs0 = self.doc.objects@;
        let state1 = if is_checked {
            yes_bytes()
        } else {
            off_bytes()
        };
        let state2 = if is_checked {
            yes_bytes()
        } else {
            off_bytes()
        };
        let ghost st = state1@;
        let kv = v_bytes();
        self.doc.set_in(id, kv, PdfObject::Name(state1));
        let ghost objs1 = self.doc.objects@;
        let ka = as_state_bytes();
        self.doc.set_in(id, ka, PdfObject::Name(state2));
        proof {
            let objs2 = self.doc.objects@;
            lemma_bind_keeps_types(objs0, objs1, id, v(), Some(PdfObject::Name(state1)));
            lemma_bind_keeps_types(objs1, objs2, id, as_state(), Some(PdfObject::Name(state2)));
            old(self).lemma_wf_kept(self);
            assert(dict_at(objs0, id) is Some);
            let d0 = dict_at(objs0, id).unwrap().entries@;
            let d1 = dict_at(objs1, id).unwrap().entries@;
            let d2 = dict_at(objs2, id).unwrap().entries@;
            assert(lookup(d2, v()) == lookup(d1, v()));
            assert forall|k: Seq<u8>| !seq![v(), as_state()].contains(k) implies #[trigger] lookup(d2, k)
                == lookup(d0, k) by {
                assert(k != v() && k != as_state()) by {
                    if k == v() {
                        assert(seq![v(), as_state()][0] == k);
                    }
                    if k == as_state() {
                        assert(seq![v(), as_state()][1] == k);
                    }
                }
            }
            assert(self.field_id(name@) == Some(id));
            assert(yes() != off()) by {
                assert(yes()[0] != off()[0]);
            }
        }
        Ok(())
    }
}

impl Form {
    /// Selects `choices` in the list box or combo box called `name`.
    pub fn set_choice(&mut self, name: &String, choices: Vec<String>) -> (r: Result<(), ValueError>)
        requires
            old(self).wf(),
        ensures
            set_choice_outcome(*old(self), *final(self), name@, string_views(choices@), r),
    {
        let ghost cs = string_views(choices@);
        let (id, options, multiselect, ty) = match self.field_dictionary(name) {
            Some((id, d)) => {
                let ty = type_of_dict(d);
                if ty != FieldType::ListBox && ty != FieldType::ComboBox {
                    return Err(ValueError::TypeMismatch);
                }
                (id, get_options(d), flags_of(d) & MULTISELECT != 0, ty)
            },
            None => return Err(ValueError::TypeMismatch),
        };
        proof {
            old(self).lemma_field_dict(name@);
            lemma_written_keys_distinct();
        }
        let mut i: usize = 0;
        while i < choices.len()
            invariant
                0 <= i <= choices@.len(),
                cs == string_views(choices@),
                *self == *old(self),
                old(self).has_field(name@),
                ty == field_type_of(old(self).entries(name@)),
                ty == FieldType::ListBox || ty == FieldType::ComboBox,
                string_views(options@) == choice_options(old(self).entries(name@)),
                forall|j: int| 0 <= j < i ==> string_views(options@).contains(#[trigger] cs[j]),
            decreases choices@.len() - i,
        {
            if !contains_text(&options, &choices[i]) {
                assert(!all_options(cs, string_views(options@))) by {
                    assert(!string_views(options@).contains(cs[i as int]));
                }

                return Err(ValueError::InvalidSelection);
            }
            i = i + 1;
        }
        assert(all_options(cs, string_views(options@)));
        if !multiselect && choices.len() > 1 {
            return Err(ValueError::TooManySelected);
        }
        let ghost objs0 = self.doc.objects@;
        let value = if choices.len() == 0 {
            PdfObject::Null
        } else if choices.len() == 1 {
            PdfObject::String(utf8_bytes(&choices[0]), StringFormat::Literal)
        } else {
            let mut items: Vec<PdfObject> = Vec::new();
            let mut j: usize = 0;
            while j < choices.len()
                invariant
                    0 <= j <= choices@.len(),
                    cs == string_views(choices@),
                    items@.len() == j,
                    forall|k: int| 0 <= k < j ==> is_literal(Some(#[trigger] items@[k]), encode_utf8(cs[k])),
                decreases choices@.len() - j,
            {
                items.push(PdfObject::String(utf8_bytes(&choices[j]), StringFormat::Literal));
                j = j + 1;
            }
            PdfObject::Array(items)
        };
        let ghost val = value;
        let kv = v_bytes();
        self.doc.set_in(id, kv, value);
        proof {
            let objs1 = self.doc.objects@;
            lemma_bind_keeps_types(objs0, objs1, id, v(), Some(val));
            old(self).lemma_wf_kept(self);
            assert(self.field_id(name@) == Some(id));
            let d0 = dict_at(objs0, id).unwrap().entries@;
            let d1 = dict_at(objs1, id).unwrap().entries@;
            assert forall|k: Seq<u8>| !seq![v()].contains(k) implies #[trigger] lookup(d1, k) == lookup(d0, k) by {
                if k == v() {
                    assert(seq![v()][0] == k);
                }
            }
            assert(opt() != v()) by {
                assert(opt().len() != v().len());
            }
            assert(ff() != v()) by {
                assert(ff().len() != v().len());
            }
            assert(lookup(d1, opt()) == lookup(d0, opt()));
            assert(lookup(d1, ff()) == lookup(d0, ff()));
            if choices@.len() == 0 {
                assert(cs =~= Seq::<Seq<char>>::empty());
            } else if choices@.len() == 1 {
                encode_utf8_valid_utf8(cs[0]);
                encode_utf8_decode_utf8(cs[0]);
                assert(seq![cs[0]] =~= cs);
            } else {
                match val {
                    PdfObject::Array(a) => {
                        lemma_literal_texts(a@, cs);
                    },
                    _ => {},
                }
            }
        }
        Ok(())
    }
}

/// Every dictionary object of `new` binds each key outside `keys` as in `old`, and
/// every other object of `new` is as in `old`.
pub open spec fn keeps_except(
    old: Seq<(ObjectId, PdfObject)>,
    new: Seq<(ObjectId, PdfObject)>,
    keys: Seq<Seq<u8>>,
) -> bool {
    &&& forall|id2: ObjectId| dict_at(old, id2) is None ==> #[trigger] lookup(new, id2) == lookup(old, id2)
    &&& forall|id2: ObjectId| #[trigger] dict_at(old, id2) is Some ==> dict_at(new, id2) is Some
    &&& forall|id2: ObjectId, k: Seq<u8>|
        dict_at(old, id2) is Some && !keys.contains(k) ==> #[trigger] lookup(
            dict_at(new, id2).unwrap().entries@,
            k,
        ) == lookup(dict_at(old, id2).unwrap().entries@, k)
}

/// The appearance state that widget `kid` takes when `choice` is selected: `choice`
/// where its normal appearances have that state, else `Off`.
pub open spec fn widget_state(objs: Seq<(ObjectId, PdfObject)>, kid: ObjectId, choice: Seq<char>) -> Seq<u8> {
    match appearance_dict(objs, PdfObject::Reference(kid)) {
        Some(nd) => if lookup(nd.entries@, encode_utf8(choice)) is Some {
            encode_utf8(choice)
        } else {
            off()
        },
        None => off(),
    }
}

/// What `set_radio(name, choice)` does to form `old`: on a radio field whose
/// options hold `choice`, it sets the state `AS` of each widget to `choice` or
/// `Off` as its appearances allow, and the value `V` of the field to `choice`.
/// A choice that is no option fails with `InvalidSelection`, any other field with
/// `TypeMismatch`; a failure changes nothing.
pub open spec fn set_radio_outcome(
    old: Form,
    new: Form,
    name: Seq<char>,
    choice: Seq<char>,
    r: Result<(), ValueError>,
) -> bool {
    let d = old.entries(name);
    let ks = field_kids(d);
    let opts = radio_options(old.objects(), ks);
    let id = old.field_id(name).unwrap();
    if old.has_field(name) && field_type_of(d) == FieldType::Radio {
        if !opts.contains(choice) {
            &&& r == Err::<(), ValueError>(ValueError::InvalidSelection)
            &&& new == old
        } else {
            &&& r is Ok
            &&& same_fields(old, new)
            &&& keeps_except(old.objects(), new.objects(), seq![v(), as_state()])
            &&& forall|id2: ObjectId|
                id2 != id && !ks.contains(PdfObject::Reference(id2)) ==> #[trigger] lookup(new.objects(), id2)
                    == lookup(old.objects(), id2)
            &&& forall|k: ObjectId|
                ks.contains(PdfObject::Reference(k)) && #[trigger] dict_at(old.objects(), k) is Some ==> is_name(
                    lookup(dict_at(new.objects(), k).unwrap().entries@, as_state()),
                    widget_state(old.objects(), k, choice),
                )
            &&& forall|k: ObjectId, key: Seq<u8>|
                ks.contains(PdfObject::Reference(k)) && k != id && dict_at(old.objects(), k) is Some && key
                    != as_state() ==> #[trigger] lookup(dict_at(new.objects(), k).unwrap().entries@, key)
                    == lookup(dict_at(old.objects(), k).unwrap().entries@, key)
            &&& !ks.contains(PdfObject::Reference(id)) ==> forall|key: Seq<u8>|
                key != v() ==> #[trigger] lookup(new.entries(name), key) == lookup(d, key)
            &&& is_name(lookup(new.entries(name), v()), encode_utf8(choice))
            &&& decoded_state(new.objects(), new.entries(name)) == FieldStateView::Radio {
                selected: choice,
                options: opts,
            }
        }
    } else {
        &&& r == Err::<(), ValueError>(ValueError::TypeMismatch)
        &&& new == old
    }
}

proof fn lemma_not_in_pair(a: Seq<u8>, b: Seq<u8>, x: Seq<u8>)
    requires
        x != a,
        x != b,
    ensures
        !seq![a, b].contains(x),
        !seq![a].contains(x),
{
    assert(seq![a, b][0] == a && seq![a, b][1] == b);
    assert(seq![a][0] == a);
}

proof fn lemma_keeps_after_bind(
    a: Seq<(ObjectId, PdfObject)>,
    b: Seq<(ObjectId, PdfObject)>,
    c: Seq<(ObjectId, PdfObject)>,
    keys1: Seq<Seq<u8>>,
    keys2: Seq<Seq<u8>>,
    id: ObjectId,
    key: Seq<u8>,
    v: Option<PdfObject>,
)
    requires
        keeps_except(a, b, keys1),
        objects_bind(b, c, id, key, v),
        keys2.contains(key),
        forall|k: Seq<u8>| keys1.contains(k) ==> keys2.contains(k),
    ensures
        keeps_except(a, c, keys2),
{
    assert forall|id2: ObjectId| dict_at(a, id2) is None implies #[trigger] lookup(c, id2) == lookup(a, id2) by {
        if id2 != id {
            assert(lookup(c, id2) == lookup(b, id2));
        } else {
            assert(lookup(b, id2) == lookup(a, id2));
        }
    }
    assert forall|id2: ObjectId| #[trigger] dict_at(a, id2) is Some implies dict_at(c, id2) is Some by {
        if id2 != id {
            assert(lookup(c, id2) == lookup(b, id2));
        }
    }
    assert forall|id2: ObjectId, k: Seq<u8>| dict_at(a, id2) is Some && !keys2.contains(k) implies #[trigger] lookup(
        dict_at(c, id2).unwrap().entries@,
        k,
    ) == lookup(dict_at(a, id2).unwrap().entries@, k) by {
        assert(dict_at(b, id2) is Some);
        assert(lookup(dict_at(b, id2).unwrap().entries@, k) == lookup(dict_at(a, id2).unwrap().entries@, k));
        if id2 != id {
            assert(lookup(c, id2) == lookup(b, id2));
        } else {
            assert(k != key);
        }
    }
}

proof fn lemma_keeps_appearance(
    a: Seq<(ObjectId, PdfObject)>,
    b: Seq<(ObjectId, PdfObject)>,
    keys: Seq<Seq<u8>>,
    o: PdfObject,
)
    requires
        keeps_except(a, b, keys),
        !keys.contains(ap()),
    ensures
        appearance_dict(b, o) == appearance_dict(a, o),
{
    match o {
        PdfObject::Reference(id) => {
            if dict_at(a, id) is Some {
                assert(lookup(dict_at(b, id).unwrap().entries@, ap()) == lookup(dict_at(a, id).unwrap().entries@, ap()));
            } else {
                assert(lookup(b, id) == lookup(a, id));
            }
        },
        _ => {},
    }
}

proof fn lemma_radio_options_kept(
    a: Seq<(ObjectId, PdfObject)>,
    b: Seq<(ObjectId, PdfObject)>,
    keys: Seq<Seq<u8>>,
    ks: Seq<PdfObject>,
)
    requires
        keeps_except(a, b, keys),
        !keys.contains(ap()),
    ensures
        radio_options(b, ks) == radio_options(a, ks),
    decreases ks.len(),
{
    if ks.len() > 0 {
        lemma_radio_options_kept(a, b, keys, ks.drop_last());
        lemma_keeps_appearance(a, b, keys, ks.last());
    }
}

impl Form {
    /// Selects `choice` in the radio field called `name`.
    pub fn set_radio(&mut self, name: &String, choice: String) -> (r: Result<(), ValueError>)
        requires
            old(self).wf(),
        ensures
            set_radio_outcome(*old(self), *final(self), name@, choice@, r),
    {
        let ghost d0 = old(self).entries(name@);
        let (id, kid_refs, options) = match self.field_dictionary(name) {
            Some((id, d)) => {
                if type_of_dict(d) != FieldType::Radio {
                    return Err(ValueError::TypeMismatch);
                }
                let opts = self.get_possibilities(d);
                let mut refs: Vec<Option<ObjectId>> = Vec::new();
                let kk = kids_bytes();
                match d.get(kk.as_slice()) {
                    Some(PdfObject::Array(ks)) => enqueue(&mut refs, ks),
                    _ => {},
                }
                (id, refs, opts)
            },
            None => return Err(ValueError::TypeMismatch),
        };
        if !contains_text(&options, &choice) {
            return Err(ValueError::InvalidSelection);
        }
        proof {
            old(self).lemma_field_dict(name@);
            lemma_written_keys_distinct();
            lemma_not_in_pair(v(), as_state(), ap());
            lemma_not_in_pair(v(), as_state(), ft());
            lemma_not_in_pair(as_state(), v(), ap());
            lemma_not_in_pair(as_state(), v(), ft());
        }
        let ghost objs0 = self.doc.objects@;
        let ghost ks = field_kids(d0);
        assert(kid_refs@ =~= ks.map_values(|o: PdfObject| queue_item(o)));
        let cb = utf8_bytes(&choice);
        let mut i: usize = 0;
        while i < kid_refs.len()
            invariant
                0 <= i <= kid_refs@.len(),
                kid_refs@ == ks.map_values(|o: PdfObject| queue_item(o)),
                cb@ == encode_utf8(choice@),
                self.form_fields == old(self).form_fields,
                self.doc.trailer == old(self).doc.trailer,
                objs0 == old(self).doc.objects@,
                !seq![as_state()].contains(ap()),
                keeps_except(objs0, self.doc.objects@, seq![as_state()]),
                forall|id2: ObjectId|
                    !kid_refs@.take(i as int).contains(Some(id2)) ==> #[trigger] lookup(self.doc.objects@, id2)
                        == lookup(objs0, id2),
                forall|j: int|
                    0 <= j < i && kid_refs@[j] is Some && dict_at(objs0, kid_refs@[j]->Some_0) is Some ==> is_name(
                        lookup(dict_at(self.doc.objects@, #[trigger] kid_refs@[j]->Some_0).unwrap().entries@, as_state()),
                        widget_state(objs0, kid_refs@[j]->Some_0, choice@),
                    ),
            decreases kid_refs@.len() - i,
        {
            let ghost cur = self.doc.objects@;
            match kid_refs[i] {
                Some(k) => {
                    let probe = PdfObject::Reference(k);
                    proof {
                        lemma_keeps_appearance(objs0, cur, seq![as_state()], probe);
                    }
                    let st = match appearance_dict_of(&self.doc, &probe) {
                        Some(nd) => {
                            if nd.has(cb.as_slice()) {
                                utf8_bytes(&choice)
                            } else {
                                off_bytes()
                            }
                        },
                        None => off_bytes(),
                    };
                    assert(st@ == widget_state(objs0, k, choice@));
                    let ghost stv = st;
                    let ka = as_state_bytes();
                    self.doc.set_in(k, ka, PdfObject::Name(st));
                    proof {
                        let next = self.doc.objects@;
                        assert(seq![as_state()][0] == as_state());
                        lemma_keeps_after_bind(objs0, cur, next, seq![as_state()], seq![as_state()], k, as_state(), Some(PdfObject::Name(stv)));
                        assert forall|id2: ObjectId|
                            !kid_refs@.take(i + 1).contains(Some(id2)) implies #[trigger] lookup(next, id2) == lookup(objs0, id2) by {
                            assert(kid_refs@.take(i + 1)[i as int] == Some(k));
                            if kid_refs@.take(i as int).contains(Some(id2)) {
                                let w = choose|w: int| 0 <= w < i && kid_refs@.take(i as int)[w] == Some(id2);
                                assert(kid_refs@.take(i + 1)[w] == Some(id2));
                            }
                        }
                        assert forall|j: int|
                            0 <= j < i + 1 && kid_refs@[j] is Some && dict_at(objs0, kid_refs@[j]->Some_0) is Some implies is_name(
                                lookup(dict_at(next, #[trigger] kid_refs@[j]->Some_0).unwrap().entries@, as_state()),
                                widget_state(objs0, kid_refs@[j]->Some_0, choice@),
                            ) by {
                            let kj = kid_refs@[j]->Some_0;
                            assert(dict_at(cur, kj) is Some);
                            if kj != k {
                                assert(lookup(next, kj) == lookup(cur, kj));
                            }
                        }
                    }
                },
                None => {
                    proof {
                        assert forall|id2: ObjectId|
                            !kid_refs@.take(i + 1).contains(Some(id2)) implies #[trigger] lookup(cur, id2) == lookup(objs0, id2) by {
                            if kid_refs@.take(i as int).contains(Some(id2)) {
                                let w = choose|w: int| 0 <= w < i && kid_refs@.take(i as int)[w] == Some(id2);
                                assert(kid_refs@.take(i + 1)[w] == Some(id2));
                            }
                        }
                    }
                },
            }
            i = i + 1;
        }
        let ghost objs1 = self.doc.objects@;
        let value = utf8_bytes(&choice);
        let ghost val = value;
        let kv = v_bytes();
        self.doc.set_in(id, kv, PdfObject::Name(value));
        proof {
            let objs2 = self.doc.objects@;
            let pair = seq![v(), as_state()];
            assert(pair[0] == v() && pair[1] == as_state());
            lemma_keeps_after_bind(objs0, objs1, objs2, seq![as_state()], pair, id, v(), Some(PdfObject::Name(val)));
            assert forall|id2: ObjectId| #[trigger] dict_at(objs0, id2) is Some implies {
                &&& dict_at(objs2, id2) is Some
                &&& lookup(dict_at(objs2, id2).unwrap().entries@, ft()) == lookup(dict_at(objs0, id2).unwrap().entries@, ft())
            } by {
                assert(lookup(dict_at(objs2, id2).unwrap().entries@, ft()) == lookup(dict_at(objs0, id2).unwrap().entries@, ft()));
            }
            old(self).lemma_wf_kept(self);
            assert(self.field_id(name@) == Some(id));
            assert(kid_refs@.take(kid_refs@.len() as int) =~= kid_refs@);
            assert forall|id2: ObjectId|
                id2 != id && !ks.contains(PdfObject::Reference(id2)) implies #[trigger] lookup(objs2, id2) == lookup(objs0, id2) by {
                if kid_refs@.contains(Some(id2)) {
                    let w = choose|w: int| 0 <= w < kid_refs@.len() && kid_refs@[w] == Some(id2);
                    assert(queue_item(ks[w]) == Some(id2));
                    assert(ks[w] == PdfObject::Reference(id2));
                }
                assert(lookup(objs2, id2) == lookup(objs1, id2));
            }
            assert forall|k: ObjectId|
                ks.contains(PdfObject::Reference(k)) && #[trigger] dict_at(objs0, k) is Some implies is_name(
                    lookup(dict_at(objs2, k).unwrap().entries@, as_state()),
                    widget_state(objs0, k, choice@),
                ) by {
                let w = choose|w: int| 0 <= w < ks.len() && ks[w] == PdfObject::Reference(k);
                assert(kid_refs@[w] == Some(k));
                assert(dict_at(objs1, k) is Some);
                if k != id {
                    assert(lookup(objs2, k) == lookup(objs1, k));
                }
            }
            assert forall|k: ObjectId, key: Seq<u8>|
                ks.contains(PdfObject::Reference(k)) && k != id && dict_at(objs0, k) is Some && key
                    != as_state() implies #[trigger] lookup(dict_at(objs2, k).unwrap().entries@, key)
                    == lookup(dict_at(objs0, k).unwrap().entries@, key) by {
                assert(lookup(objs2, k) == lookup(objs1, k));
                assert(!seq![as_state()].contains(key)) by {
                    if seq![as_state()].contains(key) {
                        let w = choose|w: int| 0 <= w < 1 && seq![as_state()][w] == key;
                        assert(seq![as_state()][w] == as_state());
                    }
                }
                assert(lookup(dict_at(objs1, k).unwrap().entries@, key) == lookup(dict_at(objs0, k).unwrap().entries@, key));
            }
            if !ks.contains(PdfObject::Reference(id)) {
                assert(!kid_refs@.contains(Some(id))) by {
                    if kid_refs@.contains(Some(id)) {
                        let w = choose|w: int| 0 <= w < kid_refs@.len() && kid_refs@[w] == Some(id);
                        assert(queue_item(ks[w]) == Some(id));
                        assert(ks[w] == PdfObject::Reference(id));
                    }
                }
                assert(lookup(objs1, id) == lookup(objs0, id));
            }
            let dn = dict_at(objs2, id).unwrap().entries@;
            assert(is_name(lookup(dn, v()), encode_utf8(choice@)));
            encode_utf8_valid_utf8(choice@);
            encode_utf8_decode_utf8(choice@);
            assert(name_text(lookup(dn, v())) == Some(choice@));
            assert(lookup(dn, kids()) == lookup(d0, kids())) by {
                assert(kids().len() != v().len() && kids().len() != as_state().len());
                lemma_not_in_pair(v(), as_state(), kids());
            }
            assert(lookup(dn, ff()) == lookup(d0, ff())) by {
                lemma_not_in_pair(v(), as_state(), ff());
            }
            lemma_radio_options_kept(objs0, objs2, pair, ks);
        }
        Ok(())
    }
}

} // verus!
