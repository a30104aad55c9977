//! Laws that relate the operations of the library.

use vstd::prelude::*;
use crate::codec::{be_units, pdf_text, pdf_text_bytes, text_units, units_before_nul, utf16_text};
use crate::discovery::{field_full_name, full_name, partial_name, queue_item, first_field_named, loaded, reached, reaches, top_fields};
use crate::fill::{ascii_lower, fill_step, is_ascii_text, resolve, true_text};
use crate::object::{dict_at, lookup, ObjectId, PdfObject};
use crate::keys::{ft, parent};
use crate::form::{field_type_of, FieldType, Form, ValueError};
use crate::mutate::{all_options, set_choice_outcome, set_radio_outcome, set_text_outcome};
use crate::object::PdfDocument;
use crate::state::{choice_options, decoded_state, is_multiselect, string_text, FieldStateView};

verus! {

/// A text of characters of the Basic Multilingual Plane other than NUL.
pub open spec fn plain_bmp_text(s: Seq<char>) -> bool {
    forall|i: int| 0 <= i < s.len() ==> 0 < (#[trigger] s[i] as u32) && (s[i] as u32) < 0x10000
}

proof fn lemma_unit_bytes(u: u16)
    ensures
        ((u / 256) as u8) as int * 256 + ((u % 256) as u8) as int == u as int,
{
    assert(u / 256 <= 255);
}

proof fn lemma_utf16_of_units(s: Seq<char>)
    requires
        plain_bmp_text(s),
    ensures
        units_before_nul(text_units(s)) == text_units(s),
        utf16_text(text_units(s)) == Some(s),
    decreases s.len(),
{
    let u = text_units(s);
    if s.len() > 0 {
        let c = s[0];
        assert(0 < (c as u32) && (c as u32) < 0x10000);
        vstd::utf8::char_is_scalar(c);
        assert(u[0] as u32 == c as u32);
        assert(u.drop_first() =~= text_units(s.drop_first()));
        assert(plain_bmp_text(s.drop_first())) by {
            assert forall|i: int| 0 <= i < s.drop_first().len() implies 0 < (#[trigger] s.drop_first()[i] as u32)
                && (s.drop_first()[i] as u32) < 0x10000 by {
                assert(s.drop_first()[i] == s[i + 1]);
            }
        }
        lemma_utf16_of_units(s.drop_first());
        assert(u[0] != 0);
        assert(u[0] < 0xD800 || u[0] >= 0xE000);
        vstd::utf8::char_u32_cast(c, u[0] as u32);
        assert((u[0] as u32 as char) == c);
        assert(seq![c] + s.drop_first() =~= s);
        assert(seq![u[0]] + u.drop_first() =~= u);
    } else {
        assert(u =~= Seq::<u16>::empty());
    }
}

/// Encoding a text of Basic Multilingual Plane characters other than NUL as a PDF
/// text string and decoding it gives the text back.
pub proof fn lemma_pdf_text_round_trip(s: Seq<char>)
    requires
        plain_bmp_text(s),
    ensures
        pdf_text(pdf_text_bytes(s)) == Some(s),
{
    let b = pdf_text_bytes(s);
    let u = text_units(s);
    assert(be_units(b) =~= u) by {
        if b.len() > 2 {
            assert((b.len() - 1) / 2 == u.len());
            assert forall|i: int| 0 <= i < u.len() implies #[trigger] be_units(b)[i] == u[i] by {
                lemma_unit_bytes(u[i]);
                assert(b[2 + 2 * i] == (u[i] / 256) as u8);
                assert(b[3 + 2 * i] == (u[i] % 256) as u8);
            }
        }
    }
    lemma_utf16_of_units(s);
}

/// Setting a text of Basic Multilingual Plane characters other than NUL makes the
/// field read back that text.
pub proof fn lemma_set_text_reads_back(
    f0: Form,
    f1: Form,
    name: Seq<char>,
    s: Seq<char>,
)
    requires
        set_text_outcome(f0, f1, name, s, Ok(())),
        plain_bmp_text(s),
    ensures
        decoded_state(f1.objects(), f1.entries(name)) == (FieldStateView::Text { text: s }),
{
    lemma_pdf_text_round_trip(s);
    let b = pdf_text_bytes(s);
    assert(b[0] == 0xFEu8 && b[1] == 0xFFu8);
    assert(string_text(b) == s);
}

/// Loading a document whose first top-level field is a typed field dictionary with
/// a full name finds at least one field, and every name found names a field, so
/// that `get_type` gives a type for it.
pub proof fn lemma_loaded_names_resolve(doc: PdfDocument, f: Form)
    requires
        loaded(doc, f),
        first_field_named(doc),
    ensures
        f.names().len() > 0,
        forall|i: int| 0 <= i < f.names().len() ==> f.has_field(#[trigger] f.names()[i]),
{
    assert forall|i: int| 0 <= i < f.names().len() implies f.has_field(#[trigger] f.names()[i]) by {
        assert(f.names().contains(f.names()[i]));
        f.lemma_names_have_fields(f.names()[i]);
    }
}

/// Setting the same text twice leaves the field in the same state as setting it once.
pub proof fn lemma_set_text_idempotent(
    f0: Form,
    f1: Form,
    f2: Form,
    name: Seq<char>,
    s: Seq<char>,
    r1: Result<(), ValueError>,
    r2: Result<(), ValueError>,
)
    requires
        set_text_outcome(f0, f1, name, s, r1),
        set_text_outcome(f1, f2, name, s, r2),
    ensures
        decoded_state(f2.objects(), f2.entries(name)) == decoded_state(f1.objects(), f1.entries(name)),
{
    if f0.has_field(name) && field_type_of(f0.entries(name)) == FieldType::Text {
        assert(f1.has_field(name));
        assert(field_type_of(f1.entries(name)) == FieldType::Text);
    }
}

/// A radio choice that is rejected as no option leaves the form, and so the state
/// of every field, as it was.
pub proof fn lemma_rejected_radio_keeps_state(
    f0: Form,
    f1: Form,
    name: Seq<char>,
    choice: Seq<char>,
    r: Result<(), ValueError>,
)
    requires
        set_radio_outcome(f0, f1, name, choice, r),
        r == Err::<(), ValueError>(ValueError::InvalidSelection),
    ensures
        f1 == f0,
        decoded_state(f1.objects(), f1.entries(name)) == decoded_state(f0.objects(), f0.entries(name)),
{
}

/// Two options chosen at once on a single-select list box are too many.
pub proof fn lemma_single_select_rejects_two(
    f0: Form,
    f1: Form,
    name: Seq<char>,
    a: Seq<char>,
    b: Seq<char>,
    r: Result<(), ValueError>,
)
    requires
        set_choice_outcome(f0, f1, name, seq![a, b], r),
        f0.has_field(name),
        field_type_of(f0.entries(name)) == FieldType::ListBox,
        !is_multiselect(f0.entries(name)),
        choice_options(f0.entries(name)).contains(a),
        choice_options(f0.entries(name)).contains(b),
    ensures
        r == Err::<(), ValueError>(ValueError::TooManySelected),
        f1 == f0,
{
    assert(all_options(seq![a, b], choice_options(f0.entries(name))));
}

/// Where the first top-level field is a typed dictionary with a decodable partial
/// name and no parent, loading finds at least one field.
pub proof fn lemma_first_top_field_named(doc: PdfDocument)
    requires
        top_fields(doc) is Ok,
        top_fields(doc)->Ok_0.len() > 0,
        queue_item(top_fields(doc)->Ok_0[0]) is Some,
        dict_at(doc.objects@, queue_item(top_fields(doc)->Ok_0[0])->Some_0) is Some,
        ({
            let d = dict_at(doc.objects@, queue_item(top_fields(doc)->Ok_0[0])->Some_0).unwrap().entries@;
            &&& lookup(d, ft()) is Some
            &&& partial_name(d) is Some
            &&& !(lookup(d, parent()) matches Some(PdfObject::Reference(_)))
        }),
    ensures
        first_field_named(doc),
{
    let id = queue_item(top_fields(doc)->Ok_0[0])->Some_0;
    assert(field_full_name(doc.objects@, id) == full_name(doc.objects@, id, doc.objects@.len()));
}

/// A document whose `Fields` array is empty has no fields.
pub proof fn lemma_empty_fields_no_names(doc: PdfDocument, f: Form)
    requires
        loaded(doc, f),
        top_fields(doc)->Ok_0.len() == 0,
    ensures
        f.names().len() == 0,
{
    if f.index().len() > 0 {
        assert(reached(doc, f.index()[0].1));
        let k = choose|k: nat| reaches(doc, f.index()[0].1, k);
        lemma_nothing_reached(doc, k);
    }
}

proof fn lemma_nothing_reached(doc: PdfDocument, k: nat)
    requires
        top_fields(doc) is Ok,
        top_fields(doc)->Ok_0.len() == 0,
    ensures
        forall|id: ObjectId| !#[trigger] reaches(doc, id, k),
    decreases k,
{
    let fs = top_fields(doc)->Ok_0;
    if k > 0 {
        lemma_nothing_reached(doc, (k - 1) as nat);
        assert forall|id: ObjectId| !#[trigger] reaches(doc, id, k) by {
            if reaches(doc, id, k) {
                assert(!reaches(doc, id, (k - 1) as nat));
                let p = choose|p: ObjectId|
                    reaches(doc, p, (k - 1) as nat) && #[trigger] crate::discovery::kid_list(doc.objects@, p).contains(
                        PdfObject::Reference(id),
                    );
                assert(!reaches(doc, p, (k - 1) as nat));
            }
        }
    } else {
        assert forall|id: ObjectId| !#[trigger] reaches(doc, id, k) by {
            assert(!fs.contains(PdfObject::Reference(id)));
        }
    }
}

/// Where a field name resolves to a check box and the input value is `true` in
/// any mix of ASCII cases, the fill step checks the box.
pub proof fn lemma_true_in_any_case_checks(
    f0: Form,
    f1: Form,
    name: Seq<char>,
    m: Seq<(String, String)>,
    r: Result<(), crate::form::FieldError>,
)
    requires
        fill_step(f0, f1, name, m, r),
        resolve(name, m) is Some,
        f0.has_field(name),
        field_type_of(f0.entries(name)) == FieldType::CheckBox,
        is_ascii_text(lookup(m, resolve(name, m).unwrap()).unwrap()@),
        lookup(m, resolve(name, m).unwrap()).unwrap()@.map_values(|c: char| ascii_lower(c)) == true_text(),
    ensures
        r is Ok,
        decoded_state(f1.objects(), f1.entries(name)) == (FieldStateView::CheckBox { is_checked: true }),
{
    reveal(fill_step);
}

} // verus!
