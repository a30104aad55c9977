use pdf_form::{
    from_pdf_utf16, is_true_text, lookup_key, to_pdf_utf16, Dictionary, FieldState, FieldType,
    Form, LoadError, ObjectId, PdfDocument, PdfObject, StringFormat, ValueError,
};

fn id(n: u32) -> ObjectId {
    ObjectId { num: n, generation: 0 }
}

fn r(n: u32) -> PdfObject {
    PdfObject::Reference(id(n))
}

fn name(s: &str) -> PdfObject {
    PdfObject::Name(s.as_bytes().to_vec())
}

fn lit(s: &str) -> PdfObject {
    PdfObject::String(s.as_bytes().to_vec(), StringFormat::Literal)
}

fn title(s: &str) -> PdfObject {
    PdfObject::String(to_pdf_utf16(s), StringFormat::Literal)
}

fn dict(entries: Vec<(&str, PdfObject)>) -> PdfObject {
    PdfObject::Dictionary(Dictionary {
        entries: entries.into_iter().map(|(k, v)| (k.as_bytes().to_vec(), v)).collect(),
    })
}

fn widget(state: &str, parent: u32) -> PdfObject {
    dict(vec![
        ("Parent", r(parent)),
        ("AS", name("Off")),
        (
            "AP",
            dict(vec![("N", dict(vec![(state, PdfObject::Null), ("Off", PdfObject::Null)]))]),
        ),
    ])
}

fn sample_doc() -> PdfDocument {
    let objects = vec![
        (id(1), dict(vec![("AcroForm", r(2))])),
        (
            id(2),
            dict(vec![(
                "Fields",
                PdfObject::Array(vec![r(3), r(4), r(5), r(6), r(7), r(11)]),
            )]),
        ),
        (
            id(3),
            dict(vec![("FT", name("Tx")), ("T", title("Name_Eingabe")), ("V", lit("old"))]),
        ),
        (
            id(4),
            dict(vec![
                ("FT", name("Btn")),
                ("T", title("CheckboxField")),
                ("V", name("Off")),
                ("AS", name("Off")),
            ]),
        ),
        (
            id(5),
            dict(vec![
                ("FT", name("Btn")),
                ("Ff", PdfObject::Integer(1 << 15)),
                ("T", title("Choice")),
                ("Kids", PdfObject::Array(vec![r(9), r(10)])),
            ]),
        ),
        (
            id(6),
            dict(vec![
                ("FT", name("Ch")),
                ("T", title("List")),
                (
                    "Opt",
                    PdfObject::Array(vec![
                        lit("x"),
                        lit("y"),
                        PdfObject::Array(vec![lit("k"), lit("z")]),
                        PdfObject::Array(vec![PdfObject::Null, lit("w"), PdfObject::Null]),
                        lit(""),
                    ]),
                ),
                ("V", lit("x")),
            ]),
        ),
        (
            id(7),
            dict(vec![("T", title("Foo[0]")), ("Kids", PdfObject::Array(vec![r(8)]))]),
        ),
        (
            id(8),
            dict(vec![("FT", name("Tx")), ("T", title("Bar")), ("Parent", r(7))]),
        ),
        (id(9), widget("A", 5)),
        (id(10), widget("B", 5)),
        (
            id(11),
            dict(vec![
                ("FT", name("Ch")),
                ("Ff", PdfObject::Integer(0x20000 | 0x200000)),
                ("T", title("Combo")),
                ("Opt", PdfObject::Array(vec![lit("p"), lit("q")])),
            ]),
        ),
        (
            id(12),
            dict(vec![
                ("FT", name("Btn")),
                ("Ff", PdfObject::Integer(1 << 16)),
                ("T", title("Push")),
            ]),
        ),
    ];
    let mut objects = objects;
    if let PdfObject::Dictionary(d) = &mut objects[1].1 {
        if let PdfObject::Array(a) = &mut d.entries[0].1 {
            a.push(r(12));
        }
    }
    PdfDocument {
        trailer: Dictionary { entries: vec![(b"Root".to_vec(), r(1))] },
        objects,
    }
}

fn s(x: &str) -> String {
    String::from(x)
}

fn load() -> Form {
    match Form::load_doc(sample_doc()) {
        Ok(f) => f,
        Err(e) => panic!("load failed: {:?}", e),
    }
}

fn text_of(f: &Form, n: &str) -> String {
    match f.get_state(&s(n)) {
        FieldState::Text { text } => text,
        other => panic!("not a text field: {:?}", other),
    }
}

fn entry<'a>(d: &'a Dictionary, k: &str) -> Option<&'a PdfObject> {
    d.entries.iter().rev().find(|(key, _)| key.as_slice() == k.as_bytes()).map(|(_, v)| v)
}

fn name_entry(d: &Dictionary, k: &str) -> Option<String> {
    match entry(d, k) {
        Some(PdfObject::Name(b)) => Some(String::from_utf8(b.clone()).unwrap()),
        _ => None,
    }
}

#[test]
fn load_finds_field_names() {
    let f = load();
    let mut names = f.get_field_names();
    names.sort();
    assert_eq!(
        names,
        vec![
            s("CheckboxField"),
            s("Choice"),
            s("Combo"),
            s("Foo[0].Bar"),
            s("List"),
            s("Name_Eingabe"),
            s("Push")
        ]
    );
    assert_eq!(f.len(), 7);
}

#[test]
fn every_name_has_a_type() {
    let f = load();
    for n in f.get_field_names() {
        assert!(f.get_type(&n).is_ok());
    }
    assert_eq!(f.get_all_types().len(), 7);
}

#[test]
fn types_follow_flags() {
    let f = load();
    assert_eq!(f.get_type(&s("Name_Eingabe")).unwrap(), FieldType::Text);
    assert_eq!(f.get_type(&s("CheckboxField")).unwrap(), FieldType::CheckBox);
    assert_eq!(f.get_type(&s("Choice")).unwrap(), FieldType::Radio);
    assert_eq!(f.get_type(&s("List")).unwrap(), FieldType::ListBox);
    assert_eq!(f.get_type(&s("Combo")).unwrap(), FieldType::ComboBox);
    assert_eq!(f.get_type(&s("Push")).unwrap(), FieldType::Button);
    assert!(matches!(f.get_type(&s("Missing")), Err(LoadError::DictionaryKeyNotFound)));
}

#[test]
fn states_are_decoded() {
    let f = load();
    assert_eq!(text_of(&f, "Name_Eingabe"), s("old"));
    assert_eq!(text_of(&f, "Foo[0].Bar"), s(""));
    match f.get_state(&s("CheckboxField")) {
        FieldState::CheckBox { is_checked } => assert!(!is_checked),
        other => panic!("{:?}", other),
    }
    match f.get_state(&s("Choice")) {
        FieldState::Radio { selected, options } => {
            assert_eq!(selected, s(""));
            assert_eq!(options, vec![s("A"), s("Off"), s("B")]);
        }
        other => panic!("{:?}", other),
    }
    match f.get_state(&s("List")) {
        FieldState::ListBox { selected, options, multiselect } => {
            assert_eq!(selected, vec![s("x")]);
            assert_eq!(options, vec![s("x"), s("y"), s("z")]);
            assert!(!multiselect);
        }
        other => panic!("{:?}", other),
    }
    match f.get_state(&s("Combo")) {
        FieldState::ComboBox { selected, options, multiselect } => {
            assert!(selected.is_empty());
            assert_eq!(options, vec![s("p"), s("q")]);
            assert!(multiselect);
        }
        other => panic!("{:?}", other),
    }
    assert!(matches!(f.get_state(&s("Push")), FieldState::Button));
}

#[test]
fn set_text_writes_utf16_and_drops_appearance() {
    let mut f = load();
    assert!(f.set_text(&s("Name_Eingabe"), s("Björn")).is_ok());
    assert_eq!(text_of(&f, "Name_Eingabe"), s("Björn"));
    let d = f.get_field_by_name(s("Name_Eingabe"));
    match entry(d, "V") {
        Some(PdfObject::String(b, StringFormat::Literal)) => {
            assert_eq!(b, &vec![0xFE, 0xFF, 0x00, 0x42, 0x00, 0x6A, 0x00, 0xF6, 0x00, 0x72, 0x00, 0x6E]);
        }
        other => panic!("{:?}", other),
    }
    assert!(entry(d, "AP").is_none());
}

#[test]
fn set_text_twice_gives_same_state() {
    let mut f = load();
    f.set_text(&s("Name_Eingabe"), s("same")).unwrap();
    let first = text_of(&f, "Name_Eingabe");
    f.set_text(&s("Name_Eingabe"), s("same")).unwrap();
    let second = text_of(&f, "Name_Eingabe");
    assert_eq!(first, second);
    assert_eq!(second, s("same"));
}

#[test]
fn set_text_on_other_type_is_mismatch() {
    let mut f = load();
    assert_eq!(f.set_text(&s("CheckboxField"), s("x")), Err(ValueError::TypeMismatch));
    assert_eq!(f.set_text(&s("Missing"), s("x")), Err(ValueError::TypeMismatch));
}

#[test]
fn radio_rejects_unknown_option_and_keeps_state() {
    let mut f = load();
    let before = format!("{:?}", f.get_state(&s("Choice")));
    assert_eq!(
        f.set_radio(&s("Choice"), s("not-an-option")),
        Err(ValueError::InvalidSelection)
    );
    assert_eq!(format!("{:?}", f.get_state(&s("Choice"))), before);
    assert_eq!(f.set_radio(&s("List"), s("A")), Err(ValueError::TypeMismatch));
}

#[test]
fn radio_selects_option_in_widgets() {
    let mut f = load();
    assert!(f.set_radio(&s("Choice"), s("B")).is_ok());
    match f.get_state(&s("Choice")) {
        FieldState::Radio { selected, .. } => assert_eq!(selected, s("B")),
        other => panic!("{:?}", other),
    }
    let d = f.get_field_by_name(s("Choice"));
    assert_eq!(name_entry(d, "V"), Some(s("B")));
}

#[test]
fn single_select_list_rejects_two_choices() {
    let mut f = load();
    assert_eq!(
        f.set_choice(&s("List"), vec![s("x"), s("y")]),
        Err(ValueError::TooManySelected)
    );
    assert_eq!(
        f.set_choice(&s("List"), vec![s("nope")]),
        Err(ValueError::InvalidSelection)
    );
    assert_eq!(f.set_choice(&s("Choice"), vec![]), Err(ValueError::TypeMismatch));
}

#[test]
fn choices_are_written() {
    let mut f = load();
    f.set_choice(&s("List"), vec![s("z")]).unwrap();
    match f.get_state(&s("List")) {
        FieldState::ListBox { selected, .. } => assert_eq!(selected, vec![s("z")]),
        other => panic!("{:?}", other),
    }
    f.set_choice(&s("Combo"), vec![s("p"), s("q")]).unwrap();
    match f.get_state(&s("Combo")) {
        FieldState::ComboBox { selected, .. } => assert_eq!(selected, vec![s("p"), s("q")]),
        other => panic!("{:?}", other),
    }
    f.set_choice(&s("Combo"), vec![]).unwrap();
    let d = f.get_field_by_name(s("Combo"));
    assert!(matches!(entry(d, "V"), Some(PdfObject::Null)));
}

#[test]
fn check_box_toggles() {
    let mut f = load();
    f.set_check_box(&s("CheckboxField"), true).unwrap();
    let d = f.get_field_by_name(s("CheckboxField"));
    assert_eq!(name_entry(d, "V"), Some(s("Yes")));
    assert_eq!(name_entry(d, "AS"), Some(s("Yes")));
    f.set_check_box(&s("CheckboxField"), false).unwrap();
    match f.get_state(&s("CheckboxField")) {
        FieldState::CheckBox { is_checked } => assert!(!is_checked),
        other => panic!("{:?}", other),
    }
    assert_eq!(f.set_check_box(&s("Choice"), true), Err(ValueError::TypeMismatch));
}

#[test]
fn codec_round_trip() {
    let enc = to_pdf_utf16("A");
    assert_eq!(enc, vec![0xFE, 0xFF, 0x00, 0x41]);
    assert_eq!(from_pdf_utf16(&enc), Some(s("A")));
    assert_eq!(from_pdf_utf16(&[0xFE, 0xFF, 0x00, 0x41, 0x00, 0x00]), Some(s("A")));
    assert_eq!(from_pdf_utf16(&[0xFE, 0xFF, 0x30, 0x42]), Some(s("\u{3042}")));
    assert_eq!(from_pdf_utf16(&[0xFE, 0xFF, 0xD8, 0x00]), None);
    assert_eq!(from_pdf_utf16(&[0xFE, 0xFF]), Some(s("")));
    assert_eq!(from_pdf_utf16(&[]), Some(s("")));
}

#[test]
fn fill_resolves_by_dropping_segments() {
    let mut f = load();
    let map = vec![(s("Bar"), s("filled"))];
    assert!(f.fill(&map).is_ok());
    assert_eq!(text_of(&f, "Foo[0].Bar"), s("filled"));
}

#[test]
fn fill_resolves_by_stripping_index() {
    let mut f = load();
    let map = vec![(s("Foo.Bar"), s("stripped"))];
    assert!(f.fill(&map).is_ok());
    assert_eq!(text_of(&f, "Foo[0].Bar"), s("stripped"));
}

#[test]
fn fill_strips_every_index() {
    let doc = PdfDocument {
        trailer: Dictionary { entries: vec![(b"Root".to_vec(), r(1))] },
        objects: vec![
            (id(1), dict(vec![("AcroForm", r(2))])),
            (id(2), dict(vec![("Fields", PdfObject::Array(vec![r(3)]))])),
            (id(3), dict(vec![("T", title("A[0]")), ("Kids", PdfObject::Array(vec![r(4)]))])),
            (id(4), dict(vec![("FT", name("Tx")), ("T", title("B[1]")), ("Parent", r(3))])),
        ],
    };
    let mut f = Form::load_doc(doc).unwrap();
    let map = vec![(s("A.B"), s("both"))];
    assert!(f.fill(&map).is_ok());
    assert_eq!(text_of(&f, "A[0].B[1]"), s("both"));
}

#[test]
fn later_field_wins_on_repeated_name() {
    let doc = PdfDocument {
        trailer: Dictionary { entries: vec![(b"Root".to_vec(), r(1))] },
        objects: vec![
            (id(1), dict(vec![("AcroForm", r(2))])),
            (id(2), dict(vec![("Fields", PdfObject::Array(vec![r(3), r(4)]))])),
            (id(3), dict(vec![("FT", name("Tx")), ("T", title("Same")), ("V", lit("first"))])),
            (id(4), dict(vec![("FT", name("Tx")), ("T", title("Same")), ("V", lit("second"))])),
        ],
    };
    let f = Form::load_doc(doc).unwrap();
    assert_eq!(f.len(), 1);
    assert_eq!(text_of(&f, "Same"), s("second"));
}

#[test]
fn fill_skips_unrelated_keys() {
    let mut f = load();
    let map = vec![(s("Unrelated"), s("x"))];
    assert!(f.fill(&map).is_ok());
    assert_eq!(text_of(&f, "Foo[0].Bar"), s(""));
    assert_eq!(text_of(&f, "Name_Eingabe"), s("old"));
}

#[test]
fn fill_checks_box_case_insensitively() {
    let mut f = load();
    let map = vec![(s("CheckboxField"), s("TRUE"))];
    assert!(f.fill(&map).is_ok());
    match f.get_state(&s("CheckboxField")) {
        FieldState::CheckBox { is_checked } => assert!(is_checked),
        other => panic!("{:?}", other),
    }
    let map = vec![(s("CheckboxField"), s("no"))];
    assert!(f.fill(&map).is_ok());
    match f.get_state(&s("CheckboxField")) {
        FieldState::CheckBox { is_checked } => assert!(!is_checked),
        other => panic!("{:?}", other),
    }
}

#[test]
fn fill_writes_utf8_name() {
    let mut f = load();
    let map = vec![(s("Name_Eingabe"), s("Björn"))];
    assert!(f.fill(&map).is_ok());
    assert_eq!(text_of(&f, "Name_Eingabe"), s("Björn"));
}

#[test]
fn fill_reports_first_error() {
    let mut f = load();
    let map = vec![(s("Choice"), s("C"))];
    match f.fill(&map) {
        Err(e) => {
            assert_eq!(e.error, ValueError::InvalidSelection);
            assert_eq!(e.field, s("Choice"));
            assert_eq!(e.value, s("C"));
        }
        Ok(()) => panic!("expected an error"),
    }
}

#[test]
fn fill_checks_box_in_mixed_case() {
    for v in ["True", "tRuE", "true"] {
        let mut f = load();
        let map = vec![(s("CheckboxField"), s(v))];
        assert!(f.fill(&map).is_ok());
        match f.get_state(&s("CheckboxField")) {
            FieldState::CheckBox { is_checked } => assert!(is_checked),
            other => panic!("{:?}", other),
        }
    }
}

#[test]
fn empty_fields_give_no_names() {
    let doc = PdfDocument {
        trailer: Dictionary { entries: vec![(b"Root".to_vec(), r(1))] },
        objects: vec![
            (id(1), dict(vec![("AcroForm", r(2))])),
            (id(2), dict(vec![("Fields", PdfObject::Array(vec![]))])),
            (id(3), dict(vec![("FT", name("Tx")), ("T", title("Orphan"))])),
        ],
    };
    let f = Form::load_doc(doc).unwrap();
    assert_eq!(f.len(), 0);
}

#[test]
fn true_text_is_exact() {
    assert!(is_true_text("true"));
    assert!(!is_true_text("TRUE"));
    assert!(!is_true_text("true "));
}

#[test]
fn keys_are_found() {
    let map = vec![(s("a"), s("1")), (s("b"), s("2"))];
    assert_eq!(lookup_key(&map, &s("b")), Some(1));
    assert_eq!(lookup_key(&map, &s("c")), None);
}

#[test]
fn load_errors_are_reported() {
    let mut doc = sample_doc();
    doc.trailer.entries.clear();
    assert!(matches!(Form::load_doc(doc), Err(LoadError::DictionaryKeyNotFound)));

    let mut doc = sample_doc();
    doc.trailer.entries[0].1 = PdfObject::Integer(1);
    assert!(matches!(Form::load_doc(doc), Err(LoadError::NotAReference)));

    let mut doc = sample_doc();
    doc.trailer.entries[0].1 = r(99);
    assert!(matches!(Form::load_doc(doc), Err(LoadError::NoSuchReference(i)) if i == id(99)));

    let mut doc = sample_doc();
    doc.objects[1].1 = dict(vec![("Fields", PdfObject::Integer(3))]);
    assert!(matches!(Form::load_doc(doc), Err(LoadError::UnexpectedType)));

    let mut doc = sample_doc();
    doc.objects[1].1 = dict(vec![("Fields", PdfObject::Array(vec![PdfObject::Null]))]);
    assert!(matches!(Form::load_doc(doc), Err(LoadError::NotAReference)));

    let mut doc = sample_doc();
    doc.objects[1].1 = dict(vec![("Fields", PdfObject::Array(vec![r(42)]))]);
    assert!(matches!(Form::load_doc(doc), Err(LoadError::NoSuchReference(i)) if i == id(42)));
}

#[test]
fn cyclic_kids_end_the_walk() {
    let doc = PdfDocument {
        trailer: Dictionary { entries: vec![(b"Root".to_vec(), r(1))] },
        objects: vec![
            (id(1), dict(vec![("AcroForm", r(2))])),
            (id(2), dict(vec![("Fields", PdfObject::Array(vec![r(3)]))])),
            (
                id(3),
                dict(vec![
                    ("FT", name("Tx")),
                    ("T", title("Loop")),
                    ("Kids", PdfObject::Array(vec![r(3)])),
                ]),
            ),
        ],
    };
    let f = Form::load_doc(doc).unwrap();
    assert_eq!(f.get_field_names(), vec![s("Loop")]);
}

#[test]
fn cyclic_parents_give_no_name() {
    let doc = PdfDocument {
        trailer: Dictionary { entries: vec![(b"Root".to_vec(), r(1))] },
        objects: vec![
            (id(1), dict(vec![("AcroForm", r(2))])),
            (id(2), dict(vec![("Fields", PdfObject::Array(vec![r(3)]))])),
            (
                id(3),
                dict(vec![("FT", name("Tx")), ("T", title("Self")), ("Parent", r(3))]),
            ),
        ],
    };
    let f = Form::load_doc(doc).unwrap();
    assert!(f.get_field_names().is_empty());
}
