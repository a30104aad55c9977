//! Bulk filling: each field takes the input value whose key its name resolves to.

use vstd::prelude::*;
use crate::codec::{chars_of, string_from_chars};
use crate::form::{field_type_of, find_named, FieldError, FieldType, Form, ValueError};
use crate::mutate::{set_check_box_outcome, set_radio_outcome, set_text_outcome};
use crate::object::{last_index_of, lemma_last_index_of, lookup};

verus! {

/// What `regex::Regex::replace_all` with the pattern `\[\d+]` and an empty
/// replacement gives for `s`: `s` without any of its bracketed decimal indices.
pub uninterp spec fn indices_stripped(s: Seq<char>) -> Seq<char>;

/// What `str::to_lowercase` gives for `s`.
pub uninterp spec fn lower_of(s: Seq<char>) -> Seq<char>;

pub open spec fn is_ascii_digit(c: char) -> bool {
    48 <= (c as u32) && (c as u32) <= 57
}

/// The end of the run of ASCII digits of `s` that starts at `j`.
pub open spec fn digits_end(s: Seq<char>, j: int) -> int
    decreases s.len() - j,
{
    if 0 <= j < s.len() && is_ascii_digit(s[j]) {
        digits_end(s, j + 1)
    } else {
        j
    }
}

/// The position of the `]` that closes a bracketed decimal index starting at `i`.
pub open spec fn index_end(s: Seq<char>, i: int) -> Option<int> {
    if 0 <= i < s.len() && s[i] == '[' {
        let e = digits_end(s, i + 1);
        if e > i + 1 && e < s.len() && s[e] == ']' {
            Some(e)
        } else {
            None
        }
    } else {
        None
    }
}

/// The first and last positions of the leftmost bracketed decimal index at or after `i`.
pub open spec fn first_index_from(s: Seq<char>, i: int) -> Option<(int, int)>
    decreases s.len() - i,
{
    if i < 0 || i >= s.len() {
        None
    } else {
        match index_end(s, i) {
            Some(e) => Some((i, e)),
            None => first_index_from(s, i + 1),
        }
    }
}

/// An ASCII text without any of its bracketed decimal indices `[digits]`: the
/// leftmost one is removed, and the search goes on after it.
pub open spec fn ascii_indices_stripped(s: Seq<char>) -> Seq<char>
    decreases s.len(),
{
    match first_index_from(s, 0) {
        Some((i, e)) => if 0 <= i <= e < s.len() {
            s.subrange(0, i) + ascii_indices_stripped(s.subrange(e + 1, s.len() as int))
        } else {
            s
        },
        None => s,
    }
}

/// A candidate key without its bracketed indices.
pub open spec fn stripped(x: Seq<char>) -> Seq<char> {
    if is_ascii_text(x) {
        ascii_indices_stripped(x)
    } else {
        indices_stripped(x)
    }
}

/// Relies on `regex::Regex::new` and `regex::Regex::replace_all`: every match of
/// `\[\d+]`, from left to right and not overlapping, is removed, and a string
/// without a match comes back unchanged. On ASCII text `\d` matches exactly `0`
/// to `9`.
#[verifier::external_body]
fn strip_index(s: &str) -> (r: String)
    ensures
        r@ == indices_stripped(s@),
        is_ascii_text(s@) ==> r@ == ascii_indices_stripped(s@),
{
    let re = regex::Regex::new(r"\[\d+]").unwrap();
    re.replace_all(s, "").into_owned()
}

/// A text of ASCII characters.
pub open spec fn is_ascii_text(s: Seq<char>) -> bool {
    forall|i: int| 0 <= i < s.len() ==> (#[trigger] s[i] as u32) < 128
}

/// The lower case of an ASCII character: `A` to `Z` become `a` to `z`.
pub open spec fn ascii_lower(c: char) -> char {
    if 65 <= (c as u32) && (c as u32) <= 90 {
        ((c as u32) + 32) as char
    } else {
        c
    }
}

/// Relies on `str::to_lowercase`: the result depends on the characters alone, and
/// on ASCII text it lowers `A` to `Z` and keeps every other character.
#[verifier::external_body]
fn lowercase(s: &str) -> (r: String)
    ensures
        r@ == lower_of(s@),
        is_ascii_text(s@) ==> r@ == s@.map_values(|c: char| ascii_lower(c)),
{
    s.to_lowercase()
}

pub open spec fn true_text() -> Seq<char> {
    seq!['t', 'r', 'u', 'e']
}

/// Whether an input value checks a check box: its lower case is `true`.
pub open spec fn reads_true(value: Seq<char>) -> bool {
    if is_ascii_text(value) {
        value.map_values(|c: char| ascii_lower(c)) == true_text()
    } else {
        lower_of(value) == true_text()
    }
}

/// Whether a lower-cased input value reads as checked: it is exactly `true`.
pub fn is_true_text(lowered: &str) -> (r: bool)
    ensures
        r == (lowered@ == true_text()),
{
    let cs = chars_of(lowered);
    let r = cs.len() == 4 && cs[0] == 't' && cs[1] == 'r' && cs[2] == 'u' && cs[3] == 'e';
    proof {
        if r {
            assert(cs@ =~= true_text());
        }
    }
    r
}

/// Position of the first `.` of `s` at or after `from`.
pub open spec fn next_dot(s: Seq<char>, from: int) -> Option<int>
    decreases s.len() - from,
{
    if from < 0 || from >= s.len() {
        None
    } else if s[from] == '.' {
        Some(from)
    } else {
        next_dot(s, from + 1)
    }
}

proof fn lemma_next_dot(s: Seq<char>, from: int)
    requires
        0 <= from,
    ensures
        next_dot(s, from) matches Some(d) ==> from <= d < s.len() && s[d] == '.',
    decreases s.len() - from,
{
    if from < s.len() && s[from] != '.' {
        lemma_next_dot(s, from + 1);
    }
}

/// The keys tried for a field name `s`, from segment start `from` on: the rest of
/// the name, then that rest without its bracketed indices, then the same for
/// the rest after the next dot, and so on.
pub open spec fn candidates_from(s: Seq<char>, from: int) -> Seq<Seq<char>>
    decreases s.len() - from,
{
    if from < 0 || from > s.len() {
        Seq::empty()
    } else {
        let x = s.subrange(from, s.len() as int);
        let here = seq![x, stripped(x)];
        match next_dot(s, from) {
            Some(d) => if from <= d < s.len() {
                here + candidates_from(s, d + 1)
            } else {
                here
            },
            None => here,
        }
    }
}

/// The first of `cands` that `m` has as a key.
pub open spec fn first_present(cands: Seq<Seq<char>>, m: Seq<(String, String)>) -> Option<Seq<char>>
    decreases cands.len(),
{
    if cands.len() == 0 {
        None
    } else if lookup(m, cands[0]) is Some {
        Some(cands[0])
    } else {
        first_present(cands.drop_first(), m)
    }
}

/// The input key that field name `name` resolves to in mapping `m`.
pub open spec fn resolve(name: Seq<char>, m: Seq<(String, String)>) -> Option<Seq<char>> {
    first_present(candidates_from(name, 0), m)
}

/// The value error that a fill result carries.
pub open spec fn value_result(r: Result<(), FieldError>) -> Result<(), ValueError> {
    match r {
        Ok(_) => Ok(()),
        Err(fe) => Err(fe.error),
    }
}

/// One step of `fill` on the field called `name`: where its name resolves to a key
/// of `m`, the setter for its type runs with the value of that key (radio buttons,
/// check boxes, which take a lower-cased `true` as checked, and text fields), and an
/// error names that key and value; other fields are left alone.
#[verifier::opaque]
pub open spec fn fill_step(
    old: Form,
    new: Form,
    name: Seq<char>,
    m: Seq<(String, String)>,
    r: Result<(), FieldError>,
) -> bool {
    match resolve(name, m) {
        None => new == old && r is Ok,
        Some(key) => {
            let value = lookup(m, key).unwrap()@;
            &&& r matches Err(fe) ==> fe.field@ == key && fe.value@ == value
            &&& match field_type_of(old.entries(name)) {
                FieldType::Radio => set_radio_outcome(old, new, name, value, value_result(r)),
                FieldType::CheckBox => set_check_box_outcome(
                    old,
                    new,
                    name,
                    reads_true(value),
                    value_result(r),
                ),
                FieldType::Text => set_text_outcome(old, new, name, value, value_result(r)),
                _ => new == old && r is Ok,
            }
        },
    }
}

/// A run of `fill` over field names `names`: `trace` holds the form before each
/// step and after the last; every step but the last succeeds, the last gives `r`,
/// and a successful run takes every name.
pub open spec fn fill_run(
    trace: Seq<Form>,
    names: Seq<Seq<char>>,
    m: Seq<(String, String)>,
    r: Result<(), FieldError>,
) -> bool {
    &&& 1 <= trace.len() <= names.len() + 1
    &&& forall|j: int|
        0 <= j < trace.len() - 1 ==> fill_step(
            #[trigger] trace[j],
            trace[j + 1],
            names[j],
            m,
            if j == trace.len() - 2 {
                r
            } else {
                Ok(())
            },
        )
    &&& r is Ok ==> trace.len() == names.len() + 1
    &&& r is Err ==> trace.len() >= 2
}

/// Position of the entry of `fields` with key `key` (the last one, where several have it).
pub fn lookup_key(fields: &Vec<(String, String)>, key: &String) -> (r: Option<usize>)
    ensures
        match r {
            Some(i) => i as int == last_index_of(fields@, key@),
            None => last_index_of(fields@, key@) == -1,
        },
        r is Some <==> lookup(fields@, key@) is Some,
        r matches Some(i) ==> i < fields@.len() && fields@[i as int].0@ == key@,
{
    proof {
        lemma_last_index_of(fields@, key@);
    }
    find_named(fields, key)
}

proof fn lemma_first_present_skip(a: Seq<char>, b: Seq<char>, rest: Seq<Seq<char>>, m: Seq<(String, String)>)
    requires
        lookup(m, a) is None,
        lookup(m, b) is None,
    ensures
        first_present(seq![a, b] + rest, m) == first_present(rest, m),
{
    let all = seq![a, b] + rest;
    assert(all[0] == a);
    assert(first_present(all, m) == first_present(all.drop_first(), m));
    let t = all.drop_first();
    assert(t =~= seq![b] + rest);
    assert(t[0] == b);
    assert(first_present(t, m) == first_present(t.drop_first(), m));
    assert(t.drop_first() =~= rest);
}

/// The entry of `fields` that field name `name` resolves to.
fn resolve_key(name: &String, fields: &Vec<(String, String)>) -> (r: Option<usize>)
    ensures
        match r {
            Some(i) => resolve(name@, fields@) == Some(fields@[i as int].0@) && i as int
                == last_index_of(fields@, fields@[i as int].0@) && i < fields@.len(),
            None => resolve(name@, fields@) is None,
        },
{
    let cs = chars_of(name.as_str());
    let ghost s = cs@;
    let mut pos: usize = 0;
    loop
        invariant
            s == cs@,
            s == name@,
            0 <= pos <= s.len(),
            resolve(name@, fields@) == first_present(candidates_from(s, pos as int), fields@),
        decreases s.len() - pos,
    {
        let ghost x = s.subrange(pos as int, s.len() as int);
        let cand = string_from_chars(vstd::slice::slice_subrange(cs.as_slice(), pos, cs.len()));
        assert(cand@ =~= x);
        proof {
            lemma_next_dot(s, pos as int);
        }
        let ghost here = seq![x, stripped(x)];
        let ghost rest = match next_dot(s, pos as int) {
            Some(d) => candidates_from(s, d + 1),
            None => Seq::<Seq<char>>::empty(),
        };
        assert(candidates_from(s, pos as int) == here + rest);
        match lookup_key(fields, &cand) {
            Some(i) => {
                assert((here + rest)[0] == x);
                return Some(i);
            },
            None => {},
        }
        let without_index = strip_index(cand.as_str());
        match lookup_key(fields, &without_index) {
            Some(i) => {
                assert((here + rest)[0] == x);
                assert((here + rest).drop_first()[0] == stripped(x));
                assert((here + rest).drop_first() =~= seq![stripped(x)] + rest);
                assert(first_present(here + rest, fields@) == first_present((here + rest).drop_first(), fields@));
                return Some(i);
            },
            None => {},
        }
        proof {
            lemma_first_present_skip(x, stripped(x), rest, fields@);
        }
        let mut j: usize = pos;
        while j < cs.len() && cs[j] != '.'
            invariant
                s == cs@,
                pos <= j <= s.len(),
                next_dot(s, pos as int) == next_dot(s, j as int),
            decreases s.len() - j,
        {
            j = j + 1;
        }
        if j == cs.len() {
            assert(rest == Seq::<Seq<char>>::empty());
            assert(first_present(rest, fields@) == None::<Seq<char>>);
            return None;
        }
        pos = j + 1;
    }
}

impl Form {
    /// One step of `fill`: the field called `name` takes the value that its name resolves to.
    fn fill_field(&mut self, name: &String, fields: &Vec<(String, String)>) -> (r: Result<(), FieldError>)
        requires
            old(self).wf(),
            old(self).names().contains(name@),
            forall|k: int| 0 <= k < fields@.len() ==> 2 + 2 * (#[trigger] fields@[k]).1@.len() <= usize::MAX,
        ensures
            fill_step(*old(self), *final(self), name@, fields@, r),
            final(self).wf(),
            final(self).names() == old(self).names(),
    {
        proof {
            self.lemma_names_have_fields(name@);
            reveal(fill_step);
        }
        match resolve_key(name, fields) {
            None => Ok(()),
            Some(k) => {
                let key = &fields[k].0;
                let value = &fields[k].1;
                assert(lookup(fields@, key@) == Some(fields@[k as int].1));
                match self.get_type(name) {
                    Ok(FieldType::Radio) => match self.set_radio(name, value.clone()) {
                        Ok(()) => Ok(()),
                        Err(e) => Err(FieldError::new(e, key.clone(), value.clone())),
                    },
                    Ok(FieldType::CheckBox) => {
                        let lowered = lowercase(value.as_str());
                        let checked = is_true_text(lowered.as_str());
                        match self.set_check_box(name, checked) {
                            Ok(()) => Ok(()),
                            Err(e) => Err(FieldError::new(e, key.clone(), value.clone())),
                        }
                    },
                    Ok(FieldType::Text) => match self.set_text(name, value.clone()) {
                        Ok(()) => Ok(()),
                        Err(e) => Err(FieldError::new(e, key.clone(), value.clone())),
                    },
                    _ => Ok(()),
                }
            },
        }
    }

    /// Fills the form from a mapping of input keys to values. Each field, in the
    /// order of `get_field_names`, resolves its name to a key: the full name, the
    /// name without its bracketed indices, and then the same for the name
    /// without its leading segment, and so on. Radio buttons, check boxes and text
    /// fields take the value of that key; the first error ends the fill.
    pub fn fill(&mut self, fields: &Vec<(String, String)>) -> (r: Result<(), FieldError>)
        requires
            old(self).wf(),
            forall|i: int| 0 <= i < fields@.len() ==> 2 + 2 * (#[trigger] fields@[i]).1@.len() <= usize::MAX,
        ensures
            exists|trace: Seq<Form>|
                {
                    &&& #[trigger] fill_run(trace, old(self).names(), fields@, r)
                    &&& trace[0] == *old(self)
                    &&& trace.last() == *final(self)
                },
    {
        let names = self.get_field_names();
        let ghost all = old(self).names();
        let ghost mut trace: Seq<Form> = seq![*self];
        let mut i: usize = 0;
        while i < names.len()
            invariant
                self.wf(),
                all == old(self).names(),
                self.names() == all,
                crate::form::string_views(names@) == all,
                0 <= i <= names@.len(),
                forall|k: int| 0 <= k < fields@.len() ==> 2 + 2 * (#[trigger] fields@[k]).1@.len() <= usize::MAX,
                trace.len() == i + 1,
                trace[0] == *old(self),
                trace.last() == *self,
                forall|j: int| 0 <= j < i ==> fill_step(#[trigger] trace[j], trace[j + 1], all[j], fields@, Ok(())),
            decreases names@.len() - i,
        {
            let name = &names[i];
            assert(name@ == all[i as int]);
            assert(self.names().contains(name@)) by {
                assert(all[i as int] == name@);
            }
            let ghost before = *self;
            let step = self.fill_field(name, fields);
            let ghost prev = trace;
            proof {
                trace = trace.push(*self);
                assert forall|j: int| 0 <= j < i implies fill_step(#[trigger] trace[j], trace[j + 1], all[j], fields@, Ok(())) by {
                    assert(trace[j] == prev[j] && trace[j + 1] == prev[j + 1]);
                }
                assert(trace[i as int] == before);
            }
            match step {
                Err(e) => {
                    assert(step == Err::<(), FieldError>(e));
                    assert(fill_run(trace, all, fields@, Err(e))) by {
                        assert forall|j: int| 0 <= j < trace.len() - 1 implies fill_step(
                            #[trigger] trace[j],
                            trace[j + 1],
                            all[j],
                            fields@,
                            if j == trace.len() - 2 { Err(e) } else { Ok(()) },
                        ) by {}
                    }
                    return Err(e);
                },
                Ok(u) => {
                    assert(fill_step(before, *self, name@, fields@, step));
                    assert(step == Ok::<(), FieldError>(u));
                    assert(trace[i + 1] == *self);
                    assert(fill_step(trace[i as int], trace[i + 1], all[i as int], fields@, Ok(())));
                },
            }
            i = i + 1;
            assert(self.names() == all);
        }
        assert(fill_run(trace, all, fields@, Ok(()))) by {
            assert forall|j: int| 0 <= j < trace.len() - 1 implies fill_step(
                #[trigger] trace[j],
                trace[j + 1],
                all[j],
                fields@,
                if j == trace.len() - 2 { Ok(()) } else { Ok(()) },
            ) by {}
        }
        Ok(())
    }
}

} // verus!
