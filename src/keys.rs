//! The names and keys of the AcroForm vocabulary, as bytes.

use vstd::prelude::*;

verus! {

/// `Root`, a dictionary key.
pub open spec fn root() -> Seq<u8> {
    seq![82u8, 111u8, 111u8, 116u8]
}

pub fn root_bytes() -> (r: Vec<u8>)
    ensures
        r@ == root(),
{
    vec![82u8, 111u8, 111u8, 116u8]
}

/// `AcroForm`, a dictionary key.
pub open spec fn acro_form() -> Seq<u8> {
    seq![65u8, 99u8, 114u8, 111u8, 70u8, 111u8, 114u8, 109u8]
}

pub fn acro_form_bytes() -> (r: Vec<u8>)
    ensures
        r@ == acro_form(),
{
    vec![65u8, 99u8, 114u8, 111u8, 70u8, 111u8, 114u8, 109u8]
}

/// `Fields`, a dictionary key.
pub open spec fn fields() -> Seq<u8> {
    seq![70u8, 105u8, 101u8, 108u8, 100u8, 115u8]
}

pub fn fields_bytes() -> (r: Vec<u8>)
    ensures
        r@ == fields(),
{
    vec![70u8, 105u8, 101u8, 108u8, 100u8, 115u8]
}

/// `FT`, a dictionary key: the field type.
pub open spec fn ft() -> Seq<u8> {
    seq![70u8, 84u8]
}

pub fn ft_bytes() -> (r: Vec<u8>)
    ensures
        r@ == ft(),
{
    vec![70u8, 84u8]
}

/// `Kids`, a dictionary key.
pub open spec fn kids() -> Seq<u8> {
    seq![75u8, 105u8, 100u8, 115u8]
}

pub fn kids_bytes() -> (r: Vec<u8>)
    ensures
        r@ == kids(),
{
    vec![75u8, 105u8, 100u8, 115u8]
}

/// `Parent`, a dictionary key.
pub open spec fn parent() -> Seq<u8> {
    seq![80u8, 97u8, 114u8, 101u8, 110u8, 116u8]
}

pub fn parent_bytes() -> (r: Vec<u8>)
    ensures
        r@ == parent(),
{
    vec![80u8, 97u8, 114u8, 101u8, 110u8, 116u8]
}

/// `T`, a dictionary key: the partial field name.
pub open spec fn t() -> Seq<u8> {
    seq![84u8]
}

pub fn t_bytes() -> (r: Vec<u8>)
    ensures
        r@ == t(),
{
    vec![84u8]
}

/// `Ff`, a dictionary key: the field flags.
pub open spec fn ff() -> Seq<u8> {
    seq![70u8, 102u8]
}

pub fn ff_bytes() -> (r: Vec<u8>)
    ensures
        r@ == ff(),
{
    vec![70u8, 102u8]
}

/// `V`, a dictionary key: the value.
pub open spec fn v() -> Seq<u8> {
    seq![86u8]
}

pub fn v_bytes() -> (r: Vec<u8>)
    ensures
        r@ == v(),
{
    vec![86u8]
}

/// `AS`, a dictionary key: the appearance state.
pub open spec fn as_state() -> Seq<u8> {
    seq![65u8, 83u8]
}

pub fn as_state_bytes() -> (r: Vec<u8>)
    ensures
        r@ == as_state(),
{
    vec![65u8, 83u8]
}

/// `AP`, a dictionary key: the appearance dictionary.
pub open spec fn ap() -> Seq<u8> {
    seq![65u8, 80u8]
}

pub fn ap_bytes() -> (r: Vec<u8>)
    ensures
        r@ == ap(),
{
    vec![65u8, 80u8]
}

/// `N`, a dictionary key: the normal appearances.
pub open spec fn n() -> Seq<u8> {
    seq![78u8]
}

pub fn n_bytes() -> (r: Vec<u8>)
    ensures
        r@ == n(),
{
    vec![78u8]
}

/// `Opt`, a dictionary key: the options.
pub open spec fn opt() -> Seq<u8> {
    seq![79u8, 112u8, 116u8]
}

pub fn opt_bytes() -> (r: Vec<u8>)
    ensures
        r@ == opt(),
{
    vec![79u8, 112u8, 116u8]
}

/// `Btn`, a field type name: buttons.
pub open spec fn btn() -> Seq<u8> {
    seq![66u8, 116u8, 110u8]
}

pub fn btn_bytes() -> (r: Vec<u8>)
    ensures
        r@ == btn(),
{
    vec![66u8, 116u8, 110u8]
}

/// `Ch`, a field type name: choices.
pub open spec fn ch() -> Seq<u8> {
    seq![67u8, 104u8]
}

pub fn ch_bytes() -> (r: Vec<u8>)
    ensures
        r@ == ch(),
{
    vec![67u8, 104u8]
}

/// `Yes`, a state name: checked.
pub open spec fn yes() -> Seq<u8> {
    seq![89u8, 101u8, 115u8]
}

pub fn yes_bytes() -> (r: Vec<u8>)
    ensures
        r@ == yes(),
{
    vec![89u8, 101u8, 115u8]
}

/// `Off`, a state name: unchecked.
pub open spec fn off() -> Seq<u8> {
    seq![79u8, 102u8, 102u8]
}

pub fn off_bytes() -> (r: Vec<u8>)
    ensures
        r@ == off(),
{
    vec![79u8, 102u8, 102u8]
}

/// The keys that the field engine writes differ from those that type a field.
pub proof fn lemma_written_keys_distinct()
    ensures
        v() != ft() && v() != ff(),
        ap() != ft() && ap() != ff(),
        as_state() != ft() && as_state() != ff(),
        v() != ap() && v() != as_state() && ap() != as_state(),
{
    assert(v().len() != ft().len());
    assert(v().len() != ff().len());
    assert(v().len() != ap().len());
    assert(v().len() != as_state().len());
    assert(ap()[0] != ft()[0]);
    assert(ap()[0] != ff()[0]);
    assert(as_state()[0] != ft()[0]);
    assert(as_state()[0] != ff()[0]);
    assert(ap()[1] != as_state()[1]);
}

} // verus!
