//! Text strings as PDF writes them: UTF-16BE behind the byte-order marker `FE FF`.

use vstd::prelude::*;
use vstd::utf8::{decode_utf8, valid_utf8};

verus! {

/// The 16-bit unit written for each character: the low 16 bits of its scalar value,
/// so that a character beyond the Basic Multilingual Plane is not represented faithfully.
pub open spec fn text_units(s: Seq<char>) -> Seq<u16> {
    s.map_values(|c: char| (c as u32) as u16)
}

/// The encoding of `s`: the marker `FE FF`, then each unit of `text_units(s)` big-endian.
pub open spec fn pdf_text_bytes(s: Seq<char>) -> Seq<u8> {
    let u = text_units(s);
    Seq::new(
        2 + 2 * u.len(),
        |i: int|
            if i == 0 {
                0xFEu8
            } else if i == 1 {
                0xFFu8
            } else if i % 2 == 0 {
                (u[(i - 2) / 2] / 256) as u8
            } else {
                (u[(i - 2) / 2] % 256) as u8
            },
    )
}

/// The unit that starts at byte `2 + 2 * i`; a missing low byte counts as zero.
pub open spec fn be_unit_at(b: Seq<u8>, i: int) -> u16 {
    let lo: u8 = if 3 + 2 * i < b.len() {
        b[3 + 2 * i]
    } else {
        0u8
    };
    (b[2 + 2 * i] as int * 256 + lo as int) as u16
}

/// The big-endian 16-bit units after the two marker bytes; a lone final byte is
/// the high half of a last unit.
pub open spec fn be_units(b: Seq<u8>) -> Seq<u16> {
    let n: int = if b.len() <= 2 {
        0
    } else {
        (b.len() - 1) / 2
    };
    Seq::new(n as nat, |i: int| be_unit_at(b, i))
}

/// The units before the first zero unit (all of them where there is none).
pub open spec fn units_before_nul(u: Seq<u16>) -> Seq<u16>
    decreases u.len(),
{
    if u.len() == 0 {
        u
    } else if u[0] == 0 {
        Seq::empty()
    } else {
        seq![u[0]] + units_before_nul(u.drop_first())
    }
}

/// The characters that a UTF-16 unit sequence stands for, or `None` where it
/// holds an unpaired surrogate.
pub open spec fn utf16_text(u: Seq<u16>) -> Option<Seq<char>>
    decreases u.len(),
{
    if u.len() == 0 {
        Some(Seq::empty())
    } else if u[0] < 0xD800 || u[0] >= 0xE000 {
        match utf16_text(u.drop_first()) {
            Some(r) => Some(seq![u[0] as u32 as char] + r),
            None => None,
        }
    } else if u[0] < 0xDC00 && u.len() >= 2 && 0xDC00 <= u[1] && u[1] < 0xE000 {
        match utf16_text(u.subrange(2, u.len() as int)) {
            Some(r) => Some(
                seq![(0x10000 + (u[0] - 0xD800) * 0x400 + (u[1] - 0xDC00)) as u32 as char] + r,
            ),
            None => None,
        }
    } else {
        None
    }
}

/// The text that a PDF text string holds, or `None` where it cannot be decoded.
pub open spec fn pdf_text(b: Seq<u8>) -> Option<Seq<char>> {
    utf16_text(units_before_nul(be_units(b)))
}

/// Relies on `str::chars`: the characters of the string, in order.
#[verifier::external_body]
pub(crate) fn chars_of(s: &str) -> (r: Vec<char>)
    ensures
        r@ == s@,
{
    s.chars().collect()
}

/// Relies on `String::from_iter` over characters: the string of those characters.
#[verifier::external_body]
pub(crate) fn string_from_chars(v: &[char]) -> (r: String)
    ensures
        r@ == v@,
{
    v.iter().collect()
}

/// Relies on `std::str::from_utf8`: it accepts exactly the well-formed UTF-8 byte
/// sequences, and the text is what they encode.
#[verifier::external_body]
pub(crate) fn string_from_utf8(b: &[u8]) -> (r: Option<String>)
    ensures
        r is Some <==> valid_utf8(b@),
        r matches Some(s) ==> s@ == decode_utf8(b@),
{
    std::str::from_utf8(b).ok().map(|s| s.to_owned())
}

/// Relies on `String::from_utf16`: it decodes well-formed UTF-16 and fails on an
/// unpaired surrogate.
#[verifier::external_body]
fn string_from_utf16(u: &[u16]) -> (r: Option<String>)
    ensures
        r is Some <==> utf16_text(u@) is Some,
        r matches Some(s) ==> s@ == utf16_text(u@).unwrap(),
{
    String::from_utf16(u).ok()
}

/// Encodes `s` as a PDF text string: the marker `FE FF`, then one big-endian
/// 16-bit unit per character.
pub fn to_pdf_utf16(s: &str) -> (r: Vec<u8>)
    requires
        2 + 2 * s@.len() <= usize::MAX,
    ensures
        r@ == pdf_text_bytes(s@),
{
    let cs = chars_of(s);
    let mut r: Vec<u8> = Vec::new();
    r.push(0xFE);
    r.push(0xFF);
    let mut i: usize = 0;
    while i < cs.len()
        invariant
            cs@ == s@,
            0 <= i <= cs@.len(),
            r@.len() == 2 + 2 * i,
            forall|j: int| 0 <= j < r@.len() ==> r@[j] == #[trigger] pdf_text_bytes(s@)[j],
        decreases cs@.len() - i,
    {
        let unit: u16 = (cs[i] as u32) as u16;
        assert(unit == text_units(s@)[i as int]);
        r.push((unit / 256) as u8);
        r.push((unit % 256) as u8);
        i = i + 1;
    }
    assert(r@ =~= pdf_text_bytes(s@));
    r
}

proof fn lemma_units_before_nul(u: Seq<u16>, n: int)
    requires
        0 <= n <= u.len(),
        forall|j: int| 0 <= j < n ==> u[j] != 0,
        n == u.len() || u[n] == 0,
    ensures
        units_before_nul(u) == u.take(n),
    decreases n,
{
    if n == 0 {
        assert(u.take(0) =~= Seq::<u16>::empty());
        if u.len() > 0 {
            assert(u[0] == 0);
        } else {
            assert(u =~= Seq::<u16>::empty());
        }
    } else {
        let d = u.drop_first();
        assert forall|j: int| 0 <= j < n - 1 implies d[j] != 0 by {
            assert(d[j] == u[j + 1]);
        }
        lemma_units_before_nul(d, n - 1);
        assert(seq![u[0]] + d.take(n - 1) =~= u.take(n));
    }
}

/// Decodes a PDF text string: the two marker bytes are skipped, the rest is read
/// as big-endian 16-bit units up to the first zero unit, and those are decoded as
/// UTF-16. `None` where they hold an unpaired surrogate.
pub fn from_pdf_utf16(b: &[u8]) -> (r: Option<String>)
    ensures
        r is Some <==> pdf_text(b@) is Some,
        r matches Some(s) ==> s@ == pdf_text(b@).unwrap(),
{
    let ghost all = be_units(b@);
    let mut units: Vec<u16> = Vec::new();
    let len: usize = b.len();
    let count: usize = if b.len() > 2 {
        (b.len() - 1) / 2
    } else {
        0
    };
    let mut i: usize = 0;
    while i < count
        invariant
            all == be_units(b@),
            count == all.len(),
            len == b@.len(),
            b@.len() > 2 ==> count == (b@.len() - 1) / 2,
            b@.len() <= 2 ==> count == 0,
            i <= count,
            units@.len() == i,
            units@ == all.take(i as int),
        decreases count - i,
    {
        assert(b@.len() > 2);
        assert(2 + 2 * i < b@.len()) by (nonlinear_arith)
            requires
                i < count,
                count == (b@.len() - 1) / 2,
        ;
        let k: usize = 2 + 2 * i;
        let lo: u8 = if k + 1 < b.len() {
            b[k + 1]
        } else {
            0
        };
        let hi: u8 = b[k];
        assert(hi as int * 256 + lo as int <= 65535) by (nonlinear_arith)
            requires
                hi <= 255,
                lo <= 255,
        ;
        let unit: u16 = (hi as u16) * 256 + lo as u16;
        assert(b@.len() > 2);
        assert(unit == all[i as int]);
        units.push(unit);
        i = i + 1;
        assert(units@ =~= all.take(i as int));
    }
    assert(units@ =~= all);
    let mut n: usize = 0;
    while n < units.len() && units[n] != 0
        invariant
            0 <= n <= units@.len(),
            forall|j: int| 0 <= j < n ==> units@[j] != 0,
        decreases units@.len() - n,
    {
        n = n + 1;
    }
    proof {
        lemma_units_before_nul(units@, n as int);
    }
    units.truncate(n);
    string_from_utf16(units.as_slice())
}

} // verus!
