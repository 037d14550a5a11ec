//! Property buffers: UTF-16LE text with a terminating NUL, as the platform's
//! device property queries hand them back.
use vstd::prelude::*;
use crate::chars::{chars_of, split_all, split_ranges};
use vstd::string::StrSliceExecFns;
use crate::error::Error;

verus! {

/// The UTF-16 code units of one character.
pub open spec fn char_units(c: char) -> Seq<u16> {
    let v = c as u32;
    if v < 0x10000 {
        seq![v as u16]
    } else {
        seq![(0xD800 + (v - 0x10000) / 0x400) as u16, (0xDC00 + (v - 0x10000) % 0x400) as u16]
    }
}

/// The UTF-16 encoding of a text.
pub open spec fn encode_utf16(s: Seq<char>) -> Seq<u16>
    decreases s.len(),
{
    if s.len() == 0 {
        Seq::empty()
    } else {
        char_units(s[0]) + encode_utf16(s.drop_first())
    }
}

/// Whether `u` is the UTF-16 encoding of some text.
pub open spec fn is_utf16(u: Seq<u16>) -> bool {
    exists|s: Seq<char>| encode_utf16(s) == u
}

/// The text that `u` encodes (meaningful where `is_utf16(u)`).
pub open spec fn decode_utf16(u: Seq<u16>) -> Seq<char> {
    choose|s: Seq<char>| encode_utf16(s) == u
}

/// Little-endian byte pairs read as code units.
pub open spec fn units_of(b: Seq<u8>) -> Seq<u16> {
    Seq::new(b.len() / 2, |i: int| (b[2 * i] as int + 256 * b[2 * i + 1] as int) as u16)
}

/// Code units written as little-endian byte pairs.
pub open spec fn bytes_of(u: Seq<u16>) -> Seq<u8>
    decreases u.len(),
{
    if u.len() == 0 {
        Seq::empty()
    } else {
        seq![(u[0] % 256) as u8, (u[0] / 256) as u8] + bytes_of(u.drop_first())
    }
}

/// The text of a buffer that holds UTF-16LE text and then two bytes of terminator,
/// or `None` where the buffer is shorter than the terminator, has an odd length, or
/// is not well-formed UTF-16.
pub open spec fn property_text(b: Seq<u8>) -> Option<Seq<char>> {
    if b.len() < 2 {
        None
    } else {
        let content = b.take(b.len() - 2);
        if content.len() % 2 == 0 && is_utf16(units_of(content)) {
            Some(decode_utf16(units_of(content)))
        } else {
            None
        }
    }
}

/// The nonempty members of `s`, in order.
pub open spec fn nonempty_pieces(s: Seq<Seq<char>>) -> Seq<Seq<char>>
    decreases s.len(),
{
    if s.len() == 0 {
        Seq::empty()
    } else if s.last().len() > 0 {
        nonempty_pieces(s.drop_last()).push(s.last())
    } else {
        nonempty_pieces(s.drop_last())
    }
}

/// The nonempty pieces of a text between NUL characters, in order.
pub open spec fn nul_separated(s: Seq<char>) -> Seq<Seq<char>> {
    nonempty_pieces(split_all(s, seq!['\0']))
}

/// The strings of a multi-string buffer.
pub open spec fn property_texts(b: Seq<u8>) -> Option<Seq<Seq<char>>> {
    match property_text(b) {
        Some(s) => Some(nul_separated(s)),
        None => None,
    }
}

/// Relies on String::from_utf16: `Ok` exactly when the code units are well-formed
/// UTF-16, holding the text that they encode.
#[verifier::external_body]
fn string_from_utf16(units: &[u16]) -> (r: Option<String>)
    ensures
        r matches Some(s) ==> encode_utf16(s@) == units@,
        r is None ==> !is_utf16(units@),
{
    String::from_utf16(units).ok()
}

proof fn lemma_char_units_prefix(a: char, b: char, u: Seq<u16>, v: Seq<u16>)
    requires
        char_units(a) + u == char_units(b) + v,
    ensures
        a == b,
        u == v,
{
    let x = char_units(a) + u;
    let y = char_units(b) + v;
    assert(x[0] == y[0]);
    let av = a as u32;
    let bv = b as u32;
    if av < 0x10000 && bv < 0x10000 {
        assert(av == bv);
        assert(u =~= x.skip(1));
        assert(v =~= y.skip(1));
    } else if av >= 0x10000 && bv >= 0x10000 {
        assert(x[1] == y[1]);
        assert((av - 0x10000) / 0x400 == (bv - 0x10000) / 0x400);
        assert((av - 0x10000) % 0x400 == (bv - 0x10000) % 0x400);
        assert(av == bv);
        assert(u =~= x.skip(2));
        assert(v =~= y.skip(2));
    } else {
        assert(false);
    }
    vstd::utf8::char_u32_cast(a, av);
    vstd::utf8::char_u32_cast(b, bv);
}

/// Different texts have different UTF-16 encodings.
pub proof fn lemma_encode_utf16_injective(s: Seq<char>, t: Seq<char>)
    requires
        encode_utf16(s) == encode_utf16(t),
    ensures
        s == t,
    decreases s.len(),
{
    if s.len() == 0 && t.len() == 0 {
        assert(s =~= t);
    } else if s.len() == 0 || t.len() == 0 {
        if s.len() > 0 {
            assert(encode_utf16(s).len() >= char_units(s[0]).len());
        } else {
            assert(encode_utf16(t).len() >= char_units(t[0]).len());
        }
    } else {
        lemma_char_units_prefix(s[0], t[0], encode_utf16(s.drop_first()), encode_utf16(t.drop_first()));
        lemma_encode_utf16_injective(s.drop_first(), t.drop_first());
        assert(s =~= seq![s[0]] + s.drop_first());
        assert(t =~= seq![t[0]] + t.drop_first());
    }
}

proof fn lemma_bytes_of(u: Seq<u16>)
    ensures
        bytes_of(u).len() == 2 * u.len(),
        forall|i: int|
            0 <= i < u.len() ==> bytes_of(u)[2 * i] == (#[trigger] u[i] % 256) as u8 && bytes_of(
                u,
            )[2 * i + 1] == (u[i] / 256) as u8,
    decreases u.len(),
{
    if u.len() > 0 {
        lemma_bytes_of(u.drop_first());
        assert forall|i: int| 0 <= i < u.len() implies bytes_of(u)[2 * i] == (#[trigger] u[i]
            % 256) as u8 && bytes_of(u)[2 * i + 1] == (u[i] / 256) as u8 by {
            if i > 0 {
                assert(u.drop_first()[i - 1] == u[i]);
            }
        }
    }
}

/// Code units written as byte pairs read back as the same code units.
pub proof fn lemma_units_of_bytes_of(u: Seq<u16>)
    ensures
        units_of(bytes_of(u)) == u,
        bytes_of(u).len() == 2 * u.len(),
{
    lemma_bytes_of(u);
    let b = bytes_of(u);
    assert forall|i: int| 0 <= i < u.len() implies #[trigger] units_of(b)[i] == u[i] by {
        assert(b[2 * i] == (u[i] % 256) as u8);
        assert(b[2 * i + 1] == (u[i] / 256) as u8);
    }
    assert(units_of(b) =~= u);
}

/// A text encoded as UTF-16LE with a two-byte NUL terminator decodes back to the same text.
pub proof fn lemma_property_round_trip(s: Seq<char>)
    ensures
        property_text(bytes_of(encode_utf16(s)) + seq![0u8, 0u8]) == Some(s),
{
    let u = encode_utf16(s);
    let b = bytes_of(u) + seq![0u8, 0u8];
    lemma_units_of_bytes_of(u);
    assert(b.take(b.len() - 2) =~= bytes_of(u));
    assert(is_utf16(u));
    let d = decode_utf16(u);
    lemma_encode_utf16_injective(d, s);
}

/// A buffer of odd length is never accepted, as text or as a multi-string.
pub proof fn lemma_odd_length_rejected(b: Seq<u8>)
    requires
        b.len() % 2 == 1,
    ensures
        property_text(b) is None,
        property_texts(b) is None,
{
}

fn decode_prefix(bytes: &[u8], n: usize) -> (r: Result<String, Error>)
    requires
        n <= bytes@.len(),
    ensures
        ({
            let b = bytes@.take(n as int);
            if b.len() % 2 == 0 && is_utf16(units_of(b)) {
                r matches Ok(s) && s@ == decode_utf16(units_of(b))
            } else {
                r == Err::<String, Error>(Error::ParseError)
            }
        }),
{
    let ghost b = bytes@.take(n as int);
    if n % 2 != 0 {
        return Err(Error::ParseError);
    }
    let mut units: Vec<u16> = Vec::new();
    let mut i: usize = 0;
    while i < n / 2
        invariant
            n <= bytes@.len(),
            n % 2 == 0,
            b == bytes@.take(n as int),
            i <= n / 2,
            units@ == units_of(b).take(i as int),
        decreases n / 2 - i,
    {
        let u: u16 = (bytes[2 * i] as u16) + 256 * (bytes[2 * i + 1] as u16);
        units.push(u);
        assert(units@ =~= units_of(b).take(i + 1));
        i = i + 1;
    }
    assert(units@ =~= units_of(b));
    match string_from_utf16(units.as_slice()) {
        Some(s) => {
            proof {
                let d = decode_utf16(units_of(b));
                assert(encode_utf16(d) == units_of(b));
                lemma_encode_utf16_injective(s@, d);
            }
            Ok(s)
        },
        None => Err(Error::ParseError),
    }
}

/// Reads little-endian byte pairs as UTF-16 code units and decodes them; an odd
/// length or ill-formed UTF-16 is a `ParseError`.
pub fn string_from_utf16_bytes(bytes: &[u8]) -> (r: Result<String, Error>)
    ensures
        bytes@.len() % 2 == 0 && is_utf16(units_of(bytes@)) ==> (r matches Ok(s) && s@
            == decode_utf16(units_of(bytes@))),
        !(bytes@.len() % 2 == 0 && is_utf16(units_of(bytes@))) ==> r == Err::<String, Error>(
            Error::ParseError,
        ),
{
    assert(bytes@.take(bytes@.len() as int) =~= bytes@);
    decode_prefix(bytes, bytes.len())
}

/// The text of a property buffer: UTF-16LE content followed by a two-byte terminator.
pub fn property_string(buf: &[u8]) -> (r: Result<String, Error>)
    ensures
        match property_text(buf@) {
            Some(s) => r matches Ok(x) && x@ == s,
            None => r == Err::<String, Error>(Error::ParseError),
        },
{
    if buf.len() < 2 {
        return Err(Error::ParseError);
    }
    decode_prefix(buf, buf.len() - 2)
}

/// The strings of a multi-string property buffer: its text split at NUL characters,
/// empty pieces left out.
pub fn property_strings(buf: &[u8]) -> (r: Result<Vec<String>, Error>)
    ensures
        match property_texts(buf@) {
            Some(ss) => r matches Ok(v) && v@.len() == ss.len() && forall|i: int|
                0 <= i < ss.len() ==> #[trigger] v@[i]@ == ss[i],
            None => r == Err::<Vec<String>, Error>(Error::ParseError),
        },
{
    let text = property_string(buf)?;
    let cs = chars_of(text.as_str());
    let sep: Vec<char> = vec!['\0'];
    assert(sep@ =~= seq!['\0']);
    let ranges = split_ranges(&cs, 0, cs.len(), &sep);
    let ghost pieces = split_all(cs@.subrange(0, cs@.len() as int), sep@);
    assert(cs@.subrange(0, cs@.len() as int) =~= text@);
    let mut out: Vec<String> = Vec::new();
    let mut k: usize = 0;
    while k < ranges.len()
        invariant
            k <= ranges@.len() == pieces.len(),
            cs@ == text@,
            forall|j: int|
                0 <= j < ranges@.len() ==> 0 <= (#[trigger] ranges@[j]).0 <= ranges@[j].1
                    <= cs@.len() && cs@.subrange(ranges@[j].0 as int, ranges@[j].1 as int)
                    == pieces[j],
            out@.len() == nonempty_pieces(pieces.take(k as int)).len(),
            forall|j: int|
                0 <= j < out@.len() ==> #[trigger] out@[j]@ == nonempty_pieces(
                    pieces.take(k as int),
                )[j],
        decreases ranges@.len() - k,
    {
        let (a, b) = ranges[k];
        assert(pieces.take(k + 1).drop_last() =~= pieces.take(k as int));
        assert(pieces.take(k + 1).last() == pieces[k as int]);
        if a < b {
            let piece = text.as_str().substring_char(a, b).to_owned();
            out.push(piece);
        }
        k = k + 1;
    }
    assert(pieces.take(k as int) =~= pieces);
    Ok(out)
}

} // verus!
