//! The USB listing of the POSIX path, as `lsusb -v` prints it: one block of
//! lines per device, blocks separated by a blank line.
//!
//! A field line is found by its keyword: the first occurrence of the keyword
//! in the block, through the end of its line. Only lines that end in a newline
//! count.
use vstd::prelude::*;
use vstd::string::{StrSliceExecFns, StringExecFns};
use crate::chars::{
    chars_of, find, lemma_find_bounds, find_range, occurs_at, split_all, split_ranges, trim_ws,
    trim_ws_range,
};
use crate::error::Error;
use crate::ids::{parse_number, parse_number_range};
use crate::info::{DeviceInfo, DeviceModel};
use crate::path::DevicePath;
use crate::{listing_outcome, models, outcome};

verus! {

pub open spec fn is_dec(c: char) -> bool {
    '0' <= c && c <= '9'
}

/// The end of the run of ASCII digits that starts at `i`.
pub open spec fn digit_end(s: Seq<char>, i: int) -> int
    decreases s.len() - i,
{
    if 0 <= i < s.len() && is_dec(s[i]) {
        digit_end(s, i + 1)
    } else {
        i
    }
}

/// Whether `Bus <digits> Device <digits>` starts at `p`.
pub open spec fn path_at(s: Seq<char>, p: int) -> bool {
    let e1 = digit_end(s, p + 4);
    let e2 = digit_end(s, e1 + 8);
    &&& 0 <= p && p + 4 <= s.len()
    &&& s.subrange(p, p + 4) == seq!['B', 'u', 's', ' ']
    &&& e1 > p + 4
    &&& e1 + 8 <= s.len()
    &&& s.subrange(e1, e1 + 8) == seq![' ', 'D', 'e', 'v', 'i', 'c', 'e', ' ']
    &&& e2 > e1 + 8
}

/// The first position at or after `p` where `path_at` holds.
pub open spec fn path_from(s: Seq<char>, p: int) -> Option<int>
    decreases s.len() - p,
{
    if p < 0 || p >= s.len() {
        None
    } else if path_at(s, p) {
        Some(p)
    } else {
        path_from(s, p + 1)
    }
}

/// The bus and device numbers of the first `Bus NNN Device NNN` of a block.
pub open spec fn usb_path(s: Seq<char>) -> Option<DevicePath> {
    match path_from(s, 0) {
        Some(p) => {
            let e1 = digit_end(s, p + 4);
            let e2 = digit_end(s, e1 + 8);
            match (
                parse_number(s.subrange(p + 4, e1), 10, 0x100),
                parse_number(s.subrange(e1 + 8, e2), 10, 0x100),
            ) {
                (Some(b), Some(d)) => Some(DevicePath::USB { bus: b as u8, device: d as u8 }),
                _ => None,
            }
        },
        None => None,
    }
}

/// The line of the first occurrence of `kw` in a block, from the keyword to the
/// end of its line, trimmed; `None` where the keyword is absent or no newline follows it.
pub open spec fn field_line(s: Seq<char>, kw: Seq<char>) -> Option<Seq<char>> {
    match find(s, kw) {
        Some(k) => match find(s.skip(k + kw.len()), seq!['\n']) {
            Some(n) => Some(trim_ws(s.subrange(k, k + kw.len() + n))),
            None => None,
        },
        None => None,
    }
}

/// `str::trim_start_matches`: every leading copy of `pat` removed.
pub open spec fn strip_all(s: Seq<char>, pat: Seq<char>) -> Seq<char>
    decreases s.len(),
{
    if pat.len() > 0 && pat.len() <= s.len() && s.take(pat.len() as int) == pat {
        strip_all(s.skip(pat.len() as int), pat)
    } else {
        s
    }
}

/// The value of a field line: keyword and whitespace removed.
pub open spec fn field_value(line: Seq<char>, kw: Seq<char>) -> Seq<char> {
    trim_ws(strip_all(line, kw))
}

/// The value of a numeric field line, with its `0x` prefix removed too.
pub open spec fn hex_field_value(line: Seq<char>, kw: Seq<char>) -> Seq<char> {
    strip_all(field_value(line, kw), seq!['0', 'x'])
}

/// `str::split_once(' ')`.
pub open spec fn split_space(v: Seq<char>) -> Option<(Seq<char>, Seq<char>)> {
    match find(v, seq![' ']) {
        Some(i) => Some((v.take(i), v.skip(i + 1))),
        None => None,
    }
}

/// The class line: a decimal id, then a name that defaults to `Other`.
pub open spec fn class_field(line: Seq<char>) -> Option<(Seq<char>, u16)> {
    let v = hex_field_value(line, "bDeviceClass"@);
    let (id, name) = match split_space(v) {
        Some(p) => p,
        None => (v, "Other"@),
    };
    match parse_number(id, 10, 0x10000) {
        Some(n) => Some((name, n as u16)),
        None => None,
    }
}

/// A vendor or product id line: four hexadecimal digits, then a name, trimmed.
pub open spec fn id_field(line: Seq<char>, kw: Seq<char>) -> Option<(Seq<char>, u16)> {
    let v = hex_field_value(line, kw);
    if v.len() < 4 {
        None
    } else {
        match parse_number(v.take(4), 16, 0x10000) {
            Some(n) => Some((trim_ws(v.skip(4)), n as u16)),
            None => None,
        }
    }
}

/// A descriptor string line (`iProduct`): the text after the index; empty without one.
pub open spec fn string_field(line: Seq<char>, kw: Seq<char>) -> Seq<char> {
    match split_space(field_value(line, kw)) {
        Some((_, name)) => name,
        None => Seq::empty(),
    }
}

/// The manufacturer line: `Some` with index and name where both are there,
/// `None` where the name is missing, and an error where the index is not a number.
pub open spec fn manufacturer_field(line: Seq<char>) -> Result<
    Option<(Seq<char>, u16)>,
    Error,
> {
    match split_space(field_value(line, "iManufacturer"@)) {
        Some((id, name)) => match parse_number(id, 10, 0x10000) {
            Some(n) => Ok(Some((name, n as u16))),
            None => Err(Error::ParseError),
        },
        None => Ok(None),
    }
}

/// The record of one block, or `None` where a required field is missing or malformed.
pub open spec fn usb_block(s: Seq<char>) -> Option<DeviceModel> {
    match (
        usb_path(s),
        field_line(s, "bDeviceClass"@),
        field_line(s, "idVendor"@),
        field_line(s, "iProduct"@),
        field_line(s, "idProduct"@),
    ) {
        (Some(path), Some(cl), Some(vl), Some(pl), Some(il)) => {
            let man = match field_line(s, "iManufacturer"@) {
                Some(ml) => manufacturer_field(ml),
                None => Ok(None),
            };
            match (class_field(cl), id_field(vl, "idVendor"@), id_field(il, "idProduct"@), man) {
                (Some((class, class_id)), Some((vendor, vendor_id)), Some((pb, product_id)), Ok(
                    m,
                )) => Some(
                    DeviceModel {
                        path,
                        class,
                        vendor,
                        product: trim_ws(string_field(pl, "iProduct"@) + seq![' '] + pb),
                        manufacturer: match m {
                            Some((name, _)) => Some(name),
                            None => None,
                        },
                        class_id: Some(class_id),
                        vendor_id,
                        product_id,
                        manufacturer_id: match m {
                            Some((_, id)) => Some(id),
                            None => None,
                        },
                    },
                ),
                _ => None,
            }
        },
        _ => None,
    }
}

/// The records of a sequence of blocks; `None` as soon as one block is malformed.
pub open spec fn usb_blocks(bs: Seq<Seq<char>>) -> Option<Seq<DeviceModel>>
    decreases bs.len(),
{
    if bs.len() == 0 {
        Some(Seq::empty())
    } else {
        match (usb_blocks(bs.drop_last()), usb_block(bs.last())) {
            (Some(rs), Some(r)) => Some(rs.push(r)),
            _ => None,
        }
    }
}

/// The records of a whole verbose USB listing, split into blocks at blank lines.
pub open spec fn usb_listing(text: Seq<char>) -> Option<Seq<DeviceModel>> {
    usb_blocks(split_all(text, seq!['\n', '\n']))
}

fn digit_end_exec(cs: &Vec<char>, lo: usize, hi: usize, i: usize) -> (r: usize)
    requires
        lo <= i <= hi <= cs@.len(),
    ensures
        i <= r <= hi,
        r - lo == digit_end(cs@.subrange(lo as int, hi as int), i - lo),
{
    let ghost s = cs@.subrange(lo as int, hi as int);
    let mut j = i;
    while j < hi && '0' <= cs[j] && cs[j] <= '9'
        invariant
            lo <= i <= j <= hi <= cs@.len(),
            s == cs@.subrange(lo as int, hi as int),
            digit_end(s, i - lo) == digit_end(s, j - lo),
        decreases hi - j,
    {
        assert(s[j - lo] == cs@[j as int]);
        j = j + 1;
    }
    if j < hi {
        assert(s[j - lo] == cs@[j as int]);
    }
    j
}

/// Whether `path_at` holds at `p`, with the two digit runs' ends.
fn path_at_exec(cs: &Vec<char>, lo: usize, hi: usize, p: usize, bus_kw: &Vec<char>, dev_kw: &Vec<
    char,
>) -> (r: Option<(usize, usize)>)
    requires
        lo <= p <= hi <= cs@.len(),
        bus_kw@ == seq!['B', 'u', 's', ' '],
        dev_kw@ == seq![' ', 'D', 'e', 'v', 'i', 'c', 'e', ' '],
    ensures
        path_at(cs@.subrange(lo as int, hi as int), p - lo) <==> r is Some,
        r matches Some((e1, e2)) ==> e1 - lo == digit_end(cs@.subrange(lo as int, hi as int), p - lo + 4)
            && e2 - lo == digit_end(cs@.subrange(lo as int, hi as int), e1 - lo + 8) && e1 <= hi && e2 <= hi,
{
    let ghost s = cs@.subrange(lo as int, hi as int);
    if !occurs_at(cs, p, hi, bus_kw) {
        if 4 <= hi - p {
            assert(s.subrange(p - lo, p - lo + 4) =~= cs@.subrange(p as int, p + 4));
        }
        return None;
    }
    assert(s.subrange(p - lo, p - lo + 4) =~= cs@.subrange(p as int, p + 4));
    let e1 = digit_end_exec(cs, lo, hi, p + 4);
    if e1 == p + 4 {
        return None;
    }
    if !occurs_at(cs, e1, hi, dev_kw) {
        if 8 <= hi - e1 {
            assert(s.subrange(e1 - lo, e1 - lo + 8) =~= cs@.subrange(e1 as int, e1 + 8));
        }
        return None;
    }
    assert(s.subrange(e1 - lo, e1 - lo + 8) =~= cs@.subrange(e1 as int, e1 + 8));
    let e2 = digit_end_exec(cs, lo, hi, e1 + 8);
    if e2 == e1 + 8 {
        return None;
    }
    Some((e1, e2))
}

fn path_exec(cs: &Vec<char>, lo: usize, hi: usize) -> (r: Result<DevicePath, Error>)
    requires
        lo <= hi <= cs@.len(),
    ensures
        match usb_path(cs@.subrange(lo as int, hi as int)) {
            Some(p) => r == Ok::<DevicePath, Error>(p),
            None => r == Err::<DevicePath, Error>(Error::ParseError),
        },
{
    let ghost s = cs@.subrange(lo as int, hi as int);
    let bus_kw: Vec<char> = vec!['B', 'u', 's', ' '];
    let dev_kw: Vec<char> = vec![' ', 'D', 'e', 'v', 'i', 'c', 'e', ' '];
    assert(bus_kw@ =~= seq!['B', 'u', 's', ' ']);
    assert(dev_kw@ =~= seq![' ', 'D', 'e', 'v', 'i', 'c', 'e', ' ']);
    let mut p = lo;
    while p < hi
        invariant
            lo <= p <= hi <= cs@.len(),
            s == cs@.subrange(lo as int, hi as int),
            bus_kw@ == seq!['B', 'u', 's', ' '],
            dev_kw@ == seq![' ', 'D', 'e', 'v', 'i', 'c', 'e', ' '],
            path_from(s, 0) == path_from(s, p - lo),
        decreases hi - p,
    {
        match path_at_exec(cs, lo, hi, p, &bus_kw, &dev_kw) {
            Some((e1, e2)) => {
                assert(s.subrange(p - lo + 4, e1 - lo) =~= cs@.subrange(p + 4, e1 as int));
                assert(s.subrange(e1 - lo + 8, e2 - lo) =~= cs@.subrange(e1 + 8, e2 as int));
                let b = parse_number_range(cs, p + 4, e1, 10, 0x100);
                let d = parse_number_range(cs, e1 + 8, e2, 10, 0x100);
                return match (b, d) {
                    (Some(b), Some(d)) => Ok(DevicePath::USB { bus: b as u8, device: d as u8 }),
                    _ => Err(Error::ParseError),
                };
            },
            None => {},
        }
        p = p + 1;
    }
    Err(Error::ParseError)
}

/// The range of `field_line` within `cs[lo..hi]`.
fn field_line_exec(cs: &Vec<char>, lo: usize, hi: usize, kw: &Vec<char>) -> (r: Option<
    (usize, usize),
>)
    requires
        lo <= hi <= cs@.len(),
        kw@.len() > 0,
    ensures
        match field_line(cs@.subrange(lo as int, hi as int), kw@) {
            Some(l) => r matches Some((a, b)) && lo <= a <= b <= hi && cs@.subrange(
                a as int,
                b as int,
            ) == l,
            None => r is None,
        },
{
    let ghost s = cs@.subrange(lo as int, hi as int);
    let nl: Vec<char> = vec!['\n'];
    assert(nl@ =~= seq!['\n']);
    proof {
        lemma_find_bounds(s, kw@);
    }
    let k = match find_range(cs, lo, hi, kw) {
        Some(k) => k,
        None => return None,
    };
    let start = k + kw.len();
    assert(s.skip(start - lo) =~= cs@.subrange(start as int, hi as int));
    proof {
        lemma_find_bounds(cs@.subrange(start as int, hi as int), nl@);
    }
    let n = match find_range(cs, start, hi, &nl) {
        Some(n) => n,
        None => return None,
    };
    assert(s.subrange(k - lo, n - lo) =~= cs@.subrange(k as int, n as int));
    let (a, b) = trim_ws_range(cs, k, n);
    Some((a, b))
}

/// The start of `strip_all(cs[lo..hi], pat)`.
fn strip_all_exec(cs: &Vec<char>, lo: usize, hi: usize, pat: &Vec<char>) -> (r: usize)
    requires
        lo <= hi <= cs@.len(),
    ensures
        lo <= r <= hi,
        cs@.subrange(r as int, hi as int) == strip_all(cs@.subrange(lo as int, hi as int), pat@),
{
    let mut a = lo;
    if pat.len() == 0 {
        return lo;
    }
    while occurs_at(cs, a, hi, pat)
        invariant
            lo <= a <= hi <= cs@.len(),
            pat@.len() > 0,
            strip_all(cs@.subrange(lo as int, hi as int), pat@) == strip_all(
                cs@.subrange(a as int, hi as int),
                pat@,
            ),
        decreases hi - a,
    {
        assert(cs@.subrange(a as int, hi as int).take(pat@.len() as int) =~= cs@.subrange(
            a as int,
            a + pat@.len(),
        ));
        assert(cs@.subrange(a as int, hi as int).skip(pat@.len() as int) =~= cs@.subrange(
            a + pat@.len(),
            hi as int,
        ));
        a = a + pat.len();
    }
    if pat.len() <= hi - a {
        assert(cs@.subrange(a as int, hi as int).take(pat@.len() as int) =~= cs@.subrange(
            a as int,
            a + pat@.len(),
        ));
    }
    a
}

/// `split_space` of `cs[lo..hi]`: the position of the first space.
fn space_exec(cs: &Vec<char>, lo: usize, hi: usize) -> (r: Option<usize>)
    requires
        lo <= hi <= cs@.len(),
    ensures
        match split_space(cs@.subrange(lo as int, hi as int)) {
            Some((x, y)) => r matches Some(i) && lo <= i < hi && x == cs@.subrange(
                lo as int,
                i as int,
            ) && y == cs@.subrange(i + 1, hi as int),
            None => r is None,
        },
{
    let sp: Vec<char> = vec![' '];
    assert(sp@ =~= seq![' ']);
    proof {
        lemma_find_bounds(cs@.subrange(lo as int, hi as int), sp@);
    }
    let r = find_range(cs, lo, hi, &sp);
    match r {
        Some(i) => {
            assert(cs@.subrange(lo as int, hi as int).take(i - lo) =~= cs@.subrange(
                lo as int,
                i as int,
            ));
            assert(cs@.subrange(lo as int, hi as int).skip(i - lo + 1) =~= cs@.subrange(
                i + 1,
                hi as int,
            ));
        },
        None => {},
    }
    r
}

/// The value range of a field line `cs[a..b]`: keyword and whitespace removed, and
/// with `hex` also the `0x` prefix.
fn value_range(cs: &Vec<char>, a: usize, b: usize, kw: &Vec<char>, hex: bool) -> (r: (usize, usize))
    requires
        a <= b <= cs@.len(),
    ensures
        a <= r.0 <= r.1 <= b,
        hex ==> cs@.subrange(r.0 as int, r.1 as int) == hex_field_value(
            cs@.subrange(a as int, b as int),
            kw@,
        ),
        !hex ==> cs@.subrange(r.0 as int, r.1 as int) == field_value(
            cs@.subrange(a as int, b as int),
            kw@,
        ),
{
    let s1 = strip_all_exec(cs, a, b, kw);
    let (t0, t1) = trim_ws_range(cs, s1, b);
    if !hex {
        return (t0, t1);
    }
    let x: Vec<char> = vec!['0', 'x'];
    assert(x@ =~= seq!['0', 'x']);
    let s2 = strip_all_exec(cs, t0, t1, &x);
    (s2, t1)
}

fn class_exec(text: &str, cs: &Vec<char>, a: usize, b: usize) -> (r: Result<(String, u16), Error>)
    requires
        a <= b <= cs@.len(),
        cs@ == text@,
    ensures
        match class_field(cs@.subrange(a as int, b as int)) {
            Some((n, id)) => r matches Ok(x) && x.0@ == n && x.1 == id,
            None => r == Err::<(String, u16), Error>(Error::ParseError),
        },
{
    let kw = chars_of("bDeviceClass");
    let (v0, v1) = value_range(cs, a, b, &kw, true);
    let (i0, i1, name) = match space_exec(cs, v0, v1) {
        Some(i) => (v0, i, text.substring_char(i + 1, v1).to_owned()),
        None => (v0, v1, "Other".to_owned()),
    };
    match parse_number_range(cs, i0, i1, 10, 0x10000) {
        Some(n) => Ok((name, n as u16)),
        None => Err(Error::ParseError),
    }
}

fn id_exec(text: &str, cs: &Vec<char>, a: usize, b: usize, kw: &Vec<char>) -> (r: Result<
    (String, u16),
    Error,
>)
    requires
        a <= b <= cs@.len(),
        cs@ == text@,
    ensures
        match id_field(cs@.subrange(a as int, b as int), kw@) {
            Some((n, id)) => r matches Ok(x) && x.0@ == n && x.1 == id,
            None => r == Err::<(String, u16), Error>(Error::ParseError),
        },
{
    let (v0, v1) = value_range(cs, a, b, kw, true);
    let ghost v = cs@.subrange(v0 as int, v1 as int);
    if v1 - v0 < 4 {
        return Err(Error::ParseError);
    }
    assert(v.take(4) =~= cs@.subrange(v0 as int, v0 + 4));
    assert(v.skip(4) =~= cs@.subrange(v0 + 4, v1 as int));
    match parse_number_range(cs, v0, v0 + 4, 16, 0x10000) {
        Some(n) => {
            let (n0, n1) = trim_ws_range(cs, v0 + 4, v1);
            Ok((text.substring_char(n0, n1).to_owned(), n as u16))
        },
        None => Err(Error::ParseError),
    }
}

fn string_exec(text: &str, cs: &Vec<char>, a: usize, b: usize, kw: &Vec<char>) -> (r: String)
    requires
        a <= b <= cs@.len(),
        cs@ == text@,
    ensures
        r@ == string_field(cs@.subrange(a as int, b as int), kw@),
{
    let (v0, v1) = value_range(cs, a, b, kw, false);
    match space_exec(cs, v0, v1) {
        Some(i) => text.substring_char(i + 1, v1).to_owned(),
        None => String::new(),
    }
}

fn manufacturer_exec(text: &str, cs: &Vec<char>, a: usize, b: usize) -> (r: Result<
    Option<(String, u16)>,
    Error,
>)
    requires
        a <= b <= cs@.len(),
        cs@ == text@,
    ensures
        match manufacturer_field(cs@.subrange(a as int, b as int)) {
            Ok(Some((n, id))) => r matches Ok(Some(x)) && x.0@ == n && x.1 == id,
            Ok(None) => r matches Ok(None),
            Err(e) => r == Err::<Option<(String, u16)>, Error>(e),
        },
{
    let kw = chars_of("iManufacturer");
    let (v0, v1) = value_range(cs, a, b, &kw, false);
    match space_exec(cs, v0, v1) {
        Some(i) => match parse_number_range(cs, v0, i, 10, 0x10000) {
            Some(n) => Ok(Some((text.substring_char(i + 1, v1).to_owned(), n as u16))),
            None => Err(Error::ParseError),
        },
        None => Ok(None),
    }
}

/// `trim_ws(a + " " + b)` as a new string.
fn join_trimmed(a: String, b: &str) -> (r: String)
    ensures
        r@ == trim_ws(a@ + seq![' '] + b@),
{
    let mut s = a;
    proof {
        reveal_strlit(" ");
    }
    s.append(" ");
    s.append(b);
    let cs = chars_of(s.as_str());
    let (x, y) = trim_ws_range(&cs, 0, cs.len());
    assert(cs@.subrange(0, cs@.len() as int) =~= cs@);
    assert(s@ =~= a@ + seq![' '] + b@);
    s.as_str().substring_char(x, y).to_owned()
}

/// The record of the block `cs[lo..hi]`.
fn usb_record(text: &str, cs: &Vec<char>, lo: usize, hi: usize) -> (r: Result<DeviceInfo, Error>)
    requires
        lo <= hi <= cs@.len(),
        cs@ == text@,
    ensures
        match usb_block(cs@.subrange(lo as int, hi as int)) {
            Some(m) => r matches Ok(d) && d@ == m,
            None => r == Err::<DeviceInfo, Error>(Error::ParseError),
        },
{
    let kw_class = chars_of("bDeviceClass");
    let kw_vendor = chars_of("idVendor");
    let kw_product = chars_of("iProduct");
    let kw_product_id = chars_of("idProduct");
    let kw_man = chars_of("iManufacturer");
    proof {
        reveal_strlit("bDeviceClass");
        reveal_strlit("idVendor");
        reveal_strlit("iProduct");
        reveal_strlit("idProduct");
        reveal_strlit("iManufacturer");
    }
    let path = path_exec(cs, lo, hi)?;
    let cl = field_line_exec(cs, lo, hi, &kw_class);
    let vl = field_line_exec(cs, lo, hi, &kw_vendor);
    let pl = field_line_exec(cs, lo, hi, &kw_product);
    let il = field_line_exec(cs, lo, hi, &kw_product_id);
    let ml = field_line_exec(cs, lo, hi, &kw_man);
    let (cl, vl, pl, il) = match (cl, vl, pl, il) {
        (Some(cl), Some(vl), Some(pl), Some(il)) => (cl, vl, pl, il),
        _ => return Err(Error::ParseError),
    };
    let man = match ml {
        Some((a, b)) => manufacturer_exec(text, cs, a, b),
        None => Ok(None),
    };
    let (class, class_id) = class_exec(text, cs, cl.0, cl.1)?;
    let (vendor, vendor_id) = id_exec(text, cs, vl.0, vl.1, &kw_vendor)?;
    let (pb, product_id) = id_exec(text, cs, il.0, il.1, &kw_product_id)?;
    let m = man?;
    let pa = string_exec(text, cs, pl.0, pl.1, &kw_product);
    let product = join_trimmed(pa, pb.as_str());
    let (manufacturer, manufacturer_id) = match m {
        Some((name, id)) => (Some(name), Some(id)),
        None => (None, None),
    };
    Ok(
        DeviceInfo {
            path,
            class,
            vendor,
            product,
            manufacturer,
            class_id: Some(class_id),
            vendor_id,
            product_id,
            manufacturer_id,
        },
    )
}

/// Once a prefix of the blocks fails, every longer prefix fails too.
proof fn lemma_usb_blocks_fail(bs: Seq<Seq<char>>, k: int)
    requires
        0 <= k <= bs.len(),
        usb_blocks(bs.take(k)) is None,
    ensures
        usb_blocks(bs) is None,
    decreases bs.len() - k,
{
    if k < bs.len() {
        assert(bs.take(k + 1).drop_last() =~= bs.take(k));
        lemma_usb_blocks_fail(bs, k + 1);
    } else {
        assert(bs.take(k) =~= bs);
    }
}

/// Reads a verbose USB listing, one device per block of lines. The first
/// malformed block fails the whole listing with `ParseError`.
pub fn parse_usb_listing(text: &str) -> (r: Result<Vec<DeviceInfo>, Error>)
    ensures
        match usb_listing(text@) {
            Some(ms) => r matches Ok(v) && v@.len() == ms.len() && forall|i: int|
                0 <= i < ms.len() ==> #[trigger] v@[i]@ == ms[i],
            None => r == Err::<Vec<DeviceInfo>, Error>(Error::ParseError),
        },
        outcome(r) == listing_outcome(usb_listing(text@)),
{
    let cs = chars_of(text);
    assert(cs@.subrange(0, cs@.len() as int) =~= text@);
    let sep: Vec<char> = vec!['\n', '\n'];
    assert(sep@ =~= seq!['\n', '\n']);
    let blocks = split_ranges(&cs, 0, cs.len(), &sep);
    let ghost bs = split_all(text@, sep@);
    let mut out: Vec<DeviceInfo> = Vec::new();
    let mut k: usize = 0;
    while k < blocks.len()
        invariant
            k <= blocks@.len() == bs.len(),
            cs@ == text@,
            bs == split_all(text@, seq!['\n', '\n']),
            forall|j: int|
                0 <= j < blocks@.len() ==> 0 <= (#[trigger] blocks@[j]).0 <= blocks@[j].1
                    <= cs@.len() && cs@.subrange(blocks@[j].0 as int, blocks@[j].1 as int)
                    == bs[j],
            usb_blocks(bs.take(k as int)) matches Some(ms) && out@.len() == ms.len() && forall|
                i: int,
            | 0 <= i < ms.len() ==> #[trigger] out@[i]@ == ms[i],
        decreases blocks@.len() - k,
    {
        assert(bs.take(k + 1).drop_last() =~= bs.take(k as int));
        assert(bs.take(k + 1).last() == bs[k as int]);
        match usb_record(text, &cs, blocks[k].0, blocks[k].1) {
            Ok(d) => {
                out.push(d);
            },
            Err(e) => {
                proof {
                    lemma_usb_blocks_fail(bs, k as int + 1);
                }
                return Err(e);
            },
        }
        k = k + 1;
    }
    assert(bs.take(k as int) =~= bs);
    assert(models(out@) =~= usb_listing(text@)->Some_0);
    Ok(out)
}

} // verus!
