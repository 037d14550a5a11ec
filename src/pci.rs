//! The PCI listing of the POSIX path: one device per line, as `lspci -mm -nn`
//! prints it.
//!
//! A line reads `00:02.0 "VGA compatible controller [0300]" "Intel Corporation [8086]"
//! "UHD Graphics [1234]" ...`: an address up to the first space, then quoted
//! segments, each a name followed by its bracketed hexadecimal id.
use vstd::prelude::*;
use vstd::string::StrSliceExecFns;
use crate::chars::{
    is_ws, trim_start_ws, trim_end_ws, trim_start_char, trim_end_char, lemma_find_char,
    chars_of, find, lemma_find_bounds, find_range, split_all, split_ranges, trim_char, trim_ws,
    trim_char_range, trim_ws_range,
};
use crate::error::Error;
use crate::ids::{
    all_digits, digit_value, digits_value, lemma_digits_value_bound, parse_number,
    parse_number_range, raw_id, id_from_raw,
};
use crate::info::{DeviceInfo, DeviceModel};
use crate::path::DevicePath;
use crate::{listing_outcome, models, outcome};

verus! {

/// The quoted segments of `line` from position `pos` on, quotes included.
pub open spec fn quoted_from(line: Seq<char>, pos: int) -> Seq<Seq<char>>
    decreases line.len() - pos,
{
    if pos < 0 || pos >= line.len() {
        Seq::empty()
    } else {
        match find(line.skip(pos), seq!['"']) {
            None => Seq::empty(),
            Some(i) => {
                let a = pos + i;
                if i < 0 || a + 1 > line.len() {
                    Seq::empty()
                } else {
                    match find(line.skip(a + 1), seq!['"']) {
                        None => Seq::empty(),
                        Some(j) => {
                            let b = a + 1 + j;
                            if j < 0 || b + 1 > line.len() {
                                Seq::empty()
                            } else {
                                seq![line.subrange(a, b + 1)] + quoted_from(line, b + 1)
                            }
                        },
                    }
                }
            },
        }
    }
}

/// The raw tokens of a listing line: the text through the first space, if there
/// is one, then every quoted segment after it.
pub open spec fn raw_tokens(line: Seq<char>) -> Seq<Seq<char>> {
    match find(line, seq![' ']) {
        Some(k) => if 0 <= k < line.len() {
            seq![line.take(k + 1)] + quoted_from(line, k + 1)
        } else {
            quoted_from(line, 0)
        },
        None => quoted_from(line, 0),
    }
}

/// A token with surrounding whitespace and then surrounding quotes removed.
pub open spec fn clean(tok: Seq<char>) -> Seq<char> {
    trim_char(trim_ws(tok), '"')
}

pub open spec fn hex_u8(s: Seq<char>) -> Option<int> {
    parse_number(s, 16, 0x100)
}

/// `BB:SS.F`: two hexadecimal digits of bus, then slot and function.
pub open spec fn pci_address(a: Seq<char>) -> Option<DevicePath> {
    if a.len() < 2 {
        None
    } else {
        let n = trim_char(a.skip(2), ':');
        if n.len() < 2 {
            None
        } else {
            match (hex_u8(a.take(2)), hex_u8(n.take(2)), hex_u8(trim_char(n.skip(2), '.'))) {
                (Some(b), Some(s), Some(f)) => Some(
                    DevicePath::PCI { bus: b as u8, slot: s as u8, function: f as u8 },
                ),
                _ => None,
            }
        }
    }
}

/// A name segment: the part before its last seven characters, trimmed.
pub open spec fn segment_name(seg: Seq<char>) -> Seq<char> {
    trim_ws(seg.take(seg.len() - 7))
}

/// A name segment's id: its last seven characters, `" [xxxx]"`.
pub open spec fn segment_id(seg: Seq<char>) -> Option<int> {
    if seg.len() < 7 {
        None
    } else {
        raw_id(seg.skip(seg.len() - 7))
    }
}

/// The record of one listing line, or `None` where the line is malformed.
pub open spec fn pci_line(line: Seq<char>) -> Option<DeviceModel> {
    let t = raw_tokens(line);
    if t.len() < 4 {
        None
    } else {
        match (
            pci_address(clean(t[0])),
            segment_id(clean(t[1])),
            segment_id(clean(t[2])),
            segment_id(clean(t[3])),
        ) {
            (Some(path), Some(c), Some(v), Some(p)) => Some(
                DeviceModel {
                    path,
                    class: segment_name(clean(t[1])),
                    vendor: segment_name(clean(t[2])),
                    product: segment_name(clean(t[3])),
                    manufacturer: None,
                    class_id: Some(c as u16),
                    vendor_id: v as u16,
                    product_id: p as u16,
                    manufacturer_id: None,
                },
            ),
            _ => None,
        }
    }
}

/// The records of a sequence of lines; `None` as soon as one line is malformed.
pub open spec fn pci_lines(lines: Seq<Seq<char>>) -> Option<Seq<DeviceModel>>
    decreases lines.len(),
{
    if lines.len() == 0 {
        Some(Seq::empty())
    } else {
        match (pci_lines(lines.drop_last()), pci_line(lines.last())) {
            (Some(rs), Some(r)) => Some(rs.push(r)),
            _ => None,
        }
    }
}

/// The records of a whole listing: the text trimmed, then split into lines.
pub open spec fn pci_listing(text: Seq<char>) -> Option<Seq<DeviceModel>> {
    pci_lines(split_all(trim_ws(text), seq!['\n']))
}

/// The tokens of `cs[lo..hi]` from offset `start` on, as index ranges of `cs`.
fn quoted_ranges(cs: &Vec<char>, lo: usize, hi: usize, start: usize) -> (r: Vec<(usize, usize)>)
    requires
        lo <= hi <= cs@.len(),
        start <= hi - lo,
    ensures
        r@.len() == quoted_from(cs@.subrange(lo as int, hi as int), start as int).len(),
        forall|k: int|
            0 <= k < r@.len() ==> lo <= (#[trigger] r@[k]).0 <= r@[k].1 <= hi && cs@.subrange(
                r@[k].0 as int,
                r@[k].1 as int,
            ) == quoted_from(cs@.subrange(lo as int, hi as int), start as int)[k],
{
    let ghost line = cs@.subrange(lo as int, hi as int);
    let ghost whole = quoted_from(line, start as int);
    let ghost mut done: Seq<Seq<char>> = Seq::empty();
    let q: Vec<char> = vec!['"'];
    assert(q@ =~= seq!['"']);
    let mut r: Vec<(usize, usize)> = Vec::new();
    let mut pos = lo + start;
    loop
        invariant
            lo <= pos <= hi <= cs@.len(),
            q@ == seq!['"'],
            line == cs@.subrange(lo as int, hi as int),
            whole == quoted_from(line, start as int),
            done + quoted_from(line, pos - lo) == whole,
            r@.len() == done.len(),
            forall|k: int|
                0 <= k < r@.len() ==> lo <= (#[trigger] r@[k]).0 <= r@[k].1 <= hi
                    && cs@.subrange(r@[k].0 as int, r@[k].1 as int) == done[k],
        decreases hi - pos,
    {
        if pos >= hi {
            assert(quoted_from(line, pos - lo) == Seq::<Seq<char>>::empty());
            assert(done =~= whole);
            return r;
        }
        assert(line.skip(pos - lo) =~= cs@.subrange(pos as int, hi as int));
        proof {
            lemma_find_bounds(cs@.subrange(pos as int, hi as int), q@);
        }
        match find_range(cs, pos, hi, &q) {
            None => {
                assert(done =~= whole);
                return r;
            },
            Some(a) => {
                assert(line.skip(a + 1 - lo) =~= cs@.subrange(a + 1, hi as int));
                proof {
                    lemma_find_bounds(cs@.subrange(a + 1, hi as int), q@);
                }
                match find_range(cs, a + 1, hi, &q) {
                    None => {
                        assert(done =~= whole);
                        return r;
                    },
                    Some(b) => {
                        assert(line.subrange(a - lo, b + 1 - lo) =~= cs@.subrange(
                            a as int,
                            b + 1,
                        ));
                        r.push((a, b + 1));
                        proof {
                            let old_done = done;
                            done = done.push(cs@.subrange(a as int, b + 1));
                            assert(done + quoted_from(line, b + 1 - lo) =~= old_done
                                + quoted_from(line, pos - lo));
                        }
                        pos = b + 1;
                    },
                }
            },
        }
    }
}

/// The raw tokens of the line `cs[lo..hi]`, as index ranges of `cs`.
fn token_ranges(cs: &Vec<char>, lo: usize, hi: usize) -> (r: Vec<(usize, usize)>)
    requires
        lo <= hi <= cs@.len(),
    ensures
        r@.len() == raw_tokens(cs@.subrange(lo as int, hi as int)).len(),
        forall|k: int|
            0 <= k < r@.len() ==> lo <= (#[trigger] r@[k]).0 <= r@[k].1 <= hi && cs@.subrange(
                r@[k].0 as int,
                r@[k].1 as int,
            ) == raw_tokens(cs@.subrange(lo as int, hi as int))[k],
{
    let ghost line = cs@.subrange(lo as int, hi as int);
    let sp: Vec<char> = vec![' '];
    assert(sp@ =~= seq![' ']);
    proof {
        lemma_find_bounds(line, sp@);
    }
    match find_range(cs, lo, hi, &sp) {
        Some(k) => {
            let rest = quoted_ranges(cs, lo, hi, k + 1 - lo);
            let mut r: Vec<(usize, usize)> = Vec::new();
            r.push((lo, k + 1));
            assert(line.take(k + 1 - lo) =~= cs@.subrange(lo as int, k + 1));
            let mut i: usize = 0;
            while i < rest.len()
                invariant
                    lo <= k < hi <= cs@.len(),
                    line == cs@.subrange(lo as int, hi as int),
                    raw_tokens(line) == seq![line.take(k + 1 - lo)] + quoted_from(line, k + 1 - lo),
                    rest@.len() == quoted_from(line, k + 1 - lo).len(),
                    forall|j: int|
                        0 <= j < rest@.len() ==> lo <= (#[trigger] rest@[j]).0 <= rest@[j].1 <= hi
                            && cs@.subrange(rest@[j].0 as int, rest@[j].1 as int)
                            == quoted_from(line, k + 1 - lo)[j],
                    i <= rest@.len(),
                    r@.len() == i + 1,
                    forall|j: int|
                        0 <= j < r@.len() ==> lo <= (#[trigger] r@[j]).0 <= r@[j].1 <= hi
                            && cs@.subrange(r@[j].0 as int, r@[j].1 as int) == raw_tokens(line)[j],
                decreases rest@.len() - i,
            {
                r.push(rest[i]);
                i = i + 1;
            }
            r
        },
        None => quoted_ranges(cs, lo, hi, 0),
    }
}

proof fn lemma_quoted_step(line: Seq<char>, pos: int, a: int, b: int)
    requires
        0 <= pos <= a < b < line.len(),
        line[a] == '"',
        line[b] == '"',
        forall|j: int| pos <= j < a ==> line[j] != '"',
        forall|j: int| a < j < b ==> line[j] != '"',
    ensures
        quoted_from(line, pos) == seq![line.subrange(a, b + 1)] + quoted_from(line, b + 1),
{
    let s1 = line.skip(pos);
    assert forall|j: int| 0 <= j < a - pos implies s1[j] != '"' by {
        assert(s1[j] == line[pos + j]);
    }
    lemma_find_char(s1, '"', a - pos);
    let s2 = line.skip(a + 1);
    assert forall|j: int| 0 <= j < b - a - 1 implies s2[j] != '"' by {
        assert(s2[j] == line[a + 1 + j]);
    }
    lemma_find_char(s2, '"', b - a - 1);
}

/// A quoted segment: the text between two quote characters.
pub open spec fn quote(s: Seq<char>) -> Seq<char> {
    seq!['"'] + s + seq!['"']
}

/// A name with its id: `name [xxxx]`.
pub open spec fn named_id(name: Seq<char>, id: Seq<char>) -> Seq<char> {
    name + seq![' ', '['] + id + seq![']']
}

proof fn lemma_named_id(name: Seq<char>, id: Seq<char>)
    requires
        id.len() == 4,
        all_digits(id, 16),
    ensures
        segment_id(named_id(name, id)) == Some(digits_value(id, 16)),
        segment_name(named_id(name, id)) == trim_ws(name),
        named_id(name, id).len() >= 7,
{
    let seg = named_id(name, id);
    let tail = seg.skip(seg.len() - 7);
    assert(tail =~= seq![' ', '['] + id + seq![']']);
    assert(seg.take(seg.len() - 7) =~= name);
    let t1 = tail.drop_first();
    assert(t1 =~= seq!['['] + id + seq![']']);
    assert(is_ws(tail[0]));
    assert(!is_ws(t1[0]));
    assert(trim_start_ws(t1) == t1);
    assert(trim_start_ws(tail) == t1);
    assert(!is_ws(t1.last()));
    assert(trim_end_ws(t1) == t1);
    let t2 = t1.drop_first();
    assert(t2 =~= id + seq![']']);
    assert(digit_value(id[0]) < 16);
    assert(t2[0] == id[0]);
    assert(trim_start_char(t2, '[') == t2);
    assert(trim_start_char(t1, '[') == t2);
    assert(trim_end_char(t2, '[') == t2);
    assert(trim_start_char(t2, ']') == t2);
    assert(t2.drop_last() =~= id);
    assert(digit_value(id[3]) < 16);
    assert(id.last() == id[3]);
    assert(trim_end_char(id, ']') == id);
    assert(trim_end_char(t2, ']') == id);
    lemma_digits_value_bound(id, 16);
    reveal_with_fuel(crate::ids::power, 5);
    assert(digit_value(id[1]) < 16);
    assert(crate::ids::strip_hex_prefix(id) == id);
}

proof fn lemma_clean_quote(s: Seq<char>)
    requires
        s.len() > 0,
        s[0] != '"',
        s.last() != '"',
    ensures
        clean(quote(s)) == s,
{
    let q = quote(s);
    assert(!is_ws(q[0]));
    assert(trim_start_ws(q) == q);
    assert(!is_ws(q.last()));
    assert(trim_end_ws(q) == q);
    assert(q.drop_first() =~= s + seq!['"']);
    assert((s + seq!['"'])[0] == s[0]);
    assert(trim_start_char(s + seq!['"'], '"') == s + seq!['"']);
    assert(trim_start_char(q, '"') == s + seq!['"']);
    assert((s + seq!['"']).drop_last() =~= s);
    assert(trim_end_char(s, '"') == s);
    assert(trim_end_char(s + seq!['"'], '"') == s);
}

proof fn lemma_clean_address(a: Seq<char>)
    requires
        a.len() > 0,
        forall|j: int| 0 <= j < a.len() ==> !is_ws(a[j]) && a[j] != '"',
    ensures
        clean(a + seq![' ']) == a,
{
    let t = a + seq![' '];
    assert(t[0] == a[0]);
    assert(trim_start_ws(t) == t);
    assert(t.drop_last() =~= a);
    assert(a.last() == a[a.len() - 1]);
    assert(trim_end_ws(a) == a);
    assert(trim_end_ws(t) == a);
    assert(trim_start_char(a, '"') == a);
    assert(trim_end_char(a, '"') == a);
}

/// A name that can stand inside a quoted segment: it holds no quote character.
pub open spec fn plain_name(n: Seq<char>) -> bool {
    forall|j: int| 0 <= j < n.len() ==> n[j] != '"'
}

proof fn lemma_named_id_no_quote(n: Seq<char>, id: Seq<char>)
    requires
        plain_name(n),
        id.len() == 4,
        all_digits(id, 16),
    ensures
        plain_name(named_id(n, id)),
        named_id(n, id).len() == n.len() + 7,
        named_id(n, id).last() == ']',
{
    let s = named_id(n, id);
    assert forall|j: int| 0 <= j < s.len() implies s[j] != '"' by {
        if j < n.len() {
            assert(s[j] == n[j]);
        } else if n.len() + 2 <= j < n.len() + 6 {
            assert(s[j] == id[j - n.len() - 2]);
            assert(digit_value(id[j - n.len() - 2]) < 16);
        }
    }
}

/// The quoted segment `quote(s)` placed after `x` is found where it stands.
proof fn lemma_quoted_at(x: Seq<char>, s: Seq<char>, y: Seq<char>, pos: int)
    requires
        0 <= pos <= x.len(),
        forall|j: int| pos <= j < x.len() ==> x[j] != '"',
        plain_name(s),
    ensures
        quoted_from(x + quote(s) + y, pos) == seq![quote(s)] + quoted_from(
            x + quote(s) + y,
            (x.len() + s.len() + 2) as int,
        ),
{
    let line = x + quote(s) + y;
    let a = x.len() as int;
    let b = a + s.len() + 1;
    assert forall|j: int| pos <= j < a implies line[j] != '"' by {
        assert(line[j] == x[j]);
    }
    assert forall|j: int| a < j < b implies line[j] != '"' by {
        assert(line[j] == s[j - a - 1]);
    }
    assert(line[a] == '"');
    assert(line[b] == '"');
    lemma_quoted_step(line, pos, a, b);
    assert(line.subrange(a, b + 1) =~= quote(s));
}

#[verifier::rlimit(50)]
proof fn lemma_line_tokens(
    addr: Seq<char>,
    s1: Seq<char>,
    s2: Seq<char>,
    s3: Seq<char>,
    rest: Seq<char>,
)
    requires
        addr.len() > 0,
        forall|j: int| 0 <= j < addr.len() ==> !is_ws(addr[j]) && addr[j] != '"',
        plain_name(s1),
        plain_name(s2),
        plain_name(s3),
    ensures
        ({
            let line = addr + seq![' '] + quote(s1) + seq![' '] + quote(s2) + seq![' '] + quote(
                s3,
            ) + rest;
            raw_tokens(line) == seq![addr + seq![' '], quote(s1), quote(s2), quote(s3)]
                + quoted_from(line, line.len() - rest.len())
        }),
{
    let head = addr + seq![' '];
    let x1 = head;
    let y1 = seq![' '] + quote(s2) + seq![' '] + quote(s3) + rest;
    let line = x1 + quote(s1) + y1;
    assert(line =~= addr + seq![' '] + quote(s1) + seq![' '] + quote(s2) + seq![' '] + quote(s3)
        + rest);
    let n0 = addr.len() as int;
    assert forall|j: int| 0 <= j < n0 implies line[j] != ' ' by {
        assert(line[j] == addr[j]);
    }
    assert(line[n0] == ' ');
    lemma_find_char(line, ' ', n0);
    assert(line.take(n0 + 1) =~= head);
    lemma_quoted_at(x1, s1, y1, n0 + 1);
    let x2 = x1 + quote(s1) + seq![' '];
    let y2 = seq![' '] + quote(s3) + rest;
    assert(line =~= x2 + quote(s2) + y2);
    assert(x2[x2.len() - 1] == ' ');
    lemma_quoted_at(x2, s2, y2, (x1.len() + s1.len() + 2) as int);
    let x3 = x2 + quote(s2) + seq![' '];
    assert(line =~= x3 + quote(s3) + rest);
    assert(x3[x3.len() - 1] == ' ');
    lemma_quoted_at(x3, s3, rest, (x2.len() + s2.len() + 2) as int);
    assert(line.len() - rest.len() == x3.len() + s3.len() + 2);
}

/// The parts of a listing line `addr "class [cccc]" "vendor [vvvv]" "product [pppp]"`,
/// followed by any further fields.
pub struct PciLineParts {
    pub addr: Seq<char>,
    pub class: Seq<char>,
    pub class_id: Seq<char>,
    pub vendor: Seq<char>,
    pub vendor_id: Seq<char>,
    pub product: Seq<char>,
    pub product_id: Seq<char>,
    pub rest: Seq<char>,
}

impl PciLineParts {
    /// The parts are those of a well-formed line: a valid address without
    /// whitespace or quotes, names without quotes, ids of four hexadecimal digits.
    pub open spec fn valid(self) -> bool {
        &&& pci_address(self.addr) is Some
        &&& forall|j: int| 0 <= j < self.addr.len() ==> !is_ws(self.addr[j]) && self.addr[j] != '"'
        &&& plain_name(self.class)
        &&& plain_name(self.vendor)
        &&& plain_name(self.product)
        &&& self.class_id.len() == 4 && all_digits(self.class_id, 16)
        &&& self.vendor_id.len() == 4 && all_digits(self.vendor_id, 16)
        &&& self.product_id.len() == 4 && all_digits(self.product_id, 16)
    }

    /// The line that the parts make.
    pub open spec fn line(self) -> Seq<char> {
        self.addr + seq![' '] + quote(named_id(self.class, self.class_id)) + seq![' '] + quote(
            named_id(self.vendor, self.vendor_id),
        ) + seq![' '] + quote(named_id(self.product, self.product_id)) + self.rest
    }

    /// The record the line stands for: the bracketed ids' values, and the names
    /// before the brackets, trimmed.
    pub open spec fn model(self) -> DeviceModel {
        DeviceModel {
            path: pci_address(self.addr)->Some_0,
            class: trim_ws(self.class),
            vendor: trim_ws(self.vendor),
            product: trim_ws(self.product),
            manufacturer: None,
            class_id: Some(digits_value(self.class_id, 16) as u16),
            vendor_id: digits_value(self.vendor_id, 16) as u16,
            product_id: digits_value(self.product_id, 16) as u16,
            manufacturer_id: None,
        }
    }
}

/// A listing line `addr "class [cccc]" "vendor [vvvv]" "product [pppp]" ...` yields
/// the bracketed hexadecimal ids exactly, and as names the text before each
/// bracket, trimmed; what follows the third segment is not read.
pub proof fn lemma_pci_line_fields(parts: PciLineParts)
    requires
        parts.valid(),
    ensures
        pci_line(parts.line()) == Some(parts.model()),
{
    let s1 = named_id(parts.class, parts.class_id);
    let s2 = named_id(parts.vendor, parts.vendor_id);
    let s3 = named_id(parts.product, parts.product_id);
    lemma_named_id_no_quote(parts.class, parts.class_id);
    lemma_named_id_no_quote(parts.vendor, parts.vendor_id);
    lemma_named_id_no_quote(parts.product, parts.product_id);
    lemma_line_tokens(parts.addr, s1, s2, s3, parts.rest);
    let t = raw_tokens(parts.line());
    assert(t.len() >= 4);
    assert(t[0] == parts.addr + seq![' ']);
    assert(t[1] == quote(s1));
    assert(t[2] == quote(s2));
    assert(t[3] == quote(s3));
    lemma_clean_address(parts.addr);
    lemma_named_id(parts.class, parts.class_id);
    lemma_named_id(parts.vendor, parts.vendor_id);
    lemma_named_id(parts.product, parts.product_id);
    lemma_clean_quote(s1);
    lemma_clean_quote(s2);
    lemma_clean_quote(s3);
}

/// A listing whose trimmed text splits into lines that are all well formed yields
/// one record per line, in order: each with the line's bracketed ids exactly and
/// the trimmed names before the brackets.
pub proof fn lemma_pci_listing_fields(text: Seq<char>, parts: Seq<PciLineParts>)
    requires
        split_all(trim_ws(text), seq!['\n']).len() == parts.len(),
        forall|i: int|
            0 <= i < parts.len() ==> (#[trigger] parts[i]).valid() && split_all(
                trim_ws(text),
                seq!['\n'],
            )[i] == parts[i].line(),
    ensures
        pci_listing(text) matches Some(ms) && ms.len() == parts.len() && forall|i: int|
            0 <= i < parts.len() ==> #[trigger] ms[i] == parts[i].model(),
{
    let ls = split_all(trim_ws(text), seq!['\n']);
    lemma_pci_lines_fields(ls, parts, ls.len() as int);
    assert(ls.take(ls.len() as int) =~= ls);
}

proof fn lemma_pci_lines_fields(ls: Seq<Seq<char>>, parts: Seq<PciLineParts>, k: int)
    requires
        0 <= k <= ls.len() == parts.len(),
        forall|i: int|
            0 <= i < parts.len() ==> (#[trigger] parts[i]).valid() && ls[i] == parts[i].line(),
    ensures
        pci_lines(ls.take(k)) matches Some(ms) && ms.len() == k && forall|i: int|
            0 <= i < k ==> #[trigger] ms[i] == parts[i].model(),
    decreases k,
{
    if k > 0 {
        lemma_pci_lines_fields(ls, parts, k - 1);
        assert(ls.take(k).drop_last() =~= ls.take(k - 1));
        assert(ls.take(k).last() == ls[k - 1]);
        lemma_pci_line_fields(parts[k - 1]);
        let ms = pci_lines(ls.take(k - 1))->Some_0;
        assert forall|i: int| 0 <= i < k implies #[trigger] ms.push(parts[k - 1].model())[i]
            == parts[i].model() by {
            if i < k - 1 {
                assert(ms.push(parts[k - 1].model())[i] == ms[i]);
            }
        }
    }
}

/// The range of `cs[lo..hi]` left by `clean`.
fn clean_range(cs: &Vec<char>, lo: usize, hi: usize) -> (r: (usize, usize))
    requires
        lo <= hi <= cs@.len(),
    ensures
        lo <= r.0 <= r.1 <= hi,
        cs@.subrange(r.0 as int, r.1 as int) == clean(cs@.subrange(lo as int, hi as int)),
{
    let (a, b) = trim_ws_range(cs, lo, hi);
    trim_char_range(cs, a, b, '"')
}

fn address(cs: &Vec<char>, lo: usize, hi: usize) -> (r: Result<DevicePath, Error>)
    requires
        lo <= hi <= cs@.len(),
    ensures
        match pci_address(cs@.subrange(lo as int, hi as int)) {
            Some(p) => r == Ok::<DevicePath, Error>(p),
            None => r == Err::<DevicePath, Error>(Error::ParseError),
        },
{
    let ghost a = cs@.subrange(lo as int, hi as int);
    if hi - lo < 2 {
        return Err(Error::ParseError);
    }
    assert(a.take(2) =~= cs@.subrange(lo as int, lo + 2));
    assert(a.skip(2) =~= cs@.subrange(lo + 2, hi as int));
    let (n0, n1) = trim_char_range(cs, lo + 2, hi, ':');
    let ghost n = cs@.subrange(n0 as int, n1 as int);
    if n1 - n0 < 2 {
        return Err(Error::ParseError);
    }
    assert(n.take(2) =~= cs@.subrange(n0 as int, n0 + 2));
    assert(n.skip(2) =~= cs@.subrange(n0 + 2, n1 as int));
    let (f0, f1) = trim_char_range(cs, n0 + 2, n1, '.');
    let bus = parse_number_range(cs, lo, lo + 2, 16, 0x100);
    let slot = parse_number_range(cs, n0, n0 + 2, 16, 0x100);
    let function = parse_number_range(cs, f0, f1, 16, 0x100);
    match (bus, slot, function) {
        (Some(b), Some(s), Some(f)) => Ok(
            DevicePath::PCI { bus: b as u8, slot: s as u8, function: f as u8 },
        ),
        _ => Err(Error::ParseError),
    }
}

/// A name segment `cs[lo..hi]`: its name, trimmed, and its id.
fn segment(text: &str, cs: &Vec<char>, lo: usize, hi: usize) -> (r: Result<(String, u16), Error>)
    requires
        lo <= hi <= cs@.len(),
        cs@ == text@,
    ensures
        match segment_id(cs@.subrange(lo as int, hi as int)) {
            Some(v) => r matches Ok(x) && x.0@ == segment_name(cs@.subrange(lo as int, hi as int))
                && x.1 == v as u16,
            None => r == Err::<(String, u16), Error>(Error::ParseError),
        },
{
    let ghost seg = cs@.subrange(lo as int, hi as int);
    if hi - lo < 7 {
        return Err(Error::ParseError);
    }
    assert(seg.skip(seg.len() - 7) =~= cs@.subrange(hi - 7, hi as int));
    assert(seg.take(seg.len() - 7) =~= cs@.subrange(lo as int, hi - 7));
    let id = id_from_raw(cs, hi - 7, hi)?;
    let (a, b) = trim_ws_range(cs, lo, hi - 7);
    let name = text.substring_char(a, b).to_owned();
    Ok((name, id))
}

/// The record of the listing line `cs[lo..hi]`.
fn pci_record(text: &str, cs: &Vec<char>, lo: usize, hi: usize) -> (r: Result<DeviceInfo, Error>)
    requires
        lo <= hi <= cs@.len(),
        cs@ == text@,
    ensures
        match pci_line(cs@.subrange(lo as int, hi as int)) {
            Some(m) => r matches Ok(d) && d@ == m,
            None => r == Err::<DeviceInfo, Error>(Error::ParseError),
        },
{
    let toks = token_ranges(cs, lo, hi);
    if toks.len() < 4 {
        return Err(Error::ParseError);
    }
    let (a0, b0) = clean_range(cs, toks[0].0, toks[0].1);
    let (a1, b1) = clean_range(cs, toks[1].0, toks[1].1);
    let (a2, b2) = clean_range(cs, toks[2].0, toks[2].1);
    let (a3, b3) = clean_range(cs, toks[3].0, toks[3].1);
    let path = address(cs, a0, b0)?;
    let (class, class_id) = segment(text, cs, a1, b1)?;
    let (vendor, vendor_id) = segment(text, cs, a2, b2)?;
    let (product, product_id) = segment(text, cs, a3, b3)?;
    Ok(
        DeviceInfo {
            path,
            class,
            vendor,
            product,
            manufacturer: None,
            class_id: Some(class_id),
            vendor_id,
            product_id,
            manufacturer_id: None,
        },
    )
}

/// Reads a PCI listing, one device per line of the trimmed text. The first
/// malformed line fails the whole listing with `ParseError`.
pub fn parse_pci_listing(text: &str) -> (r: Result<Vec<DeviceInfo>, Error>)
    ensures
        match pci_listing(text@) {
            Some(ms) => r matches Ok(v) && v@.len() == ms.len() && forall|i: int|
                0 <= i < ms.len() ==> #[trigger] v@[i]@ == ms[i],
            None => r == Err::<Vec<DeviceInfo>, Error>(Error::ParseError),
        },
        outcome(r) == listing_outcome(pci_listing(text@)),
{
    let cs = chars_of(text);
    let (lo, hi) = trim_ws_range(&cs, 0, cs.len());
    assert(cs@.subrange(0, cs@.len() as int) =~= text@);
    let nl: Vec<char> = vec!['\n'];
    assert(nl@ =~= seq!['\n']);
    let lines = split_ranges(&cs, lo, hi, &nl);
    let ghost ls = split_all(cs@.subrange(lo as int, hi as int), nl@);
    let mut out: Vec<DeviceInfo> = Vec::new();
    let mut k: usize = 0;
    while k < lines.len()
        invariant
            k <= lines@.len() == ls.len(),
            cs@ == text@,
            ls == split_all(trim_ws(text@), seq!['\n']),
            forall|j: int|
                0 <= j < lines@.len() ==> 0 <= (#[trigger] lines@[j]).0 <= lines@[j].1
                    <= cs@.len() && cs@.subrange(lines@[j].0 as int, lines@[j].1 as int)
                    == ls[j],
            pci_lines(ls.take(k as int)) matches Some(ms) && out@.len() == ms.len() && forall|
                i: int,
            | 0 <= i < ms.len() ==> #[trigger] out@[i]@ == ms[i],
        decreases lines@.len() - k,
    {
        assert(ls.take(k + 1).drop_last() =~= ls.take(k as int));
        assert(ls.take(k + 1).last() == ls[k as int]);
        let d = pci_record(text, &cs, lines[k].0, lines[k].1);
        match d {
            Ok(d) => {
                out.push(d);
            },
            Err(e) => {
                proof {
                    lemma_pci_lines_fail(ls, k as int + 1);
                }
                return Err(e);
            },
        }
        k = k + 1;
    }
    assert(ls.take(k as int) =~= ls);
    assert(models(out@) =~= pci_listing(text@)->Some_0);
    Ok(out)
}

/// Once a prefix of the lines fails, every longer prefix fails too.
proof fn lemma_pci_lines_fail(ls: Seq<Seq<char>>, k: int)
    requires
        0 <= k <= ls.len(),
        pci_lines(ls.take(k)) is None,
    ensures
        pci_lines(ls) is None,
    decreases ls.len() - k,
{
    if k < ls.len() {
        assert(ls.take(k + 1).drop_last() =~= ls.take(k));
        lemma_pci_lines_fail(ls, k + 1);
    } else {
        assert(ls.take(k) =~= ls);
    }
}

} // verus!
