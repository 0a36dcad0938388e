//! Reading cells from text, one per line, each of the form `x,y`: two decimal
//! integers, each with an optional sign and surrounding whitespace,
//! separated by the line's only comma. The text is UTF-8, and whitespace is
//! every character that Unicode marks as such.

use crate::engine::Cell;
use vstd::prelude::*;

verus! {

/// `r` with the cell `c` in front of the cells it holds; an error stays.
pub open spec fn prepend(c: Cell, r: Result<Seq<Cell>, nat>) -> Result<Seq<Cell>, nat> {
    match r {
        Ok(cs) => Ok(seq![c] + cs),
        Err(k) => Err(k),
    }
}

/// What the line `l`, numbered `number`, adds in front of `rest`, what the
/// lines after it give: nothing if it is empty, else its cell, or an error
/// naming it if it holds none.
pub open spec fn with_line(l: Seq<u8>, number: nat, rest: Result<Seq<Cell>, nat>) -> Result<
    Seq<Cell>,
    nat,
> {
    if l.len() == 0 {
        rest
    } else {
        match line_value(l) {
            Some(c) => prepend(c, rest),
            None => Err(number),
        }
    }
}

/// `l` without the carriage return that ends it, if it ends with one.
pub open spec fn strip_cr(l: Seq<u8>) -> Seq<u8> {
    if l.len() > 0 && l.last() == 0x0d {
        l.drop_last()
    } else {
        l
    }
}

/// The cells of `text` from the line numbered `number`, which starts at
/// `start`, with the scan standing at `i`. A line ends at a line feed, which
/// a carriage return may precede, or at the end of the text.
pub open spec fn cells_from(text: Seq<u8>, start: int, i: int, number: nat) -> Result<
    Seq<Cell>,
    nat,
>
    decreases text.len() - i,
{
    if i >= text.len() {
        with_line(text.subrange(start, text.len() as int), number, Ok(Seq::empty()))
    } else if text[i] == 0x0a {
        with_line(
            strip_cr(text.subrange(start, i)),
            number,
            cells_from(text, i + 1, i + 1, number + 1),
        )
    } else {
        cells_from(text, start, i + 1, number)
    }
}

/// The cells of `text`, one per non-empty line and in the order of the
/// lines, or the number (from 1) of the first non-empty line that holds no
/// cell.
pub open spec fn coords_value(text: Seq<u8>) -> Result<Seq<Cell>, nat> {
    cells_from(text, 0, 0, 1)
}

/// The cells of `acc` followed by those of `r`; an error stays.
pub open spec fn after(acc: Seq<Cell>, r: Result<Seq<Cell>, nat>) -> Result<Seq<Cell>, nat> {
    match r {
        Ok(cs) => Ok(acc + cs),
        Err(k) => Err(k),
    }
}

/// ASCII whitespace: space, tab, line feed, vertical tab, form feed and
/// carriage return.
pub open spec fn is_ascii_space(b: u8) -> bool {
    b == 0x20 || (0x09 <= b && b <= 0x0d)
}

/// `b0 b1 b2` is the UTF-8 encoding of a three-byte whitespace character:
/// U+1680, U+2000 to U+200A, U+2028, U+2029, U+202F, U+205F or U+3000.
pub open spec fn is_wide_space(b0: u8, b1: u8, b2: u8) -> bool {
    ||| b0 == 0xe1 && b1 == 0x9a && b2 == 0x80
    ||| b0 == 0xe2 && b1 == 0x80 && ((0x80 <= b2 && b2 <= 0x8a) || b2 == 0xa8 || b2 == 0xa9
        || b2 == 0xaf)
    ||| b0 == 0xe2 && b1 == 0x81 && b2 == 0x9f
    ||| b0 == 0xe3 && b1 == 0x80 && b2 == 0x80
}

/// `b0 b1` is the UTF-8 encoding of a two-byte whitespace character: U+0085
/// or U+00A0.
pub open spec fn is_narrow_space(b0: u8, b1: u8) -> bool {
    b0 == 0xc2 && (b1 == 0x85 || b1 == 0xa0)
}

/// The number of bytes of the whitespace character that `s` starts with, or
/// 0 if it starts with none.
pub open spec fn lead_space(s: Seq<u8>) -> nat {
    if s.len() >= 1 && is_ascii_space(s[0]) {
        1
    } else if s.len() >= 2 && is_narrow_space(s[0], s[1]) {
        2
    } else if s.len() >= 3 && is_wide_space(s[0], s[1], s[2]) {
        3
    } else {
        0
    }
}

/// The number of bytes of the whitespace character that `s` ends with, or 0
/// if it ends with none.
pub open spec fn trail_space(s: Seq<u8>) -> nat {
    let n = s.len() as int;
    if n >= 1 && is_ascii_space(s[n - 1]) {
        1
    } else if n >= 2 && is_narrow_space(s[n - 2], s[n - 1]) {
        2
    } else if n >= 3 && is_wide_space(s[n - 3], s[n - 2], s[n - 1]) {
        3
    } else {
        0
    }
}

/// An ASCII decimal digit.
pub open spec fn is_digit(b: u8) -> bool {
    0x30 <= b && b <= 0x39
}

/// `s` without its leading whitespace.
pub open spec fn trim_start(s: Seq<u8>) -> Seq<u8>
    decreases s.len(),
{
    if lead_space(s) > 0 {
        trim_start(s.skip(lead_space(s) as int))
    } else {
        s
    }
}

/// `s` without its trailing whitespace.
pub open spec fn trim_end(s: Seq<u8>) -> Seq<u8>
    decreases s.len(),
{
    if trail_space(s) > 0 {
        trim_end(s.take(s.len() - trail_space(s)))
    } else {
        s
    }
}

/// The number that the digits `s` spell in base ten.
pub open spec fn digits_value(s: Seq<u8>) -> int
    decreases s.len(),
{
    if s.len() == 0 {
        0
    } else {
        digits_value(s.drop_last()) * 10 + (s.last() - 0x30)
    }
}

/// `s` is one or more digits.
pub open spec fn all_digits(s: Seq<u8>) -> bool {
    s.len() > 0 && forall|i: int| 0 <= i < s.len() ==> is_digit(#[trigger] s[i])
}

/// The integer that `s` spells: an optional `-` or `+`, then one or more
/// digits, and nothing else.
pub open spec fn number_value(s: Seq<u8>) -> Option<int> {
    if s.len() > 0 && s[0] == 0x2d && all_digits(s.drop_first()) {
        Some(-digits_value(s.drop_first()))
    } else if s.len() > 0 && s[0] == 0x2b && all_digits(s.drop_first()) {
        Some(digits_value(s.drop_first()))
    } else if all_digits(s) {
        Some(digits_value(s))
    } else {
        None
    }
}

/// The coordinate that the field `f` holds, once trimmed of whitespace, if
/// it is an integer within the range of `i32`.
pub open spec fn field_value(f: Seq<u8>) -> Option<i32> {
    match number_value(trim_end(trim_start(f))) {
        Some(v) => if i32::MIN <= v <= i32::MAX {
            Some(v as i32)
        } else {
            None
        },
        None => None,
    }
}

/// Position `p` holds the only comma of `l`.
pub open spec fn sole_comma_at(l: Seq<u8>, p: int) -> bool {
    &&& 0 <= p < l.len()
    &&& l[p] == 0x2c
    &&& forall|q: int| 0 <= q < l.len() && q != p ==> l[q] != 0x2c
}

/// The cell that the line `l` describes: exactly one comma, with a valid
/// coordinate on each side of it.
pub open spec fn line_value(l: Seq<u8>) -> Option<Cell> {
    if exists|p: int| sole_comma_at(l, p) {
        let p = choose|p: int| sole_comma_at(l, p);
        match (field_value(l.take(p)), field_value(l.skip(p + 1))) {
            (Some(x), Some(y)) => Some((x, y)),
            _ => None,
        }
    } else {
        None
    }
}

/// The length of the whitespace character that `line[a..hi]` starts with.
fn lead_space_at(line: &[u8], a: usize, hi: usize) -> (w: usize)
    requires
        a <= hi <= line@.len(),
    ensures
        w == lead_space(line@.subrange(a as int, hi as int)),
{
    let n: usize = hi - a;
    if n >= 1 && (line[a] == 0x20 || (0x09 <= line[a] && line[a] <= 0x0d)) {
        1
    } else if n >= 2 && line[a] == 0xc2 && (line[a + 1] == 0x85 || line[a + 1] == 0xa0) {
        2
    } else if n >= 3 && wide_space(line[a], line[a + 1], line[a + 2]) {
        3
    } else {
        0
    }
}

/// The length of the whitespace character that `line[a..b]` ends with.
fn trail_space_at(line: &[u8], a: usize, b: usize) -> (w: usize)
    requires
        a <= b <= line@.len(),
    ensures
        w == trail_space(line@.subrange(a as int, b as int)),
{
    let n: usize = b - a;
    if n >= 1 && (line[b - 1] == 0x20 || (0x09 <= line[b - 1] && line[b - 1] <= 0x0d)) {
        1
    } else if n >= 2 && line[b - 2] == 0xc2 && (line[b - 1] == 0x85 || line[b - 1] == 0xa0) {
        2
    } else if n >= 3 && wide_space(line[b - 3], line[b - 2], line[b - 1]) {
        3
    } else {
        0
    }
}

fn wide_space(b0: u8, b1: u8, b2: u8) -> (r: bool)
    ensures
        r == is_wide_space(b0, b1, b2),
{
    (b0 == 0xe1 && b1 == 0x9a && b2 == 0x80) || (b0 == 0xe2 && b1 == 0x80 && ((0x80 <= b2 && b2
        <= 0x8a) || b2 == 0xa8 || b2 == 0xa9 || b2 == 0xaf)) || (b0 == 0xe2 && b1 == 0x81 && b2
        == 0x9f) || (b0 == 0xe3 && b1 == 0x80 && b2 == 0x80)
}

proof fn lemma_digits_value_grows(s: Seq<u8>, k: int)
    requires
        0 <= k <= s.len(),
        forall|i: int| 0 <= i < s.len() ==> is_digit(#[trigger] s[i]),
    ensures
        0 <= digits_value(s.take(k)) <= digits_value(s),
    decreases s.len(),
{
    if s.len() > 0 {
        let rest = s.drop_last();
        assert forall|i: int| 0 <= i < rest.len() implies is_digit(#[trigger] rest[i]) by {
            assert(rest[i] == s[i]);
        }
        if k < s.len() {
            lemma_digits_value_grows(rest, k);
            assert(rest.take(k) =~= s.take(k));
        } else {
            lemma_digits_value_grows(rest, 0);
            assert(s.take(k) =~= s);
        }
    } else {
        assert(s.take(k) =~= s);
    }
}

/// Reads the coordinate in `line[lo..hi]`, as `field_value` describes it.
fn parse_field(line: &[u8], lo: usize, hi: usize) -> (r: Option<i32>)
    requires
        lo <= hi <= line@.len(),
    ensures
        r == field_value(line@.subrange(lo as int, hi as int)),
{
    let ghost f = line@.subrange(lo as int, hi as int);
    let mut a: usize = lo;
    let mut w: usize = lead_space_at(line, a, hi);
    while w > 0
        invariant
            lo <= a <= hi <= line@.len(),
            w == lead_space(line@.subrange(a as int, hi as int)),
            trim_start(f) == trim_start(line@.subrange(a as int, hi as int)),
        decreases hi - a,
    {
        assert(line@.subrange(a as int, hi as int).skip(w as int) =~= line@.subrange(
            a + w,
            hi as int,
        ));
        a = a + w;
        w = lead_space_at(line, a, hi);
    }
    assert(trim_start(f) == line@.subrange(a as int, hi as int));
    let mut b: usize = hi;
    w = trail_space_at(line, a, b);
    while w > 0
        invariant
            lo <= a <= b <= hi <= line@.len(),
            w == trail_space(line@.subrange(a as int, b as int)),
            trim_end(trim_start(f)) == trim_end(line@.subrange(a as int, b as int)),
        decreases b - a,
    {
        assert(line@.subrange(a as int, b as int).take(b - a - w) =~= line@.subrange(
            a as int,
            b - w,
        ));
        b = b - w;
        w = trail_space_at(line, a, b);
    }
    let ghost t = line@.subrange(a as int, b as int);
    assert(trim_end(trim_start(f)) == t);
    if a == b {
        return None;
    }
    let negative: bool = line[a] == 0x2d;
    let start: usize = if line[a] == 0x2d || line[a] == 0x2b {
        a + 1
    } else {
        a
    };
    let ghost digits = line@.subrange(start as int, b as int);
    assert(t[0] == line@[a as int]);
    assert(start > a ==> t.drop_first() =~= digits);
    assert(start == a ==> t =~= digits);
    if start == b {
        return None;
    }
    let mut value: u64 = 0;
    let mut k: usize = start;
    while k < b
        invariant
            a < start || a == start,
            start <= a + 1,
            a < b,
            start <= k <= b <= line@.len(),
            t == line@.subrange(a as int, b as int),
            f == line@.subrange(lo as int, hi as int),
            trim_end(trim_start(f)) == t,
            digits == line@.subrange(start as int, b as int),
            negative == (t[0] == 0x2d),
            start > a <==> (t[0] == 0x2d || t[0] == 0x2b),
            start > a ==> t.drop_first() == digits,
            start == a ==> t == digits,
            value == digits_value(line@.subrange(start as int, k as int)),
            value <= 0x8000_0000,
            forall|q: int| start <= q < k ==> is_digit(#[trigger] line@[q]),
        decreases b - k,
    {
        let d = line[k];
        if d < 0x30 || d > 0x39 {
            assert(digits[k - start] == d);
            assert(!all_digits(digits));
            assert(start > a ==> !is_digit(t[0]));
            return None;
        }
        assert(line@.subrange(start as int, k as int + 1).drop_last() =~= line@.subrange(
            start as int,
            k as int,
        ));
        value = value * 10 + (d - 0x30) as u64;
        k = k + 1;
        if value > 0x8000_0000 {
            // Further digits only make the number larger.
            proof {
                let prefix = line@.subrange(start as int, k as int);
                if forall|q: int| 0 <= q < digits.len() ==> is_digit(#[trigger] digits[q]) {
                    lemma_digits_value_grows(digits, k - start);
                    assert(digits.take(k - start) =~= prefix);
                }
            }
            return None;
        }
    }
    assert(line@.subrange(start as int, k as int) =~= digits);
    assert forall|q: int| 0 <= q < digits.len() implies is_digit(#[trigger] digits[q]) by {
        assert(digits[q] == line@[start + q]);
    }
    if negative {
        Some((0 - value as i64) as i32)
    } else if value <= 0x7fff_ffff {
        Some(value as i32)
    } else {
        None
    }
}

/// Reads the cell in `line[lo..hi]`, as `line_value` describes it.
fn parse_span(line: &[u8], lo: usize, hi: usize) -> (r: Option<Cell>)
    requires
        lo <= hi <= line@.len(),
    ensures
        r == line_value(line@.subrange(lo as int, hi as int)),
{
    let ghost l = line@.subrange(lo as int, hi as int);
    let mut comma: usize = lo;
    let mut found: bool = false;
    let mut i: usize = lo;
    while i < hi
        invariant
            lo <= i <= hi <= line@.len(),
            l == line@.subrange(lo as int, hi as int),
            lo <= comma,
            found ==> comma < i && line@[comma as int] == 0x2c,
            forall|q: int|
                lo <= q < i && (!found || q != comma) ==> #[trigger] line@[q] != 0x2c,
        decreases hi - i,
    {
        if line[i] == 0x2c {
            if found {
                assert forall|p: int| !sole_comma_at(l, p) by {
                    if p != comma - lo {
                        assert(l[comma - lo] == 0x2c);
                    } else {
                        assert(l[i - lo] == 0x2c);
                    }
                }
                return None;
            }
            found = true;
            comma = i;
        }
        i = i + 1;
    }
    if !found {
        assert forall|p: int| !sole_comma_at(l, p) by {
            if 0 <= p < l.len() {
                assert(l[p] == line@[lo + p]);
            }
        }
        return None;
    }
    let ghost p = comma - lo;
    assert forall|q: int| 0 <= q < l.len() && q != p implies l[q] != 0x2c by {
        assert(l[q] == line@[lo + q]);
    }
    assert(sole_comma_at(l, p));
    assert(forall|q: int| sole_comma_at(l, q) ==> q == p);
    assert(l.take(p) =~= line@.subrange(lo as int, comma as int));
    assert(l.skip(p + 1) =~= line@.subrange(comma as int + 1, hi as int));
    let x = parse_field(line, lo, comma);
    let y = parse_field(line, comma + 1, hi);
    match (x, y) {
        (Some(x), Some(y)) => Some((x, y)),
        _ => None,
    }
}

/// Reads the cell on one line of text: `x,y`, with one comma and a decimal
/// integer on each side of it, each with an optional sign and surrounding
/// whitespace. Returns `None` when the line is not of that form or a
/// coordinate does not fit in `i32`.
pub fn parse_line(line: &[u8]) -> (r: Option<Cell>)
    ensures
        r == line_value(line@),
{
    assert(line@.subrange(0, line@.len() as int) =~= line@);
    parse_span(line, 0, line.len())
}

/// Reads a list of cells from `text`, one `x,y` per line as `parse_line`
/// reads it. Lines end with a line feed, optionally preceded by a carriage
/// return; empty lines are skipped. Returns the cells in the order of the
/// lines, or the number, counted from 1, of the first non-empty line that
/// does not hold a cell.
pub fn parse_coords(text: &[u8]) -> (r: Result<Vec<Cell>, usize>)
    ensures
        match r {
            Ok(cells) => coords_value(text@) == Ok::<Seq<Cell>, nat>(cells@),
            Err(number) => coords_value(text@) == Err::<Seq<Cell>, nat>(number as nat),
        },
{
    let mut cells: Vec<Cell> = Vec::new();
    let mut start: usize = 0;
    // The number of lines before the one that starts at `start`.
    let mut done: usize = 0;
    let len: usize = text.len();
    let mut i: usize = 0;
    while i < len
        invariant
            len == text@.len(),
            start <= i <= text@.len(),
            done <= start,
            coords_value(text@) == after(
                cells@,
                cells_from(text@, start as int, i as int, (done + 1) as nat),
            ),
        decreases text@.len() - i,
    {
        if text[i] == 0x0a {
            let end: usize = if i > start && text[i - 1] == 0x0d {
                i - 1
            } else {
                i
            };
            let ghost rest = cells_from(text@, i + 1, i + 1, (done + 2) as nat);
            assert(strip_cr(text@.subrange(start as int, i as int)) =~= text@.subrange(
                start as int,
                end as int,
            ));
            if end > start {
                match parse_span(text, start, end) {
                    Some(c) => {
                        proof {
                            if let Ok(cs) = rest {
                                assert(cells@ + (seq![c] + cs) =~= cells@.push(c) + cs);
                            }
                        }
                        cells.push(c);
                    },
                    None => {
                        return Err(done + 1);
                    },
                }
            }
            start = i + 1;
            done = done + 1;
        }
        i = i + 1;
    }
    if i > start {
        match parse_span(text, start, i) {
            Some(c) => {
                assert(cells@ + (seq![c] + Seq::<Cell>::empty()) =~= cells@.push(c));
                cells.push(c);
            },
            None => {
                return Err(done + 1);
            },
        }
    } else {
        assert(cells@ + Seq::<Cell>::empty() =~= cells@);
    }
    Ok(cells)
}

} // verus!
