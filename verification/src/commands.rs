//! The rmux commands the program runs, as argument lists, and the reading of what they print:
//! the pane's text, its geometry and its directory, the server's options, and the popup that
//! covers the pane.

use crate::action::{fields, fields_from};
use crate::state::name_views;
use crate::text::{chars_of, string_from_chars, string_push};
use vstd::prelude::*;

verus! {

/// Strings from literals, as characters.
pub open spec fn words(ws: Seq<&str>) -> Seq<Seq<char>> {
    ws.map_values(|w: &str| w@)
}

/// Owned copies of string slices.
fn owned(ws: &[&str]) -> (res: Vec<String>)
    ensures
        name_views(res@) == words(ws@),
{
    let mut out: Vec<String> = Vec::new();
    for k in 0..ws.len()
        invariant
            name_views(out@) == words(ws@).take(k as int),
    {
        let ghost before = out@;
        out.push(ws[k].to_string());
        proof {
            assert(name_views(out@) =~= name_views(before).push(ws@[k as int]@));
            assert(words(ws@).take(k + 1) =~= words(ws@).take(k as int).push(ws@[k as int]@));
        }
    }
    assert(words(ws@).take(ws.len() as int) =~= words(ws@));
    out
}

/// The arguments of `capture-pane` that print the visible text of a pane.
pub fn capture_pane_args(pane: &str) -> (res: Vec<String>)
    ensures
        name_views(res@) == seq!["capture-pane"@, "-p"@, "-t"@, pane@],
{
    let args = [ "capture-pane", "-p", "-t", pane ];
    let res = owned(&args);
    assert(words(args@) =~= seq!["capture-pane"@, "-p"@, "-t"@, pane@]);
    res
}

/// The arguments of `display-message` that print a format expanded for a pane.
pub fn display_message_args(pane: &str, format: &str) -> (res: Vec<String>)
    ensures
        name_views(res@) == seq!["display-message"@, "-p"@, "-t"@, pane@, format@],
{
    let args = [ "display-message", "-p", "-t", pane, format ];
    let res = owned(&args);
    assert(words(args@) =~= seq!["display-message"@, "-p"@, "-t"@, pane@, format@]);
    res
}

/// The arguments of `show-options` that print the server's global options.
pub fn show_options_args() -> (res: Vec<String>)
    ensures
        name_views(res@) == seq!["show-options"@, "-g"@],
{
    let args = [ "show-options", "-g" ];
    let res = owned(&args);
    assert(words(args@) =~= seq!["show-options"@, "-g"@]);
    res
}

/// The format that prints a pane's left column, top row, width and height.
pub fn pane_geometry_format() -> (res: &'static str)
    ensures
        res@ == "#{pane_left} #{pane_top} #{pane_width} #{pane_height}"@,
{
    "#{pane_left} #{pane_top} #{pane_width} #{pane_height}"
}

/// The format that prints a pane's working directory.
pub fn pane_path_format() -> (res: &'static str)
    ensures
        res@ == "#{pane_current_path}"@,
{
    "#{pane_current_path}"
}

/// Where a pane lies in its window, in cells.
#[derive(Clone, Copy, Debug, PartialEq, Eq)]
pub struct PaneGeometry {
    pub left: u16,
    pub top: u16,
    pub width: u16,
    pub height: u16,
}

/// Why a pane's geometry could not be read.
#[derive(Clone, Copy, Debug, PartialEq, Eq)]
pub enum GeometryError {
    /// The output does not have exactly four fields.
    FieldCount,
    /// A field is not a decimal number of at most 65535.
    NotANumber,
}

/// Whether a character is an ASCII digit.
pub open spec fn is_digit(c: char) -> bool {
    '0' <= c && c <= '9'
}

/// The value of a digit.
pub open spec fn digit_value(c: char) -> int {
    (c as u32) - ('0' as u32)
}

/// The value of decimal digits, most significant first.
pub open spec fn decimal_value(d: Seq<char>) -> int
    decreases d.len(),
{
    if d.len() == 0 {
        0
    } else {
        decimal_value(d.drop_last()) * 10 + digit_value(d.last())
    }
}

/// Decimal digits, at least one.
pub open spec fn is_decimal(d: Seq<char>) -> bool {
    d.len() > 0 && forall|k: int| 0 <= k < d.len() ==> is_digit(#[trigger] d[k])
}

/// The number a field spells, when it is a decimal number of at most 65535.
pub open spec fn field_u16(d: Seq<char>) -> Option<u16> {
    if is_decimal(d) && decimal_value(d) <= 65535 {
        Some(decimal_value(d) as u16)
    } else {
        None
    }
}

/// The geometry that the output of the geometry format gives: four blank-separated decimal
/// numbers, the left column, the top row, the width and the height.
pub open spec fn geometry_of(output: Seq<char>) -> Result<PaneGeometry, GeometryError> {
    let fs = fields(output);
    if fs.len() != 4 {
        Err(GeometryError::FieldCount)
    } else {
        match (field_u16(fs[0]), field_u16(fs[1]), field_u16(fs[2]), field_u16(fs[3])) {
            (Some(left), Some(top), Some(width), Some(height)) => Ok(
                PaneGeometry { left, top, width, height },
            ),
            _ => Err(GeometryError::NotANumber),
        }
    }
}

proof fn lemma_decimal_value_nonneg(d: Seq<char>)
    requires
        forall|k: int| 0 <= k < d.len() ==> is_digit(#[trigger] d[k]),
    ensures
        decimal_value(d) >= 0,
    decreases d.len(),
{
    if d.len() > 0 {
        lemma_decimal_value_nonneg(d.drop_last());
    }
}

/// The number a field spells, when it is a decimal number of at most 65535.
fn parse_u16(d: &[char]) -> (res: Option<u16>)
    ensures
        res == field_u16(d@),
{
    if d.len() == 0 {
        return None;
    }
    let mut value: u32 = 0;
    for k in 0..d.len()
        invariant
            value <= 65535,
            forall|j: int| 0 <= j < k ==> is_digit(#[trigger] d@[j]),
            value == decimal_value(d@.take(k as int)),
    {
        let c = d[k];
        assert(d@.take(k + 1).drop_last() =~= d@.take(k as int));
        assert(d@.take(k + 1).last() == c);
        if !('0' <= c && c <= '9') {
            proof {
                assert(!is_digit(d@[k as int]));
            }
            return None;
        }
        let digit = (c as u32) - ('0' as u32);
        let next = value * 10 + digit;
        if next > 65535 {
            proof {
                let rest = d@.skip(k + 1);
                assert(d@.take(k + 1) =~= d@.take(k + 1));
                lemma_decimal_prefix_grows(d@, k + 1);
            }
            return None;
        }
        value = next;
    }
    assert(d@.take(d.len() as int) =~= d@);
    Some(value as u16)
}

/// Decimal digits only grow in value as more are read.
proof fn lemma_decimal_prefix_grows(d: Seq<char>, k: int)
    requires
        0 <= k <= d.len(),
    ensures
        (forall|j: int| 0 <= j < d.len() ==> is_digit(#[trigger] d[j])) ==> decimal_value(d.take(k))
            <= decimal_value(d),
    decreases d.len() - k,
{
    if k < d.len() {
        lemma_decimal_prefix_grows(d, k + 1);
        if forall|j: int| 0 <= j < d.len() ==> is_digit(#[trigger] d[j]) {
            assert(d.take(k + 1).drop_last() =~= d.take(k));
            assert(d.take(k + 1).last() == d[k]);
            assert(is_digit(d[k]));
            lemma_decimal_value_nonneg(d.take(k));
        }
    } else {
        assert(d.take(k) =~= d);
    }
}

/// The blank-separated fields of a text.
fn split_fields(text: &str) -> (res: Vec<Vec<char>>)
    ensures
        res@.map_values(|f: Vec<char>| f@) == fields(text@),
{
    let chars = chars_of(text);
    let ghost t = text@;
    let mut out: Vec<Vec<char>> = Vec::new();
    let mut cur: Vec<char> = Vec::new();
    assert(t.skip(0) =~= t);
    assert(out@.map_values(|f: Vec<char>| f@) =~= Seq::<Seq<char>>::empty());
    assert(cur@ =~= Seq::<char>::empty());
    for k in 0..chars.len()
        invariant
            chars@ == t,
            t == text@,
            out@.map_values(|f: Vec<char>| f@) + fields_from(t.skip(k as int), cur@) == fields(t),
    {
        let c = chars[k];
        let ghost rest = t.skip(k as int);
        assert(rest[0] == c);
        assert(rest.drop_first() =~= t.skip(k + 1));
        let ghost before = out@.map_values(|f: Vec<char>| f@);
        if c == ' ' || c == '\t' || c == '\n' {
            if cur.len() > 0 {
                let done = cur;
                cur = Vec::new();
                out.push(done);
                proof {
                    assert(out@.map_values(|f: Vec<char>| f@) =~= before.push(done@));
                    assert(before + fields_from(rest, done@) =~= out@.map_values(|f: Vec<char>| f@)
                        + fields_from(t.skip(k + 1), cur@));
                }
            } else {
                proof {
                    assert(cur@ =~= Seq::<char>::empty());
                    assert(fields_from(rest, cur@) == Seq::<Seq<char>>::empty() + fields_from(
                        rest.drop_first(),
                        Seq::<char>::empty(),
                    ));
                    assert(fields_from(rest, cur@) =~= fields_from(t.skip(k + 1), cur@));
                }
            }
        } else {
            cur.push(c);
        }
    }
    let ghost before = out@.map_values(|f: Vec<char>| f@);
    assert(t.skip(chars.len() as int) =~= Seq::<char>::empty());
    if cur.len() > 0 {
        let done = cur;
        out.push(done);
        assert(out@.map_values(|f: Vec<char>| f@) =~= before.push(done@));
    }
    assert(out@.map_values(|f: Vec<char>| f@) =~= fields(t));
    out
}

/// Reads a pane's geometry from the output of the geometry format.
pub fn parse_pane_geometry(output: &str) -> (res: Result<PaneGeometry, GeometryError>)
    ensures
        res == geometry_of(output@),
{
    let fs = split_fields(output);
    let ghost fv = fs@.map_values(|f: Vec<char>| f@);
    if fs.len() != 4 {
        return Err(GeometryError::FieldCount);
    }
    assert(fs@[0]@ == fv[0] && fs@[1]@ == fv[1] && fs@[2]@ == fv[2] && fs@[3]@ == fv[3]);
    let left = parse_u16(fs[0].as_slice());
    let top = parse_u16(fs[1].as_slice());
    let width = parse_u16(fs[2].as_slice());
    let height = parse_u16(fs[3].as_slice());
    match (left, top, width, height) {
        (Some(left), Some(top), Some(width), Some(height)) => Ok(
            PaneGeometry { left, top, width, height },
        ),
        _ => Err(GeometryError::NotANumber),
    }
}

/// The digit for a value below ten.
pub open spec fn digit_char(v: int) -> char {
    if v == 0 {
        '0'
    } else if v == 1 {
        '1'
    } else if v == 2 {
        '2'
    } else if v == 3 {
        '3'
    } else if v == 4 {
        '4'
    } else if v == 5 {
        '5'
    } else if v == 6 {
        '6'
    } else if v == 7 {
        '7'
    } else if v == 8 {
        '8'
    } else {
        '9'
    }
}

/// The decimal digits of a number, most significant first, without leading zeros.
pub open spec fn decimal_digits(n: nat) -> Seq<char>
    decreases n,
{
    if n < 10 {
        seq![digit_char(n as int)]
    } else {
        decimal_digits(n / 10).push(digit_char((n % 10) as int))
    }
}

/// Reading the decimal digits of a number gives the number back.
pub proof fn lemma_decimal_round_trip(n: nat)
    ensures
        is_decimal(decimal_digits(n)),
        decimal_value(decimal_digits(n)) == n,
    decreases n,
{
    if n < 10 {
        let d = decimal_digits(n);
        assert(d.drop_last() =~= Seq::<char>::empty());
        assert(decimal_value(d.drop_last()) == 0);
        assert(digit_value(d.last()) == n);
    } else {
        lemma_decimal_round_trip(n / 10);
        let d = decimal_digits(n);
        assert(d.drop_last() =~= decimal_digits(n / 10));
        assert(digit_value(d.last()) == n % 10);
        assert(n == (n / 10) * 10 + n % 10) by (nonlinear_arith);
        assert forall|k: int| 0 <= k < d.len() implies is_digit(#[trigger] d[k]) by {
            if k < d.len() - 1 {
                assert(d[k] == decimal_digits(n / 10)[k]);
            }
        }
    }
}

/// The decimal digits of a number.
fn decimal_string(n: u32) -> (res: String)
    ensures
        res@ == decimal_digits(n as nat),
    decreases n,
{
    if n < 10 {
        let mut s = String::new();
        let c = char_of_digit(n);
        string_push(&mut s, c);
        assert(s@ =~= seq![digit_char(n as int)]);
        s
    } else {
        let mut s = decimal_string(n / 10);
        let c = char_of_digit(n % 10);
        string_push(&mut s, c);
        s
    }
}

/// The character of a digit.
fn char_of_digit(v: u32) -> (res: char)
    requires
        v < 10,
    ensures
        res == digit_char(v as int),
{
    match v {
        0 => '0',
        1 => '1',
        2 => '2',
        3 => '3',
        4 => '4',
        5 => '5',
        6 => '6',
        7 => '7',
        8 => '8',
        _ => '9',
    }
}

/// The arguments of `display-popup` that open the program over a pane: closed when the
/// program exits, without a border, on the client when one is given, for the pane, in its
/// directory, at its left column, with its bottom row, width and height.
pub open spec fn popup_args(
    pane: Seq<char>,
    client: Option<Seq<char>>,
    current_path: Seq<char>,
    g: PaneGeometry,
) -> Seq<Seq<char>> {
    let client_args = match client {
        Some(c) => seq!["-c"@, c],
        None => seq![],
    };
    seq!["display-popup"@, "-E"@, "-B"@] + client_args + seq![
        "-t"@,
        pane,
        "-d"@,
        current_path,
        "-x"@,
        decimal_digits(g.left as nat),
        "-y"@,
        decimal_digits((g.top + g.height) as nat),
        "-w"@,
        decimal_digits(g.width as nat),
        "-h"@,
        decimal_digits(g.height as nat),
    ]
}

/// Builds the `display-popup` arguments for a pane; the program to run follows them.
pub fn build_popup_args(
    pane: &str,
    client: Option<&str>,
    current_path: &str,
    geometry: PaneGeometry,
) -> (res: Vec<String>)
    ensures
        name_views(res@) == popup_args(
            pane@,
            match client {
                Some(c) => Some(c@),
                None => None,
            },
            current_path@,
            geometry,
        ),
{
    let head = [ "display-popup", "-E", "-B" ];
    let mut out = owned(&head);
    let ghost client_args = match client {
        Some(c) => seq!["-c"@, c@],
        None => Seq::<Seq<char>>::empty(),
    };
    match client {
        Some(c) => {
            let ghost before = out@;
            out.push("-c".to_string());
            out.push(c.to_string());
            assert(name_views(out@) =~= name_views(before) + seq!["-c"@, c@]);
        },
        None => {},
    }
    let ghost mid = name_views(out@);
    assert(mid =~= seq!["display-popup"@, "-E"@, "-B"@] + client_args);
    out.push("-t".to_string());
    out.push(pane.to_string());
    out.push("-d".to_string());
    out.push(current_path.to_string());
    out.push("-x".to_string());
    out.push(decimal_string(geometry.left as u32));
    out.push("-y".to_string());
    out.push(decimal_string(geometry.top as u32 + geometry.height as u32));
    out.push("-w".to_string());
    out.push(decimal_string(geometry.width as u32));
    out.push("-h".to_string());
    out.push(decimal_string(geometry.height as u32));
    assert(name_views(out@) =~= mid + seq![
        "-t"@,
        pane@,
        "-d"@,
        current_path@,
        "-x"@,
        decimal_digits(geometry.left as nat),
        "-y"@,
        decimal_digits((geometry.top + geometry.height) as nat),
        "-w"@,
        decimal_digits(geometry.width as nat),
        "-h"@,
        decimal_digits(geometry.height as nat),
    ]);
    out
}

/// A text without the line breaks (`'\r'` and `'\n'`) at its end.
pub open spec fn without_line_end(s: Seq<char>) -> Seq<char>
    decreases s.len(),
{
    if s.len() > 0 && (s.last() == '\n' || s.last() == '\r') {
        without_line_end(s.drop_last())
    } else {
        s
    }
}

/// Removes the line breaks at the end of a text, as printed after a pane's directory.
pub fn trim_line_end(s: &str) -> (res: String)
    ensures
        res@ == without_line_end(s@),
{
    let chars = chars_of(s);
    let mut end = chars.len();
    assert(chars@.take(end as int) =~= s@);
    while end > 0 && (chars[end - 1] == '\n' || chars[end - 1] == '\r')
        invariant
            end <= chars.len(),
            chars@ == s@,
            without_line_end(s@) == without_line_end(chars@.take(end as int)),
        decreases end,
    {
        assert(chars@.take(end as int).drop_last() =~= chars@.take(end - 1));
        end = end - 1;
    }
    assert(without_line_end(chars@.take(end as int)) == chars@.take(end as int));
    let kept = crate::text::sub_chars(chars.as_slice(), 0, end);
    assert(kept@ =~= chars@.take(end as int));
    string_from_chars(kept.as_slice())
}

} // verus!
