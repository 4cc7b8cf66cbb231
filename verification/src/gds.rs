//! GDS libraries: parsed from bytes, and read as a layout.

use crate::layout::ArrayRef;
use crate::layout::Boundary;
use crate::layout::Cell;
use crate::layout::Element;
use crate::layout::Layout;
use crate::layout::PathElement;
use crate::layout::Strans;
use crate::layout::StructRef;
use gds21::GdsElement;
use gds21::GdsError;
use gds21::GdsLibrary;
use gds21::GdsPoint;
use gds21::GdsStrans;
use vstd::prelude::*;

verus! {

/// A GDS library of `gds21`.
#[verifier::external_type_specification]
#[verifier::external_body]
pub struct ExGdsLibrary(gds21::GdsLibrary);

/// An error of `gds21`.
#[verifier::external_type_specification]
#[verifier::external_body]
pub struct ExGdsError(gds21::GdsError);

/// How a placement is turned: reflected about the x axis, and the bits of its
/// magnification and of its angle in degrees, as far as they are given.
pub type RawTurn = (bool, Option<u64>, Option<u64>);

/// An element of a cell, as plain values.
pub enum ElementView {
    Boundary { layer: i16, datatype: i16, xy: Seq<(i32, i32)> },
    Path {
        layer: i16,
        datatype: i16,
        xy: Seq<(i32, i32)>,
        width: Option<i32>,
        path_type: Option<i16>,
        begin_extn: Option<i32>,
        end_extn: Option<i32>,
    },
    Place { name: Seq<char>, at: (i32, i32), turn: Option<RawTurn> },
    Array { name: Seq<char>, xy: Seq<(i32, i32)>, cols: i16, rows: i16, turn: Option<RawTurn> },
    Other,
}

/// A cell of a library, as plain values.
pub struct CellView {
    pub name: Seq<char>,
    pub elems: Seq<ElementView>,
}

/// The cells that a library holds.
pub uninterp spec fn contents(lib: GdsLibrary) -> Seq<CellView>;

/// The cells that `GdsLibrary::from_bytes` of `gds21` reads, `None` if it fails.
pub uninterp spec fn parsed(bytes: Seq<u8>) -> Option<Seq<CellView>>;

/// The two-byte number at `at`.
pub open spec fn word(bytes: Seq<u8>, at: int) -> int {
    bytes[at] * 256 + bytes[at + 1]
}

/// A two-byte number read with its sign.
pub open spec fn signed(w: int) -> int {
    if w < 0x8000 {
        w
    } else {
        w - 0x1_0000
    }
}

/// The days of a month in the Gregorian calendar.
pub open spec fn days_in(year: int, month: int) -> int {
    if month == 2 {
        if year % 4 == 0 && (year % 100 != 0 || year % 400 == 0) {
            29
        } else {
            28
        }
    } else if month == 4 || month == 6 || month == 9 || month == 11 {
        30
    } else {
        31
    }
}

/// The six numbers at `at` are a date and a time of day.
pub open spec fn is_date(bytes: Seq<u8>, at: int) -> bool {
    &&& 1 <= word(bytes, at + 2) <= 12
    &&& 1 <= word(bytes, at + 4) <= days_in(signed(word(bytes, at)), word(bytes, at + 2))
    &&& word(bytes, at + 6) < 24
    &&& word(bytes, at + 8) < 60
    &&& word(bytes, at + 10) < 60
}

/// Record type that ends a library.
pub const END_LIB: u8 = 4;

/// Record type that begins a library.
pub const BGN_LIB: u8 = 1;

/// Record type that begins a cell.
pub const BGN_STRUCT: u8 = 5;

/// Data type of two-byte numbers.
pub const TWO_BYTES: u8 = 2;

/// Data type of strings.
pub const STRING: u8 = 6;

/// The record at `at`, of `len` bytes, has an empty string or dates that are
/// none.
pub open spec fn is_broken(bytes: Seq<u8>, at: int, len: int) -> bool {
    let (kind, data) = (bytes[at + 2], bytes[at + 3]);
    ||| data == STRING && len == 4
    ||| (kind == BGN_LIB || kind == BGN_STRUCT) && data == TWO_BYTES && len == 28 && !(is_date(bytes, at + 4) && is_date(
        bytes,
        at + 16,
    ))
}

/// No record from `at` on is broken, up to the end of the library or to the
/// first record with an impossible length.
pub open spec fn is_parsable(bytes: Seq<u8>, at: int) -> bool
    decreases bytes.len() - at,
{
    if at < 0 || at + 4 > bytes.len() {
        true
    } else {
        let len = word(bytes, at);
        if len < 4 || len % 2 != 0 || at + len > bytes.len() || bytes[at + 2] == END_LIB {
            true
        } else {
            !is_broken(bytes, at, len) && is_parsable(bytes, at + len)
        }
    }
}

/// Calls `GdsLibrary::from_bytes` of `gds21`.  Claimed: what is read, and
/// whether reading fails, is a function of the bytes.  Empty strings and dates
/// that are none are left out: on them the call panics.
#[verifier::external_body]
fn parse(bytes: Vec<u8>) -> (out: Result<GdsLibrary, GdsError>)
    requires
        is_parsable(bytes@, 0),
    ensures
        out is Ok <==> parsed(bytes@) is Some,
        out matches Ok(lib) ==> parsed(bytes@) == Some(contents(lib)),
{
    GdsLibrary::from_bytes(bytes)
}

/// A drawn element of a cell.
pub enum Drawn {
    Boundary(i16, i16, Vec<(i32, i32)>),
    Path(i16, i16, Vec<(i32, i32)>, Option<i32>, Option<i16>, Option<i32>, Option<i32>),
    Other,
}

impl Drawn {
    /// The drawn element that `e` is, if it is drawn.
    pub open spec fn shows(self, e: ElementView) -> bool {
        match e {
            ElementView::Boundary { layer, datatype, xy } => self matches Drawn::Boundary(l, d, v) && l == layer && d
                == datatype && v@ == xy,
            ElementView::Path { layer, datatype, xy, width, path_type, begin_extn, end_extn } => self matches Drawn::Path(
                l,
                d,
                v,
                w,
                k,
                b,
                n,
            ) && l == layer && d == datatype && v@ == xy && w == width && k == path_type && b == begin_extn && n
                == end_extn,
            _ => self is Other,
        }
    }
}

/// A placement in a cell.
pub enum Placed {
    Cell(String, (i32, i32), Option<RawTurn>),
    Array(String, [(i32, i32); 3], i16, i16, Option<RawTurn>),
    Other,
}

impl Placed {
    /// The placement that `e` is, if it is one.
    pub open spec fn shows(self, e: ElementView) -> bool {
        match e {
            ElementView::Place { name, at, turn } => self matches Placed::Cell(n, p, t) && n@ == name && p == at && t
                == turn,
            ElementView::Array { name, xy, cols, rows, turn } => self matches Placed::Array(n, p, c, r, t) && n@ == name
                && p@ == xy && c == cols && r == rows && t == turn,
            _ => self is Other,
        }
    }
}

/// The names of the cells of a library and their drawn elements.  Claimed: they
/// are those that the fields `structs`, `name` and `elems` hold.
#[verifier::external_body]
fn drawn_cells(lib: &GdsLibrary) -> (out: Vec<(String, Vec<Drawn>)>)
    ensures
        out@.len() == contents(*lib).len(),
        forall|i: int|
            0 <= i < out@.len() ==> (#[trigger] out@[i]).0@ == contents(*lib)[i].name && out@[i].1@.len() == contents(
                *lib,
            )[i].elems.len(),
        forall|i: int, k: int|
            0 <= i < out@.len() && 0 <= k < out@[i].1@.len() ==> (#[trigger] out@[i].1@[k]).shows(
                contents(*lib)[i].elems[k],
            ),
{
    let at = |p: GdsPoint| (p.x, p.y);
    let convert = |e: GdsElement| match e {
        GdsElement::GdsBoundary(b) => Drawn::Boundary(b.layer, b.datatype, Vec::from_iter(b.xy.into_iter().map(at))),
        GdsElement::GdsPath(p) => {
            Drawn::Path(p.layer, p.datatype, Vec::from_iter(p.xy.into_iter().map(at)), p.width, p.path_type, p.begin_extn, p.end_extn)
        },
        _ => Drawn::Other,
    };
    Vec::from_iter(lib.structs.iter().map(|s| (s.name.clone(), Vec::from_iter(s.elems.iter().cloned().map(convert)))))
}

/// The placements in the cells of a library.  Claimed: they are those that the
/// fields `structs` and `elems` hold, with magnification and angle as their
/// bits.
#[verifier::external_body]
fn placed_cells(lib: &GdsLibrary) -> (out: Vec<Vec<Placed>>)
    ensures
        out@.len() == contents(*lib).len(),
        forall|i: int| 0 <= i < out@.len() ==> (#[trigger] out@[i])@.len() == contents(*lib)[i].elems.len(),
        forall|i: int, k: int|
            0 <= i < out@.len() && 0 <= k < out@[i]@.len() ==> (#[trigger] out@[i]@[k]).shows(contents(*lib)[i].elems[k]),
{
    let at = |p: GdsPoint| (p.x, p.y);
    let turn = |s: GdsStrans| (s.reflected, s.mag.map(|m| m.to_bits()), s.angle.map(|a| a.to_bits()));
    let convert = |e: GdsElement| match e {
        GdsElement::GdsStructRef(r) => Placed::Cell(r.name, at(r.xy), r.strans.map(turn)),
        GdsElement::GdsArrayRef(a) => Placed::Array(a.name, a.xy.map(at), a.cols, a.rows, a.strans.map(turn)),
        _ => Placed::Other,
    };
    Vec::from_iter(lib.structs.iter().map(|s| Vec::from_iter(s.elems.iter().cloned().map(convert))))
}

/// The two-byte number at `at`.
fn read_word(bytes: &Vec<u8>, at: usize) -> (w: u32)
    requires
        at + 1 < bytes@.len(),
    ensures
        w == word(bytes@, at as int),
{
    assert(bytes@.len() == bytes.len());
    bytes[at] as u32 * 256 + bytes[at + 1] as u32
}

/// Are the six numbers at `at` a date and a time of day?
fn check_date(bytes: &Vec<u8>, at: usize) -> (b: bool)
    requires
        at + 12 <= bytes@.len(),
    ensures
        b == is_date(bytes@, at as int),
{
    assert(bytes@.len() == bytes.len());
    let raw = read_word(bytes, at) as i32;
    let year: i32 = if raw < 0x8000 {
        raw
    } else {
        raw - 0x1_0000
    };
    let month = read_word(bytes, at + 2);
    let day = read_word(bytes, at + 4);
    // Shifted by a multiple of 400 years, so that no remainder is negative.
    let shifted: i32 = year + 32800;
    let leap = shifted % 4 == 0 && (shifted % 100 != 0 || shifted % 400 == 0);
    let days: u32 = if month == 2 {
        if leap {
            29
        } else {
            28
        }
    } else if month == 4 || month == 6 || month == 9 || month == 11 {
        30
    } else {
        31
    };
    1 <= month && month <= 12 && 1 <= day && day <= days && read_word(bytes, at + 6) < 24 && read_word(bytes, at + 8) < 60
        && read_word(bytes, at + 10) < 60
}

/// Is no record of the library broken?
fn check_parsable(bytes: &Vec<u8>) -> (b: bool)
    ensures
        b == is_parsable(bytes@, 0),
{
    let n = bytes.len();
    let mut at: usize = 0;
    while at <= n && n - at >= 4
        invariant
            n == bytes@.len(),
            at <= n,
            is_parsable(bytes@, 0) == is_parsable(bytes@, at as int),
        decreases n - at,
    {
        let len = read_word(bytes, at) as usize;
        let kind = bytes[at + 2];
        let data = bytes[at + 3];
        if len < 4 || len % 2 != 0 || len > n - at || kind == END_LIB {
            return true;
        }
        if data == STRING && len == 4 {
            return false;
        }
        if (kind == BGN_LIB || kind == BGN_STRUCT) && data == TWO_BYTES && len == 28 {
            if !(check_date(bytes, at + 4) && check_date(bytes, at + 16)) {
                return false;
            }
        }
        at = at + len;
    }
    true
}

/// Why bytes are no GDS library.
#[derive(Debug)]
pub enum ReadError {
    /// A record holds an empty string, or dates that are none.
    Broken,
    /// The parser reports an error.
    Invalid(GdsError),
}

/// Read a GDS library from the bytes of its file.
pub fn read_gds(bytes: Vec<u8>) -> (out: Result<GdsLibrary, ReadError>)
    ensures
        out matches Ok(lib) ==> parsed(bytes@) == Some(contents(lib)),
        out is Ok <==> is_parsable(bytes@, 0) && parsed(bytes@) is Some,
        (out matches Err(e) && e is Broken) <==> !is_parsable(bytes@, 0),
{
    if !check_parsable(&bytes) {
        return Err(ReadError::Broken);
    }
    match parse(bytes) {
        Ok(lib) => Ok(lib),
        Err(e) => Err(ReadError::Invalid(e)),
    }
}

/// Magnification and angle of a placement, as the bits of the file, and what
/// they come to.
#[derive(Clone, Copy, Debug)]
pub struct Turn {
    pub mag: Option<u64>,
    pub angle: Option<u64>,
    /// Magnified cosine of the angle, in units of 2^-32.
    pub cos: i64,
    /// Magnified sine of the angle, in units of 2^-32.
    pub sin: i64,
}

/// How the element is turned, if it is a turned placement.
pub open spec fn turn_of(e: ElementView) -> Option<RawTurn> {
    match e {
        ElementView::Place { turn, .. } => turn,
        ElementView::Array { turn, .. } => turn,
        _ => None,
    }
}

/// The first of the turns from number `i` on with the given bits.
pub open spec fn find_turn(turns: Seq<Turn>, mag: Option<u64>, angle: Option<u64>, i: int) -> Option<Turn>
    decreases turns.len() - i,
{
    if i < 0 || i >= turns.len() {
        None
    } else if turns[i].mag == mag && turns[i].angle == angle {
        Some(turns[i])
    } else {
        find_turn(turns, mag, angle, i + 1)
    }
}

/// The turn of a placement, `None` if it is not listed.
pub open spec fn strans_of(turns: Seq<Turn>, turn: Option<RawTurn>) -> Option<Option<Strans>> {
    match turn {
        None => Some(None),
        Some(t) => match find_turn(turns, t.1, t.2, 0) {
            Some(f) => Some(Some(Strans { reflected: t.0, cos: f.cos, sin: f.sin })),
            None => None,
        },
    }
}

/// The layout element says what the element of the library says.
pub open spec fn is_same(elem: Element, e: ElementView, turns: Seq<Turn>) -> bool {
    match e {
        ElementView::Boundary { layer, datatype, xy } => elem matches Element::Boundary(b) && b@ == (
        crate::layout::BoundaryView { layer, datatype, xy }),
        ElementView::Path { layer, datatype, xy, width, path_type, begin_extn, end_extn } => {
            &&& elem matches Element::Path(p)
            &&& p.layer == layer && p.datatype == datatype && p.xy@ == xy
            &&& p.width == width && p.path_type == path_type
            &&& p.begin_extn == begin_extn && p.end_extn == end_extn
        },
        ElementView::Place { name, at, turn } => {
            &&& elem matches Element::StructRef(r)
            &&& r.name@ == name && r.xy == at && Some(r.strans) == strans_of(turns, turn)
        },
        ElementView::Array { name, xy, cols, rows, turn } => {
            &&& elem matches Element::ArrayRef(r)
            &&& r.name@ == name && seq![r.origin, r.col_end, r.row_end] == xy
            &&& r.cols == cols && r.rows == rows && Some(r.strans) == strans_of(turns, turn)
        },
        ElementView::Other => elem is Other,
    }
}

/// The layout says what the first `n` cells of the library say.
pub open spec fn holds_cells(cells: Seq<Cell>, lib: Seq<CellView>, turns: Seq<Turn>) -> bool {
    &&& cells.len() <= lib.len()
    &&& forall|i: int|
        0 <= i < cells.len() ==> (#[trigger] cells[i]).name@ == lib[i].name && cells[i].elems@.len() == lib[i].elems.len()
    &&& forall|i: int, k: int|
        0 <= i < cells.len() && 0 <= k < cells[i].elems@.len() ==> is_same(
            #[trigger] cells[i].elems@[k],
            lib[i].elems[k],
            turns,
        )
}

/// Every turn of the library is listed.
pub open spec fn all_listed(lib: Seq<CellView>, turns: Seq<Turn>) -> bool {
    forall|i: int, k: int|
        0 <= i < lib.len() && 0 <= k < lib[i].elems.len() ==> strans_of(turns, turn_of(#[trigger] lib[i].elems[k])) is Some
}

/// Are the bits the same?
fn test_bits(a: Option<u64>, b: Option<u64>) -> (same: bool)
    ensures
        same == (a == b),
{
    match a {
        Some(x) => match b {
            Some(y) => x == y,
            None => false,
        },
        None => b.is_none(),
    }
}

/// The turn of a placement, `None` if it is not listed.
fn look_up(turns: &Vec<Turn>, turn: Option<RawTurn>) -> (s: Option<Option<Strans>>)
    ensures
        s == strans_of(turns@, turn),
{
    let (reflected, mag, angle) = match turn {
        None => {
            return Some(None);
        },
        Some(t) => t,
    };
    let mut i: usize = 0;
    while i < turns.len()
        invariant
            i <= turns@.len(),
            turn == Some((reflected, mag, angle)),
            find_turn(turns@, mag, angle, 0) == find_turn(turns@, mag, angle, i as int),
        decreases turns@.len() - i,
    {
        if test_bits(turns[i].mag, mag) && test_bits(turns[i].angle, angle) {
            return Some(Some(Strans { reflected, cos: turns[i].cos, sin: turns[i].sin }));
        }
        i = i + 1;
    }
    None
}

/// The layout element of an element of the library, `None` if its turn is not
/// listed.
fn make_element(drawn: Drawn, placed: Placed, turns: &Vec<Turn>, Ghost(e): Ghost<ElementView>) -> (out: Option<Element>)
    requires
        drawn.shows(e),
        placed.shows(e),
    ensures
        out is Some <==> strans_of(turns@, turn_of(e)) is Some,
        out matches Some(elem) ==> is_same(elem, e, turns@),
{
    match drawn {
        Drawn::Boundary(layer, datatype, xy) => Some(Element::Boundary(Boundary { layer, datatype, xy })),
        Drawn::Path(layer, datatype, xy, width, path_type, begin_extn, end_extn) => Some(
            Element::Path(PathElement { layer, datatype, xy, width, path_type, begin_extn, end_extn }),
        ),
        Drawn::Other => match placed {
            Placed::Cell(name, xy, turn) => match look_up(turns, turn) {
                Some(strans) => Some(Element::StructRef(StructRef { name, xy, strans })),
                None => None,
            },
            Placed::Array(name, xy, cols, rows, turn) => match look_up(turns, turn) {
                Some(strans) => {
                    let r = ArrayRef { name, origin: xy[0], col_end: xy[1], row_end: xy[2], cols, rows, strans };
                    assert(seq![r.origin, r.col_end, r.row_end] =~= xy@);
                    Some(Element::ArrayRef(r))
                },
                None => None,
            },
            Placed::Other => Some(Element::Other),
        },
    }
}

/// Turn a list round.
fn reversed<T>(list: Vec<T>) -> (out: Vec<T>)
    ensures
        out@ == list@.reverse(),
{
    let ghost start = list@;
    let mut list = list;
    let mut out: Vec<T> = Vec::new();
    while list.len() > 0
        invariant
            list@.len() + out@.len() == start.len(),
            list@ == start.take(list@.len() as int),
            forall|j: int| 0 <= j < out@.len() ==> out@[j] == #[trigger] start[start.len() - 1 - j],
        decreases list@.len(),
    {
        if let Some(x) = list.pop() {
            out.push(x);
        }
    }
    assert(out@ =~= start.reverse());
    out
}

/// The layout elements of a cell, `None` if a turn is not listed.
fn make_elements(drawn: Vec<Drawn>, placed: Vec<Placed>, turns: &Vec<Turn>, Ghost(elems): Ghost<Seq<ElementView>>) -> (out:
    Option<Vec<Element>>)
    requires
        drawn@.len() == elems.len(),
        placed@.len() == elems.len(),
        forall|k: int| 0 <= k < elems.len() ==> (#[trigger] drawn@[k]).shows(elems[k]),
        forall|k: int| 0 <= k < elems.len() ==> (#[trigger] placed@[k]).shows(elems[k]),
    ensures
        out is Some <==> forall|k: int|
            0 <= k < elems.len() ==> strans_of(turns@, turn_of(#[trigger] elems[k])) is Some,
        out matches Some(v) ==> v@.len() == elems.len() && forall|k: int|
            0 <= k < v@.len() ==> is_same(#[trigger] v@[k], elems[k], turns@),
{
    let n = drawn.len();
    let mut drawn = reversed(drawn);
    let mut placed = reversed(placed);
    let ghost (ds, ps) = (drawn@, placed@);
    let mut out: Vec<Element> = Vec::new();
    let mut i: usize = 0;
    while i < n
        invariant
            n == elems.len(),
            i <= n,
            out@.len() == i,
            ds.len() == n,
            ps.len() == n,
            drawn@ == ds.take(n - i),
            placed@ == ps.take(n - i),
            forall|k: int| 0 <= k < n ==> (#[trigger] ds[n - 1 - k]).shows(elems[k]),
            forall|k: int| 0 <= k < n ==> (#[trigger] ps[n - 1 - k]).shows(elems[k]),
            forall|k: int| 0 <= k < i ==> strans_of(turns@, turn_of(#[trigger] elems[k])) is Some,
            forall|k: int| 0 <= k < i ==> is_same(#[trigger] out@[k], elems[k], turns@),
        decreases n - i,
    {
        let ghost e = elems[i as int];
        assert(ds[n - 1 - i].shows(e) && ps[n - 1 - i].shows(e));
        match (drawn.pop(), placed.pop()) {
            (Some(d), Some(p)) => {
                match make_element(d, p, turns, Ghost(e)) {
                    Some(x) => {
                        out.push(x);
                    },
                    None => {
                        assert(strans_of(turns@, turn_of(elems[i as int])) is None);
                        return None;
                    },
                }
            },
            _ => {
                return None;
            },
        }
        assert(drawn@ =~= ds.take(n - i - 1) && placed@ =~= ps.take(n - i - 1));
        i = i + 1;
    }
    Some(out)
}

/// The layout of a library, with what its turns come to; `None` if one of them
/// is not listed.
pub fn to_layout(lib: &GdsLibrary, turns: &Vec<Turn>) -> (out: Option<Layout>)
    ensures
        out is Some <==> all_listed(contents(*lib), turns@),
        out matches Some(l) ==> l.cells@.len() == contents(*lib).len() && holds_cells(l.cells@, contents(*lib), turns@),
{
    let ghost all = contents(*lib);
    let drawn = drawn_cells(lib);
    let placed = placed_cells(lib);
    let n = drawn.len();
    let mut drawn = reversed(drawn);
    let mut placed = reversed(placed);
    let ghost (ds, ps) = (drawn@, placed@);
    let mut cells: Vec<Cell> = Vec::new();
    let mut i: usize = 0;
    while i < n
        invariant
            all == contents(*lib),
            n == all.len(),
            i <= n,
            cells@.len() == i,
            ds.len() == n,
            ps.len() == n,
            drawn@ == ds.take(n - i),
            placed@ == ps.take(n - i),
            forall|c: int|
                0 <= c < n ==> (#[trigger] ds[n - 1 - c]).0@ == all[c].name && ds[n - 1 - c].1@.len()
                    == all[c].elems.len(),
            forall|c: int| 0 <= c < n ==> (#[trigger] ps[n - 1 - c])@.len() == all[c].elems.len(),
            forall|c: int, k: int|
                0 <= c < n && 0 <= k < all[c].elems.len() ==> (#[trigger] ds[n - 1 - c].1@[k]).shows(all[c].elems[k]),
            forall|c: int, k: int|
                0 <= c < n && 0 <= k < all[c].elems.len() ==> (#[trigger] ps[n - 1 - c]@[k]).shows(all[c].elems[k]),
            holds_cells(cells@, all, turns@),
            forall|c: int, k: int|
                0 <= c < i && 0 <= k < all[c].elems.len() ==> strans_of(turns@, turn_of(#[trigger] all[c].elems[k])) is Some,
        decreases n - i,
    {
        let ghost elems = all[i as int].elems;
        let ghost before = cells@;
        let ghost (d, p) = (ds[n - 1 - i], ps[n - 1 - i]);
        match (drawn.pop(), placed.pop()) {
            (Some((name, shapes)), Some(places)) => {
                assert(shapes@ == d.1@ && places@ == p@ && name@ == d.0@);
                assert forall|k: int| 0 <= k < elems.len() implies (#[trigger] shapes@[k]).shows(elems[k]) by {
                    assert(ds[n - 1 - i].1@[k].shows(elems[k]));
                }
                assert forall|k: int| 0 <= k < elems.len() implies (#[trigger] places@[k]).shows(elems[k]) by {
                    assert(ps[n - 1 - i]@[k].shows(elems[k]));
                }
                match make_elements(shapes, places, turns, Ghost(elems)) {
                    Some(v) => {
                        cells.push(Cell { name, elems: v });
                    },
                    None => {
                        proof {
                            let k = choose|k: int|
                                0 <= k < elems.len() && strans_of(turns@, turn_of(#[trigger] elems[k])) is None;
                            assert(strans_of(turns@, turn_of(all[i as int].elems[k])) is None);
                        }
                        return None;
                    },
                }
            },
            _ => {
                return None;
            },
        }
        proof {
            assert(drawn@ =~= ds.take(n - i - 1) && placed@ =~= ps.take(n - i - 1));
            assert forall|c: int, k: int| 0 <= c < cells@.len() && 0 <= k < cells@[c].elems@.len() implies is_same(
                #[trigger] cells@[c].elems@[k],
                all[c].elems[k],
                turns@,
            ) by {
                if c < i {
                    assert(cells@[c] == before[c]);
                    assert(is_same(before[c].elems@[k], all[c].elems[k], turns@));
                }
            }
            assert forall|c: int| 0 <= c < cells@.len() implies (#[trigger] cells@[c]).name@ == all[c].name
                && cells@[c].elems@.len() == all[c].elems.len() by {
                if c < i {
                    assert(cells@[c] == before[c]);
                }
            }
        }
        i = i + 1;
    }
    Some(Layout { cells })
}

/// A turned placement of the library has these bits.
pub open spec fn is_used(lib: Seq<CellView>, key: (Option<u64>, Option<u64>)) -> bool {
    exists|i: int, k: int|
        0 <= i < lib.len() && 0 <= k < lib[i].elems.len() && is_turned(#[trigger] lib[i].elems[k], key)
}

/// The element is placed with these bits.
pub open spec fn is_turned(e: ElementView, key: (Option<u64>, Option<u64>)) -> bool {
    turn_of(e) matches Some(t) && (t.1, t.2) == key
}

/// Add the bits to the list unless they are in it.
fn add_bits(list: &mut Vec<(Option<u64>, Option<u64>)>, key: (Option<u64>, Option<u64>))
    requires
        old(list)@.no_duplicates(),
    ensures
        final(list)@.no_duplicates(),
        forall|k: (Option<u64>, Option<u64>)| #[trigger]
            final(list)@.contains(k) <==> old(list)@.contains(k) || k == key,
{
    let ghost start = list@;
    let mut i: usize = 0;
    while i < list.len()
        invariant
            list@ == start,
            start.no_duplicates(),
            i <= list@.len(),
            forall|j: int| 0 <= j < i ==> list@[j] != key,
        decreases list@.len() - i,
    {
        if test_bits(list[i].0, key.0) && test_bits(list[i].1, key.1) {
            assert(start[i as int] == key);
            return;
        }
        i = i + 1;
    }
    list.push(key);
    proof {
        assert forall|k: (Option<u64>, Option<u64>)| #[trigger] list@.contains(k) <==> start.contains(k) || k == key by {
            if start.contains(k) {
                let j = choose|j: int| 0 <= j < start.len() && start[j] == k;
                assert(list@[j] == k);
            }
            if k == key {
                assert(list@[start.len() as int] == k);
            }
        }
    }
}

/// The bits of magnification and angle that occur in a library, each once.
pub fn list_turns(lib: &GdsLibrary) -> (out: Vec<(Option<u64>, Option<u64>)>)
    ensures
        out@.no_duplicates(),
        forall|key: (Option<u64>, Option<u64>)| #[trigger] out@.contains(key) <==> is_used(contents(*lib), key),
{
    let ghost all = contents(*lib);
    let placed = placed_cells(lib);
    let mut out: Vec<(Option<u64>, Option<u64>)> = Vec::new();
    let mut i: usize = 0;
    while i < placed.len()
        invariant
            i <= placed@.len(),
            placed@.len() == all.len(),
            forall|c: int| 0 <= c < placed@.len() ==> (#[trigger] placed@[c])@.len() == all[c].elems.len(),
            forall|c: int, k: int|
                0 <= c < placed@.len() && 0 <= k < placed@[c]@.len() ==> (#[trigger] placed@[c]@[k]).shows(all[c].elems[k]),
            out@.no_duplicates(),
            forall|key: (Option<u64>, Option<u64>)| #[trigger]
                out@.contains(key) <==> is_used(all.take(i as int), key),
        decreases placed@.len() - i,
    {
        let ghost c = i as int;
        let ghost elems = all[c].elems;
        let ghost before = out@;
        let mut k: usize = 0;
        while k < placed[i].len()
            invariant
                i < placed@.len(),
                c == i,
                elems == all[c].elems,
                placed@.len() == all.len(),
                placed@[c]@.len() == elems.len(),
                k <= placed@[c]@.len(),
                forall|j: int| 0 <= j < elems.len() ==> (#[trigger] placed@[c]@[j]).shows(elems[j]),
                out@.no_duplicates(),
                forall|key: (Option<u64>, Option<u64>)| #[trigger]
                    out@.contains(key) <==> before.contains(key) || exists|j: int|
                        0 <= j < k && is_turned(#[trigger] elems[j], key),
            decreases placed@[c]@.len() - k,
        {
            let ghost prev = out@;
            assert(placed@[c]@[k as int].shows(elems[k as int]));
            let turn: Option<RawTurn> = match &placed[i][k] {
                Placed::Cell(_, _, t) => *t,
                Placed::Array(_, _, _, _, t) => *t,
                Placed::Other => None,
            };
            assert(turn == turn_of(elems[k as int]));
            if let Some(t) = turn {
                add_bits(&mut out, (t.1, t.2));
            }
            proof {
                assert forall|key: (Option<u64>, Option<u64>)| #[trigger]
                    out@.contains(key) <==> before.contains(key) || exists|j: int|
                        0 <= j < k + 1 && is_turned(#[trigger] elems[j], key) by {
                    if exists|j: int| 0 <= j < k + 1 && is_turned(#[trigger] elems[j], key) {
                        let j = choose|j: int| 0 <= j < k + 1 && is_turned(#[trigger] elems[j], key);
                        if j < k {
                            assert(prev.contains(key));
                        }
                    }
                    if out@.contains(key) {
                        if prev.contains(key) {
                            if !before.contains(key) {
                                let j = choose|j: int| 0 <= j < k && is_turned(#[trigger] elems[j], key);
                                assert(is_turned(elems[j], key));
                            }
                        } else {
                            assert(is_turned(elems[k as int], key));
                        }
                    }
                    if before.contains(key) {
                        assert(prev.contains(key));
                    }
                }
            }
            k = k + 1;
        }
        proof {
            let (done, next) = (all.take(c), all.take(c + 1));
            assert forall|key: (Option<u64>, Option<u64>)| #[trigger] out@.contains(key) <==> is_used(next, key) by {
                if is_used(done, key) {
                    let (a, b) = choose|a: int, b: int|
                        0 <= a < done.len() && 0 <= b < done[a].elems.len() && is_turned(#[trigger] done[a].elems[b], key);
                    assert(is_turned(next[a].elems[b], key));
                }
                if exists|j: int| 0 <= j < elems.len() && is_turned(#[trigger] elems[j], key) {
                    let j = choose|j: int| 0 <= j < elems.len() && is_turned(#[trigger] elems[j], key);
                    assert(is_turned(next[c].elems[j], key));
                }
                if is_used(next, key) {
                    let (a, b) = choose|a: int, b: int|
                        0 <= a < next.len() && 0 <= b < next[a].elems.len() && is_turned(#[trigger] next[a].elems[b], key);
                    if a < c {
                        assert(is_turned(done[a].elems[b], key));
                        assert(before.contains(key));
                    } else {
                        assert(is_turned(elems[b], key));
                    }
                }
                assert(before.contains(key) <==> is_used(done, key));
            }
        }
        i = i + 1;
    }
    assert(all.take(all.len() as int) =~= all);
    out
}

/// The table has a turn with these bits.
pub open spec fn has_turn(turns: Seq<Turn>, key: (Option<u64>, Option<u64>)) -> bool {
    exists|j: int| 0 <= j < turns.len() && (#[trigger] turns[j]).mag == key.0 && turns[j].angle == key.1
}

proof fn turn_is_found(turns: Seq<Turn>, mag: Option<u64>, angle: Option<u64>, i: int, j: int)
    requires
        0 <= i <= j < turns.len(),
        turns[j].mag == mag,
        turns[j].angle == angle,
    ensures
        find_turn(turns, mag, angle, i) is Some,
    decreases j - i,
{
    if !(turns[i].mag == mag && turns[i].angle == angle) {
        turn_is_found(turns, mag, angle, i + 1, j);
    }
}

/// A table with a turn for each of the bits that the library uses is enough
/// to read its layout.
pub proof fn used_turns_are_enough(lib: Seq<CellView>, turns: Seq<Turn>)
    requires
        forall|key: (Option<u64>, Option<u64>)| #[trigger] is_used(lib, key) ==> has_turn(turns, key),
    ensures
        all_listed(lib, turns),
{
    assert forall|i: int, k: int| 0 <= i < lib.len() && 0 <= k < lib[i].elems.len() implies strans_of(
        turns,
        turn_of(#[trigger] lib[i].elems[k]),
    ) is Some by {
        if let Some(t) = turn_of(lib[i].elems[k]) {
            let key = (t.1, t.2);
            assert(is_turned(lib[i].elems[k], key));
            assert(is_used(lib, key));
            let j = choose|j: int| 0 <= j < turns.len() && (#[trigger] turns[j]).mag == key.0 && turns[j].angle == key.1;
            turn_is_found(turns, t.1, t.2, 0, j);
        }
    }
}

proof fn found_turn_has_the_bits(turns: Seq<Turn>, mag: Option<u64>, angle: Option<u64>, i: int) -> (j: int)
    requires
        0 <= i,
        find_turn(turns, mag, angle, i) is Some,
    ensures
        i <= j < turns.len(),
        turns[j] == find_turn(turns, mag, angle, i)->0,
        turns[j].mag == mag,
        turns[j].angle == angle,
    decreases turns.len() - i,
{
    if turns[i].mag == mag && turns[i].angle == angle {
        i
    } else {
        found_turn_has_the_bits(turns, mag, angle, i + 1)
    }
}

/// A placement keeps its reflection, and is turned by what the table gives for its
/// own magnification and angle; one without them is not turned.
pub proof fn placements_keep_their_turn(turns: Seq<Turn>, turn: Option<RawTurn>)
    ensures
        turn is None ==> strans_of(turns, turn) == Some(None::<Strans>),
        turn matches Some(t) ==> (strans_of(turns, turn) matches Some(s) ==> s is Some && s->0.reflected == t.0 && exists|
            j: int,
        |
            0 <= j < turns.len() && (#[trigger] turns[j]).mag == t.1 && turns[j].angle == t.2 && turns[j].cos == s->0.cos
                && turns[j].sin == s->0.sin),
{
    if let Some(t) = turn {
        if strans_of(turns, turn) is Some {
            let j = found_turn_has_the_bits(turns, t.1, t.2, 0);
            assert(turns[j].mag == t.1);
        }
    }
}

/// The reader comes to `to` when it reads records from `at` on, none of which ends
/// the library.
pub open spec fn comes_to(bytes: Seq<u8>, at: int, to: int) -> bool
    decreases bytes.len() - at,
{
    if at == to {
        true
    } else if at < 0 || at + 4 > bytes.len() {
        false
    } else {
        let len = bytes[at] * 256 + bytes[at + 1];
        4 <= len && len % 2 == 0 && at + len <= bytes.len() && bytes[at + 2] != 4 && comes_to(bytes, at + len, to)
    }
}

/// A record that holds an empty string, or that begins a library or a cell with a
/// month, a day, an hour, a minute or a second that there is none of, is found
/// wherever the reader comes to it.
pub proof fn broken_records_are_found(bytes: Seq<u8>, at: int, to: int)
    requires
        0 <= at,
        0 <= to,
        comes_to(bytes, at, to),
        to + 4 <= bytes.len(),
        ({
            let len = bytes[to] * 256 + bytes[to + 1];
            let kind = bytes[to + 2];
            &&& 4 <= len && len % 2 == 0 && to + len <= bytes.len() && kind != 4
            &&& (bytes[to + 3] == 6 && len == 4) || ((kind == 1 || kind == 5) && bytes[to + 3] == 2 && len == 28 && (
            has_no_such_date(bytes, to + 4) || has_no_such_date(bytes, to + 16)))
        }),
    ensures
        !is_parsable(bytes, at),
    decreases bytes.len() - at,
{
    if at != to {
        broken_records_are_found(bytes, at + (bytes[at] * 256 + bytes[at + 1]), to);
    }
}

/// The month, the day, the hour, the minute or the second is not one that there is.
pub open spec fn has_no_such_date(bytes: Seq<u8>, at: int) -> bool {
    let month = bytes[at + 2] * 256 + bytes[at + 3];
    let day = bytes[at + 4] * 256 + bytes[at + 5];
    ||| month < 1 || month > 12
    ||| day < 1 || day > 31
    ||| (month == 4 || month == 6 || month == 9 || month == 11) && day > 30
    ||| month == 2 && day > 29
    ||| bytes[at + 6] * 256 + bytes[at + 7] >= 24
    ||| bytes[at + 8] * 256 + bytes[at + 9] >= 60
    ||| bytes[at + 10] * 256 + bytes[at + 11] >= 60
}

/// February has 29 days in every fourth year, but of the centuries only in every
/// fourth.
pub proof fn leap_years_come_round(year: int)
    ensures
        days_in(4 * year, 2) == 29 || 4 * year % 100 == 0,
        days_in(4 * year + 1, 2) == 28 && days_in(4 * year + 2, 2) == 28 && days_in(4 * year + 3, 2) == 28,
        days_in(400 * year, 2) == 29,
        days_in(400 * year + 100, 2) == 28 && days_in(400 * year + 200, 2) == 28 && days_in(400 * year + 300, 2) == 28,
{
}

/// The year is one with a 29th of February.
pub open spec fn is_leap(bytes: Seq<u8>, at: int) -> bool {
    let w = bytes[at] * 256 + bytes[at + 1];
    let year = if w < 0x8000 {
        w as int
    } else {
        w - 0x1_0000
    };
    year % 400 == 0 || year % 4 == 0 && year % 100 != 0
}

/// Month, day, hour, minute and second are ones that there are.
pub open spec fn has_such_date(bytes: Seq<u8>, at: int) -> bool {
    &&& !has_no_such_date(bytes, at)
    &&& bytes[at + 2] * 256 + bytes[at + 3] == 2 && bytes[at + 4] * 256 + bytes[at + 5] == 29 ==> is_leap(bytes, at)
}

/// The record at `to` holds a string that is not empty, or dates that there are, if it
/// holds a string or begins a library or a cell.
pub open spec fn is_sound(bytes: Seq<u8>, to: int) -> bool {
    let len = bytes[to] * 256 + bytes[to + 1];
    let kind = bytes[to + 2];
    &&& !(bytes[to + 3] == 6 && len == 4)
    &&& (kind == 1 || kind == 5) && bytes[to + 3] == 2 && len == 28 ==> has_such_date(bytes, to + 4) && has_such_date(
        bytes,
        to + 16,
    )
}

/// A library all of whose records are sound is not refused.
pub proof fn sound_libraries_are_not_refused(bytes: Seq<u8>, at: int)
    requires
        0 <= at,
        forall|to: int| #[trigger] comes_to(bytes, at, to) && at <= to && to + 4 <= bytes.len() ==> is_sound(bytes, to),
    ensures
        is_parsable(bytes, at),
    decreases bytes.len() - at,
{
    if at + 4 <= bytes.len() {
        let len = bytes[at] * 256 + bytes[at + 1];
        if len >= 4 && len % 2 == 0 && at + len <= bytes.len() && bytes[at + 2] != 4 {
            assert(comes_to(bytes, at, at));
            assert(is_sound(bytes, at));
            assert forall|to: int| #[trigger]
                comes_to(bytes, at + len, to) && at + len <= to && to + 4 <= bytes.len() implies is_sound(bytes, to) by {
                assert(comes_to(bytes, at, to));
            }
            sound_libraries_are_not_refused(bytes, at + len);
        }
    }
}

} // verus!
