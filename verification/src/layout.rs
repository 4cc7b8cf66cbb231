//! The layout: cells and their elements, in database units.

use vstd::prelude::*;

verus! {

/// A polygon element.
#[derive(Debug, PartialEq, Eq)]
pub struct Boundary {
    pub layer: i16,
    pub datatype: i16,
    pub xy: Vec<(i32, i32)>,
}

/// A polygon element as its values.
pub struct BoundaryView {
    pub layer: i16,
    pub datatype: i16,
    pub xy: Seq<(i32, i32)>,
}

impl View for Boundary {
    type V = BoundaryView;

    open spec fn view(&self) -> BoundaryView {
        BoundaryView { layer: self.layer, datatype: self.datatype, xy: self.xy@ }
    }
}

/// A path element: a line with a width.
#[derive(Debug, PartialEq, Eq)]
pub struct PathElement {
    pub layer: i16,
    pub datatype: i16,
    pub xy: Vec<(i32, i32)>,
    pub width: Option<i32>,
    /// End caps: 2 extends by half the width, 4 by the given extensions,
    /// others are flush.
    pub path_type: Option<i16>,
    pub begin_extn: Option<i32>,
    pub end_extn: Option<i32>,
}

/// Reflection, rotation and magnification of a placement.
#[derive(Clone, Copy, Debug, PartialEq, Eq, Structural)]
pub struct Strans {
    /// Reflect about the x axis before rotating.
    pub reflected: bool,
    /// Magnified cosine of the angle, in units of 2^-32.
    pub cos: i64,
    /// Magnified sine of the angle, in units of 2^-32.
    pub sin: i64,
}

/// A placement of a cell.
#[derive(Debug, PartialEq, Eq)]
pub struct StructRef {
    pub name: String,
    pub xy: (i32, i32),
    pub strans: Option<Strans>,
}

/// An array of placements of a cell.
#[derive(Debug, PartialEq, Eq)]
pub struct ArrayRef {
    pub name: String,
    /// Position of the first instance.
    pub origin: (i32, i32),
    /// Position of the instance one past the last column.
    pub col_end: (i32, i32),
    /// Position of the instance one past the last row.
    pub row_end: (i32, i32),
    pub cols: i16,
    pub rows: i16,
    pub strans: Option<Strans>,
}

/// An element of a cell.
#[derive(Debug, PartialEq, Eq)]
pub enum Element {
    Boundary(Boundary),
    Path(PathElement),
    StructRef(StructRef),
    ArrayRef(ArrayRef),
    /// Texts, nodes and boxes.
    Other,
}

/// A cell.
#[derive(Debug, PartialEq, Eq)]
pub struct Cell {
    pub name: String,
    pub elems: Vec<Element>,
}

/// A layout.
#[derive(Debug, PartialEq, Eq)]
pub struct Layout {
    pub cells: Vec<Cell>,
}

/// Why a layout cannot be flattened.
#[derive(Clone, Copy, Debug, PartialEq, Eq, Structural)]
pub enum LayoutError {
    /// A coordinate, a width or a transform leaves the supported range.
    OutOfRange,
    /// A cell places itself, directly or through others.
    Recursion,
}

impl Element {
    /// The name of the cell that this element places, if any.
    pub open spec fn target(self) -> Option<Seq<char>> {
        match self {
            Element::StructRef(r) => Some(r.name@),
            Element::ArrayRef(r) => Some(r.name@),
            _ => None,
        }
    }

    /// Layer and datatype of a drawn element.
    pub open spec fn drawn_on(self) -> Option<(i16, i16)> {
        match self {
            Element::Boundary(b) => Some((b.layer, b.datatype)),
            Element::Path(p) => Some((p.layer, p.datatype)),
            _ => None,
        }
    }
}

/// The pair is in the list.
pub fn lists_pair(pairs: &[(i16, i16)], p: (i16, i16)) -> (b: bool)
    ensures
        b == pairs@.contains(p),
{
    let mut i: usize = 0;
    while i < pairs.len()
        invariant
            i <= pairs@.len(),
            forall|j: int| 0 <= j < i ==> pairs@[j] != p,
        decreases pairs@.len() - i,
    {
        if pairs[i].0 == p.0 && pairs[i].1 == p.1 {
            assert(pairs@[i as int] == p);
            return true;
        }
        i = i + 1;
    }
    false
}

/// Is the element drawn on one of the target layers and datatypes?
pub fn is_fill_element(elem: &Element, targets: &[(i16, i16)]) -> (b: bool)
    ensures
        b == (elem.drawn_on() matches Some(p) && targets@.contains(p)),
{
    match elem {
        Element::Boundary(b) => lists_pair(targets, (b.layer, b.datatype)),
        Element::Path(p) => lists_pair(targets, (p.layer, p.datatype)),
        _ => false,
    }
}

} // verus!
