//! The vector document: painted shapes, bottom to top, each a set of subpaths in
//! absolute document coordinates; and the segmentation that it is composed from.
use vstd::prelude::*;

use crate::scalar::Scalar;

verus! {

/// A point of the document.
#[derive(Clone, Copy, Debug)]
pub struct Point {
    pub x: Scalar,
    pub y: Scalar,
}

/// A color; each channel has eight bits.
#[derive(Clone, Copy, Debug, PartialEq, Eq, Structural)]
pub struct Color {
    pub r: u8,
    pub g: u8,
    pub b: u8,
    pub a: u8,
}

/// How a shape is filled.
#[derive(Clone, Copy, Debug, PartialEq, Eq, Structural)]
pub enum Paint {
    Solid(Color),
}

/// One drawing command, in absolute coordinates.
#[derive(Clone, Copy, Debug)]
pub enum PathCmd {
    MoveTo(Point),
    LineTo(Point),
    /// The two control points, then the end.
    CubicTo(Point, Point, Point),
    /// Back to where the subpath started.
    Close,
}

#[derive(Debug)]
pub struct SubPath {
    pub commands: Vec<PathCmd>,
}

#[derive(Debug)]
pub struct MultiPath {
    pub subpaths: Vec<SubPath>,
}

#[derive(Debug)]
pub struct Shape {
    pub paint: Paint,
    pub path: MultiPath,
}

/// Shapes in paint order: the first lies at the bottom.
#[derive(Debug)]
pub struct VectorDoc {
    pub width: usize,
    pub height: usize,
    pub shapes: Vec<Shape>,
}

/// A fitted outline: where it starts and what it draws from there.
#[derive(Debug)]
pub struct Contour {
    pub start: Point,
    pub commands: Vec<PathCmd>,
}

/// The pixels of a region, row by row, and where its top left corner lies.
#[derive(Debug)]
pub struct RegionMask {
    pub left: i32,
    pub top: i32,
    pub width: usize,
    pub height: usize,
    pub pixels: Vec<bool>,
}

#[derive(Debug)]
pub struct Layer {
    pub paint: Paint,
    pub mask: RegionMask,
}

/// Layers in paint order: the first lies at the bottom.
#[derive(Debug)]
pub struct Segmentation {
    pub width: usize,
    pub height: usize,
    pub layers: Vec<Layer>,
}

pub struct MaskView {
    pub left: i32,
    pub top: i32,
    pub width: usize,
    pub height: usize,
    pub pixels: Seq<bool>,
}

pub struct ContourView {
    pub start: Point,
    pub commands: Seq<PathCmd>,
}

/// Fitted outlines, one after the other.
pub type OutlinesView = Seq<ContourView>;

/// The commands of each subpath.
pub type PathView = Seq<Seq<PathCmd>>;

pub struct ShapeView {
    pub paint: Paint,
    pub path: PathView,
}

pub struct DocView {
    pub width: usize,
    pub height: usize,
    pub shapes: Seq<ShapeView>,
}

impl Point {
    pub fn origin() -> (r: Point)
        ensures
            r == (Point { x: Scalar { bits: 0 }, y: Scalar { bits: 0 } }),
    {
        Point { x: Scalar { bits: 0 }, y: Scalar { bits: 0 } }
    }
}

impl View for RegionMask {
    type V = MaskView;

    open spec fn view(&self) -> MaskView {
        MaskView {
            left: self.left,
            top: self.top,
            width: self.width,
            height: self.height,
            pixels: self.pixels@,
        }
    }
}

impl View for Contour {
    type V = ContourView;

    open spec fn view(&self) -> ContourView {
        ContourView { start: self.start, commands: self.commands@ }
    }
}

/// The subpath that draws `contour` and closes it.
pub open spec fn closed(contour: ContourView) -> Seq<PathCmd> {
    seq![PathCmd::MoveTo(contour.start)] + contour.commands + seq![PathCmd::Close]
}

impl Contour {
    /// The outline as a closed subpath: a move to its start, its commands, and a
    /// close.
    pub fn into_closed_subpath(self) -> (r: SubPath)
        ensures
            r@ == closed(self@),
            r.commands@.len() == self.commands@.len() + 2,
            r.commands@[0] == PathCmd::MoveTo(self.start),
            forall|i: int|
                0 <= i < self.commands@.len() ==> r.commands@[i + 1]
                    == #[trigger] self.commands@[i],
            r.commands@.last() == PathCmd::Close,
    {
        let mut commands: Vec<PathCmd> = Vec::new();
        commands.push(PathCmd::MoveTo(self.start));
        let mut i: usize = 0;
        while i < self.commands.len()
            invariant
                i <= self.commands.len(),
                commands@ =~= seq![PathCmd::MoveTo(self.start)] + self.commands@.take(i as int),
            decreases self.commands.len() - i,
        {
            commands.push(self.commands[i]);
            i = i + 1;
        }
        commands.push(PathCmd::Close);
        let r = SubPath { commands };
        assert(r@ =~= closed(self@));
        r
    }
}

impl View for SubPath {
    type V = Seq<PathCmd>;

    open spec fn view(&self) -> Seq<PathCmd> {
        self.commands@
    }
}

impl View for MultiPath {
    type V = PathView;

    open spec fn view(&self) -> PathView {
        Seq::new(self.subpaths@.len(), |i: int| self.subpaths@[i]@)
    }
}

impl View for Shape {
    type V = ShapeView;

    open spec fn view(&self) -> ShapeView {
        ShapeView { paint: self.paint, path: self.path@ }
    }
}

impl View for VectorDoc {
    type V = DocView;

    open spec fn view(&self) -> DocView {
        DocView { width: self.width, height: self.height, shapes: shapes_view(self.shapes@) }
    }
}

pub open spec fn shapes_view(shapes: Seq<Shape>) -> Seq<ShapeView> {
    Seq::new(shapes.len(), |i: int| shapes[i]@)
}

impl SubPath {
    pub fn new() -> (r: SubPath)
        ensures
            r@ == Seq::<PathCmd>::empty(),
    {
        SubPath { commands: Vec::new() }
    }
}

impl MultiPath {
    pub fn new() -> (r: MultiPath)
        ensures
            r@ == Seq::<Seq<PathCmd>>::empty(),
    {
        let r = MultiPath { subpaths: Vec::new() };
        assert(r@ =~= Seq::<Seq<PathCmd>>::empty());
        r
    }

    pub fn push(&mut self, subpath: SubPath)
        ensures
            final(self)@ == old(self)@.push(subpath@),
            final(self).subpaths@ == old(self).subpaths@.push(subpath),
    {
        self.subpaths.push(subpath);
        assert(self@ =~= old(self)@.push(subpath@));
    }

    pub fn is_empty(&self) -> (r: bool)
        ensures
            r == (self@.len() == 0),
    {
        self.subpaths.len() == 0
    }
}

impl VectorDoc {
    /// A document without shapes.
    pub fn new(width: usize, height: usize) -> (r: VectorDoc)
        ensures
            r@ == (DocView { width, height, shapes: Seq::<ShapeView>::empty() }),
    {
        let r = VectorDoc { width, height, shapes: Vec::new() };
        assert(r@.shapes =~= Seq::<ShapeView>::empty());
        r
    }
}

} // verus!
