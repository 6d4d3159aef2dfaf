use std::cell::{Cell, RefCell};
use std::sync::atomic::{AtomicBool, AtomicUsize, Ordering};
use std::sync::Mutex;

use vtracer::compose::{
    assemble_rings, compose_stacked, compose_stacked_with, fit_layer, fit_region, stack,
    Compositing, CurveFitter, CurvePass,
};
use vtracer::ir::{
    Color, Contour, ContourView, Layer, MaskView, OutlinesView, Paint, PathCmd, Point, RegionMask,
    Segmentation, Shape, VectorDoc,
};
use vtracer::parallel::{compose_stacked_parallel, compose_stacked_parallel_with};
use vtracer::progress::{Ctx, Error, Phase};
use vtracer::scalar::Scalar;

fn pt(x: f64, y: f64) -> Point {
    Point { x: Scalar { bits: x.to_bits() }, y: Scalar { bits: y.to_bits() } }
}

fn xy(p: Point) -> (f64, f64) {
    (f64::from_bits(p.x.bits), f64::from_bits(p.y.bits))
}

/// Fits a triangle at the corner of each region, and nothing to a region without
/// pixels.
struct Triangles;

impl CurveFitter for Triangles {
    fn fitted(&self, _: MaskView) -> OutlinesView {
        unreachable!()
    }

    fn fit_region(&self, mask: &RegionMask) -> Vec<Contour> {
        let (x, y) = (mask.left as f64, mask.top as f64);
        mask.pixels
            .iter()
            .filter(|p| **p)
            .map(|_| Contour {
                start: pt(x, y),
                commands: vec![PathCmd::LineTo(pt(x + 1.0, y)), PathCmd::LineTo(pt(x, y + 1.0))],
            })
            .collect()
    }
}

/// Moves the start of a contour along.
struct Shift(f64);

impl CurvePass for Shift {
    fn ringed(&self, _: ContourView) -> ContourView {
        unreachable!()
    }

    fn ring(&self, geom: Contour) -> Contour {
        let (x, y) = xy(geom.start);
        Contour { start: pt(x + self.0, y), commands: geom.commands }
    }
}

/// Scales the start of a contour.
struct Scale(f64);

impl CurvePass for Scale {
    fn ringed(&self, _: ContourView) -> ContourView {
        unreachable!()
    }

    fn ring(&self, geom: Contour) -> Contour {
        let (x, y) = xy(geom.start);
        Contour { start: pt(x * self.0, y * self.0), commands: geom.commands }
    }
}

fn mask(left: i32, pixels: Vec<bool>) -> RegionMask {
    RegionMask { left, top: 2, width: pixels.len(), height: 1, pixels }
}

fn layer(red: u8, left: i32, pixels: Vec<bool>) -> Layer {
    Layer { paint: Paint::Solid(Color { r: red, g: 0, b: 0, a: 255 }), mask: mask(left, pixels) }
}

fn segmentation() -> Segmentation {
    Segmentation {
        width: 30,
        height: 20,
        layers: vec![
            layer(1, 10, vec![true]),
            layer(2, 20, vec![false]),
            layer(3, 30, vec![true, true]),
        ],
    }
}

fn passes() -> Vec<Box<dyn CurvePass>> {
    vec![Box::new(Shift(1.0)), Box::new(Scale(2.0))]
}

fn red(shape: &Shape) -> u8 {
    match shape.paint {
        Paint::Solid(c) => c.r,
    }
}

fn start(shape: &Shape, subpath: usize) -> (f64, f64) {
    match shape.path.subpaths[subpath].commands[0] {
        PathCmd::MoveTo(p) => xy(p),
        _ => panic!("no move"),
    }
}

fn assert_stacked(doc: &VectorDoc) {
    assert_eq!((doc.width, doc.height), (30, 20));
    assert_eq!(doc.shapes.iter().map(red).collect::<Vec<u8>>(), [1, 3]);
    assert_eq!(doc.shapes[0].path.subpaths.len(), 1);
    assert_eq!(doc.shapes[1].path.subpaths.len(), 2);
    assert_eq!(start(&doc.shapes[0], 0), (22.0, 4.0));
    assert_eq!(start(&doc.shapes[1], 1), (62.0, 4.0));
}

#[test]
fn regions_become_closed_rings() {
    let path = fit_region(&Triangles, &mask(4, vec![true, false, true]), &[]);
    assert_eq!(path.subpaths.len(), 2);
    for sub in &path.subpaths {
        assert_eq!(sub.commands.len(), 4);
        assert!(matches!(sub.commands[0], PathCmd::MoveTo(_)));
        assert!(matches!(sub.commands[1], PathCmd::LineTo(_)));
        assert!(matches!(sub.commands[2], PathCmd::LineTo(_)));
        assert!(matches!(sub.commands[3], PathCmd::Close));
    }
}

#[test]
fn passes_run_in_their_order() {
    let contour = || vec![Contour { start: pt(3.0, 5.0), commands: vec![] }];
    let shape = |path| Shape { paint: Paint::Solid(Color { r: 0, g: 0, b: 0, a: 0 }), path };
    let shifted_first = assemble_rings(contour(), &passes());
    assert_eq!(start(&shape(shifted_first), 0), (8.0, 10.0));
    let other: Vec<Box<dyn CurvePass>> = vec![Box::new(Scale(2.0)), Box::new(Shift(1.0))];
    let scaled_first = assemble_rings(contour(), &other);
    assert_eq!(start(&shape(scaled_first), 0), (7.0, 10.0));
}

#[test]
fn empty_layers_have_no_shape() {
    assert!(fit_layer(&Triangles, &layer(9, 0, vec![false, false]), &passes()).is_none());
    assert!(fit_layer(&Triangles, &layer(9, 0, vec![]), &[]).is_none());
    let shape = fit_layer(&Triangles, &layer(9, 0, vec![true]), &[]).unwrap();
    assert_eq!(red(&shape), 9);
    assert_eq!(start(&shape, 0), (0.0, 2.0));
}

#[test]
fn stacking_keeps_paint_order() {
    assert_stacked(&compose_stacked(&segmentation(), &Triangles, &passes()));
    let doc = stack(4, 5, vec![None, fit_layer(&Triangles, &layer(7, 0, vec![true]), &[]), None]);
    assert_eq!((doc.width, doc.height, doc.shapes.len()), (4, 5, 1));
    assert_eq!(red(&doc.shapes[0]), 7);
}

#[test]
fn lower_layers_come_first() {
    let all = compose_stacked(&segmentation(), &Triangles, &[]);
    let mut lower = segmentation();
    let upper = Segmentation { width: 30, height: 20, layers: lower.layers.split_off(1) };
    let mut reds: Vec<u8> = Vec::new();
    reds.extend(compose_stacked(&lower, &Triangles, &[]).shapes.iter().map(red));
    reds.extend(compose_stacked(&upper, &Triangles, &[]).shapes.iter().map(red));
    assert_eq!(all.shapes.iter().map(red).collect::<Vec<u8>>(), reds);
}

#[test]
fn threads_do_not_change_the_document() {
    assert_stacked(&compose_stacked_parallel(&segmentation(), &Triangles, &passes()));
    let many = Segmentation {
        width: 1,
        height: 1,
        layers: (0..200).map(|i| layer(i as u8, i, vec![i % 3 != 0])).collect(),
    };
    let one = compose_stacked(&many, &Triangles, &passes());
    let several = compose_stacked_parallel(&many, &Triangles, &passes());
    assert_eq!(one.shapes.len(), 133);
    assert_eq!(several.shapes.len(), 133);
    for (a, b) in one.shapes.iter().zip(&several.shapes) {
        assert_eq!(red(a), red(b));
        assert_eq!(start(a, 0), start(b, 0));
    }
}

/// Runs stacked compositing that is cancelled at the check `at`, if any, and gives
/// the outcome, the number of checks and the reports.
fn run(
    seg: &Segmentation,
    at: Option<usize>,
) -> (Result<VectorDoc, Error>, usize, Vec<(Phase, usize, usize)>) {
    let checks = Cell::new(0usize);
    let reports = RefCell::new(Vec::new());
    let mut ctx = Ctx::new(
        || {
            checks.set(checks.get() + 1);
            Some(checks.get() - 1) == at
        },
        |phase, done, total| reports.borrow_mut().push((phase, done, total)),
    );
    let r = compose_stacked_with(seg, &Triangles, &passes(), &mut ctx);
    let told = reports.borrow().clone();
    (r, checks.get(), told)
}

const C: Phase = Phase::Compose;

#[test]
fn stacking_reports_each_layer() {
    let (r, checks, reports) = run(&segmentation(), None);
    assert_stacked(&r.unwrap());
    assert_eq!(checks, 5);
    assert_eq!(reports, [(C, 0, 3), (C, 1, 3), (C, 2, 3), (C, 3, 3), (C, 3, 3)]);
}

#[test]
fn no_layers_are_one_part() {
    let (r, checks, reports) = run(&Segmentation { width: 6, height: 8, layers: vec![] }, None);
    let doc = r.unwrap();
    assert_eq!((doc.width, doc.height, doc.shapes.len()), (6, 8, 0));
    assert_eq!(checks, 2);
    assert_eq!(reports, [(C, 0, 1), (C, 1, 1)]);
}

#[test]
fn stacking_can_be_cancelled_at_every_check() {
    let (_, _, all) = run(&segmentation(), None);
    for at in 0..5 {
        let (r, checks, reports) = run(&segmentation(), Some(at));
        assert_eq!(r.err(), Some(Error::Cancelled));
        assert_eq!(checks, at + 1);
        assert_eq!(reports, all[..at]);
    }
}

#[test]
fn progress_never_goes_back() {
    let (_, _, reports) = run(&segmentation(), None);
    assert_eq!(reports[0].1, 0);
    assert_eq!(reports.last().unwrap().1, reports.last().unwrap().2);
    for pair in reports.windows(2) {
        assert!(pair[0].1 <= pair[1].1);
    }
}

#[test]
fn threads_report_coarsely() {
    let reports = RefCell::new(Vec::new());
    let mut ctx =
        Ctx::new(|| false, |phase, done, total| reports.borrow_mut().push((phase, done, total)));
    let r = compose_stacked_parallel_with(&segmentation(), &Triangles, &passes(), &mut ctx);
    assert_stacked(&r.unwrap());
    assert_eq!(*reports.borrow(), [(C, 0, 1), (C, 1, 1)]);
}

#[test]
fn threads_stop_when_cancelled() {
    // Cancelled before the start, and cancelled by the first layer that asks.
    for from in [0usize, 1] {
        let asked = AtomicUsize::new(0);
        let reports = RefCell::new(Vec::new());
        let mut ctx = Ctx::new(
            || asked.fetch_add(1, Ordering::SeqCst) >= from,
            |phase, done, total| reports.borrow_mut().push((phase, done, total)),
        );
        let r = compose_stacked_parallel_with(&segmentation(), &Triangles, &passes(), &mut ctx);
        assert_eq!(r.err(), Some(Error::Cancelled));
        assert_eq!(reports.borrow().len(), from);
        let asked = asked.load(Ordering::SeqCst);
        assert!(if from == 0 { asked == 1 } else { (3..=5).contains(&asked) });
    }
}

/// A layer that was not fitted fails the run, whatever the token says later.
#[test]
fn threads_never_give_a_partial_document() {
    for at in 1..4usize {
        let asked = AtomicUsize::new(0);
        let reports = RefCell::new(Vec::new());
        let mut ctx = Ctx::new(
            || asked.fetch_add(1, Ordering::SeqCst) == at,
            |phase, done, total| reports.borrow_mut().push((phase, done, total)),
        );
        let r = compose_stacked_parallel_with(&segmentation(), &Triangles, &passes(), &mut ctx);
        assert_eq!(r.err(), Some(Error::Cancelled));
        assert_eq!(*reports.borrow(), [(C, 0, 1)]);
    }
}

/// Notes which regions are fitted, and cancels the run in one of the fits.
struct Noting<'a> {
    fits: &'a Mutex<Vec<i32>>,
    cancel_in: Option<usize>,
    cancelled: &'a AtomicBool,
}

impl CurveFitter for Noting<'_> {
    fn fitted(&self, _: MaskView) -> OutlinesView {
        unreachable!()
    }

    fn fit_region(&self, mask: &RegionMask) -> Vec<Contour> {
        let mut fits = self.fits.lock().unwrap();
        if self.cancel_in == Some(fits.len()) {
            self.cancelled.store(true, Ordering::SeqCst);
        }
        fits.push(mask.left);
        Triangles.fit_region(mask)
    }
}

/// A run that is cancelled while a layer is fitted fits no later layer, and one
/// that is cancelled at entry fits none.
#[test]
fn cancelling_stops_the_fits() {
    let seg = segmentation();
    for cancel_in in [None, Some(0), Some(1), Some(2)] {
        for at_entry in [false, true] {
            let fits = Mutex::new(Vec::new());
            let cancelled = AtomicBool::new(at_entry);
            let reports = RefCell::new(Vec::new());
            let fitter = Noting { fits: &fits, cancel_in, cancelled: &cancelled };
            let mut ctx = Ctx::new(
                || cancelled.load(Ordering::SeqCst),
                |_, done: usize, _| reports.borrow_mut().push(done),
            );
            let r = compose_stacked_with(&seg, &fitter, &passes(), &mut ctx);
            let done = match (at_entry, cancel_in) {
                (true, _) => 0,
                (_, Some(k)) => k + 1,
                (_, None) => 3,
            };
            assert_eq!(*fits.lock().unwrap(), [10, 20, 30][..done]);
            assert_eq!(r.is_ok(), !at_entry && cancel_in.is_none());
            let expected: &[usize] = match (at_entry, cancel_in) {
                (true, _) => &[],
                (_, Some(k)) => &[0, 1, 2, 3][..k + 2],
                (_, None) => &[0, 1, 2, 3, 3],
            };
            assert_eq!(*reports.borrow(), expected);
        }
    }
}

/// Each report of a layer comes right after the fit of that layer.
#[test]
fn each_report_follows_its_fit() {
    let seg = segmentation();
    let fits = Mutex::new(Vec::new());
    let cancelled = AtomicBool::new(false);
    let told = RefCell::new(Vec::new());
    let fitter = Noting { fits: &fits, cancel_in: None, cancelled: &cancelled };
    let mut ctx = Ctx::new(
        || false,
        |_, done: usize, _| told.borrow_mut().push((done, fits.lock().unwrap().clone())),
    );
    assert_stacked(&compose_stacked_with(&seg, &fitter, &passes(), &mut ctx).unwrap());
    let all = [10, 20, 30];
    let expected: Vec<(usize, Vec<i32>)> =
        [0, 1, 2, 3, 3].iter().map(|&k| (k, all[..k].to_vec())).collect();
    assert_eq!(*told.borrow(), expected);
}

fn mosaic(
    seg: &Segmentation,
    fitter: &u64,
    merge_diff: i32,
    passes: &[Box<dyn CurvePass>],
) -> VectorDoc {
    assert_eq!((*fitter, merge_diff, passes.len()), (77, -4, 2));
    VectorDoc::new(seg.width + 1, seg.height)
}

#[test]
fn the_strategy_decides() {
    let stacked: Compositing<u64> = Compositing::Stacked(Box::new(Triangles));
    assert_stacked(&stacked.compose(&segmentation(), &passes(), &mosaic));
    let tessellated = Compositing::Mosaic { fitter: 77u64, merge_diff: -4 };
    let doc = tessellated.compose(&segmentation(), &passes(), &mosaic);
    assert_eq!((doc.width, doc.height, doc.shapes.len()), (31, 20, 0));
}

#[test]
fn a_mosaic_is_cancelled_only_at_its_ends() {
    let tessellated = Compositing::Mosaic { fitter: 77u64, merge_diff: -4 };
    for at in [None, Some(0), Some(1)] {
        let checks = Cell::new(0usize);
        let reports = RefCell::new(Vec::new());
        let mut ctx = Ctx::new(
            || {
                checks.set(checks.get() + 1);
                Some(checks.get() - 1) == at
            },
            |phase, done, total| reports.borrow_mut().push((phase, done, total)),
        );
        let r = tessellated.compose_with(&segmentation(), &passes(), &mut ctx, &mosaic);
        let told = reports.borrow().clone();
        match at {
            None => {
                assert_eq!(r.unwrap().width, 31);
                assert_eq!(told, [(C, 0, 1), (C, 1, 1)]);
            }
            Some(n) => {
                assert_eq!(r.err(), Some(Error::Cancelled));
                assert_eq!(told, [(C, 0, 1)][..n]);
                assert_eq!(checks.get(), n + 1);
            }
        }
    }
}

/// A mosaic that is cancelled at entry is not composed, and one that is cancelled
/// while it is composed fails.
#[test]
fn a_mosaic_is_composed_between_its_checks() {
    for (at_entry, meanwhile) in [(false, false), (true, false), (false, true)] {
        let cancelled = Cell::new(at_entry);
        let composed = Cell::new(0usize);
        let tessellate =
            |seg: &Segmentation, _: &u64, _: i32, _: &[Box<dyn CurvePass>]| -> VectorDoc {
                composed.set(composed.get() + 1);
                cancelled.set(meanwhile);
                VectorDoc::new(seg.width, seg.height)
            };
        let mut ctx = Ctx::new(|| cancelled.get(), |_, _, _| {});
        let mosaic = Compositing::Mosaic { fitter: 77u64, merge_diff: 0 };
        let r = mosaic.compose_with(&segmentation(), &passes(), &mut ctx, &tessellate);
        assert_eq!(r.is_ok(), !at_entry && !meanwhile);
        assert_eq!(composed.get(), if at_entry { 0 } else { 1 });
    }
}

#[test]
fn stacked_strategy_reports_each_layer() {
    let stacked: Compositing<u64> = Compositing::Stacked(Box::new(Triangles));
    let reports = RefCell::new(Vec::new());
    let mut ctx =
        Ctx::new(|| false, |phase, done, total| reports.borrow_mut().push((phase, done, total)));
    let r = stacked.compose_with(&segmentation(), &passes(), &mut ctx, &mosaic);
    assert_stacked(&r.unwrap());
    assert_eq!(reports.borrow().len(), 5);
}
