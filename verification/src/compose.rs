//! Compositing: turn a [`Segmentation`] into a [`VectorDoc`].
//!
//! * Stacked: each layer is traced independently into closed outlines, and the
//!   outlines are stacked in paint order (painter's algorithm).
//! * Mosaic: a gapless tessellation with shared boundary geometry. The
//!   tessellation itself is handed in by the caller.
//!
//! The stacked compositor runs the pipeline's curve passes over every fitted
//! contour before it assembles paths.
use vstd::prelude::*;

use crate::ir;
use crate::ir::{Contour, Layer, MultiPath, Paint, RegionMask, Segmentation, Shape, VectorDoc};
use crate::progress;
use crate::progress::{Ctx, Error, Event, Made, Phase, Product};

verus! {

pub open spec fn contours_view(contours: Seq<Contour>) -> ir::OutlinesView {
    Seq::new(contours.len(), |i: int| contours[i]@)
}

/// Fits closed outlines to a region. A fitter is pure over its inputs: it gives
/// the same outlines of the same region.
pub trait CurveFitter: Send + Sync {
    /// The outlines of `mask`. Ghost: compiled code never calls it.
    spec fn fitted(&self, mask: ir::MaskView) -> ir::OutlinesView;

    fn fit_region(&self, mask: &RegionMask) -> (r: Vec<Contour>)
        ensures
            contours_view(r@) == self.fitted(mask@),
    ;
}

/// Transforms a fitted contour. A pass is pure over its inputs: it makes the same
/// of the same contour.
pub trait CurvePass: Send + Sync {
    /// What becomes of a closed ring. Ghost: compiled code never calls it.
    spec fn ringed(&self, geom: ir::ContourView) -> ir::ContourView;

    fn ring(&self, geom: Contour) -> (r: Contour)
        ensures
            r@ == self.ringed(geom@),
    ;
}

/// What `passes`, one after the other, make of `geom`.
pub open spec fn passed(passes: Seq<Box<dyn CurvePass>>, geom: ir::ContourView) -> ir::ContourView
    decreases passes.len(),
{
    if passes.len() == 0 {
        geom
    } else {
        passes.last().ringed(passed(passes.drop_last(), geom))
    }
}

/// The closed subpaths of `contours`, each after `passes`.
pub open spec fn closed_rings(
    passes: Seq<Box<dyn CurvePass>>,
    contours: ir::OutlinesView,
) -> ir::PathView {
    Seq::new(contours.len(), |i: int| ir::closed(passed(passes, contours[i])))
}

/// The shape of a layer whose outlines are `path`, where there are any.
pub open spec fn painted(paint: Paint, path: ir::PathView) -> Option<ir::ShapeView> {
    if path.len() == 0 {
        None
    } else {
        Some(ir::ShapeView { paint, path })
    }
}

/// The shape of `layer`.
pub open spec fn layer_shape<F: CurveFitter + ?Sized>(
    fitter: &F,
    layer: Layer,
    passes: Seq<Box<dyn CurvePass>>,
) -> Option<ir::ShapeView> {
    painted(layer.paint, closed_rings(passes, fitter.fitted(layer.mask@)))
}

/// The shape of each of `layers`, where it has one, in their order.
pub open spec fn each_layer_shape<F: CurveFitter + ?Sized>(
    fitter: &F,
    layers: Seq<Layer>,
    passes: Seq<Box<dyn CurvePass>>,
) -> Seq<Option<ir::ShapeView>> {
    Seq::new(layers.len(), |i: int| layer_shape(fitter, layers[i], passes))
}

/// The shapes of `layers`, in their order, without the layers that have none.
pub open spec fn layer_shapes<F: CurveFitter + ?Sized>(
    fitter: &F,
    layers: Seq<Layer>,
    passes: Seq<Box<dyn CurvePass>>,
) -> Seq<ir::ShapeView> {
    present(each_layer_shape(fitter, layers, passes))
}

/// What is there of `shapes`, in their order.
pub open spec fn present(shapes: Seq<Option<ir::ShapeView>>) -> Seq<ir::ShapeView>
    decreases shapes.len(),
{
    if shapes.len() == 0 {
        seq![]
    } else {
        let before = present(shapes.drop_last());
        match shapes.last() {
            Some(shape) => before.push(shape),
            None => before,
        }
    }
}

pub open spec fn optional_view(shape: Option<Shape>) -> Option<ir::ShapeView> {
    match shape {
        Some(shape) => Some(shape@),
        None => None,
    }
}

pub open spec fn optional_views(shapes: Seq<Option<Shape>>) -> Seq<Option<ir::ShapeView>> {
    Seq::new(shapes.len(), |i: int| optional_view(shapes[i]))
}

impl Product for Option<Shape> {
    open spec fn made(&self) -> Made {
        Made::Layer(optional_view(*self))
    }
}

impl Product for VectorDoc {
    open spec fn made(&self) -> Made {
        Made::Document(self@)
    }
}

/// The document that stacks the layers of `seg`.
pub open spec fn stacked<F: CurveFitter + ?Sized>(
    seg: Segmentation,
    fitter: &F,
    passes: Seq<Box<dyn CurvePass>>,
) -> ir::DocView {
    ir::DocView {
        width: seg.width,
        height: seg.height,
        shapes: layer_shapes(fitter, seg.layers@, passes),
    }
}

/// Fit one region's outlines and run the curve passes over each contour. Stacked
/// contours are closed rings, so the ring form of each pass applies.
pub fn fit_region<F: CurveFitter + ?Sized>(
    fitter: &F,
    mask: &RegionMask,
    passes: &[Box<dyn CurvePass>],
) -> (r: MultiPath)
    ensures
        r@ == closed_rings(passes@, fitter.fitted(mask@)),
{
    assemble_rings(fitter.fit_region(mask), passes)
}

/// Run the curve passes over each of `contours` and close it.
pub fn assemble_rings(contours: Vec<Contour>, passes: &[Box<dyn CurvePass>]) -> (r: MultiPath)
    ensures
        r@ == closed_rings(passes@, contours_view(contours@)),
{
    let ghost all = contours_view(contours@);
    let mut path = MultiPath::new();
    for geom in it: contours
        invariant
            all.len() == it.seq().len(),
            forall|i: int| 0 <= i < all.len() ==> all[i] == it.seq()[i]@,
            path@ =~= closed_rings(passes@, all.take(it.index() as int)),
    {
        let geom = apply_passes(passes, geom);
        path.push(geom.into_closed_subpath());
    }
    assert(all.take(all.len() as int) =~= all);
    path
}

/// Run the curve passes over one contour.
fn apply_passes(passes: &[Box<dyn CurvePass>], geom: Contour) -> (r: Contour)
    ensures
        r@ == passed(passes@, geom@),
{
    let mut g = geom;
    let mut i: usize = 0;
    while i < passes.len()
        invariant
            i <= passes.len(),
            g@ == passed(passes@.take(i as int), geom@),
        decreases passes.len() - i,
    {
        g = passes[i].ring(g);
        i = i + 1;
        assert(passes@.take(i as int).drop_last() =~= passes@.take(i - 1));
    }
    assert(passes@.take(i as int) =~= passes@);
    g
}

/// Fit one layer into its painted shape, or `None` if it traced empty. Pure over
/// its inputs, so it is safe to call concurrently across layers.
pub fn fit_layer<F: CurveFitter + ?Sized>(
    fitter: &F,
    layer: &Layer,
    passes: &[Box<dyn CurvePass>],
) -> (r: Option<Shape>)
    ensures
        optional_view(r) == layer_shape(fitter, *layer, passes@),
        r is None <==> fitter.fitted(layer.mask@).len() == 0,
        r matches Some(shape) ==> shape.paint == layer.paint,
{
    let path = fit_region(fitter, &layer.mask, passes);
    if path.is_empty() {
        None
    } else {
        Some(Shape { paint: layer.paint, path })
    }
}

/// What is there, as places hold it.
proof fn lemma_present_filter(shapes: Seq<Option<Shape>>)
    ensures
        ({
            let there = shapes.filter(|s: Option<Shape>| s is Some);
            let views = present(optional_views(shapes));
            &&& views.len() == there.len()
            &&& forall|j: int|
                0 <= j < there.len() ==> (#[trigger] there[j] matches Some(shape) ==> views[j]
                    == shape@)
        }),
    decreases shapes.len(),
{
    reveal(Seq::filter);
    if shapes.len() > 0 {
        let fewer = shapes.drop_last();
        lemma_present_filter(fewer);
        assert(optional_views(shapes).drop_last() =~= optional_views(fewer));
        let there = shapes.filter(|s: Option<Shape>| s is Some);
        let before = fewer.filter(|s: Option<Shape>| s is Some);
        assert forall|j: int| 0 <= j < there.len() implies (#[trigger] there[j] matches Some(shape)
            ==> present(optional_views(shapes))[j] == shape@) by {
            if j < before.len() {
                assert(there[j] == before[j]);
            }
        }
    }
}

/// The document of the shapes that are there, in their order.
pub fn stack(width: usize, height: usize, shapes: Vec<Option<Shape>>) -> (doc: VectorDoc)
    ensures
        doc@ == (ir::DocView { width, height, shapes: present(optional_views(shapes@)) }),
        doc.width == width,
        doc.height == height,
        ({
            let there = shapes@.filter(|s: Option<Shape>| s is Some);
            &&& doc@.shapes.len() == there.len()
            &&& forall|j: int|
                0 <= j < there.len() ==> (#[trigger] there[j] matches Some(shape) ==> doc@.shapes[j]
                    == shape@)
        }),
{
    proof {
        lemma_present_filter(shapes@);
    }
    let ghost all = optional_views(shapes@);
    let mut doc = VectorDoc::new(width, height);
    for shape in it: shapes
        invariant
            all.len() == it.seq().len(),
            forall|i: int| 0 <= i < all.len() ==> all[i] == optional_view(it.seq()[i]),
            doc@ == (ir::DocView { width, height, shapes: present(all.take(it.index() as int)) }),
    {
        let ghost before = doc@.shapes;
        if let Some(shape) = shape {
            doc.shapes.push(shape);
            assert(doc@.shapes =~= before.push(shape@));
        }
        assert(all.take(it.index() + 1).drop_last() =~= all.take(it.index() as int));
    }
    assert(all.take(all.len() as int) =~= all);
    doc
}

/// Trace every layer's closed outline and stack the shapes in paint order.
pub fn compose_stacked<F: CurveFitter + ?Sized>(
    seg: &Segmentation,
    fitter: &F,
    passes: &[Box<dyn CurvePass>],
) -> (doc: VectorDoc)
    ensures
        doc@ == stacked(*seg, fitter, passes@),
{
    let mut shapes: Vec<Option<Shape>> = Vec::new();
    let mut i: usize = 0;
    while i < seg.layers.len()
        invariant
            i <= seg.layers.len(),
            shapes@.len() == i,
            forall|k: int|
                0 <= k < i ==> optional_view(#[trigger] shapes@[k]) == layer_shape(
                    fitter,
                    seg.layers@[k],
                    passes@,
                ),
        decreases seg.layers.len() - i,
    {
        shapes.push(fit_layer(fitter, &seg.layers[i], passes));
        i = i + 1;
    }
    assert(optional_views(shapes@) =~= each_layer_shape(fitter, seg.layers@, passes@));
    stack(seg.width, seg.height, shapes)
}

/// A check that lets the run go on.
pub open spec fn cleared() -> Event {
    Event::Check { cancelled: false }
}

/// The report that `done` parts of `total` are composed.
pub open spec fn composed(done: nat, total: nat) -> Event {
    Event::Report { phase: Phase::Compose, done: done as usize, total: total as usize }
}

/// The work of a part, which made `made`.
pub open spec fn worked(part: nat, made: Made) -> Event {
    Event::Work { part: part as usize, made }
}

/// What layers with these shapes bring where there are `total` parts: a check, work
/// that makes the shape of the layer, and a report, layer by layer.
pub open spec fn layer_events(shapes: Seq<Option<ir::ShapeView>>, total: nat) -> Seq<Event>
    decreases shapes.len(),
{
    let n = shapes.len();
    if n == 0 {
        seq![]
    } else {
        layer_events(shapes.drop_last(), total) + seq![
            cleared(),
            worked((n - 1) as nat, Made::Layer(shapes.last())),
            composed(n, total),
        ]
    }
}

/// The parts that `n` layers are reported in; there is one at least.
pub open spec fn parts(n: nat) -> nat {
    if n == 0 {
        1
    } else {
        n
    }
}

/// What stacking layers with these shapes brings, where it is not cancelled.
pub open spec fn stacked_events(shapes: Seq<Option<ir::ShapeView>>) -> Seq<Event> {
    let total = parts(shapes.len());
    seq![cleared(), composed(0, total)] + layer_events(shapes, total) + seq![
        cleared(),
        composed(total, total),
    ]
}

/// What a run in one piece brings, where it is not cancelled: the work, which makes
/// `made`, lies between the two checks.
pub open spec fn coarse_events(made: Made) -> Seq<Event> {
    seq![cleared(), composed(0, 1), worked(0, made), cleared(), composed(1, 1)]
}

/// What a run in one piece brings that ends with the check behind its work, which
/// made `made`.
pub open spec fn coarse_stop(made: Made, cancelled: bool) -> Seq<Event> {
    seq![cleared(), composed(0, 1), worked(0, made), Event::Check { cancelled }]
}

/// Whether `events` are those of a run that would have brought `planned`, up to a
/// check that cancelled it.
pub open spec fn cut_short(planned: Seq<Event>, events: Seq<Event>) -> bool {
    &&& 0 < events.len() <= planned.len()
    &&& planned[events.len() - 1] == cleared()
    &&& events == planned.take(events.len() - 1).push(Event::Check { cancelled: true })
}

/// What a run brings that is cancelled at entry: nothing but the check that found
/// it so.
pub open spec fn stopped_at_entry() -> Seq<Event> {
    seq![Event::Check { cancelled: true }]
}

/// What a run has brought since `before`.
pub open spec fn since(before: Seq<Event>, after: Seq<Event>) -> Seq<Event> {
    after.skip(before.len() as int)
}

/// [`compose_stacked`] with progress: reports after each layer and checks for
/// cancellation between them.
#[verifier::rlimit(30)]
pub fn compose_stacked_with<F: CurveFitter + ?Sized, C: Fn() -> bool, R: Fn(Phase, usize, usize)>(
    seg: &Segmentation,
    fitter: &F,
    passes: &[Box<dyn CurvePass>],
    ctx: &mut Ctx<C, R>,
) -> (r: Result<VectorDoc, Error>)
    requires
        old(ctx).usable(),
    ensures
        final(ctx).asks() == old(ctx).asks(),
        final(ctx).tells() == old(ctx).tells(),
        old(ctx).trace().is_prefix_of(final(ctx).trace()),
        old(ctx).asks().ensures((), r is Err),
        progress::borne_out(
            old(ctx).asks(),
            old(ctx).tells(),
            final(ctx).trace(),
            old(ctx).trace().len(),
        ),
        progress::surely_cancelled(old(ctx).asks()) ==> since(
            old(ctx).trace(),
            final(ctx).trace(),
        ) == stopped_at_entry(),
        match r {
            Ok(doc) => {
                &&& doc@ == stacked(*seg, fitter, passes@)
                &&& since(old(ctx).trace(), final(ctx).trace()) == stacked_events(
                    each_layer_shape(fitter, seg.layers@, passes@),
                )
            },
            Err(_) => cut_short(
                stacked_events(each_layer_shape(fitter, seg.layers@, passes@)),
                since(old(ctx).trace(), final(ctx).trace()),
            ),
        },
{
    let ghost all = each_layer_shape(fitter, seg.layers@, passes@);
    let ghost n = all.len();
    let ghost planned = stacked_events(all);
    let ghost start = ctx.trace();
    proof {
        lemma_layer_events(all, n, parts(n));
    }
    if let Err(e) = ctx.check() {
        assert(since(start, ctx.trace()) =~= planned.take(0).push(
            Event::Check { cancelled: true },
        ));
        assert(since(start, ctx.trace()) =~= stopped_at_entry());
        return Err(e);
    }
    let total: usize = if seg.layers.len() == 0 {
        1
    } else {
        seg.layers.len()
    };
    ctx.report(Phase::Compose, 0, total);
    let mut shapes: Vec<Option<Shape>> = Vec::new();
    let mut i: usize = 0;
    assert(ctx.trace() =~= start + seq![cleared(), composed(0, total as nat)] + layer_events(
        all.take(0),
        total as nat,
    ));
    while i < seg.layers.len()
        invariant
            i <= seg.layers.len(),
            n == seg.layers@.len(),
            all == each_layer_shape(fitter, seg.layers@, passes@),
            total == parts(n),
            planned == stacked_events(all),
            start == old(ctx).trace(),
            ctx.usable(),
            ctx.asks() == old(ctx).asks(),
            ctx.tells() == old(ctx).tells(),
            ctx.asks().ensures((), false),
            progress::borne_out(ctx.asks(), ctx.tells(), ctx.trace(), start.len()),
            ctx.trace() == start + seq![cleared(), composed(0, total as nat)] + layer_events(
                all.take(i as int),
                total as nat,
            ),
            optional_views(shapes@) == all.take(i as int),
        decreases seg.layers.len() - i,
    {
        let ghost here = ctx.trace();
        if let Err(e) = ctx.check() {
            proof {
                lemma_layer_events(all, i as nat, total as nat);
                lemma_layer_events(all, (i + 1) as nat, total as nat);
                assert(since(start, ctx.trace()) =~= planned.take(2 + 3 * i).push(
                    Event::Check { cancelled: true },
                ));
            }
            return Err(e);
        }
        let layer = &seg.layers[i];
        let fit = |_token: &C| -> (r: Option<Shape>)
            ensures
                optional_view(r) == layer_shape(fitter, *layer, passes@),
            { fit_layer(fitter, layer, passes) };
        shapes.push(ctx.work(i, fit));
        i = i + 1;
        ctx.report(Phase::Compose, i, total);
        proof {
            assert(all.take(i as int).drop_last() =~= all.take(i - 1));
            assert(optional_views(shapes@) =~= all.take(i as int));
            assert(ctx.trace() =~= start + seq![cleared(), composed(0, total as nat)]
                + layer_events(all.take(i as int), total as nat));
        }
    }
    assert(all.take(n as int) =~= all);
    if let Err(e) = ctx.check() {
        assert(since(start, ctx.trace()) =~= planned.take((2 + 3 * n) as int).push(
            Event::Check { cancelled: true },
        ));
        return Err(e);
    }
    assert(optional_views(shapes@) =~= each_layer_shape(fitter, seg.layers@, passes@));
    let doc = stack(seg.width, seg.height, shapes);
    ctx.report(Phase::Compose, total, total);
    assert(since(start, ctx.trace()) =~= planned);
    Ok(doc)
}

/// Each layer brings three events, and more layers bring more of them.
proof fn lemma_layer_events(shapes: Seq<Option<ir::ShapeView>>, k: nat, total: nat)
    requires
        k <= shapes.len(),
    ensures
        layer_events(shapes, total).len() == 3 * shapes.len(),
        layer_events(shapes.take(k as int), total) == layer_events(shapes, total).take(3 * k as int),
        k > 0 ==> {
            &&& layer_events(shapes, total)[3 * k - 3] == cleared()
            &&& layer_events(shapes, total)[3 * k - 2] == worked(
                (k - 1) as nat,
                Made::Layer(shapes[k - 1]),
            )
            &&& layer_events(shapes, total)[3 * k - 1] == composed(k, total)
        },
    decreases shapes.len(),
{
    let n = shapes.len();
    if k < n {
        let before = shapes.drop_last();
        lemma_layer_events(before, k, total);
        assert(before.take(k as int) =~= shapes.take(k as int));
        assert(layer_events(shapes, total).take(3 * k as int) =~= layer_events(before, total).take(
            3 * k as int,
        ));
    } else {
        if n > 0 {
            lemma_layer_events(shapes.drop_last(), (n - 1) as nat, total);
        }
        assert(shapes.take(k as int) =~= shapes);
        assert(layer_events(shapes, total).take(3 * k as int) =~= layer_events(shapes, total));
    }
}

/// Which compositing strategy the pipeline uses. Each variant owns its fitter;
/// that of a mosaic is handed to the tessellation as it is.
pub enum Compositing<S> {
    /// Independent per-region closed outlines, stacked bottom to top.
    Stacked(Box<dyn CurveFitter>),
    /// Gapless tessellation via a shared boundary graph.
    Mosaic {
        fitter: S,
        /// Merge flattened neighbours whose colors are within this difference.
        /// Zero still merges neighbours of the same color, a negative number
        /// disables merging entirely.
        merge_diff: i32,
    },
}

impl<S> Compositing<S> {
    /// Run the selected compositor over a segmentation, applying `passes` to
    /// every fitted contour before paths are assembled.
    pub fn compose<M: Fn(&Segmentation, &S, i32, &[Box<dyn CurvePass>]) -> VectorDoc>(
        &self,
        seg: &Segmentation,
        passes: &[Box<dyn CurvePass>],
        compose_mosaic: &M,
    ) -> (doc: VectorDoc)
        requires
            self matches Compositing::Mosaic { fitter, merge_diff } ==> compose_mosaic.requires(
                (seg, fitter, *merge_diff, passes),
            ),
        ensures
            match self {
                Compositing::Stacked(fitter) => doc@ == stacked(*seg, &**fitter, passes@),
                Compositing::Mosaic { fitter, merge_diff } => compose_mosaic.ensures(
                    (seg, fitter, *merge_diff, passes),
                    doc,
                ),
            },
    {
        match self {
            Compositing::Stacked(fitter) => compose_stacked(seg, &**fitter, passes),
            Compositing::Mosaic { fitter, merge_diff } => compose_mosaic(
                seg,
                fitter,
                *merge_diff,
                passes,
            ),
        }
    }

    /// Progress- and cancellation-aware compositing.
    ///
    /// Stacked mode reports per-layer progress and can be cancelled between
    /// layers. A mosaic is built in one pass, so it reports coarsely (start and
    /// end) and is cancellable only at the boundaries.
    pub fn compose_with<
        M: Fn(&Segmentation, &S, i32, &[Box<dyn CurvePass>]) -> VectorDoc,
        C: Fn() -> bool,
        R: Fn(Phase, usize, usize),
    >(
        &self,
        seg: &Segmentation,
        passes: &[Box<dyn CurvePass>],
        ctx: &mut Ctx<C, R>,
        compose_mosaic: &M,
    ) -> (r: Result<VectorDoc, Error>)
        requires
            old(ctx).usable(),
            self matches Compositing::Mosaic { fitter, merge_diff } ==> compose_mosaic.requires(
                (seg, fitter, *merge_diff, passes),
            ),
        ensures
            final(ctx).asks() == old(ctx).asks(),
            final(ctx).tells() == old(ctx).tells(),
            old(ctx).trace().is_prefix_of(final(ctx).trace()),
            old(ctx).asks().ensures((), r is Err),
            progress::borne_out(
                old(ctx).asks(),
                old(ctx).tells(),
                final(ctx).trace(),
                old(ctx).trace().len(),
            ),
            progress::surely_cancelled(old(ctx).asks()) ==> since(
                old(ctx).trace(),
                final(ctx).trace(),
            ) == stopped_at_entry(),
            match (self, r) {
                (Compositing::Stacked(fitter), Ok(doc)) => {
                    &&& doc@ == stacked(*seg, &**fitter, passes@)
                    &&& since(old(ctx).trace(), final(ctx).trace()) == stacked_events(
                        each_layer_shape(&**fitter, seg.layers@, passes@),
                    )
                },
                (Compositing::Stacked(fitter), Err(_)) => cut_short(
                    stacked_events(each_layer_shape(&**fitter, seg.layers@, passes@)),
                    since(old(ctx).trace(), final(ctx).trace()),
                ),
                (Compositing::Mosaic { fitter, merge_diff }, Ok(doc)) => {
                    &&& compose_mosaic.ensures((seg, fitter, *merge_diff, passes), doc)
                    &&& since(old(ctx).trace(), final(ctx).trace()) == coarse_events(
                        Made::Document(doc@),
                    )
                },
                (Compositing::Mosaic { fitter, merge_diff }, Err(_)) => {
                    let events = since(old(ctx).trace(), final(ctx).trace());
                    ||| events == stopped_at_entry()
                    ||| exists|doc: VectorDoc| #[trigger]
                        compose_mosaic.ensures((seg, fitter, *merge_diff, passes), doc) && events
                            == coarse_stop(Made::Document(doc@), true)
                },
            },
    {
        match self {
            Compositing::Stacked(fitter) => compose_stacked_with(seg, &**fitter, passes, ctx),
            Compositing::Mosaic { fitter, merge_diff } => {
                let ghost start = ctx.trace();
                if let Err(e) = ctx.check() {
                    assert(since(start, ctx.trace()) =~= stopped_at_entry());
                    return Err(e);
                }
                ctx.report(Phase::Compose, 0, 1);
                let diff = *merge_diff;
                let tessellate = |_token: &C| -> (doc: VectorDoc)
                    requires
                        compose_mosaic.requires((seg, fitter, diff, passes)),
                    ensures
                        compose_mosaic.ensures((seg, fitter, diff, passes), doc),
                    { compose_mosaic(seg, fitter, diff, passes) };
                let doc = ctx.work(0, tessellate);
                if let Err(e) = ctx.check() {
                    assert(since(start, ctx.trace()) =~= coarse_stop(Made::Document(doc@), true));
                    return Err(e);
                }
                ctx.report(Phase::Compose, 1, 1);
                assert(since(start, ctx.trace()) =~= coarse_events(Made::Document(doc@)));
                Ok(doc)
            },
        }
    }
}

/// The shapes that are there of two lists, one after the other.
pub proof fn lemma_present_add(a: Seq<Option<ir::ShapeView>>, b: Seq<Option<ir::ShapeView>>)
    ensures
        present(a + b) == present(a) + present(b),
    decreases b.len(),
{
    if b.len() == 0 {
        assert(a + b =~= a);
    } else {
        assert((a + b).drop_last() =~= a + b.drop_last());
        lemma_present_add(a, b.drop_last());
    }
    assert(present(a + b) =~= present(a) + present(b));
}

/// Stacking keeps the paint order: the shapes of the lower layers come first, and
/// those of the upper layers follow.
pub proof fn law_layers_stack_in_order<F: CurveFitter + ?Sized>(
    fitter: &F,
    lower: Seq<Layer>,
    upper: Seq<Layer>,
    passes: Seq<Box<dyn CurvePass>>,
)
    ensures
        layer_shapes(fitter, lower + upper, passes) == layer_shapes(fitter, lower, passes)
            + layer_shapes(fitter, upper, passes),
{
    let layers = lower + upper;
    let a = each_layer_shape(fitter, lower, passes);
    let b = each_layer_shape(fitter, upper, passes);
    assert(each_layer_shape(fitter, layers, passes) =~= a + b);
    lemma_present_add(a, b);
}

/// Passes run in their order: each takes what the ones before it made.
pub proof fn law_passes_run_in_order(
    first: Seq<Box<dyn CurvePass>>,
    then: Seq<Box<dyn CurvePass>>,
    geom: ir::ContourView,
)
    ensures
        passed(first + then, geom) == passed(then, passed(first, geom)),
    decreases then.len(),
{
    if then.len() == 0 {
        assert(first + then =~= first);
    } else {
        assert((first + then).drop_last() =~= first + then.drop_last());
        law_passes_run_in_order(first, then.drop_last(), geom);
    }
}

/// Every shape that is stacked has an outline, and every outline is closed: it
/// starts with a move and ends with a close.
pub proof fn law_stacked_outlines_are_closed<F: CurveFitter + ?Sized>(
    seg: Segmentation,
    fitter: &F,
    passes: Seq<Box<dyn CurvePass>>,
)
    ensures
        forall|i: int|
            0 <= i < stacked(seg, fitter, passes).shapes.len() ==> outlined(
                #[trigger] stacked(seg, fitter, passes).shapes[i],
            ),
{
    lemma_present_outlined(each_layer_shape(fitter, seg.layers@, passes));
}

/// Whether `shape` has an outline, and all its outlines are closed.
pub open spec fn outlined(shape: ir::ShapeView) -> bool {
    &&& shape.path.len() > 0
    &&& forall|k: int|
        0 <= k < shape.path.len() ==> {
            &&& (#[trigger] shape.path[k]).len() >= 2
            &&& shape.path[k][0] is MoveTo
            &&& shape.path[k].last() is Close
        }
}

proof fn lemma_present_outlined(shapes: Seq<Option<ir::ShapeView>>)
    requires
        forall|i: int|
            0 <= i < shapes.len() ==> (#[trigger] shapes[i] matches Some(shape) ==> outlined(
                shape,
            )),
    ensures
        forall|i: int| 0 <= i < present(shapes).len() ==> outlined(#[trigger] present(shapes)[i]),
    decreases shapes.len(),
{
    if shapes.len() > 0 {
        let before = shapes.drop_last();
        assert forall|i: int| 0 <= i < before.len() implies (#[trigger] before[i] matches Some(
            shape,
        ) ==> outlined(shape)) by {
            assert(before[i] == shapes[i]);
        }
        lemma_present_outlined(before);
        let last = shapes[shapes.len() - 1];
        assert(last matches Some(shape) ==> outlined(shape));
        assert forall|i: int| 0 <= i < present(shapes).len() implies outlined(
            #[trigger] present(shapes)[i],
        ) by {
            if i < present(before).len() {
                assert(outlined(present(before)[i]));
            }
        }
    }
}

/// Whether the event `i` is a report.
pub open spec fn reported(events: Seq<Event>, i: int) -> bool {
    0 <= i < events.len() && events[i] is Report
}

/// Whether the event `i` is work.
pub open spec fn worked_at(events: Seq<Event>, i: int) -> bool {
    0 <= i < events.len() && events[i] is Work
}

/// Whether `events` tell an orderly run: a check comes first, the first report is
/// of nothing done and the last of everything, what is done never goes back, and a
/// check lies between the work and the end.
pub open spec fn orderly(events: Seq<Event>, total: nat) -> bool {
    let n = events.len();
    &&& n >= 4
    &&& events[0] == cleared()
    &&& events[1] == composed(0, total)
    &&& events[n - 2] == cleared()
    &&& events[n - 1] == composed(total, total)
    &&& forall|i: int| #[trigger]
        reported(events, i) ==> i > 0 && events[i]->done <= events[i]->total == total
    &&& forall|i: int, j: int|
        i < j && #[trigger] reported(events, i) && #[trigger] reported(events, j)
            ==> events[i]->done <= events[j]->done
    &&& forall|i: int| #[trigger] worked_at(events, i) ==> 1 < i < n - 2
}

/// The event `i` of stacking layers with these shapes.
pub open spec fn stacked_event(shapes: Seq<Option<ir::ShapeView>>, i: int) -> Event {
    let n = shapes.len();
    let k = (i - 2) / 3;
    if i < 2 || i >= 2 + 3 * n {
        if i == 0 || i == 2 + 3 * n {
            cleared()
        } else if i == 1 {
            composed(0, parts(n))
        } else {
            composed(parts(n), parts(n))
        }
    } else if (i - 2) % 3 == 0 {
        cleared()
    } else if (i - 2) % 3 == 1 {
        worked(k as nat, Made::Layer(shapes[k]))
    } else {
        composed((k + 1) as nat, parts(n))
    }
}

/// What the events of stacking are, one by one.
pub proof fn lemma_stacked_events(shapes: Seq<Option<ir::ShapeView>>)
    ensures
        stacked_events(shapes).len() == 3 * shapes.len() + 4,
        forall|i: int|
            0 <= i < 3 * shapes.len() + 4 ==> #[trigger] stacked_events(shapes)[i]
                == stacked_event(shapes, i),
{
    let n = shapes.len();
    lemma_layer_events(shapes, n, parts(n));
    assert forall|i: int| 0 <= i < 3 * n + 4 implies #[trigger] stacked_events(shapes)[i]
        == stacked_event(shapes, i) by {
        if 2 <= i < 3 * n + 2 {
            let k = ((i - 2) / 3) as nat;
            assert(stacked_events(shapes)[i] == layer_events(shapes, parts(n))[i - 2]);
            lemma_layer_events(shapes, k + 1, parts(n));
        }
    }
}

/// Progress is told in order, whether layer by layer or in one piece, and the last
/// check comes after all the work.
pub proof fn law_progress_is_orderly(shapes: Seq<Option<ir::ShapeView>>, made: Made)
    requires
        shapes.len() <= usize::MAX,
    ensures
        orderly(stacked_events(shapes), parts(shapes.len())),
        orderly(coarse_events(made), 1),
{
    let n = shapes.len();
    lemma_stacked_events(shapes);
    let events = stacked_events(shapes);
    assert forall|i: int| #[trigger] reported(events, i) implies i > 0 && events[i]->done
        <= events[i]->total == parts(n) by {
        assert(events[i] == stacked_event(shapes, i));
    }
    assert forall|i: int, j: int|
        i < j && #[trigger] reported(events, i) && #[trigger] reported(
            events,
            j,
        ) implies events[i]->done <= events[j]->done by {
        assert(events[i] == stacked_event(shapes, i));
        assert(events[j] == stacked_event(shapes, j));
    }
    assert forall|i: int| #[trigger] worked_at(events, i) implies 1 < i < events.len() - 2 by {
        assert(events[i] == stacked_event(shapes, i));
    }
    assert(events[0] == cleared());
    assert(events[1] == composed(0, parts(n)));
    assert(events[events.len() - 2] == cleared());
    assert(events[events.len() - 1] == composed(parts(n), parts(n)));
}

/// Between the first report of stacking and the last, each report comes right after
/// the work of the layer that it adds, and that work made the shape of this layer.
pub proof fn law_reports_follow_the_work(shapes: Seq<Option<ir::ShapeView>>)
    requires
        shapes.len() <= usize::MAX,
    ensures
        forall|i: int|
            1 < i < stacked_events(shapes).len() - 1 && #[trigger] reported(
                stacked_events(shapes),
                i,
            ) ==> added_by_work(shapes, stacked_events(shapes), i),
{
    let events = stacked_events(shapes);
    lemma_stacked_events(shapes);
    assert forall|i: int| 1 < i < events.len() - 1 && #[trigger] reported(events, i) implies
        added_by_work(shapes, events, i) by {
        assert(events[i] == stacked_event(shapes, i));
        assert(events[i - 1] == stacked_event(shapes, i - 1));
    }
}

/// Whether the report `i` tells of one layer more than was worked on before the work
/// that comes right before it, which made the shape of this layer.
pub open spec fn added_by_work(
    shapes: Seq<Option<ir::ShapeView>>,
    events: Seq<Event>,
    i: int,
) -> bool {
    let done = events[i]->done;
    &&& 0 < done <= shapes.len()
    &&& events[i - 1] == worked((done - 1) as nat, Made::Layer(shapes[done - 1]))
}

/// The parts that were worked on, and what that made, in their order.
pub open spec fn work_of(events: Seq<Event>) -> Seq<(nat, Made)>
    decreases events.len(),
{
    if events.len() == 0 {
        seq![]
    } else {
        let before = work_of(events.drop_last());
        match events.last() {
            Event::Work { part, made } => before.push((part as nat, made)),
            _ => before,
        }
    }
}

/// The work on layers with these shapes, in their order.
pub open spec fn layer_work(shapes: Seq<Option<ir::ShapeView>>) -> Seq<(nat, Made)> {
    Seq::new(shapes.len(), |i: int| (i as nat, Made::Layer(shapes[i])))
}

/// The work of an event more.
proof fn lemma_work_of_push(events: Seq<Event>, event: Event)
    ensures
        work_of(events.push(event)) == match event {
            Event::Work { part, made } => work_of(events).push((part as nat, made)),
            _ => work_of(events),
        },
{
    assert(events.push(event).drop_last() =~= events);
}

/// The work of layers.
proof fn lemma_work_of_layers(shapes: Seq<Option<ir::ShapeView>>, total: nat)
    requires
        shapes.len() <= usize::MAX,
    ensures
        work_of(seq![cleared(), composed(0, total)] + layer_events(shapes, total)) == layer_work(
            shapes,
        ),
    decreases shapes.len(),
{
    let none = Seq::<Event>::empty();
    let head = seq![cleared(), composed(0, total)];
    let all = head + layer_events(shapes, total);
    let n = shapes.len();
    if n == 0 {
        lemma_work_of_push(none, cleared());
        lemma_work_of_push(none.push(cleared()), composed(0, total));
        assert(all =~= none.push(cleared()).push(composed(0, total)));
        assert(layer_work(shapes) =~= seq![]);
    } else {
        let before = head + layer_events(shapes.drop_last(), total);
        let work = worked((n - 1) as nat, Made::Layer(shapes.last()));
        lemma_work_of_layers(shapes.drop_last(), total);
        lemma_work_of_push(before, cleared());
        lemma_work_of_push(before.push(cleared()), work);
        lemma_work_of_push(before.push(cleared()).push(work), composed(n, total));
        assert(all =~= before.push(cleared()).push(work).push(composed(n, total)));
        assert(layer_work(shapes) =~= layer_work(shapes.drop_last()).push(
            ((n - 1) as nat, Made::Layer(shapes.last())),
        ));
    }
}

/// A run of stacking that is cancelled after its entry has worked on exactly the
/// first layers, in their order, made the shapes of these, and last reported as
/// many. One that is cancelled at entry has worked on nothing and reported nothing.
pub proof fn law_cancelled_stacking_stops(shapes: Seq<Option<ir::ShapeView>>, events: Seq<Event>)
    requires
        shapes.len() <= usize::MAX,
        cut_short(stacked_events(shapes), events),
    ensures
        events == stopped_at_entry() || exists|k: nat| #[trigger] stopped_after(shapes, events, k),
{
    let n = shapes.len();
    lemma_stacked_events(shapes);
    let last = events.len() - 1;
    assert(stacked_events(shapes)[last] == stacked_event(shapes, last));
    if last > 0 {
        let k = ((last - 2) / 3) as nat;
        let first = shapes.take(k as int);
        lemma_layer_events(shapes, k, parts(n));
        lemma_layer_events(first, k, parts(n));
        lemma_work_of_layers(first, parts(n));
        let head = seq![cleared(), composed(0, parts(n))];
        let done = head + layer_events(first, parts(n));
        let stop = Event::Check { cancelled: true };
        assert(last == 2 + 3 * k);
        assert(stacked_events(shapes).take(last) =~= done);
        assert(events =~= done.push(stop));
        lemma_work_of_push(done, stop);
        assert(stacked_events(shapes)[last - 1] == stacked_event(shapes, last - 1));
        assert(stopped_after(shapes, events, k));
    } else {
        assert(events =~= stopped_at_entry());
    }
}

/// Whether the first `k` of the layers with these shapes were worked on, which made
/// their shapes, and the last report, just before the cancelling check, is of these.
pub open spec fn stopped_after(
    shapes: Seq<Option<ir::ShapeView>>,
    events: Seq<Event>,
    k: nat,
) -> bool {
    &&& k <= shapes.len()
    &&& events.len() >= 3
    &&& work_of(events) == layer_work(shapes.take(k as int))
    &&& events[events.len() - 2] == composed(k, parts(shapes.len()))
    &&& events.last() == (Event::Check { cancelled: true })
}

/// A run in one piece that is cancelled at entry has done and reported nothing; one
/// that ends with the check behind its work has worked once, and reported only its
/// start.
pub proof fn law_cancelled_piece_stops(made: Made, cancelled: bool)
    ensures
        work_of(stopped_at_entry()) == Seq::<(nat, Made)>::empty(),
        forall|i: int| !#[trigger] reported(stopped_at_entry(), i),
        work_of(coarse_stop(made, cancelled)) == seq![(0nat, made)],
        forall|i: int| #[trigger]
            reported(coarse_stop(made, cancelled), i) ==> coarse_stop(made, cancelled)[i]
                == composed(0, 1),
{
    let none = Seq::<Event>::empty();
    let stop = Event::Check { cancelled: true };
    lemma_work_of_push(none, stop);
    assert(stopped_at_entry() =~= none.push(stop));
    let a = none.push(cleared());
    let b = a.push(composed(0, 1));
    let c = b.push(worked(0, made));
    lemma_work_of_push(none, cleared());
    lemma_work_of_push(a, composed(0, 1));
    lemma_work_of_push(b, worked(0, made));
    lemma_work_of_push(c, Event::Check { cancelled });
    assert(coarse_stop(made, cancelled) =~= c.push(Event::Check { cancelled }));
}

} // verus!
