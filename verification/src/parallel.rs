//! Stacked compositing with the layers fitted on several threads.
//!
//! The shapes come back in the order of their layers, so the document is that of
//! [`crate::compose::compose_stacked`]. Progress cannot be told while the threads
//! are at work, so it is told coarsely (start and end). Each layer asks whether the
//! run is cancelled before it is fitted, so that a cancelled run ends soon.
use rayon::iter::{IntoParallelRefIterator, ParallelIterator};
use vstd::prelude::*;

use crate::compose;
use crate::compose::{fit_layer, stack, CurveFitter, CurvePass};
use crate::ir;
use crate::ir::{Layer, Segmentation, Shape, VectorDoc};
use crate::progress;
use crate::progress::{Ctx, Error, Made, Phase, Product};

verus! {

/// What the layers made, where the run was not found cancelled.
pub open spec fn all_made(r: Result<Vec<Option<Shape>>, Error>) -> Option<
    Seq<Option<ir::ShapeView>>,
> {
    match r {
        Ok(shapes) => Some(compose::optional_views(shapes@)),
        Err(_) => None,
    }
}

impl Product for Result<Vec<Option<Shape>>, Error> {
    open spec fn made(&self) -> Made {
        Made::Layers(all_made(*self))
    }
}

/// Fit one layer, unless the run is cancelled.
pub fn fit_layer_unless<F: CurveFitter + ?Sized, C: Fn() -> bool>(
    fitter: &F,
    layer: &Layer,
    passes: &[Box<dyn CurvePass>],
    cancelled: &C,
) -> (r: Result<Option<Shape>, Error>)
    requires
        cancelled.requires(()),
    ensures
        cancelled.ensures((), r is Err),
        r matches Ok(shape) ==> compose::optional_view(shape) == compose::layer_shape(
            fitter,
            *layer,
            passes@,
        ),
{
    if cancelled() {
        Err(Error::Cancelled)
    } else {
        Ok(fit_layer(fitter, layer, passes))
    }
}

/// `par_iter` hands the layers of the slice to `map`, on some thread each, and
/// `collect` into a `Result` gives an error that [`fit_layer_unless`] returned for
/// some layer, or else what it returned for each layer, in the order of the slice.
/// Which layers were not fitted after an error is not said.
#[verifier::external_body]
fn fit_layers<F: CurveFitter + ?Sized, C: Fn() -> bool + Sync>(
    fitter: &F,
    layers: &[Layer],
    passes: &[Box<dyn CurvePass>],
    cancelled: &C,
) -> (r: Result<Vec<Option<Shape>>, Error>)
    requires
        cancelled.requires(()),
    ensures
        match r {
            Ok(shapes) => compose::optional_views(shapes@) == compose::each_layer_shape(
                fitter,
                layers@,
                passes@,
            ),
            Err(_) => cancelled.ensures((), true),
        },
{
    layers.par_iter().map(|layer| fit_layer_unless(fitter, layer, passes, cancelled)).collect()
}

/// [`compose::compose_stacked`], with the layers fitted on several threads.
pub fn compose_stacked_parallel<F: CurveFitter + ?Sized>(
    seg: &Segmentation,
    fitter: &F,
    passes: &[Box<dyn CurvePass>],
) -> (doc: VectorDoc)
    ensures
        doc@ == compose::stacked(*seg, fitter, passes@),
{
    let never = || -> (r: bool)
        ensures
            !r,
        { false };
    match fit_layers(fitter, seg.layers.as_slice(), passes, &never) {
        Ok(shapes) => stack(seg.width, seg.height, shapes),
        Err(_) => {
            assert(false);
            VectorDoc::new(seg.width, seg.height)
        },
    }
}

/// [`compose::compose_stacked_with`], with the layers fitted on several threads. A
/// layer that finds the run cancelled is not fitted, and the run then fails: there
/// is never a partial document.
pub fn compose_stacked_parallel_with<
    F: CurveFitter + ?Sized,
    C: Fn() -> bool + Sync,
    R: Fn(Phase, usize, usize),
>(
    seg: &Segmentation,
    fitter: &F,
    passes: &[Box<dyn CurvePass>],
    ctx: &mut Ctx<C, R>,
) -> (r: Result<VectorDoc, Error>)
    requires
        old(ctx).usable(),
    ensures
        final(ctx).asks() == old(ctx).asks(),
        final(ctx).tells() == old(ctx).tells(),
        old(ctx).trace().is_prefix_of(final(ctx).trace()),
        old(ctx).asks().ensures((), r is Err),
        progress::borne_out(
            old(ctx).asks(),
            old(ctx).tells(),
            final(ctx).trace(),
            old(ctx).trace().len(),
        ),
        progress::surely_cancelled(old(ctx).asks()) ==> compose::since(
            old(ctx).trace(),
            final(ctx).trace(),
        ) == compose::stopped_at_entry(),
        ({
            let all = compose::each_layer_shape(fitter, seg.layers@, passes@);
            let events = compose::since(old(ctx).trace(), final(ctx).trace());
            match r {
                Ok(doc) => {
                    &&& doc@ == compose::stacked(*seg, fitter, passes@)
                    &&& events == compose::coarse_events(Made::Layers(Some(all)))
                },
                Err(_) => {
                    ||| events == compose::stopped_at_entry()
                    ||| events == compose::coarse_stop(Made::Layers(Some(all)), true)
                    ||| events == compose::coarse_stop(Made::Layers(None), true)
                    ||| events == compose::coarse_stop(Made::Layers(None), false)
                },
            }
        }),
{
    let ghost start = ctx.trace();
    if let Err(e) = ctx.check() {
        assert(compose::since(start, ctx.trace()) =~= compose::stopped_at_entry());
        return Err(e);
    }
    ctx.report(Phase::Compose, 0, 1);
    let layers = seg.layers.as_slice();
    let fit = |token: &C| -> (r: Result<Vec<Option<Shape>>, Error>)
        requires
            token.requires(()),
        ensures
            match r {
                Ok(shapes) => compose::optional_views(shapes@) == compose::each_layer_shape(
                    fitter,
                    layers@,
                    passes@,
                ),
                Err(_) => token.ensures((), true),
            },
        { fit_layers(fitter, layers, passes, token) };
    let fitted = ctx.work(0, fit);
    let ghost made = fitted.made();
    if let Err(e) = ctx.check() {
        assert(compose::since(start, ctx.trace()) =~= compose::coarse_stop(made, true));
        return Err(e);
    }
    match fitted {
        Ok(shapes) => {
            let doc = stack(seg.width, seg.height, shapes);
            ctx.report(Phase::Compose, 1, 1);
            assert(compose::since(start, ctx.trace()) =~= compose::coarse_events(made));
            Ok(doc)
        },
        Err(e) => {
            assert(compose::since(start, ctx.trace()) =~= compose::coarse_stop(made, false));
            Err(e)
        },
    }
}

} // verus!
