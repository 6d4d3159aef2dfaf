//! What compositing does, told from what goes in and what comes out: outlines draw
//! the contours that were fitted, passes transform whole contours, shapes have the
//! paint of their layers, and a document holds a shape for each layer that traces.
//! And what a run asks, makes and tells, event by event.
use vstd::prelude::*;

use crate::compose;
use crate::compose::{CurveFitter, CurvePass};
use crate::ir;
use crate::ir::{Contour, Layer, PathCmd, RegionMask, Segmentation, Shape, VectorDoc};
use crate::progress;
use crate::progress::{Ctx, Error, Event, Made, Phase, Product};

verus! {

/// The closed subpath of a contour moves to its start, draws all its commands, in
/// their order and nothing else, and closes.
pub proof fn law_closed_outline_draws_its_contour(contour: ir::ContourView)
    ensures
        ir::closed(contour).len() == contour.commands.len() + 2,
        ir::closed(contour)[0] == PathCmd::MoveTo(contour.start),
        forall|i: int|
            0 <= i < contour.commands.len() ==> ir::closed(contour)[i + 1]
                == #[trigger] contour.commands[i],
        ir::closed(contour).last() == PathCmd::Close,
{
}

/// Without passes a contour stays as it is.
pub proof fn law_no_pass_changes_nothing(geom: ir::ContourView)
    ensures
        compose::passed(seq![], geom) == geom,
{
}

/// One pass makes of a contour what its ring form makes of it, start and commands.
pub proof fn law_one_pass_makes_the_contour(
    passes: Seq<Box<dyn CurvePass>>,
    geom: ir::ContourView,
)
    requires
        passes.len() == 1,
    ensures
        compose::passed(passes, geom) == passes[0].ringed(geom),
        compose::passed(passes, geom).start == passes[0].ringed(geom).start,
        compose::passed(passes, geom).commands == passes[0].ringed(geom).commands,
{
    assert(passes.drop_last() =~= seq![]);
    assert(compose::passed(passes.drop_last(), geom) == geom);
}

/// A pass behind others makes of a contour what its ring form makes of what the
/// others made.
pub proof fn law_last_pass_comes_last(passes: Seq<Box<dyn CurvePass>>, geom: ir::ContourView)
    requires
        passes.len() > 0,
    ensures
        compose::passed(passes, geom) == passes[passes.len() - 1].ringed(
            compose::passed(passes.take(passes.len() - 1), geom),
        ),
{
    assert(passes.drop_last() =~= passes.take(passes.len() - 1));
}

/// There is a closed subpath for each contour, in their order, and each draws all of
/// what the passes made of its contour.
pub proof fn law_rings_draw_the_contours(
    passes: Seq<Box<dyn CurvePass>>,
    contours: ir::OutlinesView,
)
    ensures
        compose::closed_rings(passes, contours).len() == contours.len(),
        forall|k: int|
            #![trigger compose::closed_rings(passes, contours)[k]]
            0 <= k < contours.len() ==> {
                let outline = compose::closed_rings(passes, contours)[k];
                let made = compose::passed(passes, contours[k]);
                &&& outline.len() == made.commands.len() + 2
                &&& outline[0] == PathCmd::MoveTo(made.start)
                &&& outline.last() == PathCmd::Close
                &&& forall|i: int|
                    0 <= i < made.commands.len() ==> outline[i + 1] == #[trigger] made.commands[i]
            },
{
    assert forall|k: int| 0 <= k < contours.len() implies {
        let outline = #[trigger] compose::closed_rings(passes, contours)[k];
        let made = compose::passed(passes, contours[k]);
        &&& outline.len() == made.commands.len() + 2
        &&& outline[0] == PathCmd::MoveTo(made.start)
        &&& outline.last() == PathCmd::Close
        &&& forall|i: int|
            0 <= i < made.commands.len() ==> outline[i + 1] == #[trigger] made.commands[i]
    } by {
        law_closed_outline_draws_its_contour(compose::passed(passes, contours[k]));
    }
}

/// Without passes the outlines of a region draw the fitted contours themselves.
pub proof fn law_plain_rings_draw_the_contours(contours: ir::OutlinesView)
    ensures
        compose::closed_rings(seq![], contours).len() == contours.len(),
        forall|k: int|
            #![trigger contours[k]]
            0 <= k < contours.len() ==> {
                let outline = compose::closed_rings(seq![], contours)[k];
                &&& outline.len() == contours[k].commands.len() + 2
                &&& outline[0] == PathCmd::MoveTo(contours[k].start)
                &&& outline.last() == PathCmd::Close
                &&& forall|i: int|
                    0 <= i < contours[k].commands.len() ==> outline[i + 1]
                        == #[trigger] contours[k].commands[i]
            },
{
    let none = Seq::<Box<dyn CurvePass>>::empty();
    law_rings_draw_the_contours(none, contours);
    assert forall|k: int| #![trigger contours[k]] 0 <= k < contours.len() implies {
        let outline = compose::closed_rings(none, contours)[k];
        &&& outline.len() == contours[k].commands.len() + 2
        &&& outline[0] == PathCmd::MoveTo(contours[k].start)
        &&& outline.last() == PathCmd::Close
        &&& forall|i: int|
            0 <= i < contours[k].commands.len() ==> outline[i + 1]
                == #[trigger] contours[k].commands[i]
    } by {
        law_no_pass_changes_nothing(contours[k]);
        let outline = compose::closed_rings(none, contours)[k];
        assert(outline.len() == contours[k].commands.len() + 2);
    }
}

/// A layer has a shape exactly where something was fitted to its mask. The shape has
/// the paint of the layer, in all channels, and an outline for each fitted contour.
pub proof fn law_shape_is_that_of_its_layer<F: CurveFitter + ?Sized>(
    fitter: &F,
    layer: Layer,
    passes: Seq<Box<dyn CurvePass>>,
)
    ensures
        compose::layer_shape(fitter, layer, passes) is None <==> fitter.fitted(layer.mask@).len()
            == 0,
        compose::layer_shape(fitter, layer, passes) matches Some(shape) ==> {
            let contours = fitter.fitted(layer.mask@);
            &&& shape.paint == layer.paint
            &&& shape.path.len() == contours.len()
            &&& forall|k: int|
                #![trigger shape.path[k]]
                0 <= k < contours.len() ==> {
                    let made = compose::passed(passes, contours[k]);
                    &&& shape.path[k].len() == made.commands.len() + 2
                    &&& shape.path[k][0] == PathCmd::MoveTo(made.start)
                    &&& shape.path[k].last() == PathCmd::Close
                    &&& forall|i: int|
                        0 <= i < made.commands.len() ==> shape.path[k][i + 1]
                            == #[trigger] made.commands[i]
                }
        },
{
    law_rings_draw_the_contours(passes, fitter.fitted(layer.mask@));
}

/// Each layer has a place among the shapes, and there is its shape or none.
pub proof fn law_each_layer_has_its_place<F: CurveFitter + ?Sized>(
    fitter: &F,
    layers: Seq<Layer>,
    passes: Seq<Box<dyn CurvePass>>,
)
    ensures
        compose::each_layer_shape(fitter, layers, passes).len() == layers.len(),
        forall|i: int|
            #![trigger compose::each_layer_shape(fitter, layers, passes)[i]]
            0 <= i < layers.len() ==> {
                let place = compose::each_layer_shape(fitter, layers, passes)[i];
                &&& place == compose::layer_shape(fitter, layers[i], passes)
                &&& place is Some <==> fitter.fitted(layers[i].mask@).len() > 0
                &&& place matches Some(shape) ==> shape.paint == layers[i].paint
            },
{
    assert forall|i: int|
        #![trigger compose::each_layer_shape(fitter, layers, passes)[i]]
        0 <= i < layers.len() implies {
        let place = compose::each_layer_shape(fitter, layers, passes)[i];
        &&& place == compose::layer_shape(fitter, layers[i], passes)
        &&& place is Some <==> fitter.fitted(layers[i].mask@).len() > 0
        &&& place matches Some(shape) ==> shape.paint == layers[i].paint
    } by {
        law_shape_is_that_of_its_layer(fitter, layers[i], passes);
    }
}

/// A place with a shape gives this shape, and an empty one nothing.
pub proof fn law_every_present_shape_counts(shape: ir::ShapeView)
    ensures
        compose::present(seq![Some(shape)]) == seq![shape],
        compose::present(seq![None]) == Seq::<ir::ShapeView>::empty(),
        compose::present(seq![]) == Seq::<ir::ShapeView>::empty(),
{
    let nothing = Seq::<Option<ir::ShapeView>>::empty();
    assert(seq![Some(shape)].drop_last() =~= nothing);
    assert(seq![None::<ir::ShapeView>].drop_last() =~= nothing);
    assert(compose::present(nothing) =~= seq![]);
    assert(compose::present(seq![Some(shape)]) =~= seq![shape]);
}

/// What is there of two lists, one after the other, is what is there of the first
/// and then what is there of the second.
pub proof fn law_present_shapes_add_up(
    a: Seq<Option<ir::ShapeView>>,
    b: Seq<Option<ir::ShapeView>>,
)
    ensures
        compose::present(a + b) == compose::present(a) + compose::present(b),
{
    compose::lemma_present_add(a, b);
}

/// No shape is lost and none is made up: the shapes that are there, in their order,
/// are those of the places that have one.
pub proof fn law_present_is_all_there_is(shapes: Seq<Option<ir::ShapeView>>)
    ensures
        ({
            let there = shapes.filter(|s: Option<ir::ShapeView>| s is Some);
            &&& compose::present(shapes).len() == there.len()
            &&& forall|j: int|
                0 <= j < there.len() ==> Some(#[trigger] compose::present(shapes)[j]) == there[j]
        }),
    decreases shapes.len(),
{
    reveal(Seq::filter);
    if shapes.len() > 0 {
        law_present_is_all_there_is(shapes.drop_last());
    }
}

/// The shapes of layers are those of the layers that trace.
proof fn lemma_traced<F: CurveFitter + ?Sized>(
    fitter: &F,
    layers: Seq<Layer>,
    passes: Seq<Box<dyn CurvePass>>,
)
    ensures
        ({
            let traced = layers.filter(|l: Layer| fitter.fitted(l.mask@).len() > 0);
            let shapes = compose::layer_shapes(fitter, layers, passes);
            &&& shapes.len() == traced.len()
            &&& forall|j: int|
                0 <= j < traced.len() ==> Some(#[trigger] shapes[j]) == compose::layer_shape(
                    fitter,
                    traced[j],
                    passes,
                )
        }),
    decreases layers.len(),
{
    reveal(Seq::filter);
    if layers.len() > 0 {
        let fewer = layers.drop_last();
        lemma_traced(fitter, fewer, passes);
        law_shape_is_that_of_its_layer(fitter, layers.last(), passes);
        assert(compose::each_layer_shape(fitter, layers, passes).drop_last()
            =~= compose::each_layer_shape(fitter, fewer, passes));
    }
}

/// A stacked document has the size of the segmentation and a shape for each layer
/// that traces, whatever its paint, and no other. The shapes lie in the order of
/// their layers, and each has the paint of its layer and draws what the passes made
/// of the contours that were fitted to its mask.
pub proof fn law_stacked_document_holds_the_layers<F: CurveFitter + ?Sized>(
    seg: Segmentation,
    fitter: &F,
    passes: Seq<Box<dyn CurvePass>>,
)
    ensures
        compose::stacked(seg, fitter, passes).width == seg.width,
        compose::stacked(seg, fitter, passes).height == seg.height,
        ({
            let traced = seg.layers@.filter(|l: Layer| fitter.fitted(l.mask@).len() > 0);
            let shapes = compose::stacked(seg, fitter, passes).shapes;
            &&& shapes.len() == traced.len()
            &&& forall|j: int|
                #![trigger shapes[j]]
                0 <= j < traced.len() ==> {
                    let contours = fitter.fitted(traced[j].mask@);
                    &&& shapes[j].paint == traced[j].paint
                    &&& shapes[j].path.len() == contours.len()
                    &&& forall|k: int|
                        #![trigger shapes[j].path[k]]
                        0 <= k < contours.len() ==> {
                            let made = compose::passed(passes, contours[k]);
                            let outline = shapes[j].path[k];
                            &&& outline.len() == made.commands.len() + 2
                            &&& outline[0] == PathCmd::MoveTo(made.start)
                            &&& outline.last() == PathCmd::Close
                            &&& forall|i: int|
                                0 <= i < made.commands.len() ==> outline[i + 1]
                                    == #[trigger] made.commands[i]
                        }
                }
        }),
{
    let traced = seg.layers@.filter(|l: Layer| fitter.fitted(l.mask@).len() > 0);
    let shapes = compose::stacked(seg, fitter, passes).shapes;
    lemma_traced(fitter, seg.layers@, passes);
    assert forall|j: int| #![trigger shapes[j]] 0 <= j < traced.len() implies {
        let contours = fitter.fitted(traced[j].mask@);
        &&& shapes[j].paint == traced[j].paint
        &&& shapes[j].path.len() == contours.len()
        &&& forall|k: int|
            #![trigger shapes[j].path[k]]
            0 <= k < contours.len() ==> {
                let made = compose::passed(passes, contours[k]);
                let outline = shapes[j].path[k];
                &&& outline.len() == made.commands.len() + 2
                &&& outline[0] == PathCmd::MoveTo(made.start)
                &&& outline.last() == PathCmd::Close
                &&& forall|i: int|
                    0 <= i < made.commands.len() ==> outline[i + 1] == #[trigger] made.commands[i]
            }
    } by {
        law_shape_is_that_of_its_layer(fitter, traced[j], passes);
    }
}

/// A document of one layer that traces holds one shape, in the paint of the layer.
pub proof fn law_one_layer_makes_one_shape<F: CurveFitter + ?Sized>(
    seg: Segmentation,
    fitter: &F,
    passes: Seq<Box<dyn CurvePass>>,
)
    requires
        seg.layers@.len() == 1,
        fitter.fitted(seg.layers@[0].mask@).len() > 0,
    ensures
        compose::stacked(seg, fitter, passes).shapes.len() == 1,
        compose::stacked(seg, fitter, passes).shapes[0].paint == seg.layers@[0].paint,
        Some(compose::stacked(seg, fitter, passes).shapes[0]) == compose::layer_shape(
            fitter,
            seg.layers@[0],
            passes,
        ),
{
    let shapes = compose::each_layer_shape(fitter, seg.layers@, passes);
    law_each_layer_has_its_place(fitter, seg.layers@, passes);
    law_every_present_shape_counts(shapes[0]->0);
    assert(shapes =~= seq![Some(shapes[0]->0)]);
}

/// The view of a document is the document: its size, and of each shape the paint and
/// all commands of all subpaths.
pub proof fn law_document_view_is_whole(doc: VectorDoc)
    ensures
        doc@.width == doc.width,
        doc@.height == doc.height,
        doc@.shapes.len() == doc.shapes@.len(),
        forall|j: int|
            #![trigger doc@.shapes[j]]
            0 <= j < doc.shapes@.len() ==> {
                &&& doc@.shapes[j].paint == doc.shapes@[j].paint
                &&& doc@.shapes[j].path.len() == doc.shapes@[j].path.subpaths@.len()
                &&& forall|k: int|
                    #![trigger doc@.shapes[j].path[k]]
                    0 <= k < doc.shapes@[j].path.subpaths@.len() ==> doc@.shapes[j].path[k]
                        == doc.shapes@[j].path.subpaths@[k].commands@
            },
{
}

/// The view of a shape is the shape.
pub proof fn law_shape_view_is_whole(shape: Shape)
    ensures
        shape@.paint == shape.paint,
        shape@.path.len() == shape.path.subpaths@.len(),
        forall|k: int|
            #![trigger shape@.path[k]]
            0 <= k < shape.path.subpaths@.len() ==> shape@.path[k]
                == shape.path.subpaths@[k].commands@,
{
}

/// The views of subpaths, paths and shapes are these.
pub proof fn law_part_views_are_whole(
    sub: ir::SubPath,
    path: ir::MultiPath,
    contour: Contour,
    shapes: Seq<Shape>,
)
    ensures
        sub@ == sub.commands@,
        path@.len() == path.subpaths@.len(),
        forall|k: int|
            #![trigger path@[k]]
            0 <= k < path.subpaths@.len() ==> path@[k] == path.subpaths@[k].commands@,
        contour@.start == contour.start,
        contour@.commands == contour.commands@,
        ir::shapes_view(shapes).len() == shapes.len(),
        forall|j: int|
            #![trigger ir::shapes_view(shapes)[j]]
            0 <= j < shapes.len() ==> ir::shapes_view(shapes)[j] == shapes[j]@,
{
}

/// The views of contours are the contours, one for one.
pub proof fn law_contour_views_are_whole(contours: Seq<Contour>)
    ensures
        compose::contours_view(contours).len() == contours.len(),
        forall|k: int|
            #![trigger compose::contours_view(contours)[k]]
            0 <= k < contours.len() ==> {
                &&& compose::contours_view(contours)[k].start == contours[k].start
                &&& compose::contours_view(contours)[k].commands == contours[k].commands@
            },
{
}

/// The view of a mask is the mask.
pub proof fn law_mask_view_is_whole(mask: RegionMask)
    ensures
        mask@.left == mask.left,
        mask@.top == mask.top,
        mask@.width == mask.width,
        mask@.height == mask.height,
        mask@.pixels == mask.pixels@,
{
}

/// The views of places are the places, one for one.
pub proof fn law_place_views_are_whole(shapes: Seq<Option<Shape>>)
    ensures
        compose::optional_views(shapes).len() == shapes.len(),
        forall|k: int|
            #![trigger compose::optional_views(shapes)[k]]
            0 <= k < shapes.len() ==> {
                &&& compose::optional_views(shapes)[k] is Some <==> shapes[k] is Some
                &&& shapes[k] matches Some(shape) ==> compose::optional_views(shapes)[k] == Some(
                    shape@,
                )
            },
{
}

/// What work made is what it gave.
pub proof fn law_products_are_what_was_made(
    place: Option<Shape>,
    doc: VectorDoc,
    places: Result<Vec<Option<Shape>>, Error>,
)
    ensures
        place.made() == match place {
            Some(shape) => Made::Layer(Some(shape@)),
            None => Made::Layer(None),
        },
        doc.made() == Made::Document(doc@),
        places.made() == match places {
            Ok(shapes) => Made::Layers(
                Some(
                    Seq::new(
                        shapes@.len(),
                        |i: int|
                            match shapes@[i] {
                                Some(shape) => Some(shape@),
                                None => None,
                            },
                    ),
                ),
            ),
            Err(_) => Made::Layers(None),
        },
{
    if let Ok(shapes) = places {
        assert(compose::optional_views(shapes@) =~= Seq::new(
            shapes@.len(),
            |i: int|
                match shapes@[i] {
                    Some(shape) => Some(shape@),
                    None => None,
                },
        ));
    }
}

/// The events of stacking `n` layers, one by one: a check and a report of nothing
/// done; for each layer a check, the work that makes its shape, and a report of one
/// layer more; and at last a check and a report of everything. No layers count as
/// one part.
pub proof fn law_stacking_goes_layer_by_layer(shapes: Seq<Option<ir::ShapeView>>)
    requires
        shapes.len() <= usize::MAX,
    ensures
        ({
            let events = compose::stacked_events(shapes);
            let n = shapes.len() as int;
            let total = if n == 0 {
                1usize
            } else {
                n as usize
            };
            &&& events.len() == 3 * n + 4
            &&& events[0] == (Event::Check { cancelled: false })
            &&& events[1] == (Event::Report { phase: Phase::Compose, done: 0usize, total })
            &&& forall|k: int|
                #![trigger shapes[k]]
                0 <= k < n ==> {
                    &&& events[3 * k + 2] == (Event::Check { cancelled: false })
                    &&& events[3 * k + 3] == (Event::Work {
                        part: k as usize,
                        made: Made::Layer(shapes[k]),
                    })
                    &&& events[3 * k + 4] == (Event::Report {
                        phase: Phase::Compose,
                        done: (k + 1) as usize,
                        total,
                    })
                }
            &&& events[3 * n + 2] == (Event::Check { cancelled: false })
            &&& events[3 * n + 3] == (Event::Report { phase: Phase::Compose, done: total, total })
        }),
{
    let events = compose::stacked_events(shapes);
    let n = shapes.len() as int;
    compose::lemma_stacked_events(shapes);
    assert(events[0] == compose::stacked_event(shapes, 0));
    assert(events[1] == compose::stacked_event(shapes, 1));
    assert(events[3 * n + 2] == compose::stacked_event(shapes, 3 * n + 2));
    assert(events[3 * n + 3] == compose::stacked_event(shapes, 3 * n + 3));
    assert forall|k: int| #![trigger shapes[k]] 0 <= k < n implies {
        &&& events[3 * k + 2] == (Event::Check { cancelled: false })
        &&& events[3 * k + 3] == (Event::Work {
            part: k as usize,
            made: Made::Layer(shapes[k]),
        })
        &&& events[3 * k + 4] == (Event::Report {
            phase: Phase::Compose,
            done: (k + 1) as usize,
            total: n as usize,
        })
    } by {
        assert(events[3 * k + 2] == compose::stacked_event(shapes, 3 * k + 2));
        assert(events[3 * k + 3] == compose::stacked_event(shapes, 3 * k + 3));
        assert(events[3 * k + 4] == compose::stacked_event(shapes, 3 * k + 4));
    }
}

/// The events of a run in one piece, one by one, to its end, up to the check behind
/// its work, and where it is cancelled at entry.
pub proof fn law_one_piece_goes_start_to_end(made: Made, cancelled: bool)
    ensures
        compose::coarse_events(made) == seq![
            Event::Check { cancelled: false },
            Event::Report { phase: Phase::Compose, done: 0, total: 1 },
            Event::Work { part: 0, made },
            Event::Check { cancelled: false },
            Event::Report { phase: Phase::Compose, done: 1, total: 1 },
        ],
        compose::coarse_stop(made, cancelled) == seq![
            Event::Check { cancelled: false },
            Event::Report { phase: Phase::Compose, done: 0, total: 1 },
            Event::Work { part: 0, made },
            Event::Check { cancelled },
        ],
        compose::stopped_at_entry() == seq![Event::Check { cancelled: true }],
{
}

/// A run that is cut short brings what it would have brought, up to one of its
/// checks, and there it is told that it is cancelled.
pub proof fn law_cut_short_ends_at_a_check(planned: Seq<Event>, events: Seq<Event>)
    ensures
        compose::cut_short(planned, events) <==> {
            &&& 0 < events.len() <= planned.len()
            &&& planned[events.len() - 1] == (Event::Check { cancelled: false })
            &&& events[events.len() - 1] == (Event::Check { cancelled: true })
            &&& forall|i: int| 0 <= i < events.len() - 1 ==> #[trigger] events[i] == planned[i]
        },
{
    let last = Event::Check { cancelled: true };
    if 0 < events.len() <= planned.len() && events[events.len() - 1] == last && forall|i: int|
        0 <= i < events.len() - 1 ==> #[trigger] events[i] == planned[i] {
        assert(events =~= planned.take(events.len() - 1).push(last));
    }
}

/// What a run has brought since some events is what follows them.
pub proof fn law_since_is_what_follows(earlier: Seq<Event>, later: Seq<Event>)
    ensures
        compose::since(earlier, earlier + later) == later,
{
    assert((earlier + later).skip(earlier.len() as int) =~= later);
}

/// What is borne out was answered by the token or told to the sink; and a token that
/// is surely cancelled never answers anything else.
pub proof fn law_events_are_borne_out<C: Fn() -> bool, R: Fn(Phase, usize, usize)>(
    asks: C,
    tells: R,
    trace: Seq<Event>,
    from: nat,
)
    ensures
        progress::borne_out(asks, tells, trace, from) <==> forall|i: int|
            from <= i < trace.len() ==> match #[trigger] trace[i] {
                Event::Check { cancelled } => asks.ensures((), cancelled),
                Event::Report { phase, done, total } => tells.ensures((phase, done, total), ()),
                Event::Work { .. } => true,
            },
        progress::surely_cancelled(asks) <==> !asks.ensures((), false),
{
    if progress::borne_out(asks, tells, trace, from) {
        assert forall|i: int| from <= i < trace.len() implies match #[trigger] trace[i] {
            Event::Check { cancelled } => asks.ensures((), cancelled),
            Event::Report { phase, done, total } => tells.ensures((phase, done, total), ()),
            Event::Work { .. } => true,
        } by {
            assert(progress::occurred(asks, tells, trace[i]));
        }
    }
}

/// A run can be put where the token can be asked and the sink takes every report.
pub proof fn law_usable_takes_every_report<C: Fn() -> bool, R: Fn(Phase, usize, usize)>(
    ctx: Ctx<C, R>,
)
    ensures
        ctx.usable() <==> {
            &&& ctx.asks().requires(())
            &&& forall|phase: Phase, done: usize, total: usize| #[trigger]
                ctx.tells().requires((phase, done, total))
        },
{
}

} // verus!
