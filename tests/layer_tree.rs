use touchhle::geometry::{Point, Rect, Size, ONE};
use touchhle::layer_tree::{
    BitmapContext, ContextPlan, Delegate, DisplayAction, DrawingCapability, LayerTree, TreeError,
};

fn fixed(v: f64) -> i64 {
    (v * ONE as f64) as i64
}

fn pt(x: f64, y: f64) -> Point {
    Point { x: fixed(x), y: fixed(y) }
}

fn rect(x: f64, y: f64, w: f64, h: f64) -> Rect {
    Rect { origin: pt(x, y), size: Size { width: fixed(w), height: fixed(h) } }
}

#[test]
fn new_layer_has_documented_defaults() {
    let mut t = LayerTree::new();
    let a = t.alloc_layer();
    let l = t.layer(a);
    assert_eq!(l.bounds, rect(0.0, 0.0, 0.0, 0.0));
    assert_eq!(l.position, pt(0.0, 0.0));
    assert_eq!(l.anchor_point, pt(0.5, 0.5));
    assert_eq!(l.opacity, ONE);
    assert!(l.needs_display);
    assert!(!l.hidden && !l.opaque);
    assert!(l.superlayer.is_none() && l.sublayers.is_empty());
    assert!(l.background_color.is_none() && l.contents.is_none() && l.delegate.is_none());
    assert_eq!(t.count_of(a), 1);
}

#[test]
fn frame_from_position_and_anchor() {
    let mut t = LayerTree::new();
    let a = t.alloc_layer();
    t.set_bounds(a, rect(0.0, 0.0, 100.0, 50.0));
    t.set_anchor_point(a, pt(0.5, 0.5));
    t.set_position(a, pt(60.0, 60.0));
    assert_eq!(t.frame(a), Some(rect(10.0, 35.0, 100.0, 50.0)));
}

#[test]
fn set_frame_then_frame_round_trips() {
    let mut t = LayerTree::new();
    let a = t.alloc_layer();
    t.set_bounds(a, rect(3.0, -7.0, 11.0, 13.0));
    t.set_position(a, pt(-40.0, 25.5));
    t.set_anchor_point(a, pt(0.25, 0.75));
    let f = rect(12.5, -3.0, 33.0, 21.0);
    assert_eq!(t.set_frame(a, f), Ok(()));
    assert_eq!(t.frame(a), Some(f));
    assert_eq!(t.layer(a).bounds, rect(0.0, 0.0, 33.0, 21.0));
    assert_eq!(t.layer(a).position, pt(12.5 + 33.0 * 0.25, -3.0 + 21.0 * 0.75));
    assert_eq!(t.layer(a).anchor_point, pt(0.25, 0.75));
}

#[test]
fn set_frame_that_overflows_is_refused() {
    let mut t = LayerTree::new();
    let a = t.alloc_layer();
    t.set_anchor_point(a, pt(1.0, 1.0));
    let f = Rect {
        origin: Point { x: i64::MAX - 1, y: 0 },
        size: Size { width: 10 * ONE, height: 0 },
    };
    assert_eq!(t.set_frame(a, f), Err(TreeError::GeometryOverflow));
    assert_eq!(t.layer(a).position, pt(0.0, 0.0));
}

#[test]
fn contains_point_is_half_open() {
    let mut t = LayerTree::new();
    let a = t.alloc_layer();
    t.set_bounds(a, rect(0.0, 0.0, 10.0, 10.0));
    assert!(t.contains_point(a, pt(0.0, 0.0)));
    assert!(!t.contains_point(a, pt(10.0, 10.0)));
    assert!(t.contains_point(a, pt(9.999, 9.999)));
    assert!(!t.contains_point(a, pt(-0.001, 5.0)));
    assert!(!t.contains_point(a, pt(5.0, 10.0)));
}

#[test]
fn add_sublayer_links_both_ways() {
    let mut t = LayerTree::new();
    let p = t.alloc_layer();
    let c = t.alloc_layer();
    assert_eq!(t.add_sublayer(p, c), Ok(()));
    assert_eq!(t.layer(c).superlayer, Some(p));
    assert_eq!(t.layer(p).sublayers, vec![c]);
    assert_eq!(t.count_of(c), 2);
}

#[test]
fn add_sublayer_again_brings_to_front() {
    let mut t = LayerTree::new();
    let p = t.alloc_layer();
    let a = t.alloc_layer();
    let b = t.alloc_layer();
    t.add_sublayer(p, a).unwrap();
    t.add_sublayer(p, b).unwrap();
    assert_eq!(t.layer(p).sublayers, vec![a, b]);
    let before = t.count_of(a);
    t.add_sublayer(p, a).unwrap();
    assert_eq!(t.layer(p).sublayers, vec![b, a]);
    assert_eq!(t.count_of(a), before);
    assert_eq!(t.layer(a).superlayer, Some(p));
}

#[test]
fn add_sublayer_moves_from_former_parent() {
    let mut t = LayerTree::new();
    let p = t.alloc_layer();
    let q = t.alloc_layer();
    let c = t.alloc_layer();
    t.add_sublayer(p, c).unwrap();
    assert_eq!(t.count_of(c), 2);
    t.add_sublayer(q, c).unwrap();
    assert!(t.layer(p).sublayers.is_empty());
    assert_eq!(t.layer(q).sublayers, vec![c]);
    assert_eq!(t.layer(c).superlayer, Some(q));
    assert_eq!(t.count_of(c), 2);
}

#[test]
fn add_sublayer_errors() {
    let mut t = LayerTree::new();
    let p = t.alloc_layer();
    let color = t.new_object();
    assert_eq!(t.add_sublayer(p, p), Err(TreeError::WouldCreateCycle));
    assert_eq!(t.add_sublayer(p, color), Err(TreeError::NotALayer));
    assert_eq!(t.add_sublayer(p, 99), Err(TreeError::NotALayer));
}

#[test]
fn add_sublayer_refuses_cycle() {
    let mut t = LayerTree::new();
    let a = t.alloc_layer();
    let b = t.alloc_layer();
    let c = t.alloc_layer();
    t.add_sublayer(a, b).unwrap();
    t.add_sublayer(b, c).unwrap();
    assert!(t.has_ancestor(c, a));
    assert!(!t.has_ancestor(a, c));
    assert_eq!(t.add_sublayer(c, a), Err(TreeError::WouldCreateCycle));
    assert_eq!(t.add_sublayer(b, a), Err(TreeError::WouldCreateCycle));
    assert_eq!(t.layer(a).superlayer, None);
    assert_eq!(t.add_sublayer(a, c), Ok(()));
    assert_eq!(t.layer(a).sublayers, vec![b, c]);
}

#[test]
fn remove_from_superlayer_detaches_and_releases() {
    let mut t = LayerTree::new();
    let p = t.alloc_layer();
    let a = t.alloc_layer();
    let c = t.alloc_layer();
    t.add_sublayer(p, a).unwrap();
    t.add_sublayer(p, c).unwrap();
    let before = t.count_of(c);
    assert_eq!(t.remove_from_superlayer(c), Ok(vec![]));
    assert_eq!(t.layer(c).superlayer, None);
    assert_eq!(t.layer(p).sublayers, vec![a]);
    assert_eq!(t.count_of(c), before - 1);
}

#[test]
fn remove_from_superlayer_without_parent_is_a_no_op() {
    let mut t = LayerTree::new();
    let c = t.alloc_layer();
    assert_eq!(t.remove_from_superlayer(c), Ok(vec![]));
    assert_eq!(t.count_of(c), 1);
    let o = t.new_object();
    assert_eq!(t.remove_from_superlayer(o), Err(TreeError::NotALayer));
}

#[test]
fn remove_last_owner_frees_layer() {
    let mut t = LayerTree::new();
    let p = t.alloc_layer();
    let c = t.alloc_layer();
    t.add_sublayer(p, c).unwrap();
    t.release(c).unwrap();
    assert_eq!(t.count_of(c), 1);
    t.remove_from_superlayer(c).unwrap();
    assert_eq!(t.count_of(c), 0);
    assert!(!t.holds_object(c));
    assert!(t.layer(p).sublayers.is_empty());
}

#[test]
fn destroying_attached_layer_is_refused() {
    let mut t = LayerTree::new();
    let p = t.alloc_layer();
    let c = t.alloc_layer();
    t.add_sublayer(p, c).unwrap();
    t.release(c).unwrap();
    assert_eq!(t.release(c), Err(TreeError::StillAttached));
    assert!(t.holds_layer(c));
    assert_eq!(t.layer(c).superlayer, Some(p));
}

#[test]
fn releasing_parent_frees_its_tree() {
    let mut t = LayerTree::new();
    let p = t.alloc_layer();
    let c = t.alloc_layer();
    let g = t.alloc_layer();
    let kept = t.alloc_layer();
    let color = t.new_object();
    t.add_sublayer(p, c).unwrap();
    t.add_sublayer(c, g).unwrap();
    t.add_sublayer(c, kept).unwrap();
    t.release(c).unwrap();
    t.release(g).unwrap();
    t.set_background_color(g, Some(color));
    t.release(color).unwrap();
    assert_eq!(t.count_of(color), 1);
    assert_eq!(t.release(p), Ok(vec![]));
    assert!(!t.holds_object(p));
    assert!(!t.holds_object(c));
    assert!(!t.holds_object(g));
    assert!(!t.holds_object(color));
    assert!(t.holds_layer(kept));
    assert_eq!(t.count_of(kept), 1);
    assert_eq!(t.layer(kept).superlayer, None);
}

#[test]
fn release_errors() {
    let mut t = LayerTree::new();
    let o = t.new_object();
    assert_eq!(t.release(o), Ok(vec![]));
    assert_eq!(t.release(o), Err(TreeError::NotLive));
    assert_eq!(t.retain(o), Err(TreeError::NotLive));
    assert_eq!(t.release(7), Err(TreeError::NotLive));
}

#[test]
fn background_color_transfers_ownership() {
    let mut t = LayerTree::new();
    let a = t.alloc_layer();
    let x = t.new_object();
    let y = t.new_object();
    let x0 = t.count_of(x);
    t.set_background_color(a, Some(x));
    assert_eq!(t.count_of(x), x0 + 1);
    let y0 = t.count_of(y);
    t.set_background_color(a, Some(y));
    assert_eq!(t.count_of(x), x0);
    assert_eq!(t.count_of(y), y0 + 1);
    assert_eq!(t.layer(a).background_color, Some(y));
}

#[test]
fn same_background_color_twice_keeps_count() {
    let mut t = LayerTree::new();
    let a = t.alloc_layer();
    let x = t.new_object();
    t.set_background_color(a, Some(x));
    t.set_background_color(a, Some(x));
    assert_eq!(t.count_of(x), 2);
    t.set_background_color(a, None);
    assert_eq!(t.count_of(x), 1);
    assert_eq!(t.layer(a).background_color, None);
}

#[test]
fn set_contents_invalidates_texture() {
    let mut t = LayerTree::new();
    let a = t.alloc_layer();
    let img = t.new_object();
    t.set_texture_up_to_date(a, true);
    t.set_contents(a, Some(img));
    assert!(!t.layer(a).texture_up_to_date);
    assert_eq!(t.layer(a).contents, Some(img));
    assert_eq!(t.count_of(img), 2);
}

#[test]
fn display_twice_calls_delegate_once() {
    let mut t = LayerTree::new();
    let a = t.alloc_layer();
    t.set_delegate(a, Some(Delegate { object: 5, capability: DrawingCapability::DrawsInContext }));
    t.set_bounds(a, rect(0.0, 0.0, 20.0, 10.0));
    let first = t.display_if_needed(a);
    assert!(matches!(first, DisplayAction::Draw { delegate: 5, .. }));
    assert_eq!(t.display_if_needed(a), DisplayAction::Clean);
    assert!(!t.layer(a).needs_display);
}

#[test]
fn display_without_delegate_allocates_nothing() {
    let mut t = LayerTree::new();
    let a = t.alloc_layer();
    assert_eq!(t.display_if_needed(a), DisplayAction::NoDelegate);
    assert!(t.layer(a).context.is_none());
    assert_eq!(t.display_if_needed(a), DisplayAction::Clean);
}

#[test]
fn display_layer_callback_takes_precedence() {
    let mut t = LayerTree::new();
    let a = t.alloc_layer();
    t.set_delegate(a, Some(Delegate { object: 9, capability: DrawingCapability::DisplaysLayer }));
    t.set_texture_up_to_date(a, true);
    assert_eq!(t.display_if_needed(a), DisplayAction::DisplayLayer { delegate: 9 });
    assert!(t.layer(a).texture_up_to_date);
}

#[test]
fn display_skips_inherited_drawing() {
    let mut t = LayerTree::new();
    let a = t.alloc_layer();
    t.set_delegate(
        a,
        Some(Delegate { object: 3, capability: DrawingCapability::InheritedDrawingOnly }),
    );
    assert_eq!(t.display_if_needed(a), DisplayAction::Skipped { delegate: 3 });
    assert!(t.layer(a).context.is_none());
}

#[test]
fn drawing_plans_context_by_rounded_size() {
    let mut t = LayerTree::new();
    let a = t.alloc_layer();
    t.set_delegate(a, Some(Delegate { object: 1, capability: DrawingCapability::DrawsInContext }));
    t.set_bounds(a, rect(2.0, 3.0, 10.5, 7.4));
    t.set_texture_up_to_date(a, true);
    assert_eq!(
        t.display_if_needed(a),
        DisplayAction::Draw {
            delegate: 1,
            context: ContextPlan::Create { width: 11, height: 7, stale: None },
            origin: pt(2.0, 3.0),
        }
    );
    assert!(!t.layer(a).texture_up_to_date);
    let ctx = BitmapContext { id: 40, width: 11, height: 7 };
    t.set_context(a, Some(ctx));
    t.set_needs_display(a);
    assert_eq!(
        t.display_if_needed(a),
        DisplayAction::Draw { delegate: 1, context: ContextPlan::Reuse(ctx), origin: pt(2.0, 3.0) }
    );
    t.set_bounds(a, rect(0.0, 0.0, 4.0, 4.0));
    t.set_needs_display(a);
    assert_eq!(
        t.display_if_needed(a),
        DisplayAction::Draw {
            delegate: 1,
            context: ContextPlan::Create { width: 4, height: 4, stale: Some(ctx) },
            origin: pt(0.0, 0.0),
        }
    );
    assert!(t.layer(a).context.is_none());
}

#[test]
fn redirtying_during_callback_survives() {
    let mut t = LayerTree::new();
    let a = t.alloc_layer();
    t.set_delegate(a, Some(Delegate { object: 1, capability: DrawingCapability::DrawsInContext }));
    assert!(matches!(t.display_if_needed(a), DisplayAction::Draw { .. }));
    t.set_needs_display(a);
    assert!(matches!(t.display_if_needed(a), DisplayAction::Draw { .. }));
}

#[test]
fn drawable_properties_transfer_ownership() {
    let mut t = LayerTree::new();
    let a = t.alloc_layer();
    let d = t.new_object();
    t.set_drawable_properties(a, Some(d));
    assert_eq!(t.count_of(d), 2);
    assert_eq!(t.layer(a).drawable_properties, Some(d));
    t.release(d).unwrap();
    t.release(a).unwrap();
    assert!(!t.holds_object(a));
    assert!(!t.holds_object(d));
}

#[test]
fn setters_store_values() {
    let mut t = LayerTree::new();
    let a = t.alloc_layer();
    t.set_hidden(a, true);
    t.set_opaque(a, true);
    t.set_opacity(a, ONE / 4);
    t.set_texture(a, Some(12));
    let l = t.layer(a);
    assert!(l.hidden && l.opaque);
    assert_eq!(l.opacity, ONE / 4);
    assert_eq!(l.texture, Some(12));
}

#[test]
fn freed_layers_report_their_contexts() {
    let mut t = LayerTree::new();
    let p = t.alloc_layer();
    let c = t.alloc_layer();
    let keep = t.alloc_layer();
    t.add_sublayer(p, c).unwrap();
    t.add_sublayer(p, keep).unwrap();
    t.release(c).unwrap();
    let cp = BitmapContext { id: 1, width: 4, height: 4 };
    let cc = BitmapContext { id: 2, width: 8, height: 2 };
    let ck = BitmapContext { id: 3, width: 1, height: 1 };
    t.set_context(p, Some(cp));
    t.set_context(c, Some(cc));
    t.set_context(keep, Some(ck));
    let freed = t.release(p).unwrap();
    assert_eq!(freed.len(), 2);
    assert!(freed.contains(&cp) && freed.contains(&cc));
    assert!(!freed.contains(&ck));
    assert_eq!(t.layer(keep).context, Some(ck));
}

#[test]
fn remove_from_superlayer_reports_freed_context() {
    let mut t = LayerTree::new();
    let p = t.alloc_layer();
    let c = t.alloc_layer();
    t.add_sublayer(p, c).unwrap();
    t.release(c).unwrap();
    let cc = BitmapContext { id: 9, width: 2, height: 2 };
    t.set_context(c, Some(cc));
    assert_eq!(t.remove_from_superlayer(c), Ok(vec![cc]));
    assert!(!t.holds_object(c));
}

#[test]
fn tree_changes_keep_rendering_state() {
    let mut t = LayerTree::new();
    let p = t.alloc_layer();
    let c = t.alloc_layer();
    t.set_hidden(p, true);
    t.set_bounds(c, rect(1.0, 2.0, 3.0, 4.0));
    t.display_if_needed(p);
    t.add_sublayer(p, c).unwrap();
    t.remove_from_superlayer(c).unwrap();
    assert!(t.layer(p).hidden);
    assert!(!t.layer(p).needs_display);
    assert_eq!(t.layer(c).bounds, rect(1.0, 2.0, 3.0, 4.0));
}
