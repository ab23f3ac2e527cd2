use vstd::prelude::*;

use crate::tree_lemmas::{
    lemma_attach, lemma_detach, lemma_live_count_free, lemma_live_count_keep,
    lemma_release_free_layer, lemma_release_free_plain, lemma_release_keep,
    lemma_replace_keeps_counts, lemma_same_but_two_basics, lemma_wf_count_change,
    lemma_wf_free_plain, lemma_wf_replace_layer, lemma_wf_replace_refs, lemma_wf_same_layers,
    live_count, same_but_two, lemma_pending_shrink,
};
use crate::geometry::{
    bounds_for_frame_spec, contains_spec, frame_fits, frame_of, frame_spec, position_fits,
    pixel_dim, pixel_dim_spec, position_for_frame, position_spec, rect_contains, Point, Rect, Size,
    HALF, ONE,
};

verus! {

/// What a layer's delegate can do when the layer needs displaying.
#[derive(Clone, Copy, Debug, PartialEq, Eq, Structural)]
pub enum DrawingCapability {
    /// It provides the whole-layer display callback, which sets the contents itself.
    DisplaysLayer,
    /// It draws into a bitmap context with custom code.
    DrawsInContext,
    /// It only has the drawing hooks it inherits from the common view base
    /// type, which draw nothing of their own.
    InheritedDrawingOnly,
}

/// A weak reference to the object that renders a layer's content.
#[derive(Clone, Copy, Debug, PartialEq, Eq, Structural)]
pub struct Delegate {
    pub object: u64,
    pub capability: DrawingCapability,
}

/// A CPU bitmap rendering context owned by one layer, with its pixel size.
#[derive(Clone, Copy, Debug, PartialEq, Eq, Structural)]
pub struct BitmapContext {
    pub id: u64,
    pub width: u32,
    pub height: u32,
}

/// The state of one layer. Handles (`usize`) name objects of the owning
/// `LayerTree`; a handle to a freed object reads as absent.
pub struct Layer {
    /// Weak reference.
    pub delegate: Option<Delegate>,
    /// Strong references, back to front.
    pub sublayers: Vec<usize>,
    /// Weak reference.
    pub superlayer: Option<usize>,
    pub bounds: Rect,
    pub position: Point,
    pub anchor_point: Point,
    pub hidden: bool,
    pub opaque: bool,
    /// Fixed point, like the geometry.
    pub opacity: i64,
    /// Strong reference to a plain object.
    pub background_color: Option<usize>,
    pub needs_display: bool,
    /// Strong reference to a plain object.
    pub contents: Option<usize>,
    /// Strong reference to a plain object.
    pub drawable_properties: Option<usize>,
    pub context: Option<BitmapContext>,
    pub texture: Option<u32>,
    pub texture_up_to_date: bool,
}

/// A reference-counted object of the tree: a layer, or a plain object (a
/// color, an image) when `layer` is `None`.
pub struct Object {
    pub retain_count: u64,
    pub layer: Option<Layer>,
}

/// Why a tree operation was refused.
#[derive(Clone, Copy, Debug, PartialEq, Eq, Structural)]
pub enum TreeError {
    /// The handle names no live object.
    NotLive,
    /// The handle names no live layer.
    NotALayer,
    /// The last strong reference to a layer that is still attached to a
    /// superlayer would be dropped.
    StillAttached,
    /// A layer cannot become a sublayer of itself or of one of its own
    /// sublayers.
    WouldCreateCycle,
    /// The frame's position does not fit the coordinate type.
    GeometryOverflow,
}

/// The default state of a freshly allocated layer: zero bounds and position,
/// centered anchor, full opacity, dirty, and every reference absent.
pub open spec fn is_default_layer(l: Layer) -> bool {
    &&& l.delegate.is_none()
    &&& l.sublayers@.len() == 0
    &&& l.superlayer.is_none()
    &&& l.bounds == (Rect { origin: Point { x: 0, y: 0 }, size: Size { width: 0, height: 0 } })
    &&& l.position == (Point { x: 0, y: 0 })
    &&& l.anchor_point == (Point { x: HALF, y: HALF })
    &&& !l.hidden
    &&& !l.opaque
    &&& l.opacity == ONE
    &&& l.background_color.is_none()
    &&& l.needs_display
    &&& l.contents.is_none()
    &&& l.drawable_properties.is_none()
    &&& l.context.is_none()
    &&& l.texture.is_none()
    &&& !l.texture_up_to_date
}

/// Two layer states hold the same tree links and strong references.
pub open spec fn same_links(a: Layer, b: Layer) -> bool {
    &&& a.sublayers@ == b.sublayers@
    &&& a.superlayer == b.superlayer
    &&& a.background_color == b.background_color
    &&& a.contents == b.contents
    &&& a.drawable_properties == b.drawable_properties
}

/// `x` is among the strong references that layer state `l` holds.
pub open spec fn held_by(l: Layer, x: usize) -> bool {
    l.sublayers@.contains(x) || l.background_color == Some(x) || l.contents == Some(x)
        || l.drawable_properties == Some(x)
}

/// Two layer states agree on everything but their tree links.
pub open spec fn same_content(a: Layer, b: Layer) -> bool {
    &&& a.delegate == b.delegate
    &&& a.bounds == b.bounds
    &&& a.position == b.position
    &&& a.anchor_point == b.anchor_point
    &&& a.hidden == b.hidden
    &&& a.opaque == b.opaque
    &&& a.opacity == b.opacity
    &&& a.background_color == b.background_color
    &&& a.needs_display == b.needs_display
    &&& a.contents == b.contents
    &&& a.drawable_properties == b.drawable_properties
    &&& a.context == b.context
    &&& a.texture == b.texture
    &&& a.texture_up_to_date == b.texture_up_to_date
}

/// A layer in its default state.
pub fn default_layer() -> (l: Layer)
    ensures
        is_default_layer(l),
{
    Layer {
        delegate: None,
        sublayers: Vec::new(),
        superlayer: None,
        bounds: Rect { origin: Point { x: 0, y: 0 }, size: Size { width: 0, height: 0 } },
        position: Point { x: 0, y: 0 },
        anchor_point: Point { x: HALF, y: HALF },
        hidden: false,
        opaque: false,
        opacity: ONE,
        background_color: None,
        needs_display: true,
        contents: None,
        drawable_properties: None,
        context: None,
        texture: None,
        texture_up_to_date: false,
    }
}

/// How to get the bitmap context for a drawing pass.
#[derive(Clone, Copy, Debug, PartialEq, Eq, Structural)]
pub enum ContextPlan {
    /// The cached context has the right size: draw into it.
    Reuse(BitmapContext),
    /// Release `stale` if there is one, create a context of this size and
    /// record it on the layer.
    Create { width: u32, height: u32, stale: Option<BitmapContext> },
}

/// What displaying a layer asks of its caller, who runs the delegate's code.
#[derive(Clone, Copy, Debug, PartialEq, Eq, Structural)]
pub enum DisplayAction {
    /// The layer was clean: nothing to do.
    Clean,
    /// The layer was dirty but has no delegate: it stays as it is.
    NoDelegate,
    /// Call the delegate's whole-layer display callback with the layer.
    DisplayLayer { delegate: u64 },
    /// The delegate does no drawing of its own: the render is skipped.
    Skipped { delegate: u64 },
    /// Get the context as planned, translate it by minus `origin`, call the
    /// delegate's drawing callback, and translate it back by `origin`.
    Draw { delegate: u64, context: ContextPlan, origin: Point },
}

/// The context plan for a layer's current bounds, rounded to whole pixels.
pub open spec fn context_plan_spec(l: Layer) -> ContextPlan {
    let w = pixel_dim_spec(l.bounds.size.width as int) as u32;
    let h = pixel_dim_spec(l.bounds.size.height as int) as u32;
    if l.context.is_some() && l.context.unwrap().width == w && l.context.unwrap().height == h {
        ContextPlan::Reuse(l.context.unwrap())
    } else {
        ContextPlan::Create { width: w, height: h, stale: l.context }
    }
}

/// What displaying a layer in state `l` asks for.
pub open spec fn display_action_spec(l: Layer) -> DisplayAction {
    if !l.needs_display {
        DisplayAction::Clean
    } else if l.delegate.is_none() {
        DisplayAction::NoDelegate
    } else {
        let d = l.delegate.unwrap();
        match d.capability {
            DrawingCapability::DisplaysLayer => DisplayAction::DisplayLayer { delegate: d.object },
            DrawingCapability::InheritedDrawingOnly => DisplayAction::Skipped { delegate: d.object },
            DrawingCapability::DrawsInContext => DisplayAction::Draw {
                delegate: d.object,
                context: context_plan_spec(l),
                origin: l.bounds.origin,
            },
        }
    }
}

/// The layer's state after displaying: clean; before a drawing pass the
/// texture no longer matches, and a context of the wrong size is dropped.
pub open spec fn displayed_layer_spec(l: Layer) -> Layer {
    match display_action_spec(l) {
        DisplayAction::Draw { context: ContextPlan::Create { .. }, .. } => Layer {
            needs_display: false,
            texture_up_to_date: false,
            context: None,
            ..l
        },
        DisplayAction::Draw { .. } => Layer { needs_display: false, texture_up_to_date: false, ..l },
        _ => Layer { needs_display: false, ..l },
    }
}

/// How the count of `k` changes when a reference to `acquired` is taken and
/// one to `dropped` is then dropped, if `dropped` is live.
pub open spec fn ref_delta(s: LayerTree, k: int, dropped: Option<usize>, acquired: Option<usize>) -> int {
    (if acquired.is_some() && acquired.unwrap() as int == k {
        1int
    } else {
        0int
    }) - (if dropped.is_some() && dropped.unwrap() as int == k && s.live(k) {
        1int
    } else {
        0int
    })
}

/// An arena of reference-counted layers and plain objects. Slots are never
/// reused, so a stale handle keeps reading as absent.
pub struct LayerTree {
    objects: Vec<Option<Object>>,
}

impl LayerTree {
    /// `a` is among the first `n` superlayers above `x`.
    pub open spec fn ancestor_within(self, x: int, a: int, n: nat) -> bool
        decreases n,
    {
        if n == 0 || !self.is_layer(x) || self.sup(x).is_none() {
            false
        } else {
            let q = self.sup(x).unwrap() as int;
            q == a || self.ancestor_within(q, a, (n - 1) as nat)
        }
    }

    /// `a` is a superlayer of `x`, directly or further up. No chain of
    /// superlayers is longer than the number of slots.
    pub open spec fn is_ancestor(self, x: int, a: int) -> bool {
        self.ancestor_within(x, a, self.slots().len())
    }

    /// The slots after layer `h` is replaced by `l`, its count kept.
    pub open spec fn with_layer(self, h: int, l: Layer) -> Seq<Option<Object>> {
        self.slots().update(
            h,
            Some(Object { retain_count: self.slots()[h].unwrap().retain_count, layer: Some(l) }),
        )
    }

    /// The slots after the count of `h` changes to `n`.
    pub open spec fn with_count(self, h: int, n: int) -> Seq<Option<Object>> {
        self.slots().update(
            h,
            Some(Object { retain_count: n as u64, layer: self.slots()[h].unwrap().layer }),
        )
    }

    /// The slots of the arena, by handle.
    pub closed spec fn slots(self) -> Seq<Option<Object>> {
        self.objects@
    }

    /// `h` names an object that has not been freed.
    pub open spec fn live(self, h: int) -> bool {
        0 <= h < self.slots().len() && self.slots()[h].is_some()
    }

    /// `h` names a live layer.
    pub open spec fn is_layer(self, h: int) -> bool {
        self.live(h) && self.slots()[h].unwrap().layer.is_some()
    }

    /// `h` names a live plain object.
    pub open spec fn is_plain(self, h: int) -> bool {
        self.live(h) && self.slots()[h].unwrap().layer.is_none()
    }

    /// Strong references held on `h`; zero once it is freed.
    pub open spec fn count(self, h: int) -> int {
        if self.live(h) {
            self.slots()[h].unwrap().retain_count as int
        } else {
            0
        }
    }

    /// The state of layer `h`.
    pub open spec fn layer_at(self, h: int) -> Layer {
        self.slots()[h].unwrap().layer.unwrap()
    }

    /// The sublayers of layer `p`, back to front.
    pub open spec fn sub(self, p: int) -> Seq<usize> {
        self.layer_at(p).sublayers@
    }

    /// The superlayer of layer `c`.
    pub open spec fn sup(self, c: int) -> Option<usize> {
        self.layer_at(c).superlayer
    }

    /// A strong reference of a layer to a plain object, or none.
    pub open spec fn plain_or_none(self, r: Option<usize>) -> bool {
        r.is_some() ==> r.unwrap() < self.slots().len() && !self.is_layer(r.unwrap() as int)
    }

    /// Tree links agree except for layers waiting in `pending`, whose
    /// superlayer may be a freed layer.
    pub open spec fn links_ok(self, pending: Seq<usize>) -> bool {
        &&& self.slots().len() <= usize::MAX
        &&& forall|h: int| self.live(h) ==> #[trigger] self.count(h) >= 1
        &&& forall|p: int, i: int|
            self.is_layer(p) && 0 <= i < self.sub(p).len() ==> {
                let s = #[trigger] self.sub(p)[i];
                self.is_layer(s as int) && self.sup(s as int) == Some(p as usize)
            }
        &&& forall|p: int| self.is_layer(p) ==> (#[trigger] self.sub(p)).no_duplicates()
        &&& forall|c: int|
            self.is_layer(c) && (#[trigger] self.sup(c)).is_some() ==> {
                let p = self.sup(c).unwrap() as int;
                (self.is_layer(p) && p != c && self.sub(p).contains(c as usize)) || (p < self.slots().len()
                    && !self.live(p) && pending.contains(c as usize))
            }
        &&& forall|p: int|
            #![trigger self.layer_at(p)]
            self.is_layer(p) ==> {
                &&& self.plain_or_none(self.layer_at(p).background_color)
                &&& self.plain_or_none(self.layer_at(p).contents)
                &&& self.plain_or_none(self.layer_at(p).drawable_properties)
            }
    }

    /// Well-formedness: every live object is held at least once; each
    /// sublayer is a live layer whose superlayer is its parent and which
    /// appears once in it; each layer with a superlayer is among its
    /// sublayers; and the strong references a layer holds besides its
    /// sublayers are to plain objects.
    pub open spec fn wf(self) -> bool {
        self.links_ok(Seq::empty())
    }

    /// An empty tree.
    pub fn new() -> (r: LayerTree)
        ensures
            r.wf(),
            r.slots().len() == 0,
    {
        LayerTree { objects: Vec::new() }
    }

    /// Number of slots handed out so far, live or freed.
    pub fn num_slots(&self) -> (r: usize)
        ensures
            r == self.slots().len(),
    {
        self.objects.len()
    }

    /// Creates a layer in its default state, held once by the caller.
    pub fn alloc_layer(&mut self) -> (r: usize)
        requires
            old(self).wf(),
        ensures
            final(self).wf(),
            r == old(self).slots().len(),
            final(self).slots().len() == old(self).slots().len() + 1,
            forall|h: int| 0 <= h < r ==> #[trigger] final(self).slots()[h] == old(self).slots()[h],
            final(self).is_layer(r as int),
            final(self).count(r as int) == 1,
            is_default_layer(final(self).layer_at(r as int)),
    {
        let layer = default_layer();
        self.objects.push(Some(Object { retain_count: 1, layer: Some(layer) }));
        let r = self.objects.len() - 1;
        proof {
            let s = *old(self);
            let t = *self;
            assert forall|h: int| t.live(h) implies #[trigger] t.count(h) >= 1 by {
                if h != r {
                    assert(t.slots()[h] == s.slots()[h]);
                    assert(s.count(h) >= 1);
                }
            }
            assert forall|p: int, i: int| t.is_layer(p) && 0 <= i < t.sub(p).len() implies {
                let c = #[trigger] t.sub(p)[i];
                t.is_layer(c as int) && t.sup(c as int) == Some(p as usize)
            } by {
                assert(p != r);
                assert(t.slots()[p] == s.slots()[p]);
                assert(s.sub(p)[i] == t.sub(p)[i]);
                assert(s.is_layer(t.sub(p)[i] as int));
                assert(t.slots()[t.sub(p)[i] as int] == s.slots()[t.sub(p)[i] as int]);
            }
            assert forall|p: int| t.is_layer(p) implies (#[trigger] t.sub(p)).no_duplicates() by {
                if p != r {
                    assert(t.slots()[p] == s.slots()[p]);
                    assert(s.sub(p) == t.sub(p));
                }
            }
            assert forall|c: int| t.is_layer(c) && (#[trigger] t.sup(c)).is_some() implies {
                let p = t.sup(c).unwrap() as int;
                t.is_layer(p) && p != c && t.sub(p).contains(c as usize)
            } by {
                assert(c != r);
                assert(t.slots()[c] == s.slots()[c]);
                assert(s.sup(c) == t.sup(c));
                assert(s.is_layer(t.sup(c).unwrap() as int));
                assert(t.slots()[t.sup(c).unwrap() as int] == s.slots()[t.sup(c).unwrap() as int]);
            }
            assert forall|p: int| #[trigger] t.layer_at(p) == t.layer_at(p) && t.is_layer(p) implies {
                &&& t.plain_or_none(t.layer_at(p).background_color)
                &&& t.plain_or_none(t.layer_at(p).contents)
                &&& t.plain_or_none(t.layer_at(p).drawable_properties)
            } by {
                if p != r {
                    assert(t.slots()[p] == s.slots()[p]);
                    assert(s.layer_at(p) == t.layer_at(p));
                    let l = t.layer_at(p);
                    if l.background_color.is_some() {
                        let b = l.background_color.unwrap() as int;
                        if b != r && 0 <= b < s.slots().len() {
                            assert(t.slots()[b] == s.slots()[b]);
                        }
                    }
                    if l.contents.is_some() {
                        let b = l.contents.unwrap() as int;
                        if b != r && 0 <= b < s.slots().len() {
                            assert(t.slots()[b] == s.slots()[b]);
                        }
                    }
                    if l.drawable_properties.is_some() {
                        let b = l.drawable_properties.unwrap() as int;
                        if b != r && 0 <= b < s.slots().len() {
                            assert(t.slots()[b] == s.slots()[b]);
                        }
                    }
                }
            }
        }
        r
    }

    /// Adds one strong reference to a live object.
    pub fn retain(&mut self, h: usize) -> (r: Result<(), TreeError>)
        requires
            old(self).wf(),
            old(self).count(h as int) < u64::MAX,
        ensures
            final(self).wf(),
            r.is_ok() <==> old(self).live(h as int),
            r.is_err() ==> r == Err::<(), TreeError>(TreeError::NotLive) && final(self).slots()
                == old(self).slots(),
            r.is_ok() ==> final(self).slots() == old(self).slots().update(
                h as int,
                Some(
                    Object {
                        retain_count: (old(self).count(h as int) + 1) as u64,
                        layer: old(self).slots()[h as int].unwrap().layer,
                    },
                ),
            ),
    {
        if !self.holds_object(h) {
            return Err(TreeError::NotLive);
        }
        let ghost s = *self;
        let Object { retain_count, layer } = self.take(h);
        self.put(h, Object { retain_count: retain_count + 1, layer });
        proof {
            assert(self.slots() =~= s.with_count(h as int, s.count(h as int) + 1));
            lemma_wf_count_change(s, *self, h as int, s.count(h as int) + 1);
        }
        Ok(())
    }

    /// Each waiting layer is detached from any live superlayer.
    pub open spec fn pending_detached(self, pending: Seq<usize>) -> bool {
        forall|k: int|
            0 <= k < pending.len() && self.is_layer(#[trigger] pending[k] as int) ==> {
                let sp = self.sup(pending[k] as int);
                sp.is_none() || (sp.unwrap() < self.slots().len() && !self.live(sp.unwrap() as int))
            }
    }

    /// Frees the object `h`, which holds its last strong reference, and adds
    /// the references it held to `pending`.
    fn free_object(&mut self, h: usize, pending: &mut Vec<usize>, freed: &mut Vec<BitmapContext>)
        requires
            old(self).links_ok(old(pending)@.push(h)),
            old(self).pending_detached(old(pending)@.push(h)),
            old(self).live(h as int),
            old(self).count(h as int) == 1,
        ensures
            final(self).links_ok(final(pending)@),
            final(self).pending_detached(final(pending)@),
            final(self).slots() == old(self).slots().update(h as int, None),
            forall|k: int| #[trigger] final(self).count(k) <= old(self).count(k),
            forall|k: int| final(self).is_layer(k) ==> #[trigger] old(self).is_layer(k),
            forall|k: int| final(self).is_layer(k) ==> #[trigger] final(self).sub(k) == old(self).sub(k),
            forall|k: int| final(self).is_layer(k) ==> same_content(#[trigger] final(self).layer_at(k), old(self).layer_at(k)),
            forall|x: BitmapContext| old(freed)@.contains(x) ==> #[trigger] final(freed)@.contains(x),
            old(self).is_layer(h as int) && old(self).layer_at(h as int).context.is_some()
                ==> final(freed)@.contains(old(self).layer_at(h as int).context.unwrap()),
            forall|x: usize| old(pending)@.contains(x) ==> #[trigger] final(pending)@.contains(x),
            forall|x: usize|
                old(self).is_layer(h as int) && held_by(old(self).layer_at(h as int), x)
                    ==> #[trigger] final(pending)@.contains(x),
    {
        let ghost s = *self;
        let ghost sp = pending@;
        let mut slot: Option<Object> = None;
        self.objects.set_and_swap(h, &mut slot);
        let obj = slot.unwrap();
        let Object { retain_count, layer } = obj;
        match layer {
            Some(l) => {
                let Layer { sublayers, background_color, contents, drawable_properties, context, .. } = l;
                if let Some(cx) = context {
                    let ghost f0 = freed@;
                    freed.push(cx);
                    assert(freed@[f0.len() as int] == cx);
                    assert forall|x: BitmapContext| f0.contains(x) implies #[trigger] freed@.contains(x) by {
                        let i = choose|i: int| 0 <= i < f0.len() && f0[i] == x;
                        assert(freed@[i] == x);
                    }
                }
                let ghost lp = pending@;
                let mut subs = sublayers;
                assert(subs@ == s.sub(h as int));
                pending.append(&mut subs);
                let ghost ap = pending@;
                assert(ap == lp + s.sub(h as int));
                let ghost i_bg = pending@.len() as int;
                if let Some(b) = background_color {
                    pending.push(b);
                }
                let ghost i_ct = pending@.len() as int;
                if let Some(b) = contents {
                    pending.push(b);
                }
                let ghost i_dp = pending@.len() as int;
                if let Some(b) = drawable_properties {
                    pending.push(b);
                }
                proof {
                    let np = pending@;
                    assert(lp == sp);
                    let l0 = s.layer_at(h as int);
                    assert forall|x: usize| held_by(l0, x) implies #[trigger] np.contains(x) by {
                        if l0.background_color == Some(x) {
                            assert(np[i_bg] == x);
                        } else if l0.contents == Some(x) {
                            assert(np[i_ct] == x);
                        } else if l0.drawable_properties == Some(x) {
                            assert(np[i_dp] == x);
                        } else {
                            let i = choose|i: int| 0 <= i < s.sub(h as int).len() && s.sub(h as int)[i] == x;
                            assert(np[sp.len() + i] == ap[sp.len() + i]);
                        }
                    }
                    assert forall|x: usize| sp.contains(x) implies #[trigger] np.contains(x) by {
                        let k = choose|k: int| 0 <= k < sp.len() && sp[k] == x;
                        assert(np[k] == ap[k]);
                    }
                    assert forall|k: int| 0 <= k < ap.len() implies #[trigger] np[k] == ap[k] by {
                    }
                    assert forall|i: int| 0 <= i < s.sub(h as int).len() implies np.contains(
                        #[trigger] s.sub(h as int)[i],
                    ) by {
                        assert(np[sp.len() + i] == ap[sp.len() + i]);
                    }
                    let l = s.layer_at(h as int);
                    assert(s.plain_or_none(l.background_color));
                    assert(s.plain_or_none(l.contents));
                    assert(s.plain_or_none(l.drawable_properties));
                    assert forall|k: int| sp.len() <= k < np.len() implies s.sub(h as int).contains(
                        #[trigger] np[k],
                    ) || !s.is_layer(np[k] as int) by {
                        if k < ap.len() {
                            assert(np[k] == s.sub(h as int)[k - sp.len()]);
                        }
                    }
                    lemma_release_free_layer(s, *self, h, sp, pending@);
                }
            },
            None => {
                proof {
                    lemma_release_free_plain(s, *self, h, sp);
                }
            },
        }
    }

    /// Drops one strong reference for each entry of `pending`. An object whose
    /// last reference goes is freed, and the references it held (its sublayers,
    /// contents, background color and drawable properties) are dropped in turn.
    /// A layer that stays alive is left without a superlayer.
    fn release_pending(&mut self, pending: Vec<usize>, freed: &mut Vec<BitmapContext>)
        requires
            old(self).links_ok(pending@),
            old(self).pending_detached(pending@),
        ensures
            forall|x: usize|
                pending@.contains(x) && old(self).live(x as int) ==> #[trigger] final(self).count(x as int)
                    <= old(self).count(x as int) - 1,
            forall|k: int| final(self).is_layer(k) ==> same_content(#[trigger] final(self).layer_at(k), old(self).layer_at(k)),
            forall|x: BitmapContext| old(freed)@.contains(x) ==> #[trigger] final(freed)@.contains(x),
            forall|k: int|
                old(self).is_layer(k) && !final(self).live(k) && (#[trigger] old(self).layer_at(k)).context.is_some()
                    ==> final(freed)@.contains(old(self).layer_at(k).context.unwrap()),
            final(self).wf(),
            final(self).slots().len() == old(self).slots().len(),
            forall|h: int| #[trigger] final(self).count(h) <= old(self).count(h),
            forall|h: int| final(self).is_layer(h) ==> #[trigger] old(self).is_layer(h),
            forall|h: int| final(self).is_layer(h) ==> #[trigger] final(self).sub(h) == old(self).sub(h),
    {
        let ghost init = pending@;
        let mut pending = pending;
        let ghost n = self.slots().len();
        while pending.len() > 0
            invariant
                forall|x: int| old(self).live(x) ==> #[trigger] old(self).count(x) >= 1,
                forall|x: usize|
                    init.contains(x) && old(self).live(x as int) ==> #[trigger] self.count(x as int)
                        <= old(self).count(x as int) - 1 || pending@.contains(x),
                self.links_ok(pending@),
                self.pending_detached(pending@),
                self.slots().len() == n,
                n == old(self).slots().len(),
                forall|h: int| #[trigger] self.count(h) <= old(self).count(h),
                forall|h: int| self.is_layer(h) ==> #[trigger] old(self).is_layer(h),
                forall|h: int| self.is_layer(h) ==> #[trigger] self.sub(h) == old(self).sub(h),
                forall|k: int| self.is_layer(k) ==> same_content(#[trigger] self.layer_at(k), old(self).layer_at(k)),
                forall|k: int| #[trigger] self.live(k) ==> (self.is_layer(k) == old(self).is_layer(k)),
                forall|x: BitmapContext| old(freed)@.contains(x) ==> #[trigger] freed@.contains(x),
                forall|k: int|
                    old(self).is_layer(k) && !self.live(k) && (#[trigger] old(self).layer_at(k)).context.is_some()
                        ==> freed@.contains(old(self).layer_at(k).context.unwrap()),
            decreases live_count(self.slots()), pending.len(),
        {
            let ghost waiting = pending@;
            let h = pending.pop().unwrap();
            let ghost s = *self;
            let ghost sp = pending@;
            let ghost fr = freed@;
            assert(waiting =~= sp.push(h));
            assert forall|x: usize| #[trigger] waiting.contains(x) && x != h implies sp.contains(x) by {
                let k = choose|k: int| 0 <= k < waiting.len() && waiting[k] == x;
                assert(k < sp.len());
                assert(sp[k] == x);
            }
            if h < self.objects.len() && self.objects[h].is_some() {
                if self.count_of(h) > 1 {
                    let mut slot: Option<Object> = None;
                    self.objects.set_and_swap(h, &mut slot);
                    let obj = slot.unwrap();
                    let Object { retain_count, layer } = obj;
                    let kept = match layer {
                        Some(l) => {
                            let mut l = l;
                            l.superlayer = None;
                            Some(l)
                        },
                        None => None,
                    };
                    self.objects.set(h, Some(Object { retain_count: retain_count - 1, layer: kept }));
                    proof {
                        assert(self.slots() =~= s.slots().update(h as int, self.slots()[h as int]));
                        lemma_live_count_keep(s.slots(), h as int, self.slots()[h as int].unwrap());
                        lemma_release_keep(s, *self, h, sp);
                        assert(waiting[sp.len() as int] == h);
                    }
                } else {
                    proof {
                        lemma_live_count_free(s.slots(), h as int);
                    }
                    self.free_object(h, &mut pending, freed);
                    proof {
                        assert forall|k: int| #[trigger] self.live(k) implies (self.is_layer(k) == old(self).is_layer(k)) by {
                            assert(self.slots()[k] == s.slots()[k]);
                            assert(s.live(k));
                        }
                        assert forall|k: int|
                            old(self).is_layer(k) && !self.live(k) && (#[trigger] old(self).layer_at(k)).context.is_some()
                                implies freed@.contains(old(self).layer_at(k).context.unwrap()) by {
                            if k != h as int {
                                assert(!s.live(k));
                                assert(fr.contains(old(self).layer_at(k).context.unwrap()));
                            } else {
                                assert(s.is_layer(k));
                            }
                        }
                    }
                }
            } else {
                proof {
                    lemma_pending_shrink(s, h, sp);
                }
            }
            proof {
                assert(self.count(h as int) == 0 || self.count(h as int) == s.count(h as int) - 1);
                assert forall|x: usize| init.contains(x) && old(self).live(x as int) implies #[trigger] self.count(
                    x as int,
                ) <= old(self).count(x as int) - 1 || pending@.contains(x) by {
                    assert(s.count(x as int) <= old(self).count(x as int) - 1 || waiting.contains(x));
                    assert(self.count(x as int) <= s.count(x as int));
                    assert(old(self).count(x as int) >= 1);
                    if x != h && waiting.contains(x) {
                        assert(sp.contains(x));
                    }
                }
            }
        }
    }

    /// Whether `h` names a live layer.
    pub fn holds_layer(&self, h: usize) -> (r: bool)
        ensures
            r == self.is_layer(h as int),
    {
        if h < self.objects.len() {
            match &self.objects[h] {
                Some(o) => o.layer.is_some(),
                None => false,
            }
        } else {
            false
        }
    }

    /// Whether `h` names a live object.
    pub fn holds_object(&self, h: usize) -> (r: bool)
        ensures
            r == self.live(h as int),
    {
        h < self.objects.len() && self.objects[h].is_some()
    }

    /// The state of the live layer `h`.
    pub fn layer(&self, h: usize) -> (r: &Layer)
        requires
            self.is_layer(h as int),
        ensures
            *r == self.layer_at(h as int),
    {
        match &self.objects[h] {
            Some(o) => match &o.layer {
                Some(l) => l,
                None => vstd::pervasive::unreached(),
            },
            None => vstd::pervasive::unreached(),
        }
    }

    /// Takes the object `h` out of its slot, which is left empty.
    fn take(&mut self, h: usize) -> (o: Object)
        requires
            old(self).live(h as int),
        ensures
            o == old(self).slots()[h as int].unwrap(),
            final(self).slots() == old(self).slots().update(h as int, None),
    {
        let mut slot: Option<Object> = None;
        self.objects.set_and_swap(h, &mut slot);
        slot.unwrap()
    }

    /// Puts `o` into slot `h`.
    fn put(&mut self, h: usize, o: Object)
        requires
            h < old(self).slots().len(),
        ensures
            final(self).slots() == old(self).slots().update(h as int, Some(o)),
    {
        self.objects.set(h, Some(o));
    }

    /// Where `c` stands among the sublayers of `p`.
    fn sublayer_index(&self, p: usize, c: usize) -> (i: usize)
        requires
            self.is_layer(p as int),
            self.sub(p as int).contains(c),
        ensures
            i < self.sub(p as int).len(),
            self.sub(p as int)[i as int] == c,
    {
        let subs = &self.layer(p).sublayers;
        let n = subs.len();
        let mut i: usize = 0;
        while i < n
            invariant
                n == subs@.len(),
                subs@ == self.sub(p as int),
                subs@.contains(c),
                0 <= i <= n,
                forall|j: int| 0 <= j < i ==> subs@[j] != c,
            decreases n - i,
        {
            if subs[i] == c {
                return i;
            }
            i = i + 1;
        }
        vstd::pervasive::unreached()
    }

    /// Takes the attached layer `c` out of the sublayers of its superlayer,
    /// which is returned, and clears its superlayer. No count changes.
    fn detach(&mut self, c: usize) -> (p: usize)
        requires
            old(self).wf(),
            old(self).is_layer(c as int),
            old(self).sup(c as int).is_some(),
        ensures
            final(self).wf(),
            p == old(self).sup(c as int).unwrap(),
            same_but_two(*old(self), *final(self), p as int, c as int),
            exists|i: int|
                0 <= i < old(self).sub(p as int).len() && old(self).sub(p as int)[i] == c
                    && final(self).sub(p as int) == old(self).sub(p as int).remove(i),
            final(self).sup(p as int) == old(self).sup(p as int),
            final(self).sub(c as int) == old(self).sub(c as int),
            final(self).sup(c as int).is_none(),
            same_content(final(self).layer_at(p as int), old(self).layer_at(p as int)),
            same_content(final(self).layer_at(c as int), old(self).layer_at(c as int)),
    {
        let ghost s = *self;
        let p = self.layer(c).superlayer.unwrap();
        let i = self.sublayer_index(p, c);
        let Object { retain_count, layer } = self.take(p);
        let mut pl = layer.unwrap();
        pl.sublayers.remove(i);
        self.put(p, Object { retain_count, layer: Some(pl) });
        let Object { retain_count, layer } = self.take(c);
        let mut cl = layer.unwrap();
        cl.superlayer = None;
        self.put(c, Object { retain_count, layer: Some(cl) });
        proof {
            lemma_detach(s, *self, c as int, p as int, i as int);
        }
        p
    }

    /// Appends the detached layer `c` to the sublayers of `p` and makes `p`
    /// its superlayer. No count changes.
    fn attach(&mut self, p: usize, c: usize)
        requires
            old(self).wf(),
            old(self).is_layer(p as int),
            old(self).is_layer(c as int),
            p != c,
            old(self).sup(c as int).is_none(),
        ensures
            final(self).wf(),
            same_but_two(*old(self), *final(self), p as int, c as int),
            final(self).sub(p as int) == old(self).sub(p as int).push(c),
            final(self).sup(p as int) == old(self).sup(p as int),
            final(self).sub(c as int) == old(self).sub(c as int),
            final(self).sup(c as int) == Some(p),
            same_content(final(self).layer_at(p as int), old(self).layer_at(p as int)),
            same_content(final(self).layer_at(c as int), old(self).layer_at(c as int)),
    {
        let ghost s = *self;
        let Object { retain_count, layer } = self.take(p);
        let mut pl = layer.unwrap();
        pl.sublayers.push(c);
        self.put(p, Object { retain_count, layer: Some(pl) });
        let Object { retain_count, layer } = self.take(c);
        let mut cl = layer.unwrap();
        cl.superlayer = Some(p);
        self.put(c, Object { retain_count, layer: Some(cl) });
        proof {
            lemma_attach(s, *self, p as int, c as int);
        }
    }

    /// Dropping the last reference to `h` is refused: it is a layer still
    /// attached to a superlayer.
    pub open spec fn last_reference_attached(self, h: int) -> bool {
        self.is_layer(h) && self.count(h) == 1 && self.sup(h).is_some()
    }

    /// Drops one strong reference to `h`. When it was the last one, `h` is
    /// freed, and so is, in turn, every object whose last reference `h` held.
    /// Returns the bitmap contexts of the layers freed, which the caller
    /// releases.
    pub fn release(&mut self, h: usize) -> (r: Result<Vec<BitmapContext>, TreeError>)
        requires
            old(self).wf(),
        ensures
            final(self).wf(),
            final(self).slots().len() == old(self).slots().len(),
            !old(self).live(h as int) ==> r == Err::<Vec<BitmapContext>, TreeError>(TreeError::NotLive),
            old(self).last_reference_attached(h as int) ==> r == Err::<Vec<BitmapContext>, TreeError>(
                TreeError::StillAttached,
            ),
            r.is_err() ==> final(self).slots() == old(self).slots(),
            old(self).live(h as int) && !old(self).last_reference_attached(h as int) ==> r.is_ok()
                && final(self).count(h as int) == old(self).count(h as int) - 1,
            old(self).count(h as int) > 1 ==> final(self).slots() == old(self).slots().update(
                h as int,
                Some(
                    Object {
                        retain_count: (old(self).count(h as int) - 1) as u64,
                        layer: old(self).slots()[h as int].unwrap().layer,
                    },
                ),
            ) && r.unwrap()@.len() == 0,
            forall|k: int| #[trigger] final(self).count(k) <= old(self).count(k),
            forall|k: int| final(self).is_layer(k) ==> #[trigger] old(self).is_layer(k),
            forall|k: int| final(self).is_layer(k) ==> #[trigger] final(self).sub(k) == old(self).sub(k),
            forall|k: int| final(self).is_layer(k) ==> same_content(#[trigger] final(self).layer_at(k), old(self).layer_at(k)),
            r.is_ok() ==> forall|k: int|
                old(self).is_layer(k) && !final(self).live(k) && (#[trigger] old(self).layer_at(k)).context.is_some()
                    ==> r.unwrap()@.contains(old(self).layer_at(k).context.unwrap()),
            old(self).is_layer(h as int) && old(self).count(h as int) == 1 && r.is_ok() ==> forall|x: usize|
                held_by(old(self).layer_at(h as int), x) && old(self).live(x as int)
                    ==> #[trigger] final(self).count(x as int) <= old(self).count(x as int) - 1,
    {
        if !self.holds_object(h) {
            return Err(TreeError::NotLive);
        }
        let count = self.count_of(h);
        if count > 1 {
            let ghost s = *self;
            let Object { retain_count, layer } = self.take(h);
            self.put(h, Object { retain_count: retain_count - 1, layer });
            proof {
                let t = *self;
                assert forall|k: int| #[trigger] t.is_layer(k) == s.is_layer(k) by {
                    if k != h && 0 <= k < t.slots().len() {
                        assert(t.slots()[k] == s.slots()[k]);
                    }
                }
                assert forall|k: int| t.is_layer(k) implies same_links(#[trigger] t.layer_at(k), s.layer_at(k)) by {
                    if k != h {
                        assert(t.slots()[k] == s.slots()[k]);
                    }
                }
                assert forall|k: int| t.live(k) implies #[trigger] t.count(k) >= 1 by {
                    if k != h {
                        assert(t.slots()[k] == s.slots()[k]);
                        assert(s.count(k) >= 1);
                    }
                }
                assert forall|k: int| #[trigger] t.count(k) <= s.count(k) by {
                    if k != h && 0 <= k < t.slots().len() {
                        assert(t.slots()[k] == s.slots()[k]);
                    }
                }
                assert forall|k: int| t.is_layer(k) implies #[trigger] t.sub(k) == s.sub(k) by {
                    if k != h {
                        assert(t.slots()[k] == s.slots()[k]);
                    }
                }
                lemma_wf_same_layers(s, t);
                assert forall|k: int| t.is_layer(k) implies same_content(#[trigger] t.layer_at(k), s.layer_at(k)) by {
                    if k != h {
                        assert(t.slots()[k] == s.slots()[k]);
                    }
                }
            }
            return Ok(Vec::new());
        }
        if self.holds_layer(h) && self.layer(h).superlayer.is_some() {
            return Err(TreeError::StillAttached);
        }
        let mut pending: Vec<usize> = Vec::new();
        proof {
            assert(seq![h] == pending@.push(h));
            assert forall|c: int| self.is_layer(c) && (#[trigger] self.sup(c)).is_some() implies {
                let p = self.sup(c).unwrap() as int;
                (self.is_layer(p) && p != c && self.sub(p).contains(c as usize)) || (p < self.slots().len()
                    && !self.live(p) && pending@.push(h).contains(c as usize))
            } by {
            }
        }
        let mut freed: Vec<BitmapContext> = Vec::new();
        let ghost s0 = *self;
        self.free_object(h, &mut pending, &mut freed);
        let ghost s1 = *self;
        let ghost f1 = freed@;
        let ghost p1 = pending@;
        self.release_pending(pending, &mut freed);
        proof {
            if s0.is_layer(h as int) {
                let l0 = s0.layer_at(h as int);
                assert forall|x: usize| held_by(l0, x) && s0.live(x as int) implies #[trigger] self.count(
                    x as int,
                ) <= s0.count(x as int) - 1 by {
                    assert(p1.contains(x));
                    if l0.sublayers@.contains(x) {
                        let i = choose|i: int| 0 <= i < s0.sub(h as int).len() && s0.sub(h as int)[i] == x;
                        assert(s0.sup(s0.sub(h as int)[i] as int) == Some(h));
                        assert(x as int != h as int);
                    } else {
                        assert(s0.plain_or_none(l0.background_color));
                        assert(s0.plain_or_none(l0.contents));
                        assert(s0.plain_or_none(l0.drawable_properties));
                        assert(x as int != h as int);
                    }
                    assert(s1.slots()[x as int] == s0.slots()[x as int]);
                    assert(s1.live(x as int));
                }
            }
            assert forall|k: int|
                s0.is_layer(k) && !self.live(k) && (#[trigger] s0.layer_at(k)).context.is_some()
                    implies freed@.contains(s0.layer_at(k).context.unwrap()) by {
                if k != h as int {
                    assert(s1.slots()[k] == s0.slots()[k]);
                    assert(s1.is_layer(k));
                    assert(s1.layer_at(k) == s0.layer_at(k));
                } else {
                    assert(f1.contains(s0.layer_at(k).context.unwrap()));
                }
            }
        }
        Ok(freed)
    }

    /// Detaches the layer `c` from its superlayer, if it has one, which drops
    /// the reference the superlayer held. Returns the bitmap contexts of the
    /// layers this frees, which the caller releases. No other field of any
    /// layer changes.
    pub fn remove_from_superlayer(&mut self, c: usize) -> (r: Result<Vec<BitmapContext>, TreeError>)
        requires
            old(self).wf(),
        ensures
            final(self).wf(),
            r.is_ok() <==> old(self).is_layer(c as int),
            r.is_err() ==> r == Err::<Vec<BitmapContext>, TreeError>(TreeError::NotALayer),
            (r.is_err() || old(self).sup(c as int).is_none()) ==> final(self).slots() == old(self).slots(),
            r.is_ok() && old(self).sup(c as int).is_none() ==> r.unwrap()@.len() == 0,
            forall|k: int| final(self).is_layer(k) ==> #[trigger] old(self).is_layer(k),
            forall|k: int| final(self).is_layer(k) ==> same_content(#[trigger] final(self).layer_at(k), old(self).layer_at(k)),
            r.is_ok() ==> forall|k: int|
                old(self).is_layer(k) && !final(self).live(k) && (#[trigger] old(self).layer_at(k)).context.is_some()
                    ==> r.unwrap()@.contains(old(self).layer_at(k).context.unwrap()),
            r.is_ok() && old(self).sup(c as int).is_some() ==> {
                let p = old(self).sup(c as int).unwrap() as int;
                &&& final(self).count(c as int) == old(self).count(c as int) - 1
                &&& final(self).is_layer(c as int) ==> final(self).sup(c as int).is_none()
                &&& final(self).is_layer(p) ==> !final(self).sub(p).contains(c)
                &&& old(self).count(c as int) > 1 ==> final(self).is_layer(p) && exists|i: int|
                    0 <= i < old(self).sub(p).len() && old(self).sub(p)[i] == c
                        && final(self).sub(p) == old(self).sub(p).remove(i)
            },
            forall|k: int|
                k != c && old(self).is_layer(c as int) && old(self).sup(c as int).is_some()
                    ==> #[trigger] final(self).count(k) <= old(self).count(k),
    {
        if !self.holds_layer(c) {
            return Err(TreeError::NotALayer);
        }
        if self.layer(c).superlayer.is_none() {
            return Ok(Vec::new());
        }
        let ghost s = *self;
        let p = self.detach(c);
        let ghost m = *self;
        proof {
            lemma_same_but_two_basics(s, m, p as int, c as int);
            assert(s.sub(p as int).no_duplicates());
            let i = choose|i: int|
                0 <= i < s.sub(p as int).len() && s.sub(p as int)[i] == c && m.sub(p as int)
                    == s.sub(p as int).remove(i);
            s.sub(p as int).remove_ensures(i);
            assert forall|j: int| 0 <= j < m.sub(p as int).len() implies m.sub(p as int)[j] != c by {
                if j < i {
                    assert(m.sub(p as int)[j] == s.sub(p as int)[j]);
                } else {
                    assert(m.sub(p as int)[j] == s.sub(p as int)[j + 1]);
                }
            }
        }
        let r = self.release(c);
        proof {
            assert(!m.last_reference_attached(c as int));
            if s.count(c as int) > 1 {
                assert(self.slots()[p as int] == m.slots()[p as int]);
            }
            assert forall|k: int| m.is_layer(k) implies same_content(#[trigger] m.layer_at(k), s.layer_at(k)) by {
                if k != c as int && k != p as int {
                    assert(m.slots()[k] == s.slots()[k]);
                }
            }
            assert forall|k: int| #[trigger] m.live(k) == s.live(k) by {
                if 0 <= k < s.slots().len() && k != c as int && k != p as int {
                    assert(m.slots()[k] == s.slots()[k]);
                }
            }
            let t = *self;
            assert forall|k: int| t.is_layer(k) implies #[trigger] s.is_layer(k) by {
                assert(m.is_layer(k));
            }
            assert forall|k: int| t.is_layer(k) implies same_content(#[trigger] t.layer_at(k), s.layer_at(k)) by {
                assert(m.is_layer(k));
                assert(same_content(t.layer_at(k), m.layer_at(k)));
                assert(same_content(m.layer_at(k), s.layer_at(k)));
            }
            assert forall|k: int|
                s.is_layer(k) && !t.live(k) && (#[trigger] s.layer_at(k)).context.is_some()
                    implies r.unwrap()@.contains(s.layer_at(k).context.unwrap()) by {
                assert(m.live(k));
                assert(m.is_layer(k));
                assert(same_content(m.layer_at(k), s.layer_at(k)));
                assert(m.layer_at(k).context == s.layer_at(k).context);
            }
        }
        r
    }

    /// Whether `a` is a superlayer of `x`, directly or further up.
    pub fn has_ancestor(&self, x: usize, a: usize) -> (r: bool)
        ensures
            r == self.is_ancestor(x as int, a as int),
    {
        let n = self.objects.len();
        let mut cur = x;
        let mut steps: usize = 0;
        while steps < n
            invariant
                n == self.slots().len(),
                steps <= n,
                self.is_ancestor(x as int, a as int) == self.ancestor_within(
                    cur as int,
                    a as int,
                    (n - steps) as nat,
                ),
            decreases n - steps,
        {
            if !self.holds_layer(cur) {
                return false;
            }
            match self.layer(cur).superlayer {
                None => return false,
                Some(q) => {
                    if q == a {
                        return true;
                    }
                    cur = q;
                },
            }
            steps = steps + 1;
        }
        false
    }

    /// Makes `c` the frontmost sublayer of `p`. When `c` already is a
    /// sublayer of `p` it only moves to the front; otherwise `p` takes a
    /// strong reference to it, taken over from its former superlayer if it
    /// had one (it is detached from there), or added. Refused when `c` is `p`
    /// or one of its superlayers, which would close a cycle.
    pub fn add_sublayer(&mut self, p: usize, c: usize) -> (r: Result<(), TreeError>)
        requires
            old(self).wf(),
            old(self).count(c as int) < u64::MAX,
        ensures
            final(self).wf(),
            !(old(self).is_layer(p as int) && old(self).is_layer(c as int)) ==> r == Err::<
                (),
                TreeError,
            >(TreeError::NotALayer),
            old(self).is_layer(p as int) && old(self).is_layer(c as int) && (p == c
                || old(self).is_ancestor(p as int, c as int)) ==> r == Err::<(), TreeError>(
                TreeError::WouldCreateCycle,
            ),
            r.is_ok() <==> old(self).is_layer(p as int) && old(self).is_layer(c as int) && p != c
                && !old(self).is_ancestor(p as int, c as int),
            r.is_err() ==> final(self).slots() == old(self).slots(),
            r.is_ok() ==> {
                &&& final(self).is_layer(p as int)
                &&& final(self).is_layer(c as int)
                &&& final(self).sup(c as int) == Some(p)
                &&& final(self).count(c as int) == old(self).count(c as int) + if old(self).sup(
                    c as int,
                ).is_none() {
                    1int
                } else {
                    0int
                }
                &&& old(self).sup(c as int) == Some(p) ==> exists|i: int|
                    0 <= i < old(self).sub(p as int).len() && old(self).sub(p as int)[i] == c
                        && final(self).sub(p as int) == old(self).sub(p as int).remove(i).push(c)
                &&& old(self).sup(c as int) != Some(p) ==> final(self).sub(p as int) == old(
                    self,
                ).sub(p as int).push(c)
                &&& forall|k: int| k != c ==> #[trigger] final(self).count(k) == old(self).count(k)
            },
            forall|k: int| #[trigger] final(self).is_layer(k) == old(self).is_layer(k),
            forall|k: int|
                final(self).is_layer(k) ==> same_content(
                    #[trigger] final(self).layer_at(k),
                    old(self).layer_at(k),
                ),
    {
        if !self.holds_layer(p) || !self.holds_layer(c) {
            return Err(TreeError::NotALayer);
        }
        if p == c || self.has_ancestor(p, c) {
            return Err(TreeError::WouldCreateCycle);
        }
        let ghost s = *self;
        match self.layer(c).superlayer {
            Some(_) => {
                let q = self.detach(c);
                proof {
                    lemma_same_but_two_basics(s, *self, q as int, c as int);
                    if q != p {
                        assert(self.slots()[p as int] == s.slots()[p as int]);
                    }
                }
            },
            None => {
                let _ = self.retain(c);
                proof {
                    assert(self.slots()[p as int] == s.slots()[p as int]);
                    assert forall|k: int| k != c implies #[trigger] self.count(k) == s.count(k) by {
                        if 0 <= k < s.slots().len() {
                            assert(self.slots()[k] == s.slots()[k]);
                        }
                    }
                }
            },
        }
        let ghost m = *self;
        proof {
            assert forall|k: int| m.is_layer(k) implies same_content(#[trigger] m.layer_at(k), s.layer_at(k)) by {
                if s.sup(c as int).is_some() {
                    if k != c as int && k != s.sup(c as int).unwrap() as int {
                        assert(m.slots()[k] == s.slots()[k]);
                    }
                } else {
                    assert(m.slots() == s.with_count(c as int, s.count(c as int) + 1));
                    if k != c as int {
                        assert(m.slots()[k] == s.slots()[k]);
                    }
                }
            }
            assert forall|k: int| #[trigger] m.is_layer(k) == s.is_layer(k) by {
                if s.sup(c as int).is_some() {
                    lemma_same_but_two_basics(s, m, s.sup(c as int).unwrap() as int, c as int);
                } else if 0 <= k < s.slots().len() && k != c as int {
                    assert(m.slots()[k] == s.slots()[k]);
                }
            }
        }
        self.attach(p, c);
        proof {
            lemma_same_but_two_basics(m, *self, p as int, c as int);
            let t = *self;
            assert forall|k: int| t.is_layer(k) implies #[trigger] s.is_layer(k) by {
                assert(m.is_layer(k));
            }
            assert forall|k: int| t.is_layer(k) implies same_content(#[trigger] t.layer_at(k), s.layer_at(k)) by {
                assert(m.is_layer(k));
                assert(same_content(m.layer_at(k), s.layer_at(k)));
                if k != c as int && k != p as int {
                    assert(t.slots()[k] == m.slots()[k]);
                }
            }
        }
        Ok(())
    }

    /// Takes layer `h` out of its slot, with its count.
    fn take_layer(&mut self, h: usize) -> (r: (u64, Layer))
        requires
            old(self).is_layer(h as int),
        ensures
            r.0 == old(self).count(h as int),
            r.1 == old(self).layer_at(h as int),
            final(self).slots() == old(self).slots().update(h as int, None),
    {
        let Object { retain_count, layer } = self.take(h);
        (retain_count, layer.unwrap())
    }

    /// Puts layer `l` with count `n` into slot `h`.
    fn put_layer(&mut self, h: usize, n: u64, l: Layer)
        requires
            h < old(self).slots().len(),
        ensures
            final(self).slots() == old(self).slots().update(
                h as int,
                Some(Object { retain_count: n, layer: Some(l) }),
            ),
    {
        self.put(h, Object { retain_count: n, layer: Some(l) });
    }

    /// Sets the weak reference to the delegate.
    pub fn set_delegate(&mut self, h: usize, v: Option<Delegate>)
        requires
            old(self).wf(),
            old(self).is_layer(h as int),
        ensures
            final(self).wf(),
            final(self).slots() == old(self).with_layer(h as int, Layer { delegate: v, ..old(self).layer_at(h as int) }),
    {
        let ghost s = *self;
        let (n, mut l) = self.take_layer(h);
        l.delegate = v;
        self.put_layer(h, n, l);
        proof {
            assert(self.slots() =~= s.with_layer(h as int, l));
            lemma_wf_replace_layer(s, *self, h as int, l);
        }
    }

    /// Sets the bounds.
    pub fn set_bounds(&mut self, h: usize, v: Rect)
        requires
            old(self).wf(),
            old(self).is_layer(h as int),
        ensures
            final(self).wf(),
            final(self).slots() == old(self).with_layer(h as int, Layer { bounds: v, ..old(self).layer_at(h as int) }),
    {
        let ghost s = *self;
        let (n, mut l) = self.take_layer(h);
        l.bounds = v;
        self.put_layer(h, n, l);
        proof {
            assert(self.slots() =~= s.with_layer(h as int, l));
            lemma_wf_replace_layer(s, *self, h as int, l);
        }
    }

    /// Sets the position, in the superlayer's coordinates.
    pub fn set_position(&mut self, h: usize, v: Point)
        requires
            old(self).wf(),
            old(self).is_layer(h as int),
        ensures
            final(self).wf(),
            final(self).slots() == old(self).with_layer(h as int, Layer { position: v, ..old(self).layer_at(h as int) }),
    {
        let ghost s = *self;
        let (n, mut l) = self.take_layer(h);
        l.position = v;
        self.put_layer(h, n, l);
        proof {
            assert(self.slots() =~= s.with_layer(h as int, l));
            lemma_wf_replace_layer(s, *self, h as int, l);
        }
    }

    /// Sets the anchor point, as a fraction of the bounds.
    pub fn set_anchor_point(&mut self, h: usize, v: Point)
        requires
            old(self).wf(),
            old(self).is_layer(h as int),
        ensures
            final(self).wf(),
            final(self).slots() == old(self).with_layer(h as int, Layer { anchor_point: v, ..old(self).layer_at(h as int) }),
    {
        let ghost s = *self;
        let (n, mut l) = self.take_layer(h);
        l.anchor_point = v;
        self.put_layer(h, n, l);
        proof {
            assert(self.slots() =~= s.with_layer(h as int, l));
            lemma_wf_replace_layer(s, *self, h as int, l);
        }
    }

    /// Sets whether the layer is hidden.
    pub fn set_hidden(&mut self, h: usize, v: bool)
        requires
            old(self).wf(),
            old(self).is_layer(h as int),
        ensures
            final(self).wf(),
            final(self).slots() == old(self).with_layer(h as int, Layer { hidden: v, ..old(self).layer_at(h as int) }),
    {
        let ghost s = *self;
        let (n, mut l) = self.take_layer(h);
        l.hidden = v;
        self.put_layer(h, n, l);
        proof {
            assert(self.slots() =~= s.with_layer(h as int, l));
            lemma_wf_replace_layer(s, *self, h as int, l);
        }
    }

    /// Sets whether the layer is opaque.
    pub fn set_opaque(&mut self, h: usize, v: bool)
        requires
            old(self).wf(),
            old(self).is_layer(h as int),
        ensures
            final(self).wf(),
            final(self).slots() == old(self).with_layer(h as int, Layer { opaque: v, ..old(self).layer_at(h as int) }),
    {
        let ghost s = *self;
        let (n, mut l) = self.take_layer(h);
        l.opaque = v;
        self.put_layer(h, n, l);
        proof {
            assert(self.slots() =~= s.with_layer(h as int, l));
            lemma_wf_replace_layer(s, *self, h as int, l);
        }
    }

    /// Sets the opacity (fixed point, not clamped).
    pub fn set_opacity(&mut self, h: usize, v: i64)
        requires
            old(self).wf(),
            old(self).is_layer(h as int),
        ensures
            final(self).wf(),
            final(self).slots() == old(self).with_layer(h as int, Layer { opacity: v, ..old(self).layer_at(h as int) }),
    {
        let ghost s = *self;
        let (n, mut l) = self.take_layer(h);
        l.opacity = v;
        self.put_layer(h, n, l);
        proof {
            assert(self.slots() =~= s.with_layer(h as int, l));
            lemma_wf_replace_layer(s, *self, h as int, l);
        }
    }

    /// Records the bitmap context created for the layer's drawing.
    pub fn set_context(&mut self, h: usize, v: Option<BitmapContext>)
        requires
            old(self).wf(),
            old(self).is_layer(h as int),
        ensures
            final(self).wf(),
            final(self).slots() == old(self).with_layer(h as int, Layer { context: v, ..old(self).layer_at(h as int) }),
    {
        let ghost s = *self;
        let (n, mut l) = self.take_layer(h);
        l.context = v;
        self.put_layer(h, n, l);
        proof {
            assert(self.slots() =~= s.with_layer(h as int, l));
            lemma_wf_replace_layer(s, *self, h as int, l);
        }
    }

    /// Records the texture that the compositor holds for the layer.
    pub fn set_texture(&mut self, h: usize, v: Option<u32>)
        requires
            old(self).wf(),
            old(self).is_layer(h as int),
        ensures
            final(self).wf(),
            final(self).slots() == old(self).with_layer(h as int, Layer { texture: v, ..old(self).layer_at(h as int) }),
    {
        let ghost s = *self;
        let (n, mut l) = self.take_layer(h);
        l.texture = v;
        self.put_layer(h, n, l);
        proof {
            assert(self.slots() =~= s.with_layer(h as int, l));
            lemma_wf_replace_layer(s, *self, h as int, l);
        }
    }

    /// Records whether the texture matches the bitmap; the compositor sets it after an upload.
    pub fn set_texture_up_to_date(&mut self, h: usize, v: bool)
        requires
            old(self).wf(),
            old(self).is_layer(h as int),
        ensures
            final(self).wf(),
            final(self).slots() == old(self).with_layer(h as int, Layer { texture_up_to_date: v, ..old(self).layer_at(h as int) }),
    {
        let ghost s = *self;
        let (n, mut l) = self.take_layer(h);
        l.texture_up_to_date = v;
        self.put_layer(h, n, l);
        proof {
            assert(self.slots() =~= s.with_layer(h as int, l));
            lemma_wf_replace_layer(s, *self, h as int, l);
        }
    }

    /// Marks the layer as needing display. Idempotent.
    pub fn set_needs_display(&mut self, h: usize)
        requires
            old(self).wf(),
            old(self).is_layer(h as int),
        ensures
            final(self).wf(),
            final(self).slots() == old(self).with_layer(h as int, Layer { needs_display: true, ..old(self).layer_at(h as int) }),
    {
        let ghost s = *self;
        let (n, mut l) = self.take_layer(h);
        l.needs_display = true;
        self.put_layer(h, n, l);
        proof {
            assert(self.slots() =~= s.with_layer(h as int, l));
            lemma_wf_replace_layer(s, *self, h as int, l);
        }
    }

    /// The frame of layer `h` in its superlayer's coordinates; `None` when it
    /// does not fit the coordinate type.
    pub fn frame(&self, h: usize) -> (r: Option<Rect>)
        requires
            self.is_layer(h as int),
        ensures
            ({
                let l = self.layer_at(h as int);
                &&& r.is_some() <==> frame_fits(l.bounds, l.position, l.anchor_point)
                &&& r.is_some() ==> r.unwrap() == frame_spec(l.bounds, l.position, l.anchor_point)
            }),
    {
        let l = self.layer(h);
        frame_of(l.bounds, l.position, l.anchor_point)
    }

    /// Places layer `h` so that its frame is `f`: the position follows from
    /// the anchor point, which is kept, and the bounds become `f`'s size at a
    /// zero origin. Refused, with nothing changed, when the position does not
    /// fit the coordinate type.
    pub fn set_frame(&mut self, h: usize, f: Rect) -> (r: Result<(), TreeError>)
        requires
            old(self).wf(),
            old(self).is_layer(h as int),
        ensures
            final(self).wf(),
            r.is_ok() <==> position_fits(f, old(self).layer_at(h as int).anchor_point),
            r.is_err() ==> r == Err::<(), TreeError>(TreeError::GeometryOverflow)
                && final(self).slots() == old(self).slots(),
            r.is_ok() ==> final(self).slots() == old(self).with_layer(
                h as int,
                Layer {
                    position: position_spec(f, old(self).layer_at(h as int).anchor_point),
                    bounds: bounds_for_frame_spec(f),
                    ..old(self).layer_at(h as int)
                },
            ),
    {
        let anchor = self.layer(h).anchor_point;
        let position = match position_for_frame(f, anchor) {
            Some(p) => p,
            None => return Err(TreeError::GeometryOverflow),
        };
        let ghost s = *self;
        let (n, mut l) = self.take_layer(h);
        l.position = position;
        l.bounds = Rect { origin: Point { x: 0, y: 0 }, size: f.size };
        self.put_layer(h, n, l);
        proof {
            assert(self.slots() =~= s.with_layer(h as int, l));
            lemma_wf_replace_layer(s, *self, h as int, l);
        }
        Ok(())
    }

    /// Whether `pt`, in layer `h`'s own coordinates, lies in its bounds
    /// (half-open on both axes).
    pub fn contains_point(&self, h: usize, pt: Point) -> (r: bool)
        requires
            self.is_layer(h as int),
        ensures
            r == contains_spec(self.layer_at(h as int).bounds, pt),
    {
        rect_contains(self.layer(h).bounds, pt)
    }

    /// Drops one reference to the plain object `o`, freeing it with the last.
    fn release_plain(&mut self, o: usize)
        requires
            old(self).wf(),
            old(self).is_plain(o as int),
        ensures
            final(self).wf(),
            forall|k: int| #[trigger] final(self).is_layer(k) == old(self).is_layer(k),
            forall|k: int| final(self).is_layer(k) ==> #[trigger] final(self).layer_at(k) == old(self).layer_at(k),
            forall|k: int| k != o ==> #[trigger] final(self).count(k) == old(self).count(k),
            final(self).count(o as int) == old(self).count(o as int) - 1,
            final(self).slots().len() == old(self).slots().len(),
    {
        let ghost s = *self;
        if self.count_of(o) > 1 {
            let Object { retain_count, layer } = self.take(o);
            self.put(o, Object { retain_count: retain_count - 1, layer });
            proof {
                assert(self.slots() =~= s.with_count(o as int, s.count(o as int) - 1));
                lemma_wf_count_change(s, *self, o as int, s.count(o as int) - 1);
            }
        } else {
            let _ = self.take(o);
            proof {
                lemma_wf_free_plain(s, *self, o as int);
                let t = *self;
                assert forall|k: int| #[trigger] t.is_layer(k) == s.is_layer(k) by {
                    if k != o && 0 <= k < t.slots().len() {
                        assert(t.slots()[k] == s.slots()[k]);
                    }
                }
                assert forall|k: int| t.is_layer(k) implies #[trigger] t.layer_at(k) == s.layer_at(k) by {
                    assert(t.slots()[k] == s.slots()[k]);
                }
                assert forall|k: int| k != o implies #[trigger] t.count(k) == s.count(k) by {
                    if 0 <= k < t.slots().len() {
                        assert(t.slots()[k] == s.slots()[k]);
                    }
                }
            }
        }
    }

    /// Takes a reference to `acquired` and then drops one to `dropped` (when
    /// it is still live), in that order, so that the two may be the same.
    fn transfer(&mut self, dropped: Option<usize>, acquired: Option<usize>)
        requires
            old(self).wf(),
            acquired.is_some() ==> old(self).is_plain(acquired.unwrap() as int) && old(self).count(
                acquired.unwrap() as int,
            ) < u64::MAX,
            dropped.is_some() ==> !old(self).is_layer(dropped.unwrap() as int),
        ensures
            final(self).wf(),
            forall|k: int| #[trigger] final(self).is_layer(k) == old(self).is_layer(k),
            forall|k: int| final(self).is_layer(k) ==> #[trigger] final(self).layer_at(k) == old(self).layer_at(k),
            forall|k: int| #[trigger] final(self).count(k) == old(self).count(k) + ref_delta(*old(self), k, dropped, acquired),
            final(self).slots().len() == old(self).slots().len(),
    {
        let ghost s = *self;
        if let Some(a) = acquired {
            let _ = self.retain(a);
            proof {
                assert(self.slots() =~= s.with_count(a as int, s.count(a as int) + 1));
                lemma_wf_count_change(s, *self, a as int, s.count(a as int) + 1);
            }
        }
        let ghost m = *self;
        proof {
            assert forall|k: int| #[trigger] m.count(k) == s.count(k) + (if acquired.is_some() && acquired.unwrap() as int == k {
                1int
            } else {
                0int
            }) by {
                if acquired.is_none() {
                    assert(m == s);
                }
            }
        }
        if let Some(d) = dropped {
            if self.holds_object(d) {
                self.release_plain(d);
            }
        }
        proof {
            assert forall|k: int| #[trigger] self.count(k) == s.count(k) + ref_delta(s, k, dropped, acquired) by {
                assert(m.count(k) == s.count(k) + (if acquired.is_some() && acquired.unwrap() as int == k {
                    1int
                } else {
                    0int
                }));
                if dropped.is_some() && dropped.unwrap() as int == k {
                    assert(m.live(k) <==> m.count(k) >= 1);
                    assert(s.live(k) <==> s.count(k) >= 1);
                }
            }
        }
    }

    /// Sets the background color, a plain object or none: the layer takes a
    /// reference to the new color before it drops the one to the old.
    pub fn set_background_color(&mut self, h: usize, color: Option<usize>)
        requires
            old(self).wf(),
            old(self).is_layer(h as int),
            color.is_some() ==> old(self).is_plain(color.unwrap() as int) && old(self).count(
                color.unwrap() as int,
            ) < u64::MAX,
        ensures
            final(self).wf(),
            final(self).is_layer(h as int),
            final(self).layer_at(h as int) == (Layer { background_color: color, ..old(self).layer_at(h as int) }),
            forall|k: int| #[trigger] final(self).is_layer(k) == old(self).is_layer(k),
            forall|k: int| final(self).is_layer(k) && k != h ==> #[trigger] final(self).layer_at(k) == old(self).layer_at(k),
            forall|k: int| #[trigger] final(self).count(k) == old(self).count(k) + ref_delta(
                *old(self),
                k,
                old(self).layer_at(h as int).background_color,
                color,
            ),
    {
        let ghost s = *self;
        let (n, mut l) = self.take_layer(h);
        let previous = l.background_color;
        l.background_color = color;
        self.put_layer(h, n, l);
        proof {
            assert(self.slots() =~= s.with_layer(h as int, l));
            lemma_wf_replace_refs(s, *self, h as int, l);
            lemma_replace_keeps_counts(s, *self, h as int, l);
        }
        self.transfer(previous, color);
    }

    /// Sets the drawable properties, a plain object or none, with the same
    /// order of reference changes as the background color.
    pub fn set_drawable_properties(&mut self, h: usize, props: Option<usize>)
        requires
            old(self).wf(),
            old(self).is_layer(h as int),
            props.is_some() ==> old(self).is_plain(props.unwrap() as int) && old(self).count(
                props.unwrap() as int,
            ) < u64::MAX,
        ensures
            final(self).wf(),
            final(self).is_layer(h as int),
            final(self).layer_at(h as int) == (Layer { drawable_properties: props, ..old(self).layer_at(h as int) }),
            forall|k: int| #[trigger] final(self).is_layer(k) == old(self).is_layer(k),
            forall|k: int| final(self).is_layer(k) && k != h ==> #[trigger] final(self).layer_at(k) == old(self).layer_at(k),
            forall|k: int| #[trigger] final(self).count(k) == old(self).count(k) + ref_delta(
                *old(self),
                k,
                old(self).layer_at(h as int).drawable_properties,
                props,
            ),
    {
        let ghost s = *self;
        let (n, mut l) = self.take_layer(h);
        let previous = l.drawable_properties;
        l.drawable_properties = props;
        self.put_layer(h, n, l);
        proof {
            assert(self.slots() =~= s.with_layer(h as int, l));
            lemma_wf_replace_refs(s, *self, h as int, l);
            lemma_replace_keeps_counts(s, *self, h as int, l);
        }
        self.transfer(previous, props);
    }

    /// Sets the contents, a plain object or none, with the same order of
    /// reference changes as the background color. The texture no longer
    /// matches.
    pub fn set_contents(&mut self, h: usize, contents: Option<usize>)
        requires
            old(self).wf(),
            old(self).is_layer(h as int),
            contents.is_some() ==> old(self).is_plain(contents.unwrap() as int) && old(self).count(
                contents.unwrap() as int,
            ) < u64::MAX,
        ensures
            final(self).wf(),
            final(self).is_layer(h as int),
            final(self).layer_at(h as int) == (Layer {
                contents,
                texture_up_to_date: false,
                ..old(self).layer_at(h as int)
            }),
            forall|k: int| #[trigger] final(self).is_layer(k) == old(self).is_layer(k),
            forall|k: int| final(self).is_layer(k) && k != h ==> #[trigger] final(self).layer_at(k) == old(self).layer_at(k),
            forall|k: int| #[trigger] final(self).count(k) == old(self).count(k) + ref_delta(
                *old(self),
                k,
                old(self).layer_at(h as int).contents,
                contents,
            ),
    {
        let ghost s = *self;
        let (n, mut l) = self.take_layer(h);
        let previous = l.contents;
        l.contents = contents;
        l.texture_up_to_date = false;
        self.put_layer(h, n, l);
        proof {
            assert(self.slots() =~= s.with_layer(h as int, l));
            lemma_wf_replace_refs(s, *self, h as int, l);
            lemma_replace_keeps_counts(s, *self, h as int, l);
        }
        self.transfer(previous, contents);
    }

    /// Clears the layer's dirty flag and says what its display needs: nothing
    /// when it was clean or has no delegate; the delegate's whole-layer
    /// display when it has one; nothing when the delegate only has the
    /// inherited drawing hooks; otherwise a drawing pass into a bitmap context
    /// of the bounds' size rounded to whole pixels, reused when the cached one
    /// has that size. A flag set again during the delegate's callback stays
    /// set for the next pass.
    pub fn display_if_needed(&mut self, h: usize) -> (r: DisplayAction)
        requires
            old(self).wf(),
            old(self).is_layer(h as int),
        ensures
            final(self).wf(),
            r == display_action_spec(old(self).layer_at(h as int)),
            final(self).slots() == old(self).with_layer(
                h as int,
                displayed_layer_spec(old(self).layer_at(h as int)),
            ),
    {
        let ghost s = *self;
        let (n, mut l) = self.take_layer(h);
        let was_dirty = l.needs_display;
        l.needs_display = false;
        let action = if !was_dirty {
            DisplayAction::Clean
        } else {
            match l.delegate {
                None => DisplayAction::NoDelegate,
                Some(d) => match d.capability {
                    DrawingCapability::DisplaysLayer => DisplayAction::DisplayLayer {
                        delegate: d.object,
                    },
                    DrawingCapability::InheritedDrawingOnly => DisplayAction::Skipped {
                        delegate: d.object,
                    },
                    DrawingCapability::DrawsInContext => {
                        l.texture_up_to_date = false;
                        let w = pixel_dim(l.bounds.size.width);
                        let ht = pixel_dim(l.bounds.size.height);
                        let plan = match l.context {
                            Some(c) => {
                                if c.width == w && c.height == ht {
                                    ContextPlan::Reuse(c)
                                } else {
                                    l.context = None;
                                    ContextPlan::Create { width: w, height: ht, stale: Some(c) }
                                }
                            },
                            None => ContextPlan::Create { width: w, height: ht, stale: None },
                        };
                        DisplayAction::Draw { delegate: d.object, context: plan, origin: l.bounds.origin }
                    },
                },
            }
        };
        self.put_layer(h, n, l);
        proof {
            assert(self.slots() =~= s.with_layer(h as int, l));
            lemma_wf_replace_layer(s, *self, h as int, l);
        }
        action
    }

    /// Strong references held on `h`; zero once it is freed.
    pub fn count_of(&self, h: usize) -> (r: u64)
        ensures
            r == self.count(h as int),
    {
        if h < self.objects.len() {
            match &self.objects[h] {
                Some(o) => o.retain_count,
                None => 0,
            }
        } else {
            0
        }
    }

    /// Creates a plain object (a color, an image) held once by the caller.
    pub fn new_object(&mut self) -> (r: usize)
        requires
            old(self).wf(),
        ensures
            final(self).wf(),
            r == old(self).slots().len(),
            final(self).slots() == old(self).slots().push(Some(Object { retain_count: 1, layer: None })),
    {
        self.objects.push(Some(Object { retain_count: 1, layer: None }));
        let r = self.objects.len() - 1;
        proof {
            assert forall|h: int| #[trigger] self.is_layer(h) == old(self).is_layer(h) by {
                if h == r {
                    assert(self.slots()[h] == Some(Object { retain_count: 1, layer: None }));
                } else if 0 <= h < self.slots().len() {
                    assert(self.slots()[h] == old(self).slots()[h]);
                }
            }
            assert forall|h: int| self.live(h) implies #[trigger] self.count(h) >= 1 by {
                if h != r {
                    assert(self.slots()[h] == old(self).slots()[h]);
                    assert(old(self).count(h) >= 1);
                }
            }
            lemma_wf_same_layers(*old(self), *self);
        }
        r
    }
}

} // verus!
