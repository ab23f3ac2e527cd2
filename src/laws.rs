use vstd::prelude::*;

use crate::geometry::{
    bounds_for_frame_spec, contains_spec, frame_fits, frame_spec, lemma_frame_round_trip,
    position_fits, position_spec, Point, Rect,
};
use crate::posix_io::{file_of, is_first_free, NORMAL_FILENO_BASE};
use crate::layer_tree::{
    display_action_spec, displayed_layer_spec, ref_delta, DisplayAction, Layer, LayerTree,
};

verus! {

/// After `set_frame(h, f)` succeeds, reading the frame of `h` gives `f` back,
/// whatever the bounds and position were before: the anchor point is kept.
pub proof fn lemma_set_frame_then_frame(s: LayerTree, t: LayerTree, h: int, f: Rect)
    requires
        s.is_layer(h),
        position_fits(f, s.layer_at(h).anchor_point),
        t.slots() == s.with_layer(
            h,
            Layer {
                position: position_spec(f, s.layer_at(h).anchor_point),
                bounds: bounds_for_frame_spec(f),
                ..s.layer_at(h)
            },
        ),
    ensures
        t.is_layer(h),
        t.layer_at(h).anchor_point == s.layer_at(h).anchor_point,
        frame_fits(t.layer_at(h).bounds, t.layer_at(h).position, t.layer_at(h).anchor_point),
        frame_spec(t.layer_at(h).bounds, t.layer_at(h).position, t.layer_at(h).anchor_point) == f,
{
    lemma_frame_round_trip(f, s.layer_at(h).anchor_point);
}

/// In a well-formed tree a layer whose superlayer is `p` appears exactly
/// once among the sublayers of `p`.
pub proof fn lemma_sublayer_once(t: LayerTree, c: int, p: usize)
    requires
        t.wf(),
        t.is_layer(c),
        t.sup(c) == Some(p),
    ensures
        t.is_layer(p as int),
        exists|i: int|
            0 <= i < t.sub(p as int).len() && t.sub(p as int)[i] == c as usize && forall|j: int|
                0 <= j < t.sub(p as int).len() && #[trigger] t.sub(p as int)[j] == c as usize ==> j == i,
{
    assert(t.sub(p as int).contains(c as usize));
    let i = choose|i: int| 0 <= i < t.sub(p as int).len() && t.sub(p as int)[i] == c as usize;
    assert(t.sub(p as int).no_duplicates());
}

/// Adding a sublayer that is already there moves it to the end without
/// duplicating it: the same layers remain, each once, and it is last.
pub proof fn lemma_bring_to_front(subs: Seq<usize>, i: int, c: usize)
    requires
        subs.no_duplicates(),
        0 <= i < subs.len(),
        subs[i] == c,
    ensures
        subs.remove(i).push(c).len() == subs.len(),
        subs.remove(i).push(c).last() == c,
        subs.remove(i).push(c).no_duplicates(),
        forall|x: usize| #[trigger] subs.remove(i).push(c).contains(x) == subs.contains(x),
{
    let r = subs.remove(i).push(c);
    subs.remove_ensures(i);
    assert forall|j: int, k: int| 0 <= j < r.len() && 0 <= k < r.len() && j != k implies r[j]
        != r[k] by {
        let j2 = if j == r.len() - 1 {
            i
        } else if j >= i {
            j + 1
        } else {
            j
        };
        let k2 = if k == r.len() - 1 {
            i
        } else if k >= i {
            k + 1
        } else {
            k
        };
        assert(r[j] == subs[j2]);
        assert(r[k] == subs[k2]);
    }
    assert forall|x: usize| #[trigger] r.contains(x) == subs.contains(x) by {
        if subs.contains(x) {
            let j = choose|j: int| 0 <= j < subs.len() && subs[j] == x;
            if j == i {
                assert(r[r.len() - 1] == x);
            } else if j < i {
                assert(r[j] == x);
            } else {
                assert(r[j - 1] == x);
            }
        }
        if r.contains(x) {
            let j = choose|j: int| 0 <= j < r.len() && r[j] == x;
            if j == r.len() - 1 {
                assert(subs[i] == x);
            } else if j < i {
                assert(subs[j] == x);
            } else {
                assert(subs[j + 1] == x);
            }
        }
    }
}

/// Displaying twice in a row asks for the delegate at most once: the second
/// pass finds the layer clean.
pub proof fn lemma_display_idempotent(l: Layer)
    ensures
        display_action_spec(displayed_layer_spec(l)) == DisplayAction::Clean,
{
}

/// A rectangle of positive size contains its origin and not the corner at
/// `origin + size`.
pub proof fn lemma_contains_half_open(b: Rect)
    requires
        b.size.width > 0,
        b.size.height > 0,
        b.origin.x + b.size.width <= i64::MAX,
        b.origin.y + b.size.height <= i64::MAX,
    ensures
        contains_spec(b, b.origin),
        !contains_spec(
            b,
            Point {
                x: (b.origin.x + b.size.width) as i64,
                y: (b.origin.y + b.size.height) as i64,
            },
        ),
{
}

/// Setting the background color to `x` and then to `y`, another plain
/// object: `x` ends with the count it had before the first assignment, and
/// `y` gains exactly one owner in the second.
pub proof fn lemma_color_replaced(s0: LayerTree, s1: LayerTree, s2: LayerTree, x: usize, y: usize, before: Option<usize>)
    requires
        x != y,
        before != Some(x),
        forall|k: int| #[trigger] s1.count(k) == s0.count(k) + ref_delta(s0, k, before, Some(x)),
        forall|k: int| #[trigger] s2.count(k) == s1.count(k) + ref_delta(s1, k, Some(x), Some(y)),
    ensures
        s2.count(x as int) == s0.count(x as int),
        s2.count(y as int) == s1.count(y as int) + 1,
{
    assert(s1.count(x as int) == s0.count(x as int) + ref_delta(s0, x as int, before, Some(x)));
    assert(s2.count(x as int) == s1.count(x as int) + ref_delta(s1, x as int, Some(x), Some(y)));
    assert(s2.count(y as int) == s1.count(y as int) + ref_delta(s1, y as int, Some(x), Some(y)));
}

/// On a table whose `n` entries are all open files, the open descriptors are
/// exactly those in `[3, 3 + n)`.
pub proof fn lemma_open_descriptors_range<F>(files: Seq<Option<F>>, fd: int)
    requires
        forall|j: int| 0 <= j < files.len() ==> (#[trigger] files[j]).is_some(),
    ensures
        file_of(files, fd).is_some() <==> NORMAL_FILENO_BASE <= fd < NORMAL_FILENO_BASE
            + files.len(),
{
    if NORMAL_FILENO_BASE <= fd < NORMAL_FILENO_BASE + files.len() {
        assert(files[fd - NORMAL_FILENO_BASE].is_some());
    }
}

/// The descriptor that `open` hands out was not open before; afterwards it
/// names the new file, and every other entry of the table is as it was.
pub proof fn lemma_open_fresh_descriptor<F>(before: Seq<Option<F>>, after: Seq<Option<F>>, i: int, opened: Option<F>)
    requires
        opened.is_some(),
        is_first_free(before, i),
        i < before.len() ==> after == before.update(i, opened),
        i == before.len() ==> after == before.push(opened),
    ensures
        file_of(before, i + NORMAL_FILENO_BASE).is_none(),
        file_of(after, i + NORMAL_FILENO_BASE) == opened,
        forall|j: int| 0 <= j < before.len() && j != i ==> #[trigger] after[j] == before[j],
        after.len() >= before.len(),
{
}

} // verus!
