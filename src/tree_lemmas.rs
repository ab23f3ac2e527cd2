//! Proofs that the operations of `LayerTree` keep it well-formed, and that
//! the release of pending references terminates.
use vstd::prelude::*;

use crate::layer_tree::{same_content, same_links, Layer, LayerTree, Object};

verus! {

/// Number of live slots.
pub open spec fn live_count(s: Seq<Option<Object>>) -> nat
    decreases s.len(),
{
    if s.len() == 0 {
        0
    } else {
        live_count(s.drop_last()) + if s.last().is_some() {
            1nat
        } else {
            0nat
        }
    }
}

/// Freeing a live slot lowers the number of live slots by one.
pub(crate) proof fn lemma_live_count_free(s: Seq<Option<Object>>, i: int)
    requires
        0 <= i < s.len(),
        s[i].is_some(),
    ensures
        live_count(s.update(i, None)) + 1 == live_count(s),
    decreases s.len(),
{
    let t = s.update(i, None);
    if i == s.len() - 1 {
        assert(t.drop_last() =~= s.drop_last());
    } else {
        assert(t.drop_last() =~= s.drop_last().update(i, None));
        lemma_live_count_free(s.drop_last(), i);
    }
}

/// Replacing a live slot by another live one keeps the number of live slots.
pub(crate) proof fn lemma_live_count_keep(s: Seq<Option<Object>>, i: int, o: Object)
    requires
        0 <= i < s.len(),
        s[i].is_some(),
    ensures
        live_count(s.update(i, Some(o))) == live_count(s),
    decreases s.len(),
{
    let t = s.update(i, Some(o));
    if i == s.len() - 1 {
        assert(t.drop_last() =~= s.drop_last());
    } else {
        assert(t.drop_last() =~= s.drop_last().update(i, Some(o)));
        lemma_live_count_keep(s.drop_last(), i, o);
    }
}

/// A tree that holds the same layers as a well-formed one, and whose live
/// objects are all held, is well-formed.
pub(crate) proof fn lemma_wf_same_layers(s: LayerTree, t: LayerTree)
    requires
        s.wf(),
        forall|h: int| #[trigger] t.is_layer(h) == s.is_layer(h),
        forall|h: int| t.is_layer(h) ==> same_links(#[trigger] t.layer_at(h), s.layer_at(h)),
        forall|h: int| t.live(h) ==> #[trigger] t.count(h) >= 1,
        t.slots().len() >= s.slots().len(),
        t.slots().len() <= usize::MAX,
    ensures
        t.wf(),
{
    assert forall|p: int, i: int| t.is_layer(p) && 0 <= i < t.sub(p).len() implies {
        let c = #[trigger] t.sub(p)[i];
        t.is_layer(c as int) && t.sup(c as int) == Some(p as usize)
    } by {
        assert(same_links(t.layer_at(p), s.layer_at(p)));
        assert(s.sub(p)[i] == t.sub(p)[i]);
        assert(s.is_layer(t.sub(p)[i] as int));
        assert(same_links(t.layer_at(t.sub(p)[i] as int), s.layer_at(t.sub(p)[i] as int)));
    }
    assert forall|p: int| t.is_layer(p) implies (#[trigger] t.sub(p)).no_duplicates() by {
        assert(same_links(t.layer_at(p), s.layer_at(p)));
        assert(s.sub(p) == t.sub(p));
    }
    assert forall|c: int| t.is_layer(c) && (#[trigger] t.sup(c)).is_some() implies {
        let p = t.sup(c).unwrap() as int;
        t.is_layer(p) && p != c && t.sub(p).contains(c as usize)
    } by {
        assert(same_links(t.layer_at(c), s.layer_at(c)));
        assert(s.sup(c) == t.sup(c));
        assert(s.is_layer(t.sup(c).unwrap() as int));
        assert(same_links(t.layer_at(t.sup(c).unwrap() as int), s.layer_at(t.sup(c).unwrap() as int)));
    }
    assert forall|p: int| #[trigger] t.layer_at(p) == t.layer_at(p) && t.is_layer(p) implies {
        &&& t.plain_or_none(t.layer_at(p).background_color)
        &&& t.plain_or_none(t.layer_at(p).contents)
        &&& t.plain_or_none(t.layer_at(p).drawable_properties)
    } by {
        assert(same_links(t.layer_at(p), s.layer_at(p)));
    }
}

/// Objects other than `h` are the same in `s` and `t`.
pub open spec fn same_except(s: LayerTree, t: LayerTree, h: int) -> bool {
    &&& t.slots().len() == s.slots().len()
    &&& forall|k: int| 0 <= k < s.slots().len() && k != h ==> #[trigger] t.slots()[k] == s.slots()[k]
}

/// Popping a freed object off the waiting list keeps the links in order.
pub(crate) proof fn lemma_pending_shrink(s: LayerTree, h: usize, sp: Seq<usize>)
    requires
        s.links_ok(sp.push(h)),
        s.pending_detached(sp.push(h)),
        !s.live(h as int),
    ensures
        s.links_ok(sp),
        s.pending_detached(sp),
{
    let waiting = sp.push(h);
    assert(waiting[sp.len() as int] == h);
    assert forall|c: int| s.is_layer(c) && (#[trigger] s.sup(c)).is_some() implies {
        let p = s.sup(c).unwrap() as int;
        (s.is_layer(p) && p != c && s.sub(p).contains(c as usize)) || (p < s.slots().len() && !s.live(p)
            && sp.contains(c as usize))
    } by {
        let p = s.sup(c).unwrap() as int;
        if !(s.is_layer(p) && p != c && s.sub(p).contains(c as usize)) {
            let k = choose|k: int| 0 <= k < waiting.len() && waiting[k] == c as usize;
            assert(k != sp.len());
            assert(sp[k] == c as usize);
        }
    }
    assert forall|k: int| 0 <= k < sp.len() && s.is_layer(#[trigger] sp[k] as int) implies {
        let q = s.sup(sp[k] as int);
        q.is_none() || (q.unwrap() < s.slots().len() && !s.live(q.unwrap() as int))
    } by {
        assert(waiting[k] == sp[k]);
    }
}

/// Dropping one of several references to `h`, and detaching it if it is a
/// layer, keeps the links in order.
pub(crate) proof fn lemma_release_keep(s: LayerTree, t: LayerTree, h: usize, sp: Seq<usize>)
    requires
        s.links_ok(sp.push(h)),
        s.pending_detached(sp.push(h)),
        s.live(h as int),
        same_except(s, t, h as int),
        t.live(h as int),
        t.count(h as int) == s.count(h as int) - 1,
        t.count(h as int) >= 1,
        t.is_layer(h as int) == s.is_layer(h as int),
        t.is_layer(h as int) ==> {
            &&& t.sub(h as int) == s.sub(h as int)
            &&& t.sup(h as int).is_none()
            &&& t.layer_at(h as int).background_color == s.layer_at(h as int).background_color
            &&& t.layer_at(h as int).contents == s.layer_at(h as int).contents
            &&& t.layer_at(h as int).drawable_properties == s.layer_at(
                h as int,
            ).drawable_properties
        },
        t.is_layer(h as int) ==> same_content(t.layer_at(h as int), s.layer_at(h as int)),
    ensures
        t.links_ok(sp),
        t.pending_detached(sp),
        forall|k: int| #[trigger] t.count(k) <= s.count(k),
        forall|k: int| t.is_layer(k) ==> #[trigger] s.is_layer(k),
        forall|k: int| t.is_layer(k) ==> same_content(#[trigger] t.layer_at(k), s.layer_at(k)),
        forall|k: int| #[trigger] t.live(k) ==> s.live(k),
        forall|k: int| #[trigger] t.live(k) == s.live(k),
        forall|k: int| t.is_layer(k) ==> #[trigger] t.sub(k) == s.sub(k),
{
    let waiting = sp.push(h);
    let hi = h as int;
    assert(waiting[sp.len() as int] == h);
    assert forall|k: int| t.live(k) implies #[trigger] t.count(k) >= 1 by {
        if k != hi {
            assert(s.count(k) >= 1);
        }
    }
    assert forall|k: int| #[trigger] t.count(k) <= s.count(k) by {
        if k != hi && 0 <= k < s.slots().len() {
            assert(t.slots()[k] == s.slots()[k]);
        }
    }
    assert forall|k: int| #[trigger] t.is_layer(k) == s.is_layer(k) by {
        if k != hi && 0 <= k < s.slots().len() {
            assert(t.slots()[k] == s.slots()[k]);
        }
    }
    assert forall|p: int, i: int| t.is_layer(p) && 0 <= i < t.sub(p).len() implies {
        let c = #[trigger] t.sub(p)[i];
        t.is_layer(c as int) && t.sup(c as int) == Some(p as usize)
    } by {
        if p != hi {
            assert(t.slots()[p] == s.slots()[p]);
        }
        assert(t.sub(p) == s.sub(p));
        let c = s.sub(p)[i];
        assert(s.is_layer(c as int));
        assert(s.sup(c as int) == Some(p as usize));
        if c as int == hi {
            assert(s.is_layer(p));
            assert(false);
        } else {
            assert(t.slots()[c as int] == s.slots()[c as int]);
        }
    }
    assert forall|p: int| t.is_layer(p) implies (#[trigger] t.sub(p)).no_duplicates() by {
        assert(t.sub(p) == s.sub(p));
    }
    assert forall|c: int| t.is_layer(c) && (#[trigger] t.sup(c)).is_some() implies {
        let p = t.sup(c).unwrap() as int;
        (t.is_layer(p) && p != c && t.sub(p).contains(c as usize)) || (p < t.slots().len() && !t.live(p)
            && sp.contains(c as usize))
    } by {
        assert(c != hi);
        assert(t.slots()[c] == s.slots()[c]);
        let p = s.sup(c).unwrap() as int;
        if s.is_layer(p) && p != c && s.sub(p).contains(c as usize) {
            assert(t.is_layer(p));
            assert(t.sub(p) == s.sub(p));
        } else {
            let k = choose|k: int| 0 <= k < waiting.len() && waiting[k] == c as usize;
            assert(k != sp.len());
            assert(sp[k] == c as usize);
            assert(p != hi);
        }
    }
    assert forall|p: int| #[trigger] t.layer_at(p) == t.layer_at(p) && t.is_layer(p) implies {
        &&& t.plain_or_none(t.layer_at(p).background_color)
        &&& t.plain_or_none(t.layer_at(p).contents)
        &&& t.plain_or_none(t.layer_at(p).drawable_properties)
    } by {
        assert(s.is_layer(p));
        let sl = s.layer_at(p);
        let l = t.layer_at(p);
        if p != hi {
            assert(t.slots()[p] == s.slots()[p]);
        }
        assert(l.background_color == sl.background_color);
        assert(l.contents == sl.contents);
        assert(l.drawable_properties == sl.drawable_properties);
        assert(s.plain_or_none(sl.background_color));
        assert(s.plain_or_none(sl.contents));
        assert(s.plain_or_none(sl.drawable_properties));
        if l.background_color.is_some() {
            assert(t.is_layer(l.background_color.unwrap() as int) == s.is_layer(l.background_color.unwrap() as int));
        }
        if l.contents.is_some() {
            assert(t.is_layer(l.contents.unwrap() as int) == s.is_layer(l.contents.unwrap() as int));
        }
        if l.drawable_properties.is_some() {
            assert(t.is_layer(l.drawable_properties.unwrap() as int) == s.is_layer(l.drawable_properties.unwrap() as int));
        }
    }
    assert forall|k: int| 0 <= k < sp.len() && t.is_layer(#[trigger] sp[k] as int) implies {
        let q = t.sup(sp[k] as int);
        q.is_none() || (q.unwrap() < t.slots().len() && !t.live(q.unwrap() as int))
    } by {
        assert(waiting[k] == sp[k]);
        let c = sp[k] as int;
        if c != hi {
            assert(t.slots()[c] == s.slots()[c]);
            let q = s.sup(c);
            if q.is_some() {
                assert(q.unwrap() as int != hi);
            }
        }
    }
}

/// Freeing a plain object that was waiting keeps the links in order.
pub(crate) proof fn lemma_release_free_plain(s: LayerTree, t: LayerTree, h: usize, sp: Seq<usize>)
    requires
        s.links_ok(sp.push(h)),
        s.pending_detached(sp.push(h)),
        s.is_plain(h as int),
        t.slots() == s.slots().update(h as int, None),
    ensures
        t.links_ok(sp),
        t.pending_detached(sp),
        forall|k: int| #[trigger] t.count(k) <= s.count(k),
        forall|k: int| t.is_layer(k) ==> #[trigger] s.is_layer(k),
        forall|k: int| t.is_layer(k) ==> same_content(#[trigger] t.layer_at(k), s.layer_at(k)),
        forall|k: int| #[trigger] t.live(k) ==> s.live(k),
        forall|k: int| t.is_layer(k) ==> #[trigger] t.sub(k) == s.sub(k),
{
    let waiting = sp.push(h);
    let hi = h as int;
    assert(waiting[sp.len() as int] == h);
    assert forall|k: int| t.live(k) implies #[trigger] t.count(k) >= 1 by {
        assert(s.count(k) >= 1);
    }
    assert forall|k: int| #[trigger] t.is_layer(k) == s.is_layer(k) by {
        if k != hi && 0 <= k < s.slots().len() {
            assert(t.slots()[k] == s.slots()[k]);
        }
    }
    assert forall|p: int, i: int| t.is_layer(p) && 0 <= i < t.sub(p).len() implies {
        let c = #[trigger] t.sub(p)[i];
        t.is_layer(c as int) && t.sup(c as int) == Some(p as usize)
    } by {
        assert(p != hi);
        assert(t.slots()[p] == s.slots()[p]);
        assert(t.sub(p) == s.sub(p));
        let c = s.sub(p)[i];
        assert(s.is_layer(c as int));
        assert(c as int != hi);
        assert(t.slots()[c as int] == s.slots()[c as int]);
    }
    assert forall|p: int| t.is_layer(p) implies (#[trigger] t.sub(p)).no_duplicates() by {
        assert(t.sub(p) == s.sub(p));
    }
    assert forall|c: int| t.is_layer(c) && (#[trigger] t.sup(c)).is_some() implies {
        let p = t.sup(c).unwrap() as int;
        (t.is_layer(p) && p != c && t.sub(p).contains(c as usize)) || (p < t.slots().len() && !t.live(p)
            && sp.contains(c as usize))
    } by {
        assert(c != hi);
        let p = s.sup(c).unwrap() as int;
        if s.is_layer(p) && p != c && s.sub(p).contains(c as usize) {
            assert(t.sub(p) == s.sub(p));
        } else {
            let k = choose|k: int| 0 <= k < waiting.len() && waiting[k] == c as usize;
            assert(k != sp.len());
            assert(sp[k] == c as usize);
        }
    }
    assert forall|p: int| #[trigger] t.layer_at(p) == t.layer_at(p) && t.is_layer(p) implies {
        &&& t.plain_or_none(t.layer_at(p).background_color)
        &&& t.plain_or_none(t.layer_at(p).contents)
        &&& t.plain_or_none(t.layer_at(p).drawable_properties)
    } by {
        assert(s.layer_at(p) == t.layer_at(p));
    }
    assert forall|k: int| 0 <= k < sp.len() && t.is_layer(#[trigger] sp[k] as int) implies {
        let q = t.sup(sp[k] as int);
        q.is_none() || (q.unwrap() < t.slots().len() && !t.live(q.unwrap() as int))
    } by {
        assert(waiting[k] == sp[k]);
    }
}

/// Freeing a waiting layer, with its sublayers and other references added to
/// the waiting list, keeps the links in order.
pub(crate) proof fn lemma_release_free_layer(s: LayerTree, t: LayerTree, h: usize, sp: Seq<usize>, np: Seq<usize>)
    requires
        s.links_ok(sp.push(h)),
        s.pending_detached(sp.push(h)),
        s.is_layer(h as int),
        t.slots() == s.slots().update(h as int, None),
        sp.len() <= np.len(),
        forall|k: int| 0 <= k < sp.len() ==> #[trigger] np[k] == sp[k],
        forall|k: int|
            sp.len() <= k < np.len() ==> s.sub(h as int).contains(#[trigger] np[k])
                || !s.is_layer(np[k] as int),
        forall|i: int| 0 <= i < s.sub(h as int).len() ==> np.contains(#[trigger] s.sub(h as int)[i]),
    ensures
        t.links_ok(np),
        t.pending_detached(np),
        forall|k: int| #[trigger] t.count(k) <= s.count(k),
        forall|k: int| t.is_layer(k) ==> #[trigger] s.is_layer(k),
        forall|k: int| t.is_layer(k) ==> same_content(#[trigger] t.layer_at(k), s.layer_at(k)),
        forall|k: int| #[trigger] t.live(k) ==> s.live(k),
        forall|k: int| t.is_layer(k) ==> #[trigger] t.sub(k) == s.sub(k),
{
    let waiting = sp.push(h);
    let hi = h as int;
    assert(waiting[sp.len() as int] == h);
    assert forall|k: int| t.live(k) implies #[trigger] t.count(k) >= 1 by {
        assert(s.count(k) >= 1);
    }
    assert forall|p: int, i: int| t.is_layer(p) && 0 <= i < t.sub(p).len() implies {
        let c = #[trigger] t.sub(p)[i];
        t.is_layer(c as int) && t.sup(c as int) == Some(p as usize)
    } by {
        assert(t.sub(p) == s.sub(p));
        let c = s.sub(p)[i];
        assert(s.is_layer(c as int));
        assert(s.sup(c as int) == Some(p as usize));
        if c as int == hi {
            assert(s.is_layer(p));
        }
    }
    assert forall|p: int| t.is_layer(p) implies (#[trigger] t.sub(p)).no_duplicates() by {
        assert(t.sub(p) == s.sub(p));
    }
    assert forall|c: int| t.is_layer(c) && (#[trigger] t.sup(c)).is_some() implies {
        let p = t.sup(c).unwrap() as int;
        (t.is_layer(p) && p != c && t.sub(p).contains(c as usize)) || (p < t.slots().len() && !t.live(p)
            && np.contains(c as usize))
    } by {
        assert(c != hi);
        let p = s.sup(c).unwrap() as int;
        if s.is_layer(p) && p != c && s.sub(p).contains(c as usize) {
            if p == hi {
                let i = choose|i: int| 0 <= i < s.sub(hi).len() && s.sub(hi)[i] == c as usize;
                assert(np.contains(s.sub(hi)[i]));
            } else {
                assert(t.sub(p) == s.sub(p));
            }
        } else {
            let k = choose|k: int| 0 <= k < waiting.len() && waiting[k] == c as usize;
            assert(k != sp.len());
            assert(np[k] == c as usize);
        }
    }
    assert forall|p: int| #[trigger] t.layer_at(p) == t.layer_at(p) && t.is_layer(p) implies {
        &&& t.plain_or_none(t.layer_at(p).background_color)
        &&& t.plain_or_none(t.layer_at(p).contents)
        &&& t.plain_or_none(t.layer_at(p).drawable_properties)
    } by {
        assert(s.layer_at(p) == t.layer_at(p));
    }
    assert forall|k: int| 0 <= k < np.len() && t.is_layer(#[trigger] np[k] as int) implies {
        let q = t.sup(np[k] as int);
        q.is_none() || (q.unwrap() < t.slots().len() && !t.live(q.unwrap() as int))
    } by {
        let c = np[k] as int;
        if k < sp.len() {
            assert(waiting[k] == sp[k]);
        } else {
            assert(s.sub(hi).contains(np[k]));
            let i = choose|i: int| 0 <= i < s.sub(hi).len() && s.sub(hi)[i] == np[k];
            assert(s.sup(s.sub(hi)[i] as int) == Some(h));
        }
    }
}

/// Objects other than `a` and `b` are the same in `s` and `t`, and `a` and
/// `b` stay live layers with the same counts and plain references.
pub open spec fn same_but_two(s: LayerTree, t: LayerTree, a: int, b: int) -> bool {
    &&& t.slots().len() == s.slots().len()
    &&& forall|k: int|
        0 <= k < s.slots().len() && k != a && k != b ==> #[trigger] t.slots()[k] == s.slots()[k]
    &&& t.is_layer(a) && t.is_layer(b)
    &&& t.count(a) == s.count(a) && t.count(b) == s.count(b)
    &&& t.layer_at(a).background_color == s.layer_at(a).background_color
    &&& t.layer_at(a).contents == s.layer_at(a).contents
    &&& t.layer_at(a).drawable_properties == s.layer_at(a).drawable_properties
    &&& t.layer_at(b).background_color == s.layer_at(b).background_color
    &&& t.layer_at(b).contents == s.layer_at(b).contents
    &&& t.layer_at(b).drawable_properties == s.layer_at(b).drawable_properties
}

/// The parts of well-formedness that do not speak of tree links carry over
/// between trees that differ only in the links of two layers.
pub(crate) proof fn lemma_same_but_two_basics(s: LayerTree, t: LayerTree, a: int, b: int)
    requires
        s.wf(),
        s.is_layer(a),
        s.is_layer(b),
        same_but_two(s, t, a, b),
    ensures
        forall|k: int| #[trigger] t.is_layer(k) == s.is_layer(k),
        forall|k: int| t.live(k) ==> #[trigger] t.count(k) >= 1,
        forall|k: int| #[trigger] t.count(k) == s.count(k),
        forall|p: int|
            #![trigger t.layer_at(p)]
            t.is_layer(p) ==> {
                &&& t.plain_or_none(t.layer_at(p).background_color)
                &&& t.plain_or_none(t.layer_at(p).contents)
                &&& t.plain_or_none(t.layer_at(p).drawable_properties)
            },
        t.slots().len() <= usize::MAX,
{
    assert forall|k: int| #[trigger] t.is_layer(k) == s.is_layer(k) by {
        if k != a && k != b && 0 <= k < s.slots().len() {
            assert(t.slots()[k] == s.slots()[k]);
        }
    }
    assert forall|k: int| #[trigger] t.count(k) == s.count(k) by {
        if k != a && k != b && 0 <= k < s.slots().len() {
            assert(t.slots()[k] == s.slots()[k]);
        }
    }
    assert forall|k: int| t.live(k) implies #[trigger] t.count(k) >= 1 by {
        assert(t.count(k) == s.count(k));
        if k != a && k != b {
            assert(t.slots()[k] == s.slots()[k]);
        }
    }
    assert forall|p: int| #[trigger] t.layer_at(p) == t.layer_at(p) && t.is_layer(p) implies {
        &&& t.plain_or_none(t.layer_at(p).background_color)
        &&& t.plain_or_none(t.layer_at(p).contents)
        &&& t.plain_or_none(t.layer_at(p).drawable_properties)
    } by {
        assert(s.is_layer(p));
        let sl = s.layer_at(p);
        let l = t.layer_at(p);
        if p != a && p != b {
            assert(t.slots()[p] == s.slots()[p]);
        }
        assert(s.plain_or_none(sl.background_color));
        assert(s.plain_or_none(sl.contents));
        assert(s.plain_or_none(sl.drawable_properties));
        if l.background_color.is_some() {
            assert(t.is_layer(l.background_color.unwrap() as int) == s.is_layer(l.background_color.unwrap() as int));
        }
        if l.contents.is_some() {
            assert(t.is_layer(l.contents.unwrap() as int) == s.is_layer(l.contents.unwrap() as int));
        }
        if l.drawable_properties.is_some() {
            assert(t.is_layer(l.drawable_properties.unwrap() as int) == s.is_layer(l.drawable_properties.unwrap() as int));
        }
    }
}

/// Taking `c` out of the sublayers of its superlayer `p` (at index `i`) and
/// clearing its superlayer keeps the tree well-formed.
pub(crate) proof fn lemma_detach(s: LayerTree, t: LayerTree, c: int, p: int, i: int)
    requires
        s.wf(),
        s.is_layer(c),
        s.sup(c) == Some(p as usize),
        0 <= i < s.sub(p).len(),
        s.sub(p)[i] == c as usize,
        same_but_two(s, t, p, c),
        t.sub(p) == s.sub(p).remove(i),
        t.sup(p) == s.sup(p),
        t.sub(c) == s.sub(c),
        t.sup(c).is_none(),
    ensures
        t.wf(),
{
    assert(s.is_layer(p) && p != c);
    lemma_same_but_two_basics(s, t, p, c);
    s.sub(p).remove_ensures(i);
    assert forall|q: int, j: int| t.is_layer(q) && 0 <= j < t.sub(q).len() implies {
        let x = #[trigger] t.sub(q)[j];
        t.is_layer(x as int) && t.sup(x as int) == Some(q as usize)
    } by {
        if q != p && q != c {
            assert(t.slots()[q] == s.slots()[q]);
        }
        let j2 = if q == p && j >= i {
            j + 1
        } else {
            j
        };
        assert(t.sub(q)[j] == s.sub(q)[j2]);
        let x = s.sub(q)[j2] as int;
        assert(s.is_layer(x) && s.sup(x) == Some(q as usize));
        if x == c {
            assert(q == p);
            assert(s.sub(p).no_duplicates());
            assert(false);
        }
        if x != p {
            assert(t.slots()[x] == s.slots()[x]);
        }
    }
    assert forall|q: int| t.is_layer(q) implies (#[trigger] t.sub(q)).no_duplicates() by {
        if q != p && q != c {
            assert(t.slots()[q] == s.slots()[q]);
        }
        assert(s.sub(q).no_duplicates());
        if q == p {
            assert forall|j: int, k: int|
                0 <= j < t.sub(p).len() && 0 <= k < t.sub(p).len() && j != k implies t.sub(p)[j]
                != t.sub(p)[k] by {
                let j2 = if j >= i {
                    j + 1
                } else {
                    j
                };
                let k2 = if k >= i {
                    k + 1
                } else {
                    k
                };
                assert(t.sub(p)[j] == s.sub(p)[j2]);
                assert(t.sub(p)[k] == s.sub(p)[k2]);
            }
        }
    }
    assert forall|x: int| t.is_layer(x) && (#[trigger] t.sup(x)).is_some() implies {
        let q = t.sup(x).unwrap() as int;
        t.is_layer(q) && q != x && t.sub(q).contains(x as usize)
    } by {
        assert(x != c);
        if x != p {
            assert(t.slots()[x] == s.slots()[x]);
        }
        let q = s.sup(x).unwrap() as int;
        assert(s.is_layer(q) && q != x && s.sub(q).contains(x as usize));
        let j = choose|j: int| 0 <= j < s.sub(q).len() && s.sub(q)[j] == x as usize;
        if q == p {
            assert(j != i);
            let j2 = if j > i {
                j - 1
            } else {
                j
            };
            assert(t.sub(p)[j2] == x as usize);
        } else if q != c {
            assert(t.slots()[q] == s.slots()[q]);
            assert(t.sub(q)[j] == x as usize);
        } else {
            assert(t.sub(q)[j] == x as usize);
        }
    }
}

/// Appending a detached layer `c` to the sublayers of `p` and making `p` its
/// superlayer keeps the tree well-formed.
pub(crate) proof fn lemma_attach(s: LayerTree, t: LayerTree, p: int, c: int)
    requires
        s.wf(),
        s.is_layer(p),
        s.is_layer(c),
        p != c,
        s.sup(c).is_none(),
        same_but_two(s, t, p, c),
        t.sub(p) == s.sub(p).push(c as usize),
        t.sup(p) == s.sup(p),
        t.sub(c) == s.sub(c),
        t.sup(c) == Some(p as usize),
    ensures
        t.wf(),
{
    lemma_same_but_two_basics(s, t, p, c);
    assert forall|q: int, j: int| t.is_layer(q) && 0 <= j < t.sub(q).len() implies {
        let x = #[trigger] t.sub(q)[j];
        t.is_layer(x as int) && t.sup(x as int) == Some(q as usize)
    } by {
        if q != p && q != c {
            assert(t.slots()[q] == s.slots()[q]);
        }
        if q == p && j == s.sub(p).len() {
        } else {
            assert(t.sub(q)[j] == s.sub(q)[j]);
            let x = s.sub(q)[j] as int;
            assert(s.is_layer(x) && s.sup(x) == Some(q as usize));
            if x != p && x != c {
                assert(t.slots()[x] == s.slots()[x]);
            }
        }
    }
    assert forall|q: int| t.is_layer(q) implies (#[trigger] t.sub(q)).no_duplicates() by {
        if q != p && q != c {
            assert(t.slots()[q] == s.slots()[q]);
        }
        assert(s.sub(q).no_duplicates());
        if q == p {
            assert forall|j: int| 0 <= j < s.sub(p).len() implies s.sub(p)[j] != c as usize by {
                let x = s.sub(p)[j] as int;
                assert(s.sup(x) == Some(p as usize));
            }
            assert forall|j: int, k: int|
                0 <= j < t.sub(p).len() && 0 <= k < t.sub(p).len() && j != k implies t.sub(p)[j]
                != t.sub(p)[k] by {
                if j < s.sub(p).len() {
                    assert(t.sub(p)[j] == s.sub(p)[j]);
                }
                if k < s.sub(p).len() {
                    assert(t.sub(p)[k] == s.sub(p)[k]);
                }
            }
        }
    }
    assert forall|x: int| t.is_layer(x) && (#[trigger] t.sup(x)).is_some() implies {
        let q = t.sup(x).unwrap() as int;
        t.is_layer(q) && q != x && t.sub(q).contains(x as usize)
    } by {
        if x == c {
            assert(t.sub(p)[s.sub(p).len() as int] == c as usize);
        } else {
            if x != p {
                assert(t.slots()[x] == s.slots()[x]);
            }
            let q = s.sup(x).unwrap() as int;
            assert(s.is_layer(q) && q != x && s.sub(q).contains(x as usize));
            let j = choose|j: int| 0 <= j < s.sub(q).len() && s.sub(q)[j] == x as usize;
            if q != p && q != c {
                assert(t.slots()[q] == s.slots()[q]);
            }
            assert(t.sub(q)[j] == x as usize);
        }
    }
}

/// Replacing a layer by one with the same links and references keeps the
/// tree well-formed.
pub(crate) proof fn lemma_wf_replace_layer(s: LayerTree, t: LayerTree, h: int, l: Layer)
    requires
        s.wf(),
        s.is_layer(h),
        same_links(l, s.layer_at(h)),
        t.slots() == s.with_layer(h, l),
    ensures
        t.wf(),
{
    assert forall|k: int| #[trigger] t.is_layer(k) == s.is_layer(k) by {
        if k != h && 0 <= k < t.slots().len() {
            assert(t.slots()[k] == s.slots()[k]);
        }
    }
    assert forall|k: int| t.is_layer(k) implies same_links(#[trigger] t.layer_at(k), s.layer_at(k)) by {
        if k != h {
            assert(t.slots()[k] == s.slots()[k]);
        }
    }
    assert forall|k: int| t.live(k) implies #[trigger] t.count(k) >= 1 by {
        assert(s.count(k) >= 1);
        if k != h {
            assert(t.slots()[k] == s.slots()[k]);
        }
    }
    lemma_wf_same_layers(s, t);
}

/// Freeing a plain object that nothing else holds keeps the tree well-formed.
pub(crate) proof fn lemma_wf_free_plain(s: LayerTree, t: LayerTree, h: int)
    requires
        s.wf(),
        s.is_plain(h),
        t.slots() == s.slots().update(h, None),
    ensures
        t.wf(),
{
    assert(Seq::<usize>::empty().push(h as usize).drop_last() =~= Seq::<usize>::empty());
    assert forall|c: int| s.is_layer(c) && (#[trigger] s.sup(c)).is_some() implies {
        let p = s.sup(c).unwrap() as int;
        (s.is_layer(p) && p != c && s.sub(p).contains(c as usize)) || (p < s.slots().len()
            && !s.live(p) && Seq::<usize>::empty().push(h as usize).contains(c as usize))
    } by {
    }
    lemma_release_free_plain(s, t, h as usize, Seq::<usize>::empty());
}

/// Changing the count of a live object to another positive count keeps the
/// tree well-formed and every layer as it was.
pub(crate) proof fn lemma_wf_count_change(s: LayerTree, t: LayerTree, h: int, n: int)
    requires
        s.wf(),
        s.live(h),
        1 <= n <= u64::MAX,
        t.slots() == s.with_count(h, n),
    ensures
        t.wf(),
        forall|k: int| #[trigger] t.is_layer(k) == s.is_layer(k),
        forall|k: int| t.is_layer(k) ==> #[trigger] t.layer_at(k) == s.layer_at(k),
        forall|k: int| k != h ==> #[trigger] t.count(k) == s.count(k),
        t.count(h) == n,
{
    assert forall|k: int| #[trigger] t.is_layer(k) == s.is_layer(k) by {
        if k != h && 0 <= k < t.slots().len() {
            assert(t.slots()[k] == s.slots()[k]);
        }
    }
    assert forall|k: int| t.is_layer(k) implies #[trigger] t.layer_at(k) == s.layer_at(k) by {
        if k != h {
            assert(t.slots()[k] == s.slots()[k]);
        }
    }
    assert forall|k: int| t.is_layer(k) implies same_links(#[trigger] t.layer_at(k), s.layer_at(k)) by {
        assert(t.layer_at(k) == s.layer_at(k));
    }
    assert forall|k: int| k != h implies #[trigger] t.count(k) == s.count(k) by {
        if 0 <= k < t.slots().len() {
            assert(t.slots()[k] == s.slots()[k]);
        }
    }
    assert forall|k: int| t.live(k) implies #[trigger] t.count(k) >= 1 by {
        if k != h {
            assert(t.slots()[k] == s.slots()[k]);
            assert(s.count(k) >= 1);
        }
    }
    lemma_wf_same_layers(s, t);
}

/// Replacing layer `h` keeps every count, which layers exist and every
/// other layer.
pub(crate) proof fn lemma_replace_keeps_counts(s: LayerTree, t: LayerTree, h: int, l: Layer)
    requires
        s.is_layer(h),
        t.slots() == s.with_layer(h, l),
    ensures
        forall|k: int| #[trigger] t.count(k) == s.count(k),
        forall|k: int| #[trigger] t.is_layer(k) == s.is_layer(k),
        forall|k: int| t.is_layer(k) && k != h ==> #[trigger] t.layer_at(k) == s.layer_at(k),
        t.layer_at(h) == l,
        forall|k: int| #[trigger] t.live(k) == s.live(k),
{
    assert forall|k: int| #[trigger] t.count(k) == s.count(k) by {
        if k != h && 0 <= k < t.slots().len() {
            assert(t.slots()[k] == s.slots()[k]);
        }
    }
    assert forall|k: int| #[trigger] t.is_layer(k) == s.is_layer(k) by {
        if k != h && 0 <= k < t.slots().len() {
            assert(t.slots()[k] == s.slots()[k]);
        }
    }
    assert forall|k: int| #[trigger] t.live(k) == s.live(k) by {
        if k != h && 0 <= k < t.slots().len() {
            assert(t.slots()[k] == s.slots()[k]);
        }
    }
    assert forall|k: int| t.is_layer(k) && k != h implies #[trigger] t.layer_at(k) == s.layer_at(k) by {
        assert(t.slots()[k] == s.slots()[k]);
    }
}

/// Replacing a layer by one with the same tree links, whose references are
/// to plain objects or none, keeps the tree well-formed.
pub(crate) proof fn lemma_wf_replace_refs(s: LayerTree, t: LayerTree, h: int, l: Layer)
    requires
        s.wf(),
        s.is_layer(h),
        l.sublayers@ == s.sub(h),
        l.superlayer == s.sup(h),
        s.plain_or_none(l.background_color),
        s.plain_or_none(l.contents),
        s.plain_or_none(l.drawable_properties),
        t.slots() == s.with_layer(h, l),
    ensures
        t.wf(),
{
    lemma_replace_keeps_counts(s, t, h, l);
    assert forall|p: int, i: int| t.is_layer(p) && 0 <= i < t.sub(p).len() implies {
        let c = #[trigger] t.sub(p)[i];
        t.is_layer(c as int) && t.sup(c as int) == Some(p as usize)
    } by {
        assert(t.sub(p) == s.sub(p));
        let c = s.sub(p)[i] as int;
        assert(s.is_layer(c));
        if c != h {
            assert(t.layer_at(c) == s.layer_at(c));
        }
    }
    assert forall|p: int| t.is_layer(p) implies (#[trigger] t.sub(p)).no_duplicates() by {
        assert(t.sub(p) == s.sub(p));
    }
    assert forall|c: int| t.is_layer(c) && (#[trigger] t.sup(c)).is_some() implies {
        let p = t.sup(c).unwrap() as int;
        t.is_layer(p) && p != c && t.sub(p).contains(c as usize)
    } by {
        assert(t.sup(c) == s.sup(c));
        let p = s.sup(c).unwrap() as int;
        assert(s.is_layer(p));
        assert(t.sub(p) == s.sub(p));
    }
    assert forall|k: int| t.live(k) implies #[trigger] t.count(k) >= 1 by {
        assert(s.count(k) >= 1);
    }
    assert forall|p: int| #[trigger] t.layer_at(p) == t.layer_at(p) && t.is_layer(p) implies {
        &&& t.plain_or_none(t.layer_at(p).background_color)
        &&& t.plain_or_none(t.layer_at(p).contents)
        &&& t.plain_or_none(t.layer_at(p).drawable_properties)
    } by {
        if p != h {
            assert(s.layer_at(p) == t.layer_at(p));
        }
    }
}

} // verus!
