//! General properties of the quadtree, stated and proved once over the
//! abstract tree value.

use vstd::prelude::*;

use crate::boundary::Rect;
use crate::point::{in_circle, Point};
use crate::quadtree::{
    lemma_filter_all, lemma_filter_membership, rect_pred, NodeModel, CAPACITY, MAX_DEPTH,
};

verus! {

/// The tree obtained by inserting the points of `ps` in order into `t`.
pub open spec fn insert_all(t: NodeModel, ps: Seq<Point>) -> NodeModel
    decreases ps.len(),
{
    if ps.len() == 0 {
        t
    } else {
        insert_all(t, ps.drop_last()).spec_insert(ps.last())
    }
}

/// Building a tree from any sequence of contained points yields a
/// well-formed tree on the same rectangle that stores exactly that multiset
/// of points. Together with [`lemma_query_root_returns_all_points`] this is
/// the containment invariant: a rectangle query with the root boundary
/// returns the inserted points, with nothing lost and nothing duplicated.
pub proof fn lemma_insert_all_keeps_every_point(rect: Rect, draw_searched: bool, ps: Seq<Point>)
    requires
        rect.wf(),
        forall|i: int| 0 <= i < ps.len() ==> rect.contains(#[trigger] ps[i]),
    ensures
        insert_all(NodeModel::fresh(rect, draw_searched), ps).wf(),
        insert_all(NodeModel::fresh(rect, draw_searched), ps).rect == rect,
        insert_all(NodeModel::fresh(rect, draw_searched), ps).all_points().to_multiset()
            == ps.to_multiset(),
    decreases ps.len(),
{
    broadcast use vstd::seq_lib::to_multiset_build;

    if ps.len() == 0 {
        assert(NodeModel::fresh(rect, draw_searched).all_points() =~= ps);
    } else {
        let d = ps.drop_last();
        assert(forall|i: int| 0 <= i < d.len() ==> rect.contains(#[trigger] d[i])) by {
            assert(forall|i: int| 0 <= i < d.len() ==> d[i] == ps[i]);
        };
        lemma_insert_all_keeps_every_point(rect, draw_searched, d);
        let prev = insert_all(NodeModel::fresh(rect, draw_searched), d);
        prev.lemma_spec_insert_wf(ps.last());
        prev.lemma_spec_insert_points(ps.last());
        assert(ps =~= d.push(ps.last()));
    }
}

/// Containment invariant: a rectangle query with the tree's own boundary
/// returns every stored point, in storage order — so in particular the same
/// multiset, with nothing lost and nothing duplicated.
pub proof fn lemma_query_root_returns_all_points(t: NodeModel)
    requires
        t.wf(),
    ensures
        t.found_in_rect(t.rect) == t.all_points(),
        t.found_in_rect(t.rect).to_multiset() == t.all_points().to_multiset(),
{
    t.lemma_all_points_in_rect();
    lemma_filter_all(t.all_points(), rect_pred(t.rect));
}

/// Range correctness: a point appears in a rectangle query's result exactly
/// when it is stored in the tree and the rectangle contains it.
pub proof fn lemma_rect_query_membership(t: NodeModel, area: Rect, p: Point)
    requires
        t.wf(),
    ensures
        t.found_in_rect(area).contains(p) <==> t.all_points().contains(p) && area.contains(p),
{
    lemma_filter_membership(t.all_points(), rect_pred(area), p);
}

/// Radius correctness: a point appears in a radius query's result exactly
/// when it is stored in the tree and its squared distance to the centre is
/// at most the squared radius.
pub proof fn lemma_radius_query_membership(t: NodeModel, cx: int, cy: int, r: int, p: Point)
    requires
        t.wf(),
    ensures
        t.found_in_circle(cx, cy, r).contains(p) <==> t.all_points().contains(p) && in_circle(
            p,
            cx,
            cy,
            r,
        ),
{
    lemma_filter_membership(t.all_points(), crate::quadtree::circle_pred(cx, cy, r), p);
}

/// Capacity threshold, lower half: a fresh tree fed at most [`CAPACITY`]
/// contained points never subdivides — it stays a leaf holding exactly
/// those points, in order.
pub proof fn lemma_at_capacity_stays_leaf(rect: Rect, draw_searched: bool, ps: Seq<Point>)
    requires
        rect.wf(),
        ps.len() <= CAPACITY as nat,
        forall|i: int| 0 <= i < ps.len() ==> rect.contains(#[trigger] ps[i]),
    ensures
        insert_all(NodeModel::fresh(rect, draw_searched), ps).children is None,
        insert_all(NodeModel::fresh(rect, draw_searched), ps).items == ps,
        insert_all(NodeModel::fresh(rect, draw_searched), ps).rect == rect,
        insert_all(NodeModel::fresh(rect, draw_searched), ps).depth == 0,
    decreases ps.len(),
{
    let r = insert_all(NodeModel::fresh(rect, draw_searched), ps);
    if ps.len() == 0 {
        assert(r.items =~= ps);
    } else {
        let d = ps.drop_last();
        assert(forall|i: int| 0 <= i < d.len() ==> rect.contains(#[trigger] d[i])) by {
            assert(forall|i: int| 0 <= i < d.len() ==> d[i] == ps[i]);
        };
        lemma_at_capacity_stays_leaf(rect, draw_searched, d);
        let prev = insert_all(NodeModel::fresh(rect, draw_searched), d);
        assert(prev.items.len() < CAPACITY as nat);
        assert(r == prev.with_item(ps.last()));
        assert(r.items =~= ps);
    }
}

/// Capacity threshold, upper half: a fresh tree fed [`CAPACITY`]` + 1`
/// contained points subdivides exactly once — the root keeps its first
/// [`CAPACITY`] points and gains four children that are all still leaves,
/// and no point is lost or duplicated along the way.
pub proof fn lemma_capacity_exceeded_divides_once(rect: Rect, draw_searched: bool, ps: Seq<Point>)
    requires
        rect.wf(),
        ps.len() == CAPACITY as nat + 1,
        forall|i: int| 0 <= i < ps.len() ==> rect.contains(#[trigger] ps[i]),
    ensures
        insert_all(NodeModel::fresh(rect, draw_searched), ps).children is Some,
        insert_all(NodeModel::fresh(rect, draw_searched), ps).items == ps.take(CAPACITY as int),
        insert_all(NodeModel::fresh(rect, draw_searched), ps).children matches Some(kids)
            ==> kids.tl.children is None && kids.tr.children is None && kids.bl.children is None
            && kids.br.children is None,
        insert_all(NodeModel::fresh(rect, draw_searched), ps).all_points() == ps,
{
    let d = ps.drop_last();
    assert(forall|i: int| 0 <= i < d.len() ==> rect.contains(#[trigger] d[i])) by {
        assert(forall|i: int| 0 <= i < d.len() ==> d[i] == ps[i]);
    };
    lemma_at_capacity_stays_leaf(rect, draw_searched, d);
    let prev = insert_all(NodeModel::fresh(rect, draw_searched), d);
    let r = insert_all(NodeModel::fresh(rect, draw_searched), ps);
    assert(prev.items.len() == CAPACITY as nat);
    assert(prev.depth < MAX_DEPTH as nat);
    assert(r == (NodeModel {
        children: Some(Box::new(prev.fresh_kids().place(ps.last()))),
        ..prev
    }));
    assert(r.items =~= ps.take(CAPACITY as int));
    prev.lemma_fresh_place_all_points(ps.last());
    assert(r.all_points() == prev.items.push(ps.last()));
    assert(r.all_points() =~= ps);
}

} // verus!
