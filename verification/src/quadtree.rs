//! The quadtree: a recursive spatial index of points.
//!
//! Every node owns a boundary and up to [`CAPACITY`] points; an insertion
//! into a full node subdivides it into four quadrant children (unless the
//! node is already [`MAX_DEPTH`] levels deep, in which case it simply keeps
//! the excess points, so that coincident points cannot force unbounded
//! subdivision). Points already stored in a node never migrate into the
//! children; only later insertions descend.
//!
//! The abstract value of a tree is a [`NodeModel`]: the same shape with the
//! transient search marker stripped away. Every operation's contract is
//! stated over that model.

use vstd::prelude::*;

use crate::boundary::{QuadTreeBoundary, QuadTreeError, Rect};
use crate::point::{in_circle, Point};

verus! {

/// Maximum number of points a node stores locally before an insertion
/// subdivides it.
pub const CAPACITY: usize = 5;

/// Maximum subdivision depth. A node at this depth keeps every point handed
/// to it instead of subdividing, so that more than [`CAPACITY`] coincident
/// points cannot force unbounded subdivision.
pub const MAX_DEPTH: u32 = 32;

/// Abstract value of the four children of a subdivided node.
#[verifier::ext_equal]
pub struct QuadrantsModel {
    pub tl: NodeModel,
    pub tr: NodeModel,
    pub bl: NodeModel,
    pub br: NodeModel,
}

/// Abstract value of a tree node: its rectangle, its depth, whether radius
/// lookups mark the nodes they visit, the points stored locally (in
/// insertion order), and the children, present all four at once or not at
/// all.
#[verifier::ext_equal]
pub struct NodeModel {
    pub rect: Rect,
    pub depth: nat,
    pub draw_searched: bool,
    pub items: Seq<Point>,
    pub children: Option<Box<QuadrantsModel>>,
}

/// The predicate a rectangle query applies to each stored point.
pub open spec fn rect_pred(area: Rect) -> spec_fn(Point) -> bool {
    |p: Point| area.contains(p)
}

/// The predicate a radius query applies to each stored point.
pub open spec fn circle_pred(cx: int, cy: int, r: int) -> spec_fn(Point) -> bool {
    |p: Point| in_circle(p, cx, cy, r)
}

impl NodeModel {
    /// A freshly constructed root: empty, undivided, at depth zero.
    pub open spec fn fresh(rect: Rect, draw_searched: bool) -> NodeModel {
        NodeModel { rect, depth: 0, draw_searched, items: Seq::empty(), children: None }
    }

    /// Well-formedness: the rectangle is valid, the depth is bounded, every
    /// locally stored point lies inside the rectangle, and the children (if
    /// present) sit one level deeper on the four quadrants of this
    /// rectangle. A node that still can subdivide holds at most
    /// [`CAPACITY`] points, and a subdivided node holds exactly that many:
    /// its first [`CAPACITY`] points stay with it forever.
    pub open spec fn wf(self) -> bool
        decreases self,
    {
        &&& self.rect.wf()
        &&& self.depth <= MAX_DEPTH as nat
        &&& forall|i: int| 0 <= i < self.items.len() ==> self.rect.contains(#[trigger] self.items[i])
        &&& match self.children {
            None => self.depth < MAX_DEPTH as nat ==> self.items.len() <= CAPACITY as nat,
            Some(kids) => {
                &&& self.items.len() == CAPACITY as nat
                &&& self.depth < MAX_DEPTH as nat
                &&& kids.tl.depth == self.depth + 1
                &&& kids.tr.depth == self.depth + 1
                &&& kids.bl.depth == self.depth + 1
                &&& kids.br.depth == self.depth + 1
                &&& kids.tl.rect == self.rect.top_left_quad()
                &&& kids.tr.rect == self.rect.top_right_quad()
                &&& kids.bl.rect == self.rect.bottom_left_quad()
                &&& kids.br.rect == self.rect.bottom_right_quad()
                &&& kids.tl.wf()
                &&& kids.tr.wf()
                &&& kids.bl.wf()
                &&& kids.br.wf()
            },
        }
    }

    /// Every point stored in the subtree, in traversal order: a node's own
    /// points first, then the four children's points in quadrant order.
    pub open spec fn all_points(self) -> Seq<Point>
        decreases self,
    {
        match self.children {
            None => self.items,
            Some(kids) => self.items + kids.tl.all_points() + kids.tr.all_points()
                + kids.bl.all_points() + kids.br.all_points(),
        }
    }

    /// What a rectangle query returns: the stored points inside `area`, in
    /// traversal order.
    pub open spec fn found_in_rect(self, area: Rect) -> Seq<Point> {
        self.all_points().filter(rect_pred(area))
    }

    /// What a radius query returns: the stored points within distance `r`
    /// of `(cx, cy)`, in traversal order.
    pub open spec fn found_in_circle(self, cx: int, cy: int, r: int) -> Seq<Point> {
        self.all_points().filter(circle_pred(cx, cy, r))
    }

    /// The rectangles of every subdivided node, in traversal order.
    pub open spec fn divided_rects(self) -> Seq<Rect>
        decreases self,
    {
        match self.children {
            None => Seq::empty(),
            Some(kids) => seq![self.rect] + kids.tl.divided_rects() + kids.tr.divided_rects()
                + kids.bl.divided_rects() + kids.br.divided_rects(),
        }
    }

    /// This node with one more point appended locally.
    pub open spec fn with_item(self, item: Point) -> NodeModel {
        NodeModel { items: self.items.push(item), ..self }
    }

    /// An empty child of this node on the given rectangle.
    pub open spec fn fresh_child(self, rect: Rect) -> NodeModel {
        NodeModel {
            rect,
            depth: (self.depth + 1) as nat,
            draw_searched: self.draw_searched,
            items: Seq::empty(),
            children: None,
        }
    }

    /// The four empty children subdivision creates: one per quadrant.
    pub open spec fn fresh_kids(self) -> QuadrantsModel {
        QuadrantsModel {
            tl: self.fresh_child(self.rect.top_left_quad()),
            tr: self.fresh_child(self.rect.top_right_quad()),
            bl: self.fresh_child(self.rect.bottom_left_quad()),
            br: self.fresh_child(self.rect.bottom_right_quad()),
        }
    }

    /// This node subdivided: same points, four fresh children.
    pub open spec fn spec_divide(self) -> NodeModel {
        NodeModel { children: Some(Box::new(self.fresh_kids())), ..self }
    }

    /// What `insert` does to a tree that contains the point: append locally
    /// while below capacity; once full, subdivide (unless at maximum depth,
    /// where the point is kept locally) and pass the point to the first
    /// quadrant that contains it, in the fixed order top-left, top-right,
    /// bottom-left, bottom-right.
    pub open spec fn spec_insert(self, item: Point) -> NodeModel
        decreases self,
    {
        if self.items.len() < CAPACITY as nat {
            self.with_item(item)
        } else {
            match self.children {
                None => {
                    if self.depth >= MAX_DEPTH as nat {
                        self.with_item(item)
                    } else {
                        NodeModel {
                            children: Some(Box::new(self.fresh_kids().place(item))),
                            ..self
                        }
                    }
                },
                Some(kids) => NodeModel { children: Some(Box::new(kids.descend(item))), ..self },
            }
        }
    }
}

impl QuadrantsModel {
    /// Append the point to the first child that contains it, in the fixed
    /// quadrant order.
    pub open spec fn place(self, item: Point) -> QuadrantsModel {
        if self.tl.rect.contains(item) {
            QuadrantsModel { tl: self.tl.with_item(item), ..self }
        } else if self.tr.rect.contains(item) {
            QuadrantsModel { tr: self.tr.with_item(item), ..self }
        } else if self.bl.rect.contains(item) {
            QuadrantsModel { bl: self.bl.with_item(item), ..self }
        } else {
            QuadrantsModel { br: self.br.with_item(item), ..self }
        }
    }

    /// Insert the point into the first child that contains it, in the fixed
    /// quadrant order.
    pub open spec fn descend(self, item: Point) -> QuadrantsModel
        decreases self,
    {
        if self.tl.rect.contains(item) {
            QuadrantsModel { tl: self.tl.spec_insert(item), ..self }
        } else if self.tr.rect.contains(item) {
            QuadrantsModel { tr: self.tr.spec_insert(item), ..self }
        } else if self.bl.rect.contains(item) {
            QuadrantsModel { bl: self.bl.spec_insert(item), ..self }
        } else {
            QuadrantsModel { br: self.br.spec_insert(item), ..self }
        }
    }
}

impl NodeModel {
    /// Every point of the subtree lies inside the subtree's rectangle.
    pub proof fn lemma_all_points_in_rect(self)
        requires
            self.wf(),
        ensures
            forall|i: int|
                0 <= i < self.all_points().len() ==> self.rect.contains(
                    #[trigger] self.all_points()[i],
                ),
        decreases self,
    {
        match self.children {
            None => {},
            Some(kids) => {
                kids.tl.lemma_all_points_in_rect();
                kids.tr.lemma_all_points_in_rect();
                kids.bl.lemma_all_points_in_rect();
                kids.br.lemma_all_points_in_rect();
                crate::boundary::lemma_quadrant_partition(self.rect);
                let s = self.all_points();
                let n0 = self.items.len() as int;
                let n1 = n0 + kids.tl.all_points().len();
                let n2 = n1 + kids.tr.all_points().len();
                let n3 = n2 + kids.bl.all_points().len();
                assert forall|i: int| 0 <= i < s.len() implies self.rect.contains(
                    #[trigger] s[i],
                ) by {
                    if i < n0 {
                        assert(s[i] == self.items[i]);
                    } else if i < n1 {
                        assert(s[i] == kids.tl.all_points()[i - n0]);
                    } else if i < n2 {
                        assert(s[i] == kids.tr.all_points()[i - n1]);
                    } else if i < n3 {
                        assert(s[i] == kids.bl.all_points()[i - n2]);
                    } else {
                        assert(s[i] == kids.br.all_points()[i - n3]);
                    }
                };
            },
        }
    }

    /// Inserting a contained point keeps the tree well formed and leaves
    /// its rectangle, depth and configuration unchanged; the node ends up
    /// subdivided exactly when it already was, or was full and still
    /// allowed to subdivide.
    pub proof fn lemma_spec_insert_wf(self, item: Point)
        requires
            self.wf(),
            self.rect.contains(item),
        ensures
            self.spec_insert(item).wf(),
            self.spec_insert(item).rect == self.rect,
            self.spec_insert(item).depth == self.depth,
            self.spec_insert(item).draw_searched == self.draw_searched,
            self.spec_insert(item).children is Some <==> (self.children is Some || (
            self.items.len() >= CAPACITY as nat && self.depth < MAX_DEPTH as nat)),
        decreases self,
    {
        let res = self.spec_insert(item);
        if self.items.len() < CAPACITY as nat {
            assert(res.wf());
        } else {
            match self.children {
                None => {
                    if self.depth >= MAX_DEPTH as nat {
                        assert(res.wf());
                    } else {
                        crate::boundary::lemma_quadrant_partition(self.rect);
                        let fk = self.fresh_kids();
                        assert(fk.tl.wf());
                        assert(fk.tr.wf());
                        assert(fk.bl.wf());
                        assert(fk.br.wf());
                        if fk.tl.rect.contains(item) {
                            assert(fk.tl.with_item(item).wf());
                        } else if fk.tr.rect.contains(item) {
                            assert(fk.tr.with_item(item).wf());
                        } else if fk.bl.rect.contains(item) {
                            assert(fk.bl.with_item(item).wf());
                        } else {
                            assert(fk.br.rect.contains(item));
                            assert(fk.br.with_item(item).wf());
                        }
                        assert(res.wf());
                    }
                },
                Some(kids) => {
                    crate::boundary::lemma_quadrant_partition(self.rect);
                    if kids.tl.rect.contains(item) {
                        kids.tl.lemma_spec_insert_wf(item);
                    } else if kids.tr.rect.contains(item) {
                        kids.tr.lemma_spec_insert_wf(item);
                    } else if kids.bl.rect.contains(item) {
                        kids.bl.lemma_spec_insert_wf(item);
                    } else {
                        assert(kids.br.rect.contains(item));
                        kids.br.lemma_spec_insert_wf(item);
                    }
                    assert(res.wf());
                },
            }
        }
    }

    /// Subdividing a full node and placing one more point keeps exactly the
    /// node's points plus that point, in order.
    pub proof fn lemma_fresh_place_all_points(self, item: Point)
        ensures
            (NodeModel {
                children: Some(Box::new(self.fresh_kids().place(item))),
                ..self
            }).all_points() == self.items.push(item),
    {
        let fk = self.fresh_kids();
        let pk = fk.place(item);
        let res = NodeModel { children: Some(Box::new(pk)), ..self };
        assert(res.all_points() == self.items + pk.tl.all_points() + pk.tr.all_points()
            + pk.bl.all_points() + pk.br.all_points());
        if fk.tl.rect.contains(item) {
            assert(pk.tl.all_points() == Seq::<Point>::empty().push(item));
            assert(pk.tr.all_points() == Seq::<Point>::empty());
            assert(pk.bl.all_points() == Seq::<Point>::empty());
            assert(pk.br.all_points() == Seq::<Point>::empty());
        } else if fk.tr.rect.contains(item) {
            assert(pk.tl.all_points() == Seq::<Point>::empty());
            assert(pk.tr.all_points() == Seq::<Point>::empty().push(item));
            assert(pk.bl.all_points() == Seq::<Point>::empty());
            assert(pk.br.all_points() == Seq::<Point>::empty());
        } else if fk.bl.rect.contains(item) {
            assert(pk.tl.all_points() == Seq::<Point>::empty());
            assert(pk.tr.all_points() == Seq::<Point>::empty());
            assert(pk.bl.all_points() == Seq::<Point>::empty().push(item));
            assert(pk.br.all_points() == Seq::<Point>::empty());
        } else {
            assert(pk.tl.all_points() == Seq::<Point>::empty());
            assert(pk.tr.all_points() == Seq::<Point>::empty());
            assert(pk.bl.all_points() == Seq::<Point>::empty());
            assert(pk.br.all_points() == Seq::<Point>::empty().push(item));
        }
        assert(res.all_points() =~= self.items.push(item));
    }

    /// Inserting a contained point adds exactly that point to the stored
    /// multiset: nothing is lost, nothing else appears.
    pub proof fn lemma_spec_insert_points(self, item: Point)
        requires
            self.wf(),
            self.rect.contains(item),
        ensures
            self.spec_insert(item).all_points().to_multiset() == self.all_points().to_multiset().insert(
                item,
            ),
        decreases self,
    {
        broadcast use vstd::seq_lib::lemma_multiset_commutative;
        broadcast use vstd::seq_lib::to_multiset_build;
        broadcast use vstd::multiset::group_multiset_axioms;

        let res = self.spec_insert(item);
        if self.items.len() < CAPACITY as nat {
            assert(res.all_points() =~= self.items.push(item));
        } else {
            match self.children {
                None => {
                    if self.depth >= MAX_DEPTH as nat {
                        assert(res.all_points() =~= self.items.push(item));
                    } else {
                        self.lemma_fresh_place_all_points(item);
                        assert(res.all_points() == self.items.push(item));
                    }
                },
                Some(kids) => {
                    let a = kids.tl.all_points();
                    let b = kids.tr.all_points();
                    let c = kids.bl.all_points();
                    let d = kids.br.all_points();
                    if kids.tl.rect.contains(item) {
                        kids.tl.lemma_spec_insert_points(item);
                        let a2 = kids.tl.spec_insert(item).all_points();
                        assert(res.all_points() == self.items + a2 + b + c + d);
                        assert((self.items + a2 + b + c + d).to_multiset() =~= (self.items + a + b
                            + c + d).to_multiset().insert(item));
                    } else if kids.tr.rect.contains(item) {
                        kids.tr.lemma_spec_insert_points(item);
                        let b2 = kids.tr.spec_insert(item).all_points();
                        assert(res.all_points() == self.items + a + b2 + c + d);
                        assert((self.items + a + b2 + c + d).to_multiset() =~= (self.items + a + b
                            + c + d).to_multiset().insert(item));
                    } else if kids.bl.rect.contains(item) {
                        kids.bl.lemma_spec_insert_points(item);
                        let c2 = kids.bl.spec_insert(item).all_points();
                        assert(res.all_points() == self.items + a + b + c2 + d);
                        assert((self.items + a + b + c2 + d).to_multiset() =~= (self.items + a + b
                            + c + d).to_multiset().insert(item));
                    } else {
                        kids.br.lemma_spec_insert_points(item);
                        let d2 = kids.br.spec_insert(item).all_points();
                        assert(res.all_points() == self.items + a + b + c + d2);
                        assert((self.items + a + b + c + d2).to_multiset() =~= (self.items + a + b
                            + c + d).to_multiset().insert(item));
                    }
                },
            }
        }
    }
}

/// Appending one element extends a filtered sequence by that element when
/// it satisfies the predicate, and leaves it unchanged when it does not.
pub(crate) proof fn lemma_filter_push(s: Seq<Point>, pred: spec_fn(Point) -> bool, x: Point)
    ensures
        pred(x) ==> s.push(x).filter(pred) == s.filter(pred).push(x),
        !pred(x) ==> s.push(x).filter(pred) == s.filter(pred),
{
    reveal(Seq::filter);
    let t = s.push(x);
    assert(t.drop_last() =~= s);
    assert(t.last() == x);
    assert(t.len() == s.len() + 1);
}

/// A sequence with no matching element filters to the empty sequence.
pub(crate) proof fn lemma_filter_none(s: Seq<Point>, pred: spec_fn(Point) -> bool)
    requires
        forall|i: int| 0 <= i < s.len() ==> !pred(#[trigger] s[i]),
    ensures
        s.filter(pred) == Seq::<Point>::empty(),
    decreases s.len(),
{
    reveal(Seq::filter);
    if s.len() == 0 {
        assert(s.filter(pred) =~= Seq::<Point>::empty());
    } else {
        lemma_filter_none(s.drop_last(), pred);
        assert(!pred(s.last()));
    }
}

/// A sequence all of whose elements match filters to itself.
pub(crate) proof fn lemma_filter_all(s: Seq<Point>, pred: spec_fn(Point) -> bool)
    requires
        forall|i: int| 0 <= i < s.len() ==> pred(#[trigger] s[i]),
    ensures
        s.filter(pred) == s,
    decreases s.len(),
{
    reveal(Seq::filter);
    if s.len() == 0 {
        assert(s.filter(pred) =~= s);
    } else {
        lemma_filter_all(s.drop_last(), pred);
        assert(pred(s.last()));
        assert(s.filter(pred) =~= s);
    }
}

/// Membership in a filtered sequence is membership in the original plus
/// satisfaction of the predicate.
pub(crate) proof fn lemma_filter_membership(s: Seq<Point>, pred: spec_fn(Point) -> bool, p: Point)
    ensures
        s.filter(pred).contains(p) <==> s.contains(p) && pred(p),
    decreases s.len(),
{
    reveal(Seq::filter);
    if s.len() == 0 {
        assert(s.filter(pred) =~= Seq::<Point>::empty());
        assert(!s.contains(p));
    } else {
        lemma_filter_membership(s.drop_last(), pred, p);
        let d = s.drop_last();
        assert(s =~= d.push(s.last()));
        lemma_filter_push(d, pred, s.last());
        if s.contains(p) && pred(p) {
            let i = choose|i: int| 0 <= i < s.len() && s[i] == p;
            if i < d.len() {
                assert(d.contains(p));
            } else {
                assert(s.last() == p);
            }
            assert(s.filter(pred).contains(p)) by {
                if d.contains(p) {
                    let j = choose|j: int| 0 <= j < d.filter(pred).len() && d.filter(pred)[j] == p;
                    assert(s.filter(pred)[j] == p);
                } else {
                    assert(s.filter(pred).last() == p);
                }
            };
        }
        if s.filter(pred).contains(p) {
            let j = choose|j: int| 0 <= j < s.filter(pred).len() && s.filter(pred)[j] == p;
            if pred(s.last()) {
                if j < d.filter(pred).len() {
                    assert(d.filter(pred).contains(p));
                    assert(d.contains(p));
                } else {
                    assert(p == s.last());
                    assert(s.contains(p)) by {
                        assert(s[s.len() - 1] == p);
                    };
                }
            } else {
                assert(d.filter(pred).contains(p));
                assert(d.contains(p));
            }
            assert(s.contains(p)) by {
                if d.contains(p) {
                    let i = choose|i: int| 0 <= i < d.len() && d[i] == p;
                    assert(s[i] == p);
                } else {
                    assert(s[s.len() - 1] == p);
                }
            };
            assert(pred(p));
        }
    }
}

impl NodeModel {
    /// A subtree whose rectangle misses the query rectangle contributes
    /// nothing to a rectangle query.
    pub proof fn lemma_prune_rect(self, area: Rect)
        requires
            self.wf(),
            !self.rect.intersects(area),
        ensures
            self.found_in_rect(area) == Seq::<Point>::empty(),
    {
        self.lemma_all_points_in_rect();
        let s = self.all_points();
        assert forall|i: int| 0 <= i < s.len() implies !rect_pred(area)(#[trigger] s[i]) by {
            let p = s[i];
            assert(self.rect.contains(p));
        };
        lemma_filter_none(s, rect_pred(area));
    }

    /// A subtree whose rectangle misses the query disk contributes nothing
    /// to a radius query.
    pub proof fn lemma_prune_circle(self, cx: int, cy: int, r: int)
        requires
            self.wf(),
            !self.rect.overlaps_circle(cx, cy, r),
        ensures
            self.found_in_circle(cx, cy, r) == Seq::<Point>::empty(),
    {
        self.lemma_all_points_in_rect();
        let s = self.all_points();
        assert forall|i: int| 0 <= i < s.len() implies !circle_pred(cx, cy, r)(#[trigger] s[i]) by {
            let p = s[i];
            assert(self.rect.contains(p));
            if in_circle(p, cx, cy, r) {
                crate::boundary::lemma_contained_point_in_circle_overlaps(self.rect, p, cx, cy, r);
            }
        };
        lemma_filter_none(s, circle_pred(cx, cy, r));
    }
}

/// The four children of a subdivided node.
#[derive(Debug)]
pub struct Quadrants {
    top_left: QuadTree,
    top_right: QuadTree,
    bottom_left: QuadTree,
    bottom_right: QuadTree,
}

/// A quadtree node. The root is built by [`QuadTree::new`]; every node owns
/// its boundary, its locally stored points, and either no children or
/// exactly four.
#[derive(Debug)]
pub struct QuadTree {
    boundary: QuadTreeBoundary,
    items: Vec<Point>,
    children: Option<Box<Quadrants>>,
    depth: u32,
    draw_searched: bool,
}

impl QuadTree {
    /// The abstract value of this tree; the transient search markers of the
    /// boundaries are not part of it.
    pub closed spec fn as_model(self) -> NodeModel
        decreases self,
    {
        NodeModel {
            rect: self.boundary@,
            depth: self.depth as nat,
            draw_searched: self.draw_searched,
            items: self.items@,
            children: match self.children {
                None => None,
                Some(quads) => Some(
                    Box::new(
                        QuadrantsModel {
                            tl: quads.top_left.as_model(),
                            tr: quads.top_right.as_model(),
                            bl: quads.bottom_left.as_model(),
                            br: quads.bottom_right.as_model(),
                        },
                    ),
                ),
            },
        }
    }

    /// The boundary as stored, marker included.
    pub closed spec fn spec_boundary(self) -> QuadTreeBoundary {
        self.boundary
    }

    /// The search markers of every subdivided node, in the same traversal
    /// order as [`NodeModel::divided_rects`].
    pub closed spec fn divided_flags(self) -> Seq<bool>
        decreases self,
    {
        match self.children {
            None => Seq::empty(),
            Some(quads) => seq![self.boundary.spec_searched()] + quads.top_left.divided_flags()
                + quads.top_right.divided_flags() + quads.bottom_left.divided_flags()
                + quads.bottom_right.divided_flags(),
        }
    }

    /// The markers a radius lookup leaves behind: every node whose boundary
    /// overlaps the disk gets `enable`; a node whose boundary misses the
    /// disk is never visited, so its whole subtree keeps its old markers.
    pub closed spec fn marked_flags(self, cx: int, cy: int, r: int, enable: bool) -> Seq<bool>
        decreases self,
    {
        if self.boundary@.overlaps_circle(cx, cy, r) {
            match self.children {
                None => Seq::empty(),
                Some(quads) => seq![enable] + quads.top_left.marked_flags(cx, cy, r, enable)
                    + quads.top_right.marked_flags(cx, cy, r, enable)
                    + quads.bottom_left.marked_flags(cx, cy, r, enable)
                    + quads.bottom_right.marked_flags(cx, cy, r, enable),
            }
        } else {
            self.divided_flags()
        }
    }
}

impl View for QuadTree {
    type V = NodeModel;

    open spec fn view(&self) -> NodeModel {
        self.as_model()
    }
}

impl QuadTree {
    fn new_with_boundary(boundary: QuadTreeBoundary, depth: u32, draw_searched: bool) -> (t: Self)
        ensures
            t@ == (NodeModel {
                rect: boundary@,
                depth: depth as nat,
                draw_searched,
                items: Seq::empty(),
                children: None,
            }),
            t.spec_boundary() == boundary,
    {
        let t = Self { boundary, items: Vec::new(), children: None, depth, draw_searched };
        proof {
            assert(t@ =~~= (NodeModel {
                rect: boundary@,
                depth: depth as nat,
                draw_searched,
                items: Seq::empty(),
                children: None,
            }));
        }
        t
    }

    /// A root spanning `[0, width] x [0, height]` with no points and no
    /// children. `draw_searched` opts into marking the nodes visited by
    /// later radius lookups, for visualization.
    pub fn new(width: i32, height: i32, draw_searched: bool) -> (t: Self)
        requires
            0 <= width,
            0 <= height,
        ensures
            t@ == NodeModel::fresh(
                Rect { left: 0, top: 0, right: width as int, bottom: height as int },
                draw_searched,
            ),
            t@.wf(),
            !t.spec_boundary().spec_searched(),
    {
        Self::new_with_boundary(QuadTreeBoundary::new(0, 0, width, height), 0, draw_searched)
    }

    /// Checked construction: rejects negative extents instead of requiring
    /// the caller to have validated them.
    pub fn try_new(width: i32, height: i32, draw_searched: bool) -> (res: Result<
        Self,
        QuadTreeError,
    >)
        ensures
            0 <= width && 0 <= height <==> res is Ok,
            res matches Ok(t) ==> t@ == NodeModel::fresh(
                Rect { left: 0, top: 0, right: width as int, bottom: height as int },
                draw_searched,
            ) && t@.wf(),
            res matches Err(e) ==> e == QuadTreeError::MalformedBoundary,
    {
        if width >= 0 && height >= 0 {
            Ok(Self::new(width, height, draw_searched))
        } else {
            Err(QuadTreeError::MalformedBoundary)
        }
    }

    /// A copy of the root boundary, search marker included.
    pub fn boundary(&self) -> (b: QuadTreeBoundary)
        ensures
            b == self.spec_boundary(),
            b@ == self@.rect,
    {
        self.boundary
    }

    /// Whether this node has subdivided.
    pub fn is_divided(&self) -> (res: bool)
        ensures
            res == (self@.children is Some),
    {
        self.children.is_some()
    }

    /// Subdivide: four empty children, one per quadrant of this node's
    /// boundary, meeting at its centre.
    fn divide(&mut self)
        requires
            old(self)@.wf(),
            old(self)@.children is None,
            old(self)@.depth < MAX_DEPTH as nat,
        ensures
            final(self)@ == old(self)@.spec_divide(),
            final(self).spec_boundary() == old(self).spec_boundary(),
    {
        let (centre_x, centre_y) = self.boundary.center();
        let left = self.boundary.left();
        let top = self.boundary.top();
        let right = self.boundary.right();
        let bottom = self.boundary.bottom();
        let child_depth = self.depth + 1;
        let quads = Quadrants {
            top_left: Self::new_with_boundary(
                QuadTreeBoundary::new(left, top, centre_x, centre_y),
                child_depth,
                self.draw_searched,
            ),
            top_right: Self::new_with_boundary(
                QuadTreeBoundary::new(centre_x, top, right, centre_y),
                child_depth,
                self.draw_searched,
            ),
            bottom_left: Self::new_with_boundary(
                QuadTreeBoundary::new(left, centre_y, centre_x, bottom),
                child_depth,
                self.draw_searched,
            ),
            bottom_right: Self::new_with_boundary(
                QuadTreeBoundary::new(centre_x, centre_y, right, bottom),
                child_depth,
                self.draw_searched,
            ),
        };
        self.children = Some(Box::new(quads));
        proof {
            assert(self@ =~~= old(self)@.spec_divide());
        }
    }

    /// Insert a point known to lie inside this node's boundary.
    fn insert_inner(&mut self, item: Point)
        requires
            old(self)@.wf(),
            old(self)@.rect.contains(item),
        ensures
            final(self)@ == old(self)@.spec_insert(item),
        decreases MAX_DEPTH - old(self).depth,
    {
        if self.items.len() < CAPACITY {
            self.items.push(item);
            proof {
                assert(self@ =~~= old(self)@.spec_insert(item));
            }
        } else if self.depth >= MAX_DEPTH {
            // this node may not subdivide further; it keeps the excess point
            self.items.push(item);
            proof {
                assert(old(self)@.children is None);
                assert(self@ =~~= old(self)@.spec_insert(item));
            }
        } else {
            let was_leaf = self.children.is_none();
            if was_leaf {
                self.divide();
            }
            proof {
                crate::boundary::lemma_quadrant_partition(old(self)@.rect);
                if was_leaf {
                    assert(self@ == old(self)@.spec_divide());
                    assert(self@.children is Some);
                } else {
                    assert(self@ == old(self)@);
                }
            }
            match self.children.take() {
                None => {
                    proof {
                        assert(false);
                    }
                },
                Some(mut quads) => {
                    let ghost mid_kids = QuadrantsModel {
                        tl: quads.top_left@,
                        tr: quads.top_right@,
                        bl: quads.bottom_left@,
                        br: quads.bottom_right@,
                    };
                    proof {
                        if was_leaf {
                            assert(mid_kids == old(self)@.fresh_kids());
                            assert(mid_kids.tl.wf());
                            assert(mid_kids.tr.wf());
                            assert(mid_kids.bl.wf());
                            assert(mid_kids.br.wf());
                        }
                    }
                    let in_tl = quads.top_left.boundary.contains(&item);
                    let in_tr = quads.top_right.boundary.contains(&item);
                    let in_bl = quads.bottom_left.boundary.contains(&item);
                    if in_tl {
                        quads.top_left.insert_inner(item);
                    } else if in_tr {
                        quads.top_right.insert_inner(item);
                    } else if in_bl {
                        quads.bottom_left.insert_inner(item);
                    } else {
                        proof {
                            assert(mid_kids.br.rect.contains(item));
                        }
                        quads.bottom_right.insert_inner(item);
                    }
                    self.children = Some(quads);
                    proof {
                        let fin_kids = QuadrantsModel {
                            tl: quads.top_left@,
                            tr: quads.top_right@,
                            bl: quads.bottom_left@,
                            br: quads.bottom_right@,
                        };
                        if was_leaf {
                            assert(fin_kids =~~= old(self)@.fresh_kids().place(item));
                        } else {
                            assert(fin_kids =~~= mid_kids.descend(item));
                        }
                        assert(self@ =~~= old(self)@.spec_insert(item));
                    }
                },
            }
        }
    }

    /// Insert a point. A point inside the root boundary is appended to the
    /// tree exactly as [`NodeModel::spec_insert`] describes — stored at this
    /// node while below capacity, descending into the quadrants once full —
    /// and the stored multiset grows by exactly that point. A point outside
    /// the root boundary is rejected and the tree is untouched.
    pub fn insert(&mut self, item: Point) -> (res: Result<(), QuadTreeError>)
        requires
            old(self)@.wf(),
        ensures
            final(self)@.wf(),
            res is Ok <==> old(self)@.rect.contains(item),
            old(self)@.rect.contains(item) ==> final(self)@ == old(self)@.spec_insert(item)
                && final(self)@.all_points().to_multiset() == old(
                self,
            )@.all_points().to_multiset().insert(item),
            !old(self)@.rect.contains(item) ==> res == Err::<(), QuadTreeError>(
                QuadTreeError::OutOfBoundsInsert,
            ) && *final(self) == *old(self),
            final(self)@.rect == old(self)@.rect,
            final(self)@.depth == old(self)@.depth,
            final(self)@.draw_searched == old(self)@.draw_searched,
    {
        if !self.boundary.contains(&item) {
            return Err(QuadTreeError::OutOfBoundsInsert);
        }
        self.insert_inner(item);
        proof {
            old(self)@.lemma_spec_insert_wf(item);
            old(self)@.lemma_spec_insert_points(item);
        }
        Ok(())
    }

    /// Append to `found` every point of this subtree that lies in `area`.
    fn query_rect_into(&self, area: &QuadTreeBoundary, found: &mut Vec<Point>)
        requires
            self@.wf(),
        ensures
            final(found)@ == old(found)@ + self@.found_in_rect(area@),
        decreases self,
    {
        proof {
            reveal(Seq::filter);
        }
        let ghost pred = rect_pred(area@);
        if self.boundary.intersects(area) {
            let mut i: usize = 0;
            proof {
                assert(self.items@.take(0) =~= Seq::<Point>::empty());
                assert(found@ =~= found@ + self.items@.take(0).filter(pred));
            }
            while i < self.items.len()
                invariant
                    i <= self.items@.len(),
                    found@ == old(found)@ + self.items@.take(i as int).filter(pred),
                    pred == rect_pred(area@),
                decreases self.items@.len() - i,
            {
                let p = self.items[i];
                proof {
                    assert(self.items@.take(i as int + 1) =~= self.items@.take(i as int).push(p));
                    lemma_filter_push(self.items@.take(i as int), pred, p);
                }
                if area.contains(&p) {
                    found.push(p);
                    proof {
                        assert(found@ =~= old(found)@ + self.items@.take(i as int + 1).filter(
                            pred,
                        ));
                    }
                } else {
                    proof {
                        assert(found@ =~= old(found)@ + self.items@.take(i as int + 1).filter(
                            pred,
                        ));
                    }
                }
                i += 1;
            }
            proof {
                assert(self.items@.take(self.items@.len() as int) =~= self.items@);
            }
            match &self.children {
                None => {
                    proof {
                        assert(self@.all_points() == self.items@);
                    }
                },
                Some(quads) => {
                    quads.top_left.query_rect_into(area, found);
                    quads.top_right.query_rect_into(area, found);
                    quads.bottom_left.query_rect_into(area, found);
                    quads.bottom_right.query_rect_into(area, found);
                    proof {
                        broadcast use vstd::seq_lib::group_filter_ensures;

                        assert(found@ =~= old(found)@ + self@.found_in_rect(area@));
                    }
                },
            }
        } else {
            proof {
                self@.lemma_prune_rect(area@);
                assert(found@ =~= old(found)@ + self@.found_in_rect(area@));
            }
        }
    }

    /// All stored points inside `area`, emitted in traversal order: a
    /// node's own matching points first, then its children's, in quadrant
    /// order. Subtrees whose boundary does not intersect `area` are pruned;
    /// the pruning test is conservative, so no matching point is ever
    /// missed.
    pub fn query_rect(&self, area: &QuadTreeBoundary) -> (found: Vec<Point>)
        requires
            self@.wf(),
        ensures
            found@ == self@.found_in_rect(area@),
    {
        let mut found = Vec::new();
        self.query_rect_into(area, &mut found);
        proof {
            assert(Seq::<Point>::empty() + self@.found_in_rect(area@) =~= self@.found_in_rect(
                area@,
            ));
        }
        found
    }

    /// Append to `found` every point of this subtree within distance `r`
    /// of `(cx, cy)`.
    fn query_radius_into(&self, cx: i32, cy: i32, r: i32, found: &mut Vec<Point>)
        requires
            self@.wf(),
        ensures
            final(found)@ == old(found)@ + self@.found_in_circle(cx as int, cy as int, r as int),
        decreases self,
    {
        proof {
            reveal(Seq::filter);
        }
        let ghost pred = circle_pred(cx as int, cy as int, r as int);
        if self.boundary.overlaps(cx, cy, r) {
            let mut i: usize = 0;
            proof {
                assert(self.items@.take(0) =~= Seq::<Point>::empty());
                assert(found@ =~= found@ + self.items@.take(0).filter(pred));
            }
            while i < self.items.len()
                invariant
                    i <= self.items@.len(),
                    found@ == old(found)@ + self.items@.take(i as int).filter(pred),
                    pred == circle_pred(cx as int, cy as int, r as int),
                decreases self.items@.len() - i,
            {
                let p = self.items[i];
                proof {
                    assert(self.items@.take(i as int + 1) =~= self.items@.take(i as int).push(p));
                    lemma_filter_push(self.items@.take(i as int), pred, p);
                }
                if crate::point::point_in_circle(p, cx, cy, r) {
                    found.push(p);
                    proof {
                        assert(found@ =~= old(found)@ + self.items@.take(i as int + 1).filter(
                            pred,
                        ));
                    }
                } else {
                    proof {
                        assert(found@ =~= old(found)@ + self.items@.take(i as int + 1).filter(
                            pred,
                        ));
                    }
                }
                i += 1;
            }
            proof {
                assert(self.items@.take(self.items@.len() as int) =~= self.items@);
            }
            match &self.children {
                None => {
                    proof {
                        assert(self@.all_points() == self.items@);
                    }
                },
                Some(quads) => {
                    quads.top_left.query_radius_into(cx, cy, r, found);
                    quads.top_right.query_radius_into(cx, cy, r, found);
                    quads.bottom_left.query_radius_into(cx, cy, r, found);
                    quads.bottom_right.query_radius_into(cx, cy, r, found);
                    proof {
                        broadcast use vstd::seq_lib::group_filter_ensures;

                        assert(found@ =~= old(found)@ + self@.found_in_circle(
                            cx as int,
                            cy as int,
                            r as int,
                        ));
                    }
                },
            }
        } else {
            proof {
                self@.lemma_prune_circle(cx as int, cy as int, r as int);
                assert(found@ =~= old(found)@ + self@.found_in_circle(
                    cx as int,
                    cy as int,
                    r as int,
                ));
            }
        }
    }

    /// All stored points within distance `r` of `(cx, cy)`, in traversal
    /// order, compared by squared distance throughout.
    pub fn query_radius(&self, cx: i32, cy: i32, r: i32) -> (found: Vec<Point>)
        requires
            self@.wf(),
        ensures
            found@ == self@.found_in_circle(cx as int, cy as int, r as int),
    {
        let mut found = Vec::new();
        self.query_radius_into(cx, cy, r, &mut found);
        proof {
            assert(Seq::<Point>::empty() + self@.found_in_circle(cx as int, cy as int, r as int)
                =~= self@.found_in_circle(cx as int, cy as int, r as int));
        }
        found
    }

    /// Set the search marker to `enable` on every node whose boundary
    /// overlaps the disk, as the last radius lookup's visualization trace.
    /// The abstract tree value is untouched.
    fn mark_searched(&mut self, cx: i32, cy: i32, r: i32, enable: bool)
        requires
            old(self)@.wf(),
        ensures
            final(self)@ == old(self)@,
            final(self).divided_flags() == old(self).marked_flags(
                cx as int,
                cy as int,
                r as int,
                enable,
            ),
            old(self)@.rect.overlaps_circle(cx as int, cy as int, r as int) ==> final(
                self).spec_boundary().spec_searched() == enable,
            !old(self)@.rect.overlaps_circle(cx as int, cy as int, r as int) ==> final(
                self).spec_boundary() == old(self).spec_boundary(),
        decreases MAX_DEPTH - old(self).depth,
    {
        if self.boundary.overlaps(cx, cy, r) {
            self.boundary.set_searched(enable);
            match self.children.take() {
                None => {
                    proof {
                        assert(self.divided_flags() =~= old(self).marked_flags(
                            cx as int,
                            cy as int,
                            r as int,
                            enable,
                        ));
                    }
                },
                Some(mut quads) => {
                    proof {
                        assert(quads.top_left@.depth == old(self)@.depth + 1);
                        assert(quads.top_right@.depth == old(self)@.depth + 1);
                        assert(quads.bottom_left@.depth == old(self)@.depth + 1);
                        assert(quads.bottom_right@.depth == old(self)@.depth + 1);
                    }
                    quads.top_left.mark_searched(cx, cy, r, enable);
                    quads.top_right.mark_searched(cx, cy, r, enable);
                    quads.bottom_left.mark_searched(cx, cy, r, enable);
                    quads.bottom_right.mark_searched(cx, cy, r, enable);
                    self.children = Some(quads);
                    proof {
                        assert(self.divided_flags() =~= old(self).marked_flags(
                            cx as int,
                            cy as int,
                            r as int,
                            enable,
                        ));
                    }
                },
            }
            proof {
                assert(self@ =~~= old(self)@);
            }
        }
    }

    /// Radius lookup, the mutating variant: appends every stored point
    /// within distance `r` of `(x, y)` to `items_in_area`, and sets the
    /// search marker of every visited (overlapping) node to the marking
    /// flag the tree was built with. The abstract tree value is unchanged.
    pub fn lookup(&mut self, x: i32, y: i32, r: i32, items_in_area: &mut Vec<Point>)
        requires
            old(self)@.wf(),
        ensures
            final(self)@ == old(self)@,
            final(items_in_area)@ == old(items_in_area)@ + old(self)@.found_in_circle(
                x as int,
                y as int,
                r as int,
            ),
            final(self).divided_flags() == old(self).marked_flags(
                x as int,
                y as int,
                r as int,
                old(self)@.draw_searched,
            ),
    {
        let enable = self.draw_searched;
        self.mark_searched(x, y, r, enable);
        let mut found = self.query_radius(x, y, r);
        items_in_area.append(&mut found);
    }

    /// Append the boundaries of every subdivided node of this subtree, in
    /// traversal order.
    #[verifier::rlimit(50)]
    fn boundaries_into(&self, out: &mut Vec<QuadTreeBoundary>)
        ensures
            final(out)@.map_values(|b: QuadTreeBoundary| b@) == old(out)@.map_values(
                |b: QuadTreeBoundary| b@,
            ) + self@.divided_rects(),
            final(out)@.map_values(|b: QuadTreeBoundary| b.spec_searched()) == old(
                out,
            )@.map_values(|b: QuadTreeBoundary| b.spec_searched()) + self.divided_flags(),
        decreases self,
    {
        match &self.children {
            None => {
                proof {
                    assert(out@.map_values(|b: QuadTreeBoundary| b@) =~= out@.map_values(
                        |b: QuadTreeBoundary| b@,
                    ) + self@.divided_rects());
                    assert(out@.map_values(|b: QuadTreeBoundary| b.spec_searched())
                        =~= out@.map_values(|b: QuadTreeBoundary| b.spec_searched())
                        + self.divided_flags());
                }
            },
            Some(quads) => {
                out.push(self.boundary);
                proof {
                    assert(out@.map_values(|b: QuadTreeBoundary| b@) =~= old(out)@.map_values(
                        |b: QuadTreeBoundary| b@,
                    ) + seq![self@.rect]);
                    assert(out@.map_values(|b: QuadTreeBoundary| b.spec_searched()) =~= old(
                        out,
                    )@.map_values(|b: QuadTreeBoundary| b.spec_searched()) + seq![
                        self.boundary.spec_searched(),
                    ]);
                }
                quads.top_left.boundaries_into(out);
                quads.top_right.boundaries_into(out);
                quads.bottom_left.boundaries_into(out);
                quads.bottom_right.boundaries_into(out);
                proof {
                    assert(out@.map_values(|b: QuadTreeBoundary| b@) =~= old(out)@.map_values(
                        |b: QuadTreeBoundary| b@,
                    ) + self@.divided_rects());
                    assert(out@.map_values(|b: QuadTreeBoundary| b.spec_searched()) =~= old(
                        out,
                    )@.map_values(|b: QuadTreeBoundary| b.spec_searched()) + self.divided_flags());
                }
            },
        }
    }

    /// The boundaries of every subdivided node, in traversal order, search
    /// markers included: exactly the geometry an external renderer needs to
    /// draw the subdivision lines and highlight the nodes the last marking
    /// lookup visited.
    pub fn boundaries(&self) -> (out: Vec<QuadTreeBoundary>)
        ensures
            out@.map_values(|b: QuadTreeBoundary| b@) == self@.divided_rects(),
            out@.map_values(|b: QuadTreeBoundary| b.spec_searched()) == self.divided_flags(),
    {
        let mut out = Vec::new();
        self.boundaries_into(&mut out);
        proof {
            assert(Seq::<QuadTreeBoundary>::empty().map_values(|b: QuadTreeBoundary| b@)
                =~= Seq::<Rect>::empty());
            assert(Seq::<Rect>::empty() + self@.divided_rects() =~= self@.divided_rects());
            assert(Seq::<QuadTreeBoundary>::empty().map_values(
                |b: QuadTreeBoundary| b.spec_searched(),
            ) =~= Seq::<bool>::empty());
            assert(Seq::<bool>::empty() + self.divided_flags() =~= self.divided_flags());
        }
        out
    }
}

} // verus!
