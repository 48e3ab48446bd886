//! The spatial partition: a four-way recursive subdivision of a fixed world
//! region, rebuilt from scratch every step.
//!
//! Every inserted box must lie entirely within the node's bounds; a box that
//! straddles a center line on either axis is stored at the current node,
//! which thereby acts as a catch-all bucket for boundary-crossing entities.
//! Insertion doubles as the broad phase: it returns every value already
//! reachable from the nodes the new box was routed through, and that list
//! provably contains every earlier-inserted value whose box overlaps the new
//! one.

use vstd::prelude::*;
use vstd::seq_lib::group_to_multiset_ensures;
use vstd::seq_lib::lemma_multiset_commutative;
use vstd::multiset::group_multiset_axioms;
use crate::components::Position;

verus! {

broadcast use group_to_multiset_ensures, group_multiset_axioms;

/// The mathematical description of an inserted axis-aligned box: top-left
/// anchor and extents, in world units.
pub ghost struct Footprint {
    pub x: int,
    pub y: int,
    pub w: int,
    pub h: int,
}

/// The footprint of a box anchored at `p` with the given extents.
pub open spec fn make_fp(p: Position, w: int, h: int) -> Footprint {
    Footprint { x: p.x as int, y: p.y as int, w: w, h: h }
}

/// Strict interior overlap of two boxes: touching edges do not overlap.
/// Equivalent to the center-distance test `|c1 - c2| < (w1 + w2) / 2` on
/// each axis.
pub open spec fn overlaps(a: Footprint, b: Footprint) -> bool {
    &&& a.x < b.x + b.w
    &&& b.x < a.x + a.w
    &&& a.y < b.y + b.h
    &&& b.y < a.y + a.h
}

/// One node of the partition, covering the half-open-free (all-inclusive)
/// rectangle `[left, right] x [top, bottom]` in world units.
pub struct QuadTreeNode {
    pub top_left: Option<Box<QuadTreeNode>>,
    pub top_right: Option<Box<QuadTreeNode>>,
    pub bottom_left: Option<Box<QuadTreeNode>>,
    pub bottom_right: Option<Box<QuadTreeNode>>,
    pub values: Vec<u64>,
    /// The footprint each stored value was inserted with, parallel to
    /// `values`.
    pub boxes: Ghost<Seq<Footprint>>,
    pub left: i64,
    pub right: i64,
    pub top: i64,
    pub bottom: i64,
}

impl QuadTreeNode {
    /// The box lies entirely within this node's bounds.
    pub open spec fn covers(self, f: Footprint) -> bool {
        &&& self.left <= f.x
        &&& f.x + f.w <= self.right
        &&& self.top <= f.y
        &&& f.y + f.h <= self.bottom
    }

    /// The vertical center line splitting left children from right ones.
    pub open spec fn mid_x(self) -> int {
        self.left + (self.right - self.left) / 2
    }

    /// The horizontal center line splitting top children from bottom ones.
    pub open spec fn mid_y(self) -> int {
        self.top + (self.bottom - self.top) / 2
    }

    /// The values stored at this node itself, with their footprints.
    pub open spec fn own_entries(self) -> Seq<(u64, Footprint)> {
        Seq::new(self.values@.len(), |k: int| (self.values@[k], self.boxes@[k]))
    }

    /// Everything stored in an optional subtree.
    pub open spec fn opt_entries(o: Option<Box<QuadTreeNode>>) -> Seq<(u64, Footprint)>
        decreases o,
    {
        match o {
            None => Seq::empty(),
            Some(n) => n.entries(),
        }
    }

    /// Everything stored in this subtree, in traversal order: this node's
    /// values, then the four children.
    pub open spec fn entries(self) -> Seq<(u64, Footprint)>
        decreases self,
    {
        self.own_entries() + Self::opt_entries(self.top_left) + Self::opt_entries(self.top_right)
            + Self::opt_entries(self.bottom_left) + Self::opt_entries(self.bottom_right)
    }

    /// Some box in this subtree was inserted under identifier `v`.
    pub open spec fn has_id(self, v: u64) -> bool {
        exists|j: int| 0 <= j < self.entries().len() && (#[trigger] self.entries()[j]).0 == v
    }

    /// The identifiers stored in an optional subtree, in traversal order.
    pub open spec fn opt_ids(o: Option<Box<QuadTreeNode>>) -> Seq<u64>
        decreases o,
    {
        match o {
            None => Seq::empty(),
            Some(n) => n.ids(),
        }
    }

    /// The identifiers stored in this subtree, in traversal order: this
    /// node's values, then the four children.
    pub open spec fn ids(self) -> Seq<u64>
        decreases self,
    {
        self.values@ + Self::opt_ids(self.top_left) + Self::opt_ids(self.top_right)
            + Self::opt_ids(self.bottom_left) + Self::opt_ids(self.bottom_right)
    }

    /// An optional child has the given bounds and is itself well formed.
    pub open spec fn child_ok(o: Option<Box<QuadTreeNode>>, l: int, r: int, t: int, b: int) -> bool
        decreases o,
    {
        match o {
            None => true,
            Some(n) => n.wf() && n.left == l && n.right == r && n.top == t && n.bottom == b,
        }
    }

    /// Well-formedness: bounds are ordered and of machine-representable
    /// extent, every stored box lies within the node's bounds and has
    /// positive extents, and each child covers exactly its quadrant.
    pub open spec fn wf(self) -> bool
        decreases self,
    {
        &&& self.left <= self.right
        &&& self.top <= self.bottom
        &&& self.right - self.left <= i64::MAX
        &&& self.bottom - self.top <= i64::MAX
        &&& self.boxes@.len() == self.values@.len()
        &&& forall|k: int|
            0 <= k < self.values@.len() ==> self.covers(#[trigger] self.boxes@[k])
                && self.boxes@[k].w >= 1 && self.boxes@[k].h >= 1
        &&& Self::child_ok(self.top_left, self.left as int, self.mid_x(), self.top as int, self.mid_y())
        &&& Self::child_ok(self.top_right, self.mid_x(), self.right as int, self.top as int, self.mid_y())
        &&& Self::child_ok(self.bottom_left, self.left as int, self.mid_x(), self.mid_y(), self.bottom as int)
        &&& Self::child_ok(self.bottom_right, self.mid_x(), self.right as int, self.mid_y(), self.bottom as int)
    }

    /// Every box stored in a well-formed subtree lies within the subtree's
    /// bounds.
    pub proof fn lemma_entries_within(self)
        requires
            self.wf(),
        ensures
            forall|j: int|
                0 <= j < self.entries().len() ==> self.covers((#[trigger] self.entries()[j]).1)
                    && (#[trigger] self.entries()[j]).1.w >= 1 && self.entries()[j].1.h >= 1,
        decreases self,
    {
        let own = self.own_entries();
        let tl = Self::opt_entries(self.top_left);
        let tr = Self::opt_entries(self.top_right);
        let bl = Self::opt_entries(self.bottom_left);
        let br = Self::opt_entries(self.bottom_right);
        Self::lemma_opt_entries_within(
            self.top_left,
            self.left as int,
            self.mid_x(),
            self.top as int,
            self.mid_y(),
        );
        Self::lemma_opt_entries_within(
            self.top_right,
            self.mid_x(),
            self.right as int,
            self.top as int,
            self.mid_y(),
        );
        Self::lemma_opt_entries_within(
            self.bottom_left,
            self.left as int,
            self.mid_x(),
            self.mid_y(),
            self.bottom as int,
        );
        Self::lemma_opt_entries_within(
            self.bottom_right,
            self.mid_x(),
            self.right as int,
            self.mid_y(),
            self.bottom as int,
        );
        assert(self.left <= self.mid_x() <= self.right);
        assert(self.top <= self.mid_y() <= self.bottom);
        assert forall|j: int| 0 <= j < self.entries().len() implies self.covers(
            (#[trigger] self.entries()[j]).1,
        ) && self.entries()[j].1.w >= 1 && self.entries()[j].1.h >= 1 by {
            let e = self.entries()[j];
            if j < own.len() {
                assert(e == own[j]);
            } else if j < own.len() + tl.len() {
                assert(e == tl[j - own.len()]);
            } else if j < own.len() + tl.len() + tr.len() {
                assert(e == tr[j - own.len() - tl.len()]);
            } else if j < own.len() + tl.len() + tr.len() + bl.len() {
                assert(e == bl[j - own.len() - tl.len() - tr.len()]);
            } else {
                assert(e == br[j - own.len() - tl.len() - tr.len() - bl.len()]);
            }
        }
    }

    /// Every box stored in a well-formed optional subtree with the given
    /// bounds lies within those bounds.
    pub proof fn lemma_opt_entries_within(
        o: Option<Box<QuadTreeNode>>,
        l: int,
        r: int,
        t: int,
        b: int,
    )
        requires
            Self::child_ok(o, l, r, t, b),
        ensures
            forall|j: int|
                0 <= j < Self::opt_entries(o).len() ==> {
                    let f = (#[trigger] Self::opt_entries(o)[j]).1;
                    l <= f.x && f.x + f.w <= r && t <= f.y && f.y + f.h <= b && f.w >= 1 && f.h
                        >= 1
                },
        decreases o,
    {
        match o {
            None => {
                assert(Self::opt_entries(o).len() == 0);
            },
            Some(n) => {
                n.lemma_entries_within();
                assert(Self::opt_entries(o) == n.entries());
            },
        }
    }

    /// An empty node with the given edges.
    fn new_child(left: i64, right: i64, top: i64, bottom: i64) -> (n: QuadTreeNode)
        requires
            left <= right,
            top <= bottom,
            right - left <= i64::MAX,
            bottom - top <= i64::MAX,
        ensures
            n.wf(),
            n.entries().len() == 0,
            n.left == left,
            n.right == right,
            n.top == top,
            n.bottom == bottom,
    {
        QuadTreeNode {
            top_left: None,
            top_right: None,
            bottom_left: None,
            bottom_right: None,
            values: Vec::new(),
            boxes: Ghost(Seq::empty()),
            left,
            right,
            top,
            bottom,
        }
    }

    /// An empty node covering the axis-aligned rectangle of the given
    /// extents centered at `center`.
    pub fn new(center: Position, width: i64, height: i64) -> (n: QuadTreeNode)
        requires
            width >= 0,
            height >= 0,
            i64::MIN <= center.x - width / 2,
            center.x + width / 2 <= i64::MAX,
            i64::MIN <= center.y - height / 2,
            center.y + height / 2 <= i64::MAX,
        ensures
            n.wf(),
            n.entries().len() == 0,
            n.left == center.x - width / 2,
            n.right == center.x + width / 2,
            n.top == center.y - height / 2,
            n.bottom == center.y + height / 2,
    {
        let hw = width / 2;
        let hh = height / 2;
        Self::new_child(center.x - hw, center.x + hw, center.y - hh, center.y + hh)
    }

    /// Append every identifier of `src` to `dst`, in order.
    fn append_ids(dst: &mut Vec<u64>, src: &Vec<u64>)
        ensures
            final(dst)@ == old(dst)@ + src@,
    {
        let mut i: usize = 0;
        while i < src.len()
            invariant
                i <= src@.len(),
                dst@ == old(dst)@ + src@.subrange(0, i as int),
            decreases src@.len() - i,
        {
            dst.push(src[i]);
            proof {
                assert(old(dst)@ + src@.subrange(0, i as int) + seq![src@[i as int]] =~= old(
                    dst,
                )@ + src@.subrange(0, i + 1));
            }
            i += 1;
        }
        proof {
            assert(src@.subrange(0, src@.len() as int) =~= src@);
        }
    }

    /// The traversal order of identifiers matches the traversal order of
    /// entries.
    pub proof fn lemma_ids_entries(self)
        ensures
            self.ids().len() == self.entries().len(),
            forall|k: int|
                0 <= k < self.ids().len() ==> self.ids()[k] == (#[trigger] self.entries()[k]).0,
        decreases self,
    {
        Self::lemma_opt_ids_entries(self.top_left);
        Self::lemma_opt_ids_entries(self.top_right);
        Self::lemma_opt_ids_entries(self.bottom_left);
        Self::lemma_opt_ids_entries(self.bottom_right);
        let own = self.own_entries();
        let tl = Self::opt_entries(self.top_left);
        let tr = Self::opt_entries(self.top_right);
        let bl = Self::opt_entries(self.bottom_left);
        let br = Self::opt_entries(self.bottom_right);
        assert forall|k: int| 0 <= k < self.ids().len() implies self.ids()[k] == (
        #[trigger] self.entries()[k]).0 by {
            if k < own.len() {
                assert(self.entries()[k] == own[k]);
            } else if k < own.len() + tl.len() {
                assert(self.entries()[k] == tl[k - own.len()]);
            } else if k < own.len() + tl.len() + tr.len() {
                assert(self.entries()[k] == tr[k - own.len() - tl.len()]);
            } else if k < own.len() + tl.len() + tr.len() + bl.len() {
                assert(self.entries()[k] == bl[k - own.len() - tl.len() - tr.len()]);
            } else {
                assert(self.entries()[k] == br[k - own.len() - tl.len() - tr.len() - bl.len()]);
            }
        }
    }

    /// `lemma_ids_entries`, lifted to an optional subtree.
    pub proof fn lemma_opt_ids_entries(o: Option<Box<QuadTreeNode>>)
        ensures
            Self::opt_ids(o).len() == Self::opt_entries(o).len(),
            forall|k: int|
                0 <= k < Self::opt_ids(o).len() ==> Self::opt_ids(o)[k] == (
                #[trigger] Self::opt_entries(o)[k]).0,
        decreases o,
    {
        match o {
            None => {},
            Some(n) => {
                n.lemma_ids_entries();
            },
        }
    }

    /// Every value stored anywhere in this subtree, in traversal order:
    /// this node's values, then the four children, recursively.
    pub fn get_all_values_within(&self) -> (r: Vec<u64>)
        ensures
            r@ == self.ids(),
        decreases *self,
    {
        let mut values: Vec<u64> = Vec::new();
        Self::append_ids(&mut values, &self.values);
        match &self.top_left {
            Some(c) => {
                let sub = c.get_all_values_within();
                Self::append_ids(&mut values, &sub);
            },
            None => {},
        }
        assert(values@ == Seq::<u64>::empty() + self.values@ + Self::opt_ids(self.top_left));
        match &self.top_right {
            Some(c) => {
                let sub = c.get_all_values_within();
                Self::append_ids(&mut values, &sub);
            },
            None => {},
        }
        assert(values@ == Seq::<u64>::empty() + self.values@ + Self::opt_ids(self.top_left)
            + Self::opt_ids(self.top_right));
        match &self.bottom_left {
            Some(c) => {
                let sub = c.get_all_values_within();
                Self::append_ids(&mut values, &sub);
            },
            None => {},
        }
        match &self.bottom_right {
            Some(c) => {
                let sub = c.get_all_values_within();
                Self::append_ids(&mut values, &sub);
            },
            None => {},
        }
        proof {
            assert(values@ =~= self.ids());
        }
        values
    }

    /// Some box in an optional subtree was inserted under identifier `v`.
    pub open spec fn opt_has_id(o: Option<Box<QuadTreeNode>>, v: u64) -> bool {
        exists|j: int|
            0 <= j < Self::opt_entries(o).len() && (#[trigger] Self::opt_entries(o)[j]).0 == v
    }

    /// Route an insertion into an optional child with the given bounds,
    /// creating the child on first need.
    fn add_into(
        child: &mut Option<Box<QuadTreeNode>>,
        l: i64,
        r: i64,
        t: i64,
        b: i64,
        value: u64,
        value_position: &Position,
        value_width: i64,
        value_height: i64,
    ) -> (res: Vec<u64>)
        requires
            QuadTreeNode::child_ok(*old(child), l as int, r as int, t as int, b as int),
            l <= r,
            t <= b,
            r - l <= i64::MAX,
            b - t <= i64::MAX,
            1 <= value_width,
            1 <= value_height,
            l <= value_position.x,
            value_position.x + value_width <= r,
            t <= value_position.y,
            value_position.y + value_height <= b,
        ensures
            QuadTreeNode::child_ok(*final(child), l as int, r as int, t as int, b as int),
            Self::opt_entries(*final(child)).to_multiset() == Self::opt_entries(
                *old(child),
            ).to_multiset().insert(
                (value, make_fp(*value_position, value_width as int, value_height as int)),
            ),
            res@.contains(value),
            forall|k: int|
                0 <= k < res@.len() ==> (#[trigger] res@[k]) == value || Self::opt_has_id(
                    *old(child),
                    res@[k],
                ),
            forall|j: int|
                0 <= j < Self::opt_entries(*old(child)).len() && overlaps(
                    (#[trigger] Self::opt_entries(*old(child))[j]).1,
                    make_fp(*value_position, value_width as int, value_height as int),
                ) ==> res@.contains(Self::opt_entries(*old(child))[j].0),
        decreases (r - l) + (b - t), 1int,
    {
        let ghost fp = make_fp(*value_position, value_width as int, value_height as int);
        let mut node: Box<QuadTreeNode> = match child.take() {
            Some(n) => n,
            None => Box::new(QuadTreeNode::new_child(l, r, t, b)),
        };
        let ghost pre_entries = node.entries();
        proof {
            if (*old(child)) is None {
                assert(pre_entries.len() == 0);
                assert(pre_entries.to_multiset() =~= Self::opt_entries(*old(child)).to_multiset());
                assert(pre_entries =~= Self::opt_entries(*old(child)));
            } else {
                assert(pre_entries == Self::opt_entries(*old(child)));
            }
        }
        let res = (&mut *node).add(value, value_position, value_width, value_height);
        proof {
            assert forall|k: int|
                0 <= k < res@.len() implies (#[trigger] res@[k]) == value || Self::opt_has_id(
                *old(child),
                res@[k],
            ) by {
                if res@[k] != value {
                    let j = choose|j: int|
                        0 <= j < pre_entries.len() && (#[trigger] pre_entries[j]).0 == res@[k];
                    assert(Self::opt_entries(*old(child))[j].0 == res@[k]);
                }
            }
        }
        *child = Some(node);
        res
    }

    /// Insert a box under identifier `value`. The box must lie entirely
    /// within this node's bounds. Insertion recurses into one of the four
    /// quadrants only when the box lies wholly inside that quadrant
    /// (children are created lazily); otherwise the box is stored at this
    /// node. The returned list holds every value already reachable from the
    /// nodes the box was routed through -- the broad-phase candidate set --
    /// and provably contains every earlier value whose box overlaps the new
    /// one (the new value itself is in the list too).
    pub fn add(
        &mut self,
        value: u64,
        value_position: &Position,
        value_width: i64,
        value_height: i64,
    ) -> (r: Vec<u64>)
        requires
            old(self).wf(),
            1 <= value_width,
            1 <= value_height,
            old(self).covers(make_fp(*value_position, value_width as int, value_height as int)),
        ensures
            final(self).wf(),
            final(self).left == old(self).left,
            final(self).right == old(self).right,
            final(self).top == old(self).top,
            final(self).bottom == old(self).bottom,
            final(self).entries().to_multiset() == old(self).entries().to_multiset().insert(
                (value, make_fp(*value_position, value_width as int, value_height as int)),
            ),
            r@.contains(value),
            forall|k: int|
                0 <= k < r@.len() ==> (#[trigger] r@[k]) == value || old(self).has_id(r@[k]),
            forall|j: int|
                0 <= j < old(self).entries().len() && overlaps(
                    (#[trigger] old(self).entries()[j]).1,
                    make_fp(*value_position, value_width as int, value_height as int),
                ) ==> r@.contains(old(self).entries()[j].0),
        decreases
                (old(self).right - old(self).left) + (old(self).bottom - old(self).top),
                0int,
    {
        let ghost fp = make_fp(*value_position, value_width as int, value_height as int);
        let ghost pre = *old(self);
        let ghost own = pre.own_entries();
        let ghost e_tl = Self::opt_entries(pre.top_left);
        let ghost e_tr = Self::opt_entries(pre.top_right);
        let ghost e_bl = Self::opt_entries(pre.bottom_left);
        let ghost e_br = Self::opt_entries(pre.bottom_right);
        proof {
            assert(pre.entries() == own + e_tl + e_tr + e_bl + e_br);
            assert forall|j: int| 0 <= j < own.len() implies (#[trigger] own[j]).0
                == pre.values@[j] by {}
        }
        let mx = self.left + (self.right - self.left) / 2;
        let my = self.top + (self.bottom - self.top) / 2;
        proof {
            assert(mx == pre.mid_x());
            assert(my == pre.mid_y());
            assert(pre.left <= mx <= pre.right);
            assert(pre.top <= my <= pre.bottom);
        }
        let route_left = value_position.x + value_width < mx;
        let route_right = value_position.x > mx;
        let route_top = value_position.y + value_height < my;
        let route_bottom = value_position.y > my;

        if route_left && route_top {
            proof {
                assert(pre.left < mx && mx < pre.right);
                assert(pre.top < my && my < pre.bottom);
            }
            let rc = Self::add_into(
                &mut self.top_left,
                self.left,
                mx,
                self.top,
                my,
                value,
                value_position,
                value_width,
                value_height,
            );
            let ghost ch1 = Self::opt_entries(self.top_left);
            let mut pot = rc;
            Self::append_ids(&mut pot, &self.values);
            proof {
                Self::lemma_child_avoids(pre.top_right, mx as int, pre.right as int, pre.top as int, my as int, fp);
                Self::lemma_child_avoids(pre.bottom_left, pre.left as int, mx as int, my as int, pre.bottom as int, fp);
                Self::lemma_child_avoids(pre.bottom_right, mx as int, pre.right as int, my as int, pre.bottom as int, fp);
                assert(self.entries() == own + ch1 + e_tr + e_bl + e_br);
                Self::lemma_routed_bookkeeping(
                    pre.entries(), self.entries(), own, pre.values@,
                    e_tl, e_tr, e_bl, e_br, e_tl, ch1, 1,
                    rc@, pot@, value, fp,
                );
                assert(self.wf());
            }
            return pot;
        } else if route_left && route_bottom {
            proof {
                assert(pre.left < mx && mx < pre.right);
            }
            let rc = Self::add_into(
                &mut self.bottom_left,
                self.left,
                mx,
                my,
                self.bottom,
                value,
                value_position,
                value_width,
                value_height,
            );
            let ghost ch1 = Self::opt_entries(self.bottom_left);
            let mut pot = rc;
            Self::append_ids(&mut pot, &self.values);
            proof {
                Self::lemma_child_avoids(pre.top_left, pre.left as int, mx as int, pre.top as int, my as int, fp);
                Self::lemma_child_avoids(pre.top_right, mx as int, pre.right as int, pre.top as int, my as int, fp);
                Self::lemma_child_avoids(pre.bottom_right, mx as int, pre.right as int, my as int, pre.bottom as int, fp);
                assert(self.entries() == own + e_tl + e_tr + ch1 + e_br);
                Self::lemma_routed_bookkeeping(
                    pre.entries(), self.entries(), own, pre.values@,
                    e_tl, e_tr, e_bl, e_br, e_bl, ch1, 3,
                    rc@, pot@, value, fp,
                );
                assert(self.wf());
            }
            return pot;
        } else if route_right && route_top {
            proof {
                assert(pre.left < mx && mx < pre.right);
                assert(pre.top < my && my < pre.bottom);
            }
            let rc = Self::add_into(
                &mut self.top_right,
                mx,
                self.right,
                self.top,
                my,
                value,
                value_position,
                value_width,
                value_height,
            );
            let ghost ch1 = Self::opt_entries(self.top_right);
            let mut pot = rc;
            Self::append_ids(&mut pot, &self.values);
            proof {
                Self::lemma_child_avoids(pre.top_left, pre.left as int, mx as int, pre.top as int, my as int, fp);
                Self::lemma_child_avoids(pre.bottom_left, pre.left as int, mx as int, my as int, pre.bottom as int, fp);
                Self::lemma_child_avoids(pre.bottom_right, mx as int, pre.right as int, my as int, pre.bottom as int, fp);
                assert(self.entries() == own + e_tl + ch1 + e_bl + e_br);
                Self::lemma_routed_bookkeeping(
                    pre.entries(), self.entries(), own, pre.values@,
                    e_tl, e_tr, e_bl, e_br, e_tr, ch1, 2,
                    rc@, pot@, value, fp,
                );
                assert(self.wf());
            }
            return pot;
        } else if route_right && route_bottom {
            proof {
                assert(pre.left < mx && mx < pre.right);
            }
            let rc = Self::add_into(
                &mut self.bottom_right,
                mx,
                self.right,
                my,
                self.bottom,
                value,
                value_position,
                value_width,
                value_height,
            );
            let ghost ch1 = Self::opt_entries(self.bottom_right);
            let mut pot = rc;
            Self::append_ids(&mut pot, &self.values);
            proof {
                Self::lemma_child_avoids(pre.top_left, pre.left as int, mx as int, pre.top as int, my as int, fp);
                Self::lemma_child_avoids(pre.top_right, mx as int, pre.right as int, pre.top as int, my as int, fp);
                Self::lemma_child_avoids(pre.bottom_left, pre.left as int, mx as int, my as int, pre.bottom as int, fp);
                assert(self.entries() == own + e_tl + e_tr + e_bl + ch1);
                Self::lemma_routed_bookkeeping(
                    pre.entries(), self.entries(), own, pre.values@,
                    e_tl, e_tr, e_bl, e_br, e_br, ch1, 4,
                    rc@, pot@, value, fp,
                );
                assert(self.wf());
            }
            return pot;
        }

        // The box straddles a center line (or touches one): store it at
        // this node, and return everything reachable from here.
        self.values.push(value);
        proof {
            self.boxes@ = self.boxes@.push(fp);
        }
        let r = self.get_all_values_within();
        proof {
            let post = *self;
            let own_f = post.own_entries();
            assert(own_f =~= own.push((value, fp)));
            assert(post.entries() == own_f + e_tl + e_tr + e_bl + e_br);
            post.lemma_ids_entries();
            assert(post.wf());
            lemma_multiset_commutative(own, e_tl);
            lemma_multiset_commutative(own + e_tl, e_tr);
            lemma_multiset_commutative(own + e_tl + e_tr, e_bl);
            lemma_multiset_commutative(own + e_tl + e_tr + e_bl, e_br);
            lemma_multiset_commutative(own_f, e_tl);
            lemma_multiset_commutative(own_f + e_tl, e_tr);
            lemma_multiset_commutative(own_f + e_tl + e_tr, e_bl);
            lemma_multiset_commutative(own_f + e_tl + e_tr + e_bl, e_br);
            assert(post.entries().to_multiset() =~= pre.entries().to_multiset().insert(
                (value, fp),
            ));
            assert(post.entries()[own.len() as int] == (value, fp));
            assert(r@.contains(value)) by {
                assert(r@[own.len() as int] == value);
            }
            assert forall|k: int|
                0 <= k < r@.len() implies (#[trigger] r@[k]) == value || pre.has_id(r@[k]) by {
                assert(r@[k] == post.entries()[k].0);
                if k < own.len() {
                    assert(post.entries()[k] == own_f[k]);
                    assert(own_f[k] == own[k]);
                    assert(pre.entries()[k] == own[k]);
                } else if k == own.len() {
                    assert(post.entries()[k] == (value, fp));
                } else {
                    assert(post.entries()[k] == pre.entries()[k - 1]);
                }
            }
            assert forall|j: int|
                0 <= j < pre.entries().len() && overlaps(
                    (#[trigger] pre.entries()[j]).1,
                    fp,
                ) implies r@.contains(pre.entries()[j].0) by {
                if j < own.len() {
                    assert(pre.entries()[j] == own[j]);
                    assert(own_f[j] == own[j]);
                    assert(post.entries()[j] == own_f[j]);
                    assert(r@[j] == pre.entries()[j].0);
                } else {
                    assert(post.entries()[j + 1] == pre.entries()[j]);
                    assert(r@[j + 1] == pre.entries()[j].0);
                }
            }
        }
        r
    }

    /// Whether a box anchored at `value_position` with the given extents
    /// lies entirely within this node's bounds.
    pub fn fits(&self, value_position: &Position, value_width: i64, value_height: i64) -> (r:
        bool)
        ensures
            r == self.covers(make_fp(*value_position, value_width as int, value_height as int)),
    {
        let x = value_position.x as i128;
        let y = value_position.y as i128;
        (self.left as i128) <= x && x + (value_width as i128) <= (self.right as i128) && (self.top
            as i128) <= y && y + (value_height as i128) <= (self.bottom as i128)
    }

    /// `add`, guarded by the containment precondition: returns `None`, and
    /// leaves the tree untouched, exactly when the box does not lie
    /// entirely within this node's bounds.
    pub fn checked_add(
        &mut self,
        value: u64,
        value_position: &Position,
        value_width: i64,
        value_height: i64,
    ) -> (r: Option<Vec<u64>>)
        requires
            old(self).wf(),
            1 <= value_width,
            1 <= value_height,
        ensures
            final(self).wf(),
            r is None <==> !old(self).covers(
                make_fp(*value_position, value_width as int, value_height as int),
            ),
            r is None ==> *final(self) == *old(self),
            r is Some ==> final(self).entries().to_multiset() == old(
                self,
            ).entries().to_multiset().insert(
                (value, make_fp(*value_position, value_width as int, value_height as int)),
            ),
            r is Some ==> r.unwrap()@.contains(value),
            r is Some ==> forall|k: int|
                0 <= k < r.unwrap()@.len() ==> (#[trigger] r.unwrap()@[k]) == value || old(
                    self,
                ).has_id(r.unwrap()@[k]),
            r is Some ==> forall|j: int|
                0 <= j < old(self).entries().len() && overlaps(
                    (#[trigger] old(self).entries()[j]).1,
                    make_fp(*value_position, value_width as int, value_height as int),
                ) ==> r.unwrap()@.contains(old(self).entries()[j].0),
    {
        if self.fits(value_position, value_width, value_height) {
            Some(self.add(value, value_position, value_width, value_height))
        } else {
            None
        }
    }

    /// The bounding rectangles of an optional subtree, pre-order, each as
    /// `(center x, center y, width, height)`.
    pub open spec fn opt_rects(o: Option<Box<QuadTreeNode>>) -> Seq<(i64, i64, i64, i64)>
        decreases o,
    {
        match o {
            None => Seq::empty(),
            Some(n) => n.rects(),
        }
    }

    /// The bounding rectangles of this subtree, pre-order: this node's,
    /// then the four children's, each as `(center x, center y, width,
    /// height)`.
    pub open spec fn rects(self) -> Seq<(i64, i64, i64, i64)>
        decreases self,
    {
        seq![
            (
                self.mid_x() as i64,
                self.mid_y() as i64,
                (self.right - self.left) as i64,
                (self.bottom - self.top) as i64,
            ),
        ] + Self::opt_rects(self.top_left) + Self::opt_rects(self.top_right) + Self::opt_rects(
            self.bottom_left,
        ) + Self::opt_rects(self.bottom_right)
    }

    /// A pre-order walk of every node's bounding rectangle, as `(center x,
    /// center y, width, height)`: the read-only traversal a renderer can
    /// draw for debugging.
    pub fn display_rects(&self) -> (r: Vec<(i64, i64, i64, i64)>)
        requires
            self.wf(),
        ensures
            r@ == self.rects(),
        decreases *self,
    {
        let mut out: Vec<(i64, i64, i64, i64)> = Vec::new();
        let mx = self.left + (self.right - self.left) / 2;
        let my = self.top + (self.bottom - self.top) / 2;
        out.push((mx, my, self.right - self.left, self.bottom - self.top));
        match &self.top_left {
            Some(c) => {
                let sub = c.display_rects();
                Self::append_rects(&mut out, &sub);
            },
            None => {},
        }
        match &self.top_right {
            Some(c) => {
                let sub = c.display_rects();
                Self::append_rects(&mut out, &sub);
            },
            None => {},
        }
        match &self.bottom_left {
            Some(c) => {
                let sub = c.display_rects();
                Self::append_rects(&mut out, &sub);
            },
            None => {},
        }
        match &self.bottom_right {
            Some(c) => {
                let sub = c.display_rects();
                Self::append_rects(&mut out, &sub);
            },
            None => {},
        }
        proof {
            assert(out@ =~= self.rects());
        }
        out
    }

    /// Append every rectangle of `src` to `dst`, in order.
    fn append_rects(dst: &mut Vec<(i64, i64, i64, i64)>, src: &Vec<(i64, i64, i64, i64)>)
        ensures
            final(dst)@ == old(dst)@ + src@,
    {
        let mut i: usize = 0;
        while i < src.len()
            invariant
                i <= src@.len(),
                dst@ == old(dst)@ + src@.subrange(0, i as int),
            decreases src@.len() - i,
        {
            dst.push(src[i]);
            proof {
                assert(old(dst)@ + src@.subrange(0, i as int) + seq![src@[i as int]] =~= old(
                    dst,
                )@ + src@.subrange(0, i + 1));
            }
            i += 1;
        }
        proof {
            assert(src@.subrange(0, src@.len() as int) =~= src@);
        }
    }

    /// Every box in a well-formed optional subtree whose bounds lie wholly
    /// on the far side of one of `fp`'s edges avoids `fp`: closed regions
    /// that share at most an edge hold no strictly overlapping boxes.
    proof fn lemma_child_avoids(
        o: Option<Box<QuadTreeNode>>,
        l: int,
        r: int,
        t: int,
        b: int,
        fp: Footprint,
    )
        requires
            Self::child_ok(o, l, r, t, b),
            fp.x + fp.w <= l || r <= fp.x || fp.y + fp.h <= t || b <= fp.y,
        ensures
            forall|j: int|
                0 <= j < Self::opt_entries(o).len() ==> !overlaps(
                    (#[trigger] Self::opt_entries(o)[j]).1,
                    fp,
                ),
    {
        Self::lemma_opt_entries_within(o, l, r, t, b);
    }

    /// The sequence and multiset bookkeeping shared by the four routed
    /// branches of `add`. The old traversal order is `own`, then the four
    /// children's entries `s1..s4`; `quadrant` (1 top-left, 2 top-right,
    /// 3 bottom-left, 4 bottom-right) says which child the box was routed
    /// into, `ch1` is that child's entries afterwards, `rc` what the
    /// routed insertion returned, and `pot` is `rc` followed by this node's
    /// own values.
    #[verifier::rlimit(30)]
    proof fn lemma_routed_bookkeeping(
        pre_entries: Seq<(u64, Footprint)>,
        post_entries: Seq<(u64, Footprint)>,
        own: Seq<(u64, Footprint)>,
        vals: Seq<u64>,
        s1: Seq<(u64, Footprint)>,
        s2: Seq<(u64, Footprint)>,
        s3: Seq<(u64, Footprint)>,
        s4: Seq<(u64, Footprint)>,
        ch0: Seq<(u64, Footprint)>,
        ch1: Seq<(u64, Footprint)>,
        quadrant: int,
        rc: Seq<u64>,
        pot: Seq<u64>,
        value: u64,
        fp: Footprint,
    )
        requires
            1 <= quadrant <= 4,
            pre_entries == own + s1 + s2 + s3 + s4,
            post_entries == own + (if quadrant == 1 { ch1 } else { s1 }) + (if quadrant == 2 {
                ch1
            } else {
                s2
            }) + (if quadrant == 3 {
                ch1
            } else {
                s3
            }) + (if quadrant == 4 {
                ch1
            } else {
                s4
            }),
            ch0 == (if quadrant == 1 {
                s1
            } else if quadrant == 2 {
                s2
            } else if quadrant == 3 {
                s3
            } else {
                s4
            }),
            ch1.to_multiset() == ch0.to_multiset().insert((value, fp)),
            vals.len() == own.len(),
            forall|j: int| 0 <= j < own.len() ==> (#[trigger] own[j]).0 == vals[j],
            pot == rc + vals,
            rc.contains(value),
            forall|k: int|
                0 <= k < rc.len() ==> (#[trigger] rc[k]) == value || exists|j: int|
                    0 <= j < ch0.len() && (#[trigger] ch0[j]).0 == rc[k],
            forall|j: int|
                0 <= j < ch0.len() && overlaps((#[trigger] ch0[j]).1, fp) ==> rc.contains(
                    ch0[j].0,
                ),
            quadrant != 1 ==> forall|j: int|
                0 <= j < s1.len() ==> !overlaps((#[trigger] s1[j]).1, fp),
            quadrant != 2 ==> forall|j: int|
                0 <= j < s2.len() ==> !overlaps((#[trigger] s2[j]).1, fp),
            quadrant != 3 ==> forall|j: int|
                0 <= j < s3.len() ==> !overlaps((#[trigger] s3[j]).1, fp),
            quadrant != 4 ==> forall|j: int|
                0 <= j < s4.len() ==> !overlaps((#[trigger] s4[j]).1, fp),
        ensures
            post_entries.to_multiset() == pre_entries.to_multiset().insert((value, fp)),
            pot.contains(value),
            forall|k: int|
                0 <= k < pot.len() ==> (#[trigger] pot[k]) == value || exists|j: int|
                    0 <= j < pre_entries.len() && (#[trigger] pre_entries[j]).0 == pot[k],
            forall|j: int|
                0 <= j < pre_entries.len() && overlaps((#[trigger] pre_entries[j]).1, fp)
                    ==> pot.contains(pre_entries[j].0),
    {
        let t1 = if quadrant == 1 { ch1 } else { s1 };
        let t2 = if quadrant == 2 { ch1 } else { s2 };
        let t3 = if quadrant == 3 { ch1 } else { s3 };
        let t4 = if quadrant == 4 { ch1 } else { s4 };
        // Offset of the routed child's entries within the old traversal.
        let off = own.len() + (if quadrant > 1 { s1.len() } else { 0 }) + (if quadrant > 2 {
            s2.len()
        } else {
            0
        }) + (if quadrant > 3 {
            s3.len()
        } else {
            0
        });
        assert forall|j: int| 0 <= j < ch0.len() implies pre_entries[off + j] == ch0[j] by {}
        lemma_multiset_commutative(own, s1);
        lemma_multiset_commutative(own + s1, s2);
        lemma_multiset_commutative(own + s1 + s2, s3);
        lemma_multiset_commutative(own + s1 + s2 + s3, s4);
        lemma_multiset_commutative(own, t1);
        lemma_multiset_commutative(own + t1, t2);
        lemma_multiset_commutative(own + t1 + t2, t3);
        lemma_multiset_commutative(own + t1 + t2 + t3, t4);
        assert(post_entries.to_multiset() =~= pre_entries.to_multiset().insert((value, fp)));
        assert(pot.contains(value)) by {
            let k = choose|k: int| 0 <= k < rc.len() && rc[k] == value;
            assert(pot[k] == value);
        }
        assert forall|k: int|
            0 <= k < pot.len() implies (#[trigger] pot[k]) == value || exists|j: int|
                0 <= j < pre_entries.len() && (#[trigger] pre_entries[j]).0 == pot[k] by {
            if k < rc.len() {
                assert(pot[k] == rc[k]);
                if rc[k] != value {
                    let j = choose|j: int| 0 <= j < ch0.len() && (ch0[j]).0 == rc[k];
                    assert(pre_entries[off + j] == ch0[j]);
                    assert(pre_entries[off + j].0 == pot[k]);
                }
            } else {
                let j = k - rc.len();
                assert(pot[k] == vals[j]);
                assert(pre_entries[j] == own[j]);
                assert(pre_entries[j].0 == pot[k]);
            }
        }
        assert forall|j: int|
            0 <= j < pre_entries.len() && overlaps(
                (#[trigger] pre_entries[j]).1,
                fp,
            ) implies pot.contains(pre_entries[j].0) by {
            if j < own.len() {
                assert(pre_entries[j] == own[j]);
                assert(pot[rc.len() + j] == vals[j]);
                assert(pot.contains(pre_entries[j].0));
            } else if off <= j < off + ch0.len() {
                let i = j - off;
                assert(pre_entries[j] == ch0[i]);
                assert(rc.contains(ch0[i].0));
                let k = choose|k: int| 0 <= k < rc.len() && rc[k] == ch0[i].0;
                assert(pot[k] == ch0[i].0);
                assert(pot.contains(pre_entries[j].0));
            } else {
                // The entry lies in one of the three untouched quadrants,
                // none of which overlaps the routed box.
                let l1 = own.len();
                let l2 = l1 + s1.len();
                let l3 = l2 + s2.len();
                let l4 = l3 + s3.len();
                if l1 <= j < l2 {
                    assert(pre_entries[j] == s1[j - l1]);
                    assert(quadrant != 1);
                    assert(false);
                } else if l2 <= j < l3 {
                    assert(pre_entries[j] == s2[j - l2]);
                    assert(quadrant != 2);
                    assert(false);
                } else if l3 <= j < l4 {
                    assert(pre_entries[j] == s3[j - l3]);
                    assert(quadrant != 3);
                    assert(false);
                } else {
                    assert(pre_entries[j] == s4[j - l4]);
                    assert(quadrant != 4);
                    assert(false);
                }
            }
        }
    }
}

} // verus!
