//! Collision detection and resolution.
//!
//! The detector inserts every collidable entity into a fresh partition; the
//! candidate list that insertion returns is tested pairwise in both
//! directions, because mask/layer filtering is directional. The resolver
//! consumes the recorded facts, applies per-behaviour responses, and resets
//! each processed entity's fact list to empty.

use vstd::prelude::*;
use vstd::pervasive::VecAdditionalExecFns;
use vstd::seq_lib::group_to_multiset_ensures;
use vstd::multiset::group_multiset_axioms;
use crate::components::{Collider, ColliderBehaviour, Collision, Collisions, Entity, Position,
    Velocity, World};
use crate::motion::{scaled, scaled_fits, scale_by_dt};
use crate::quadtree::{make_fp, overlaps, Footprint, QuadTreeNode};

verus! {

broadcast use group_to_multiset_ensures, group_multiset_axioms;

/// The entity participates in collision detection: it has both a position
/// and a collider.
pub open spec fn collidable(e: Entity) -> bool {
    e.position is Some && e.collider is Some
}

/// The collidable entity's box.
pub open spec fn fp_of(e: Entity) -> Footprint {
    make_fp(e.position.unwrap(), e.collider.unwrap().width as int, e.collider.unwrap().height as int)
}

/// The directional narrow-phase test: the first collider detects the
/// second iff its mask selects the second's layer and the two boxes
/// strictly overlap (touching edges do not collide).
pub open spec fn spec_collides(
    pos: Position,
    col: Collider,
    other_pos: Position,
    other_col: Collider,
) -> bool {
    &&& (col.mask & other_col.layer) != 0
    &&& overlaps(
        make_fp(pos, col.width as int, col.height as int),
        make_fp(other_pos, other_col.width as int, other_col.height as int),
    )
}

/// The narrow-phase test, computed as a center-distance comparison: the
/// absolute difference of the doubled centers on each axis must be
/// strictly below the sum of the extents.
pub fn collides(
    pos: &Position,
    collision: &Collider,
    other_pos: &Position,
    other_collision: &Collider,
) -> (r: bool)
    ensures
        r == spec_collides(*pos, *collision, *other_pos, *other_collision),
{
    if collision.mask & other_collision.layer == 0 {
        return false;
    }
    let dx2: i128 = 2 * (pos.x as i128) + (collision.width as i128) - 2 * (other_pos.x as i128)
        - (other_collision.width as i128);
    let dy2: i128 = 2 * (pos.y as i128) + (collision.height as i128) - 2 * (other_pos.y as i128)
        - (other_collision.height as i128);
    let adx2: i128 = if dx2 < 0 {
        -dx2
    } else {
        dx2
    };
    let ady2: i128 = if dy2 < 0 {
        -dy2
    } else {
        dy2
    };
    adx2 < (collision.width as i128) + (other_collision.width as i128) && ady2 < (collision.height
        as i128) + (other_collision.height as i128)
}

/// Reporting a collision without a layer gate is symmetric: when the
/// mask/layer gate passes in both directions (as with an all-ones mask and
/// layer on both sides), the two directional tests agree.
pub proof fn lemma_collides_symmetric(pos: Position, col: Collider, other_pos: Position, other_col: Collider)
    requires
        ((col.mask & other_col.layer) != 0) == ((other_col.mask & col.layer) != 0),
    ensures
        spec_collides(pos, col, other_pos, other_col) == spec_collides(
            other_pos,
            other_col,
            pos,
            col,
        ),
{
}

/// Layer gating is directional: an entity whose mask does not select the
/// other's layer never reports a collision against it, whatever the other
/// direction reports.
pub proof fn lemma_layer_gate_blocks(pos: Position, col: Collider, other_pos: Position, other_col: Collider)
    requires
        col.mask & other_col.layer == 0,
    ensures
        !spec_collides(pos, col, other_pos, other_col),
{
}

/// Boxes whose edges exactly touch (gap zero on some axis) do not collide,
/// in either direction: the overlap test is strict.
pub proof fn lemma_touching_edges_no_collision(
    pos: Position,
    col: Collider,
    other_pos: Position,
    other_col: Collider,
)
    requires
        pos.x + col.width == other_pos.x || other_pos.x + other_col.width == pos.x || pos.y
            + col.height == other_pos.y || other_pos.y + other_col.height == pos.y,
    ensures
        !spec_collides(pos, col, other_pos, other_col),
        !spec_collides(other_pos, other_col, pos, col),
{
}

/// A recorded collision fact is sound: it names a distinct, collidable
/// entity, carries that entity's collider, and the directional test from
/// the owning entity against it passes.
pub open spec fn fact_sound(ws: Seq<Entity>, i: int, c: Collision) -> bool {
    &&& 0 <= c.entity < ws.len()
    &&& c.entity as int != i
    &&& collidable(ws[c.entity as int])
    &&& c.collider == ws[c.entity as int].collider.unwrap()
    &&& spec_collides(
        ws[i].position.unwrap(),
        ws[i].collider.unwrap(),
        ws[c.entity as int].position.unwrap(),
        c.collider,
    )
}

/// The detector may run on this entity: a collidable entity's box has
/// positive extents and lies entirely within the configured world bounds.
pub open spec fn detect_ok(e: Entity, center: Position, width: int, height: int) -> bool {
    collidable(e) ==> {
        let p = e.position.unwrap();
        let c = e.collider.unwrap();
        &&& c.width >= 1
        &&& c.height >= 1
        &&& center.x - width / 2 <= p.x
        &&& p.x + c.width <= center.x + width / 2
        &&& center.y - height / 2 <= p.y
        &&& p.y + c.height <= center.y + height / 2
    }
}

/// Every component of the entity except its collision facts is unchanged.
pub open spec fn same_but_collisions(o: Entity, n: Entity) -> bool {
    &&& n.position == o.position
    &&& n.velocity == o.velocity
    &&& n.acceleration == o.acceleration
    &&& n.friction == o.friction
    &&& n.movement_input == o.movement_input
    &&& n.collider == o.collider
}

/// The facts recorded against entity `a`, in discovery order.
pub open spec fn facts_for(fs: Seq<(u64, Collision)>, a: u64) -> Seq<Collision>
    decreases fs.len(),
{
    if fs.len() == 0 {
        Seq::empty()
    } else {
        let prefix = facts_for(fs.drop_last(), a);
        if fs.last().0 == a {
            prefix.push(fs.last().1)
        } else {
            prefix
        }
    }
}

/// Pushing onto a sequence preserves and extends membership.
proof fn lemma_seq_push_contains<T>(s: Seq<T>, x: T)
    ensures
        forall|y: T| #[trigger] s.push(x).contains(y) <==> s.contains(y) || y == x,
{
    assert forall|y: T| #[trigger] s.push(x).contains(y) implies s.contains(y) || y == x by {
        let idx = choose|idx: int| 0 <= idx < s.push(x).len() && s.push(x)[idx] == y;
        if idx < s.len() {
            assert(s[idx] == y);
        }
    }
    assert forall|y: T| s.contains(y) || y == x implies #[trigger] s.push(x).contains(y) by {
        if s.contains(y) {
            let idx = choose|idx: int| 0 <= idx < s.len() && s[idx] == y;
            assert(s.push(x)[idx] == y);
        } else {
            assert(s.push(x)[s.len() as int] == y);
        }
    }
}

/// Every fact selected for `a` came from the flat record, keyed by `a`.
proof fn lemma_facts_for_sound(fs: Seq<(u64, Collision)>, a: u64)
    ensures
        forall|k: int|
            0 <= k < facts_for(fs, a).len() ==> fs.contains((a, #[trigger] facts_for(fs, a)[k])),
    decreases fs.len(),
{
    if fs.len() == 0 {
    } else {
        lemma_facts_for_sound(fs.drop_last(), a);
        let prefix = facts_for(fs.drop_last(), a);
        assert forall|k: int|
            0 <= k < facts_for(fs, a).len() implies fs.contains(
            (a, #[trigger] facts_for(fs, a)[k]),
        ) by {
            if k < prefix.len() {
                assert(facts_for(fs, a)[k] == prefix[k]);
                assert(fs.drop_last().contains((a, prefix[k])));
                let idx = choose|idx: int|
                    0 <= idx < fs.drop_last().len() && fs.drop_last()[idx] == (a, prefix[k]);
                assert(fs[idx] == (a, prefix[k]));
            } else {
                assert(fs.last().0 == a && facts_for(fs, a)[k] == fs.last().1);
                assert(fs[fs.len() - 1] == (a, facts_for(fs, a)[k]));
            }
        }
    }
}

/// Every fact recorded under key `a` is selected for `a`.
proof fn lemma_facts_for_complete(fs: Seq<(u64, Collision)>, a: u64, c: Collision)
    requires
        fs.contains((a, c)),
    ensures
        facts_for(fs, a).contains(c),
    decreases fs.len(),
{
    let idx = choose|idx: int| 0 <= idx < fs.len() && fs[idx] == (a, c);
    let prefix = facts_for(fs.drop_last(), a);
    if idx == fs.len() - 1 {
        assert(fs.last() == (a, c));
        assert(facts_for(fs, a) == prefix.push(c));
        assert(facts_for(fs, a)[prefix.len() as int] == c);
    } else {
        assert(fs.drop_last()[idx] == (a, c));
        assert(fs.drop_last().contains((a, c)));
        lemma_facts_for_complete(fs.drop_last(), a, c);
        let k = choose|k: int| 0 <= k < prefix.len() && prefix[k] == c;
        if fs.last().0 == a {
            assert(facts_for(fs, a)[k] == c);
        } else {
            assert(facts_for(fs, a)[k] == c);
        }
    }
}

/// The directional narrow-phase test between two entities of the store,
/// both assumed collidable.
pub open spec fn collides_between(ws: Seq<Entity>, a: int, b: int) -> bool {
    spec_collides(
        ws[a].position.unwrap(),
        ws[a].collider.unwrap(),
        ws[b].position.unwrap(),
        ws[b].collider.unwrap(),
    )
}

/// The detector: rebuild the partition over the given world bounds, insert
/// every collidable entity, test each insertion's candidate set in both
/// directions, and attach the discovered facts to the affected entities.
///
/// Entities that discover no fact this step keep their fact list untouched
/// (absent stays absent, stale stays stale); every recorded fact is sound,
/// and for every ordered pair of collidable entities whose directional test
/// passes, a fact is recorded — the broad phase provably misses no
/// colliding pair.
#[verifier::loop_isolation(false)]
#[verifier::rlimit(60)]
pub fn system_find_collisions(world: &mut World, center: Position, width: i64, height: i64) -> (root:
    QuadTreeNode)
    requires
        width >= 0,
        height >= 0,
        i64::MIN <= center.x - width / 2,
        center.x + width / 2 <= i64::MAX,
        i64::MIN <= center.y - height / 2,
        center.y + height / 2 <= i64::MAX,
        forall|i: int|
            0 <= i < old(world).entities@.len() ==> detect_ok(
                #[trigger] old(world).entities@[i],
                center,
                width as int,
                height as int,
            ),
    ensures
        final(world).entities@.len() == old(world).entities@.len(),
        forall|i: int|
            0 <= i < old(world).entities@.len() ==> same_but_collisions(
                old(world).entities@[i],
                #[trigger] final(world).entities@[i],
            ),
        forall|i: int|
            0 <= i < old(world).entities@.len() && !collidable(#[trigger] old(world).entities@[i])
                ==> final(world).entities@[i] == old(world).entities@[i],
        forall|i: int|
            0 <= i < old(world).entities@.len() && (#[trigger] final(world).entities@[i]).collisions
                != old(world).entities@[i].collisions ==> {
                let l = final(world).entities@[i].collisions;
                &&& l is Some
                &&& l.unwrap().0@.len() > 0
                &&& forall|k: int|
                    0 <= k < l.unwrap().0@.len() ==> fact_sound(
                        old(world).entities@,
                        i,
                        #[trigger] l.unwrap().0@[k],
                    )
            },
        forall|i: int, j: int|
            0 <= i < old(world).entities@.len() && 0 <= j < old(world).entities@.len() && i != j
                && collidable(#[trigger] old(world).entities@[i]) && collidable(
                #[trigger] old(world).entities@[j],
            ) && collides_between(old(world).entities@, i, j) ==> {
                let l = final(world).entities@[i].collisions;
                &&& l is Some
                &&& l.unwrap().0@.contains(
                    Collision {
                        entity: j as u64,
                        collider: old(world).entities@[j].collider.unwrap(),
                    },
                )
            },
        root.wf(),
        forall|j: int|
            0 <= j < root.entries().len() ==> {
                let ent = #[trigger] root.entries()[j];
                &&& 0 <= ent.0 < old(world).entities@.len()
                &&& collidable(old(world).entities@[ent.0 as int])
                &&& ent.1 == fp_of(old(world).entities@[ent.0 as int])
            },
        forall|m: int|
            0 <= m < old(world).entities@.len() && collidable(#[trigger] old(world).entities@[m])
                ==> root.entries().to_multiset().contains(
                (m as u64, fp_of(old(world).entities@[m])),
            ),
{
    let ghost ws = old(world).entities@;
    let n = world.entities.len();
    let mut root = QuadTreeNode::new(center, width, height);
    let mut facts: Vec<(u64, Collision)> = Vec::new();
    let mut i: usize = 0;
    while i < n
        invariant
            i <= n,
            world.entities@ == ws,
            root.wf(),
            root.left == center.x - width / 2,
            root.right == center.x + width / 2,
            root.top == center.y - height / 2,
            root.bottom == center.y + height / 2,
            forall|j: int|
                0 <= j < root.entries().len() ==> {
                    let ent = #[trigger] root.entries()[j];
                    &&& 0 <= ent.0 < i
                    &&& collidable(ws[ent.0 as int])
                    &&& ent.1 == fp_of(ws[ent.0 as int])
                },
            forall|m: int|
                0 <= m < i && collidable(#[trigger] ws[m]) ==> root.entries().to_multiset().contains(
                    (m as u64, fp_of(ws[m])),
                ),
            forall|m: int|
                0 <= m < facts@.len() ==> {
                    let f = #[trigger] facts@[m];
                    &&& 0 <= f.0 < n
                    &&& collidable(ws[f.0 as int])
                    &&& fact_sound(ws, f.0 as int, f.1)
                },
            forall|a: int, b: int|
                0 <= a < i && 0 <= b < i && a != b && collidable(#[trigger] ws[a]) && collidable(
                    #[trigger] ws[b],
                ) && collides_between(ws, a, b) ==> facts@.contains(
                    (a as u64, Collision { entity: b as u64, collider: ws[b].collider.unwrap() }),
                ),
        decreases n - i,
    {
        let pos_opt = world.entities[i].position;
        let col_opt = world.entities[i].collider;
        if pos_opt.is_some() && col_opt.is_some() {
            let pos = pos_opt.unwrap();
            let col = col_opt.unwrap();
            let ghost pre_root = root;
            let ghost fpi = fp_of(ws[i as int]);
            let cands = root.add(i as u64, &pos, col.width, col.height);
            proof {
                assert(make_fp(pos, col.width as int, col.height as int) == fpi);
                // Every entry of the grown tree is an old entry or the new
                // pair, so the tree invariants carry to bound i + 1.
                assert forall|j: int| 0 <= j < root.entries().len() implies {
                    let ent = #[trigger] root.entries()[j];
                    &&& 0 <= ent.0 < i + 1
                    &&& collidable(ws[ent.0 as int])
                    &&& ent.1 == fp_of(ws[ent.0 as int])
                } by {
                    let ent = root.entries()[j];
                    assert(root.entries().contains(ent));
                    assert(root.entries().to_multiset().count(ent) > 0);
                    if ent != (i as u64, fpi) {
                        assert(pre_root.entries().to_multiset().count(ent) > 0);
                        assert(pre_root.entries().contains(ent));
                        let j2 = choose|j2: int|
                            0 <= j2 < pre_root.entries().len() && pre_root.entries()[j2] == ent;
                        assert(pre_root.entries()[j2] == ent);
                    }
                }
                assert forall|m: int|
                    0 <= m < i + 1 && collidable(#[trigger] ws[m]) implies root.entries().to_multiset().contains(
                    (m as u64, fp_of(ws[m])),
                ) by {
                    if m < i {
                        assert(pre_root.entries().to_multiset().contains((m as u64, fp_of(ws[m]))));
                    }
                }
                // Every candidate other than the new value is an earlier
                // collidable entity.
                assert forall|m2: int|
                    0 <= m2 < cands@.len() && (#[trigger] cands@[m2]) as int != i implies {
                    &&& 0 <= cands@[m2] < i
                    &&& collidable(ws[cands@[m2] as int])
                } by {
                    assert(cands@[m2] == i as u64 || pre_root.has_id(cands@[m2]));
                    let j2 = choose|j2: int|
                        0 <= j2 < pre_root.entries().len() && (#[trigger] pre_root.entries()[j2]).0
                            == cands@[m2];
                    assert(pre_root.entries()[j2].0 == cands@[m2]);
                }
            }
            let mut m: usize = 0;
            while m < cands.len()
                invariant
                    m <= cands@.len(),
                    forall|m2: int|
                        0 <= m2 < facts@.len() ==> {
                            let f = #[trigger] facts@[m2];
                            &&& 0 <= f.0 < n
                            &&& collidable(ws[f.0 as int])
                            &&& fact_sound(ws, f.0 as int, f.1)
                        },
                    forall|a: int, b: int|
                        0 <= a < i && 0 <= b < i && a != b && collidable(#[trigger] ws[a])
                            && collidable(#[trigger] ws[b]) && collides_between(ws, a, b)
                            ==> facts@.contains(
                            (
                                a as u64,
                                Collision { entity: b as u64, collider: ws[b].collider.unwrap() },
                            ),
                        ),
                    forall|m2: int|
                        0 <= m2 < m && (#[trigger] cands@[m2]) as int != i ==> {
                            let b = cands@[m2] as int;
                            &&& (collides_between(ws, i as int, b) ==> facts@.contains(
                                (
                                    i as u64,
                                    Collision {
                                        entity: cands@[m2],
                                        collider: ws[b].collider.unwrap(),
                                    },
                                ),
                            ))
                            &&& (collides_between(ws, b, i as int) ==> facts@.contains(
                                (
                                    cands@[m2],
                                    Collision {
                                        entity: i as u64,
                                        collider: ws[i as int].collider.unwrap(),
                                    },
                                ),
                            ))
                        },
                decreases cands@.len() - m,
            {
                let c = cands[m];
                if c != i as u64 {
                    let ci = c as usize;
                    let other_pos = world.entities[ci].position.unwrap();
                    let other_col = world.entities[ci].collider.unwrap();
                    if collides(&pos, &col, &other_pos, &other_col) {
                        let ghost f0 = facts@;
                        let newf = (i as u64, Collision { entity: c, collider: other_col });
                        facts.push(newf);
                        proof {
                            lemma_seq_push_contains(f0, newf);
                        }
                    }
                    if collides(&other_pos, &other_col, &pos, &col) {
                        let ghost f1 = facts@;
                        let newf = (c, Collision { entity: i as u64, collider: col });
                        facts.push(newf);
                        proof {
                            lemma_seq_push_contains(f1, newf);
                        }
                    }
                }
                m += 1;
            }
            proof {
                // Extend pair completeness to pairs that involve entity i:
                // the overlapping partner is among the insertion's
                // candidates, and both directions were tested on each.
                assert forall|a: int, b: int|
                    0 <= a < i + 1 && 0 <= b < i + 1 && a != b && collidable(#[trigger] ws[a])
                        && collidable(#[trigger] ws[b]) && collides_between(
                        ws,
                        a,
                        b,
                    ) implies facts@.contains(
                    (a as u64, Collision { entity: b as u64, collider: ws[b].collider.unwrap() }),
                ) by {
                    if a < i && b < i {
                    } else {
                        let p = if a == i {
                            b
                        } else {
                            a
                        };
                        assert(overlaps(fp_of(ws[a]), fp_of(ws[b])));
                        assert(overlaps(fp_of(ws[p]), fpi));
                        assert(pre_root.entries().to_multiset().contains((p as u64, fp_of(ws[p]))));
                        assert(pre_root.entries().to_multiset().count((p as u64, fp_of(ws[p])))
                            > 0);
                        assert(pre_root.entries().contains((p as u64, fp_of(ws[p]))));
                        let j2 = choose|j2: int|
                            0 <= j2 < pre_root.entries().len() && pre_root.entries()[j2] == (
                            p as u64,
                            fp_of(ws[p]),
                            );
                        assert(overlaps(pre_root.entries()[j2].1, fpi));
                        assert(cands@.contains(p as u64));
                        let m2 = choose|m2: int|
                            0 <= m2 < cands@.len() && cands@[m2] == p as u64;
                        assert(cands@[m2] as int == p && p != i as int);
                    }
                }
            }
        }
        i += 1;
    }
    let ghost all_facts = facts@;
    let mut i2: usize = 0;
    while i2 < n
        invariant
            i2 <= n,
            world.entities@.len() == n,
            forall|k: int| i2 <= k < n ==> world.entities@[k] == ws[k],
            forall|k: int|
                0 <= k < i2 ==> {
                    let ne = #[trigger] world.entities@[k];
                    if facts_for(all_facts, k as u64).len() > 0 {
                        &&& same_but_collisions(ws[k], ne)
                        &&& ne.collisions is Some
                        &&& ne.collisions.unwrap().0@ == facts_for(all_facts, k as u64)
                    } else {
                        ne == ws[k]
                    }
                },
        decreases n - i2,
    {
        let mut list: Vec<Collision> = Vec::new();
        let mut m: usize = 0;
        while m < facts.len()
            invariant
                m <= facts@.len(),
                list@ == facts_for(facts@.subrange(0, m as int), i2 as u64),
            decreases facts@.len() - m,
        {
            let f = facts[m];
            if f.0 == i2 as u64 {
                list.push(f.1);
            }
            proof {
                let sub1 = facts@.subrange(0, m + 1);
                assert(sub1.drop_last() =~= facts@.subrange(0, m as int));
                assert(sub1.last() == facts@[m as int]);
            }
            m += 1;
        }
        proof {
            assert(facts@.subrange(0, facts@.len() as int) =~= facts@);
        }
        if list.len() > 0 {
            let mut e = Entity::empty();
            world.entities.set_and_swap(i2, &mut e);
            e.collisions = Some(Collisions(list));
            world.entities.set_and_swap(i2, &mut e);
        }
        i2 += 1;
    }
    proof {
        // Entities without a position or collider never acquire a fact.
        assert forall|i3: int|
            0 <= i3 < n && !collidable(#[trigger] ws[i3]) implies final(world).entities@[i3]
            == ws[i3] by {
            if facts_for(all_facts, i3 as u64).len() > 0 {
                lemma_facts_for_sound(all_facts, i3 as u64);
                assert(all_facts.contains((i3 as u64, facts_for(all_facts, i3 as u64)[0])));
                let idx = choose|idx: int|
                    0 <= idx < all_facts.len() && all_facts[idx] == (
                    i3 as u64,
                    facts_for(all_facts, i3 as u64)[0],
                    );
                assert(collidable(ws[i3]));
            }
        }
        // Soundness of every attached fact list.
        assert forall|i3: int|
            0 <= i3 < n && (#[trigger] final(world).entities@[i3]).collisions
                != ws[i3].collisions implies {
            let l = final(world).entities@[i3].collisions;
            &&& l is Some
            &&& l.unwrap().0@.len() > 0
            &&& forall|k: int|
                0 <= k < l.unwrap().0@.len() ==> fact_sound(ws, i3, #[trigger] l.unwrap().0@[k])
        } by {
            assert(facts_for(all_facts, i3 as u64).len() > 0);
            let l = final(world).entities@[i3].collisions;
            lemma_facts_for_sound(all_facts, i3 as u64);
            assert forall|k: int|
                0 <= k < l.unwrap().0@.len() implies fact_sound(
                ws,
                i3,
                #[trigger] l.unwrap().0@[k],
            ) by {
                assert(all_facts.contains((i3 as u64, facts_for(all_facts, i3 as u64)[k])));
                let idx = choose|idx: int|
                    0 <= idx < all_facts.len() && all_facts[idx] == (
                    i3 as u64,
                    facts_for(all_facts, i3 as u64)[k],
                    );
                assert(fact_sound(ws, all_facts[idx].0 as int, all_facts[idx].1));
            }
        }
        // Completeness: every colliding ordered pair left a fact on the
        // detecting side.
        assert forall|i3: int, j3: int|
            0 <= i3 < n && 0 <= j3 < n && i3 != j3 && collidable(#[trigger] ws[i3]) && collidable(
                #[trigger] ws[j3],
            ) && collides_between(ws, i3, j3) implies {
            let l = final(world).entities@[i3].collisions;
            &&& l is Some
            &&& l.unwrap().0@.contains(
                Collision { entity: j3 as u64, collider: ws[j3].collider.unwrap() },
            )
        } by {
            let c = Collision { entity: j3 as u64, collider: ws[j3].collider.unwrap() };
            assert(all_facts.contains((i3 as u64, c)));
            lemma_facts_for_complete(all_facts, i3 as u64, c);
            assert(facts_for(all_facts, i3 as u64).len() > 0);
        }
    }
    root
}

/// Some recorded fact carries the blocking behaviour.
pub open spec fn has_block(facts: Seq<Collision>) -> bool {
    exists|k: int|
        0 <= k < facts.len() && (#[trigger] facts[k]).collider.behaviour == Some(
            ColliderBehaviour::Block,
        )
}

/// No recorded fact carries an explicitly unimplemented behaviour.
pub open spec fn no_unimplemented(facts: Seq<Collision>) -> bool {
    forall|k: int|
        0 <= k < facts.len() ==> (#[trigger] facts[k]).collider.behaviour != Some(
            ColliderBehaviour::Physics,
        ) && facts[k].collider.behaviour != Some(ColliderBehaviour::Event)
}

/// The resolver may run on this entity. The `Physics` and `Event`
/// responses are explicitly unimplemented and abort the step, so no
/// recorded fact may carry them; a blocking fact needs the velocity that
/// produced this step's displacement, and the undone position must stay
/// machine-representable.
pub open spec fn resolve_ok(e: Entity, dt_ms: int) -> bool {
    (e.position is Some && e.collisions is Some) ==> {
        let facts = e.collisions.unwrap().0@;
        &&& no_unimplemented(facts)
        &&& (has_block(facts) ==> {
            let p = e.position.unwrap();
            let v = e.velocity.unwrap();
            &&& e.velocity is Some
            &&& scaled_fits(v.dx as int, dt_ms)
            &&& scaled_fits(v.dy as int, dt_ms)
            &&& i64::MIN <= p.x - scaled(v.dx as int, dt_ms) <= i64::MAX
            &&& i64::MIN <= p.y - scaled(v.dy as int, dt_ms) <= i64::MAX
        })
    }
}

/// What the resolver does to one entity. An entity with both a position
/// and a fact list has the list reset to empty; if any fact blocks, this
/// step's displacement is undone and the velocity zeroed, otherwise motion
/// state is untouched. Every other entity, and every other component, is
/// untouched.
pub open spec fn resolve_rel(o: Entity, n: Entity, dt_ms: int) -> bool {
    if o.position is Some && o.collisions is Some {
        let facts = o.collisions.unwrap().0@;
        &&& n.collisions is Some
        &&& n.collisions.unwrap().0@.len() == 0
        &&& n.acceleration == o.acceleration
        &&& n.friction == o.friction
        &&& n.movement_input == o.movement_input
        &&& n.collider == o.collider
        &&& if has_block(facts) {
            &&& n.position is Some
            &&& n.position.unwrap().x as int == o.position.unwrap().x - scaled(
                o.velocity.unwrap().dx as int,
                dt_ms,
            )
            &&& n.position.unwrap().y as int == o.position.unwrap().y - scaled(
                o.velocity.unwrap().dy as int,
                dt_ms,
            )
            &&& n.velocity == Some(Velocity { dx: 0i64, dy: 0i64 })
        } else {
            &&& n.position == o.position
            &&& n.velocity == o.velocity
        }
    } else {
        n == o
    }
}

/// Appending one fact blocks iff the prefix blocked or the new fact does.
proof fn lemma_has_block_step(facts: Seq<Collision>, j: int)
    requires
        0 <= j < facts.len(),
    ensures
        has_block(facts.subrange(0, j + 1)) == (has_block(facts.subrange(0, j))
            || facts[j].collider.behaviour == Some(ColliderBehaviour::Block)),
{
    let s0 = facts.subrange(0, j);
    let s1 = facts.subrange(0, j + 1);
    if has_block(s1) {
        let k = choose|k: int|
            0 <= k < s1.len() && (#[trigger] s1[k]).collider.behaviour == Some(
                ColliderBehaviour::Block,
            );
        if k < j {
            assert(s0[k] == s1[k]);
            assert(has_block(s0));
        } else {
            assert(s1[k] == facts[j]);
        }
    }
    if has_block(s0) {
        let k = choose|k: int|
            0 <= k < s0.len() && (#[trigger] s0[k]).collider.behaviour == Some(
                ColliderBehaviour::Block,
            );
        assert(s1[k] == s0[k]);
        assert(has_block(s1));
    }
    if facts[j].collider.behaviour == Some(ColliderBehaviour::Block) {
        assert(s1[j] == facts[j]);
        assert(has_block(s1));
    }
}

/// The resolver: for every entity with both a position and a fact list,
/// apply each fact's behaviour in list order — `Block` undoes this step's
/// displacement (`position -= velocity * dt`) and zeroes the velocity,
/// `None` is inert — then reset the fact list to empty. Assumes the motion
/// integrator ran immediately before in the same step, so the velocity
/// still reflects the displacement that caused the overlap.
#[verifier::loop_isolation(false)]
pub fn system_handle_collisions(world: &mut World, dt_ms: u32)
    requires
        forall|i: int|
            0 <= i < old(world).entities@.len() ==> resolve_ok(
                #[trigger] old(world).entities@[i],
                dt_ms as int,
            ),
    ensures
        final(world).entities@.len() == old(world).entities@.len(),
        forall|i: int|
            0 <= i < old(world).entities@.len() ==> resolve_rel(
                #[trigger] old(world).entities@[i],
                final(world).entities@[i],
                dt_ms as int,
            ),
{
    let ghost ws = old(world).entities@;
    let n = world.entities.len();
    let mut i: usize = 0;
    while i < n
        invariant
            i <= n,
            world.entities@.len() == n,
            forall|k: int| i <= k < n ==> world.entities@[k] == ws[k],
            forall|k: int|
                0 <= k < i ==> resolve_rel(ws[k], #[trigger] world.entities@[k], dt_ms as int),
        decreases n - i,
    {
        let mut e = Entity::empty();
        world.entities.set_and_swap(i, &mut e);
        let ghost orig = e;
        if e.position.is_some() && e.collisions.is_some() {
            let cols = e.collisions.take().unwrap();
            let fv = cols.0;
            let ghost facts = fv@;
            let mut j: usize = 0;
            while j < fv.len()
                invariant
                    j <= fv@.len(),
                    e.acceleration == orig.acceleration,
                    e.friction == orig.friction,
                    e.movement_input == orig.movement_input,
                    e.collider == orig.collider,
                    if has_block(facts.subrange(0, j as int)) {
                        &&& e.position is Some
                        &&& e.position.unwrap().x as int == orig.position.unwrap().x - scaled(
                            orig.velocity.unwrap().dx as int,
                            dt_ms as int,
                        )
                        &&& e.position.unwrap().y as int == orig.position.unwrap().y - scaled(
                            orig.velocity.unwrap().dy as int,
                            dt_ms as int,
                        )
                        &&& e.velocity == Some(Velocity { dx: 0i64, dy: 0i64 })
                    } else {
                        &&& e.position == orig.position
                        &&& e.velocity == orig.velocity
                    },
                decreases fv@.len() - j,
            {
                let f = fv[j];
                proof {
                    lemma_has_block_step(facts, j as int);
                }
                match f.collider.behaviour {
                    Some(ColliderBehaviour::Block) => {
                        proof {
                            assert(facts[j as int].collider.behaviour == Some(
                                ColliderBehaviour::Block,
                            ));
                            assert(has_block(facts)) by {
                                assert(facts.subrange(0, facts.len() as int) =~= facts);
                                assert(facts.subrange(0, facts.len() as int)[j as int]
                                    == facts[j as int]);
                            }
                        }
                        proof {
                            assert(orig == ws[i as int]);
                            assert(resolve_ok(orig, dt_ms as int));
                            assert(facts == orig.collisions.unwrap().0@);
                            assert(scaled(0, dt_ms as int) == 0);
                        }
                        let v = e.velocity.unwrap();
                        let p = e.position.unwrap();
                        let ddx = scale_by_dt(v.dx, dt_ms);
                        let ddy = scale_by_dt(v.dy, dt_ms);
                        e.position = Some(Position { x: p.x - ddx, y: p.y - ddy });
                        e.velocity = Some(Velocity { dx: 0, dy: 0 });
                    },
                    Some(ColliderBehaviour::Physics) => {
                        proof {
                            assert(facts[j as int].collider.behaviour == Some(
                                ColliderBehaviour::Physics,
                            ));
                            assert(false);
                        }
                    },
                    Some(ColliderBehaviour::Event) => {
                        proof {
                            assert(facts[j as int].collider.behaviour == Some(
                                ColliderBehaviour::Event,
                            ));
                            assert(false);
                        }
                    },
                    None => {},
                }
                j += 1;
            }
            proof {
                assert(facts.subrange(0, fv@.len() as int) =~= facts);
            }
            e.collisions = Some(Collisions(Vec::new()));
        }
        world.entities.set_and_swap(i, &mut e);
        i += 1;
    }
}

} // verus!
