//! Keeping the nodes closest to a target, in order of distance.
use crate::base::{dist, lemma_dist_injective, BitKey, Node};
use vstd::prelude::*;

verus! {

/// Strictly ascending by XOR distance to `t`.
pub open spec fn sorted_by_distance(s: Seq<Node>, t: BitKey) -> bool {
    forall|i: int, j: int| 0 <= i < j < s.len() ==> dist(#[trigger] s[i].id, t) < dist(#[trigger] s[j].id, t)
}

/// No two nodes of `s` share an id.
pub open spec fn ids_distinct(s: Seq<Node>) -> bool {
    forall|i: int, j: int| 0 <= i < s.len() && 0 <= j < s.len() && i != j ==> #[trigger] s[i].id != #[trigger] s[j].id
}

/// Some node of `s` has the id.
pub open spec fn has_id(s: Seq<Node>, id: BitKey) -> bool {
    exists|i: int| 0 <= i < s.len() && #[trigger] s[i].id == id
}

/// The smaller of two integers.
pub open spec fn min_nat(a: nat, b: nat) -> nat {
    if a <= b {
        a
    } else {
        b
    }
}

/// `c` is the `k` nodes of `pool` closest to `t` (all of them when there are
/// fewer), in ascending order of distance.
pub open spec fn is_closest(c: Seq<Node>, pool: Seq<Node>, t: BitKey, k: nat) -> bool {
    &&& sorted_by_distance(c, t)
    &&& c.len() == min_nat(k, pool.len())
    &&& forall|i: int| 0 <= i < c.len() ==> pool.contains(#[trigger] c[i])
    &&& forall|n: Node|
        #![trigger pool.contains(n), c.contains(n)]
        pool.contains(n) && !c.contains(n) ==> forall|j: int|
            0 <= j < c.len() ==> dist(#[trigger] c[j].id, t) < dist(n.id, t)
    &&& c.len() < k ==> forall|n: Node| pool.contains(n) ==> c.contains(n)
}

/// Adds `node` to the `cap` closest of `pool`, giving the `cap` closest of
/// `pool` with `node`.
pub fn insert_bounded(list: &mut Vec<Node>, node: Node, target: BitKey, cap: usize, Ghost(pool): Ghost<Seq<Node>>)
    requires
        is_closest(old(list)@, pool, target, cap as nat),
        !has_id(pool, node.id),
    ensures
        is_closest(final(list)@, pool.push(node), target, cap as nat),
{
    let ghost l = list@;
    let d = node.id.distance(target);
    let mut pos: usize = 0;
    while pos < list.len() && list[pos].id.distance(target) < d
        invariant
            pos <= list@.len(),
            list@ == l,
            d == dist(node.id, target),
            forall|j: int| 0 <= j < pos ==> dist(#[trigger] l[j].id, target) < d,
        decreases list@.len() - pos,
    {
        pos = pos + 1;
    }
    let ghost np = pool.push(node);
    assert forall|n: Node| pool.contains(n) implies np.contains(n) && n.id != node.id by {
        let i = choose|i: int| 0 <= i < pool.len() && pool[i] == n;
        assert(np[i] == n);
    }
    assert(np.contains(node)) by {
        assert(np[pool.len() as int] == node);
    }
    assert forall|n: Node| np.contains(n) implies n == node || pool.contains(n) by {
        let i = choose|i: int| 0 <= i < np.len() && np[i] == n;
        if i < pool.len() {
            assert(pool[i] == n);
        }
    }
    if pos < list.len() {
        proof {
            assert(l.contains(l[pos as int]));
            lemma_dist_injective(l[pos as int].id, node.id, target);
        }
        assert(d < dist(l[pos as int].id, target));
    }
    if pos < cap {
        list.insert(pos, node);
        let ghost l1 = list@;
        assert(sorted_by_distance(l1, target)) by {
            assert forall|i: int, j: int| 0 <= i < j < l1.len() implies dist(#[trigger] l1[i].id, target) < dist(
                #[trigger] l1[j].id,
                target,
            ) by {
                if j < pos {
                } else if j == pos {
                } else if i < pos {
                    assert(l1[j] == l[j - 1]);
                } else if i == pos {
                    assert(l1[j] == l[j - 1]);
                } else {
                    assert(l1[j] == l[j - 1]);
                    assert(l1[i] == l[i - 1]);
                }
            }
        }
        assert forall|i: int| 0 <= i < l1.len() implies l1[i] == node || l.contains(#[trigger] l1[i]) by {
            if i < pos {
                assert(l1[i] == l[i]);
            } else if i > pos {
                assert(l1[i] == l[i - 1]);
            }
        }
        assert forall|i: int| 0 <= i < l.len() implies l1.contains(#[trigger] l[i]) by {
            if i < pos {
                assert(l1[i] == l[i]);
            } else {
                assert(l1[i + 1] == l[i]);
            }
        }
        assert(l1[pos as int] == node);
        if list.len() > cap {
            let last = list.pop().unwrap();
            let ghost l2 = list@;
            assert(l2 =~= l1.drop_last());
            assert(last == l[l.len() - 1]);
            assert forall|n: Node| np.contains(n) && !l2.contains(n) implies forall|j: int|
                0 <= j < l2.len() ==> dist(#[trigger] l2[j].id, target) < dist(n.id, target) by {
                if n == node {
                    assert(l2[pos as int] == node);
                } else if l.contains(n) {
                    let k = choose|k: int| 0 <= k < l.len() && l[k] == n;
                    if k != l.len() - 1 {
                        if k < pos {
                            assert(l2[k] == n);
                        } else {
                            assert(l2[k + 1] == n);
                        }
                    }
                    assert(n == last);
                    assert forall|j: int| 0 <= j < l2.len() implies dist(#[trigger] l2[j].id, target) < dist(
                        n.id,
                        target,
                    ) by {
                        assert(l1[j] == l2[j]);
                        assert(l1[l1.len() - 1] == last);
                    }
                } else {
                    assert forall|j: int| 0 <= j < l2.len() implies dist(#[trigger] l2[j].id, target) < dist(
                        n.id,
                        target,
                    ) by {
                        assert(l1[j] == l2[j]);
                        if l1[j] != node {
                            assert(l.contains(l1[j]));
                        } else {
                            assert(l.contains(l[pos as int]));
                        }
                    }
                }
            }
            assert forall|i: int| 0 <= i < l2.len() implies np.contains(#[trigger] l2[i]) by {
                assert(l1[i] == l2[i]);
                if l1[i] != node {
                    assert(l.contains(l1[i]));
                }
            }
        } else {
            assert forall|n: Node| np.contains(n) && !l1.contains(n) implies forall|j: int|
                0 <= j < l1.len() ==> dist(#[trigger] l1[j].id, target) < dist(n.id, target) by {
                if n == node {
                } else {
                    assert(!l.contains(n));
                    assert forall|j: int| 0 <= j < l1.len() implies dist(#[trigger] l1[j].id, target) < dist(
                        n.id,
                        target,
                    ) by {
                        if l1[j] != node {
                            assert(l.contains(l1[j]));
                        } else if pos < l.len() {
                            assert(l.contains(l[pos as int]));
                        } else {
                            assert(l.len() == pool.len());
                        }
                    }
                }
            }
            assert forall|i: int| 0 <= i < l1.len() implies np.contains(#[trigger] l1[i]) by {
                if l1[i] != node {
                    assert(l.contains(l1[i]));
                }
            }
        }
    } else {
        assert forall|n: Node| np.contains(n) && !l.contains(n) implies forall|j: int|
            0 <= j < l.len() ==> dist(#[trigger] l[j].id, target) < dist(n.id, target) by {
            if n != node {
                assert(pool.contains(n));
            }
        }
    }
}

} // verus!
