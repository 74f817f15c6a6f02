//! What stays when the collector has done its work.

use crate::collector::{holds_roots, lemma_shape_edge, reachable, same_hazards};
use crate::epoch::Phase;
use crate::global::Global;
use crate::guards::helped;
use crate::laws::{law_reachable, law_sweep_spares_what_is_reachable};
use crate::man_ptr::{clear_meta, lemma_meta};
use crate::model::GcModel;
use crate::steps::{lemma_surviving_on, same_shape, surviving};
use crate::sweeping::{lemma_sweeps_surviving, sweeps};
use crate::trace::TraceObj;
use vstd::prelude::*;

verus! {

/// Nothing is gone that can be reached from a root or from what a hazard pointer protects, and
/// whatever is left is as it was.
pub open spec fn spares(s: GcModel, t: GcModel) -> bool {
    &&& same_hazards(s, t)
    &&& surviving(s, t)
    &&& forall|x: u64|
        #![trigger reachable(s, x)]
        #![trigger t.objs.contains_key(x)]
        reachable(s, x) ==> t.live(x)
    &&& forall|x: u64|
        #![trigger s.objs.contains_key(x)]
        #![trigger t.objs.contains_key(x)]
        s.live(x) && s.objs[x].rc > 0 ==> t.live(x)
    &&& forall|l: int, x: u64|
        0 <= l < s.parts.len() && #[trigger] s.parts[l].hazards.contains(x) ==> t.live(x)
}

/// What hazard pointers protect is there.
pub proof fn lemma_hazards_there(s: GcModel, l: int, x: u64)
    requires
        s.sound(),
        0 <= l < s.parts.len(),
        s.parts[l].hazards.contains(x),
    ensures
        s.live(x),
{
    if s.tracing() {
        if s.epoch.ph() == Phase::CT {
            assert(s.kept(x));
        }
    } else {
        assert(s.is_white(x));
    }
}

/// It is enough that what can be reached is there.
proof fn lemma_spares(s: GcModel, t: GcModel)
    requires
        s.sound(),
        same_hazards(s, t),
        surviving(s, t),
        forall|x: u64| #[trigger] reachable(s, x) ==> t.live(x),
    ensures
        spares(s, t),
{
    assert forall|x: u64|
        #![trigger s.objs.contains_key(x)]
        #![trigger t.objs.contains_key(x)]
        s.live(x) && s.objs[x].rc > 0 implies t.live(x) by {
        law_reachable(s, 0, x, x);
        assert(reachable(s, x));
    }
    assert forall|l: int, x: u64|
        0 <= l < s.parts.len() && #[trigger] s.parts[l].hazards.contains(x) implies t.live(x) by {
        lemma_hazards_there(s, l, x);
        law_reachable(s, l, x, x);
        assert(reachable(s, x));
    }
}

/// What does not touch the objects spares them.
pub proof fn lemma_shape_spares(s: GcModel, t: GcModel)
    requires
        s.sound(),
        same_shape(s, t),
        same_hazards(s, t),
    ensures
        spares(s, t),
{
    assert forall|x: u64| #[trigger] reachable(s, x) implies t.live(x) by {
        assert(s.live(x));
        assert(t.objs.contains_key(x));
    }
    lemma_spares(s, t);
}

/// Sweeping spares what can be reached.
pub proof fn lemma_sweeps_spares(s: GcModel, t: GcModel)
    requires
        s.sound(),
        s.epoch.ph() == Phase::N,
        sweeps(s, t),
    ensures
        spares(s, t),
{
    assert forall|x: u64| #[trigger] reachable(s, x) implies t.live(x) by {
        law_sweep_spares_what_is_reachable(s, t, x);
    }
    lemma_sweeps_surviving(s, t);
    lemma_spares(s, t);
}

/// Help spares what can be reached.
pub proof fn lemma_helped_spares(s: GcModel, t: GcModel, l: int)
    requires
        s.sound(),
        helped(s, t, l),
    ensures
        spares(s, t),
{
    if s.tracing() {
        assert forall|k: int| 0 <= k < s.parts.len() implies (#[trigger] t.parts[k]).hazards
            == s.parts[k].hazards && t.parts[k].using == s.parts[k].using by {}
        lemma_shape_spares(s, t);
    } else {
        lemma_sweeps_spares(s, t);
    }
}

/// Objects that are left have the edges they had.
proof fn lemma_surviving_edge(s: GcModel, t: GcModel, x: u64, y: u64)
    requires
        surviving(s, t),
        s.edge(x, y),
        t.live(x),
    ensures
        t.edge(x, y),
{
    let i = choose|i: int|
        0 <= i < s.objs[x].links.len() && s.addr(#[trigger] s.objs[x].links[i]) == y;
    assert(clear_meta(t.objs[x].links[i]) == clear_meta(s.objs[x].links[i]));
    lemma_meta(s.low, t.objs[x].links[i]);
    lemma_meta(s.low, s.objs[x].links[i]);
    assert(s.addr(t.objs[x].links[i]) == y);
}

/// What an object that can be reached has edges to is there.
proof fn lemma_reachable_edge(s: GcModel, x: u64, y: u64)
    requires
        s.sound(),
        reachable(s, x),
        s.edge(x, y),
    ensures
        reachable(s, y),
{
    if !s.tracing() {
        let whites = Set::new(|z: u64| s.is_white(z));
        assert(holds_roots(s, whites)) by {
            assert forall|y: u64, z: u64| #[trigger] s.edge(y, z) && whites.contains(
                y,
            ) implies whites.contains(z) by {
                assert(s.is_white(y));
            }
            assert forall|y: u64|
                #![trigger s.objs.contains_key(y)]
                s.live(y) && s.objs[y].rc > 0 implies whites.contains(y) by {
                assert(s.is_white(y));
            }
            assert forall|l: int, y: u64|
                0 <= l < s.parts.len() && #[trigger] s.parts[l].hazards.contains(
                    y,
                ) implies whites.contains(y) by {
                assert(s.is_white(y));
            }
        }
        assert(whites.contains(x));
        assert(s.is_white(y));
    }
    law_reachable(s, 0, x, y);
}

/// What could be reached before can still be reached.
pub proof fn law_reachable_stays_reachable(s: GcModel, t: GcModel, x: u64)
    requires
        s.sound(),
        spares(s, t),
        reachable(s, x),
    ensures
        reachable(t, x),
{
    assert(t.live(x));
    assert forall|r: Set<u64>| #[trigger] holds_roots(t, r) implies r.contains(x) by {
        let q = Set::new(|y: u64| reachable(s, y) && r.contains(y));
        assert(holds_roots(s, q)) by {
            assert forall|y: u64, z: u64| #[trigger] s.edge(y, z) && q.contains(
                y,
            ) implies q.contains(z) by {
                lemma_reachable_edge(s, y, z);
                assert(t.live(y));
                lemma_surviving_edge(s, t, y, z);
            }
            assert forall|y: u64|
                #![trigger s.objs.contains_key(y)]
                s.live(y) && s.objs[y].rc > 0 implies q.contains(y) by {
                law_reachable(s, 0, y, y);
                assert(t.objs.contains_key(y));
            }
            assert forall|l: int, y: u64|
                0 <= l < s.parts.len() && #[trigger] s.parts[l].hazards.contains(
                    y,
                ) implies q.contains(y) by {
                lemma_hazards_there(s, l, y);
                law_reachable(s, l, y, y);
                assert(t.parts[l].hazards == s.parts[l].hazards);
                assert(t.parts[l].hazards.contains(y));
            }
        }
        assert(q.contains(x));
    }
}

/// What is spared by one step and then by another is spared by both.
pub proof fn lemma_spares_on(s: GcModel, t: GcModel, u: GcModel)
    requires
        s.sound(),
        spares(s, t),
        spares(t, u),
    ensures
        spares(s, u),
{
    assert forall|k: int| 0 <= k < s.parts.len() implies (#[trigger] u.parts[k]).hazards
        == s.parts[k].hazards && u.parts[k].using == s.parts[k].using by {
        assert(t.parts[k].hazards == s.parts[k].hazards);
    }
    lemma_surviving_on(s, t, u);
    assert forall|x: u64| #[trigger] reachable(s, x) implies u.live(x) by {
        law_reachable_stays_reachable(s, t, x);
        assert(reachable(t, x));
    }
    lemma_spares(s, u);
}

/// What is spared of one heap is spared of another of the same shape.
pub proof fn lemma_spares_from(s: GcModel, t: GcModel, u: GcModel)
    requires
        same_shape(s, t),
        same_hazards(s, t),
        spares(t, u),
    ensures
        spares(s, u),
{
    assert forall|k: int| 0 <= k < s.parts.len() implies (#[trigger] u.parts[k]).hazards
        == s.parts[k].hazards && u.parts[k].using == s.parts[k].using by {
        assert(t.parts[k].hazards == s.parts[k].hazards);
    }
    assert(surviving(s, t));
    lemma_surviving_on(s, t, u);
    assert forall|x: u64|
        #![trigger reachable(s, x)]
        #![trigger u.objs.contains_key(x)]
        reachable(s, x) implies u.live(x) by {
        assert(t.objs.contains_key(x));
        assert forall|r: Set<u64>| #[trigger] holds_roots(t, r) implies r.contains(x) by {
            assert(holds_roots(s, r)) by {
                assert forall|y: u64, z: u64| #[trigger] s.edge(y, z) && r.contains(
                    y,
                ) implies r.contains(z) by {
                    lemma_shape_edge(s, t, y, z);
                }
                assert forall|y: u64|
                    #![trigger s.objs.contains_key(y)]
                    s.live(y) && s.objs[y].rc > 0 implies r.contains(y) by {
                    assert(t.objs.contains_key(y));
                }
                assert forall|l: int, y: u64|
                    0 <= l < s.parts.len() && #[trigger] s.parts[l].hazards.contains(
                        y,
                    ) implies r.contains(y) by {
                    assert(t.parts[l].hazards == s.parts[l].hazards);
                    assert(t.parts[l].hazards.contains(y));
                }
            }
        }
        assert(reachable(t, x));
    }
    assert forall|x: u64|
        #![trigger s.objs.contains_key(x)]
        #![trigger u.objs.contains_key(x)]
        s.live(x) && s.objs[x].rc > 0 implies u.live(x) by {
        assert(t.objs.contains_key(x));
    }
    assert forall|l: int, x: u64|
        0 <= l < s.parts.len() && #[trigger] s.parts[l].hazards.contains(x) implies u.live(x) by {
        assert(t.parts[l].hazards == s.parts[l].hazards);
        assert(t.parts[l].hazards.contains(x));
    }
}

impl<T: TraceObj> Global<T> {
    /// The hazard pointers are handed out and protect as they did.
    pub open spec fn keeps_hps(self, before: Self) -> bool {
        &&& self.nodes().len() == before.nodes().len()
        &&& forall|k: int|
            0 <= k < before.nodes().len() ==> (#[trigger] self.nodes()[k]).using
                == before.nodes()[k].using && self.nodes()[k].item.same_protection(
                before.local(k),
            )
    }
}

} // verus!
