//! The state of the collector as the proofs see it, and what holds of it at every step.

use crate::epoch::{Color, Epoch, Phase};
use crate::man_ptr::{addr_in, meta_of, PtrMeta};
use crate::trace::LinkKind;
use vstd::multiset::Multiset;
use vstd::prelude::*;

verus! {

/// A managed object.
pub struct ObjModel {
    pub color: Color,
    pub rc: nat,
    /// The number of the object's type.
    pub tid: u8,
    /// The words of the outgoing edges.
    pub links: Seq<u64>,
    /// The kinds of the outgoing edges.
    pub kinds: Seq<LinkKind>,
}

/// A participant.
pub struct PartModel {
    /// Some thread has this participant.
    pub using: bool,
    /// The epoch it is pinned at, if it is.
    pub epoch: Epoch,
    /// The timestamp of the epoch it was last pinned at.
    pub observed: u64,
    /// The addresses that its hazard pointers protect.
    pub hazards: Set<u64>,
    /// The hazards it last collected, with the epoch of that time.
    pub cached: Option<(Set<u64>, Epoch)>,
}

/// The heap, the lists of objects and the participants.
#[verifier::ext_equal]
pub struct GcModel {
    /// The bits of the words of edges that hold tags.
    pub low: u64,
    pub epoch: Epoch,
    pub objs: Map<u64, ObjModel>,
    /// By color: the objects not looked at since they were allocated or survived a sweep.
    pub young: Seq<Multiset<u64>>,
    /// By color: the objects whose root counts have been looked at.
    pub scanned: Seq<Multiset<u64>>,
    /// The objects that are scheduled to be marked.
    pub tasks: Set<u64>,
    pub parts: Seq<PartModel>,
}

/// The first object has an edge to the second.
pub open spec fn edge_in(objs: Map<u64, ObjModel>, low: u64, x: u64, y: u64) -> bool {
    &&& objs.contains_key(x)
    &&& y != 0
    &&& exists|i: int| 0 <= i < objs[x].links.len() && addr_in(low, #[trigger] objs[x].links[i]) == y
}

impl PartModel {
    pub open spec fn pinned(self) -> bool {
        self.epoch.pinned_flag()
    }

    /// The color of what this participant allocates while it is pinned.
    pub open spec fn alloc_color(self) -> Color {
        if self.epoch.ph() == Phase::N {
            self.epoch.white()
        } else {
            self.epoch.white().flipped()
        }
    }
}

impl GcModel {
    /// The address in the word of an edge.
    #[verifier::inline]
    pub open spec fn addr(self, w: u64) -> u64 {
        addr_in(self.low, w)
    }

    pub open spec fn white(self) -> Color {
        self.epoch.white()
    }

    pub open spec fn black(self) -> Color {
        self.epoch.white().flipped()
    }

    pub open spec fn tracing(self) -> bool {
        self.epoch.ph() != Phase::N
    }

    /// There is an object at the address.
    #[verifier::inline]
    pub open spec fn live(self, x: u64) -> bool {
        self.objs.contains_key(x)
    }

    pub open spec fn is_white(self, x: u64) -> bool {
        self.live(x) && self.objs[x].color == self.white()
    }

    pub open spec fn is_black(self, x: u64) -> bool {
        self.live(x) && self.objs[x].color == self.black()
    }

    pub open spec fn young_of(self, c: Color) -> Multiset<u64> {
        self.young[c.code() as int]
    }

    pub open spec fn scanned_of(self, c: Color) -> Multiset<u64> {
        self.scanned[c.code() as int]
    }

    /// The first object has an edge to the second.
    #[verifier::inline]
    pub open spec fn edge(self, x: u64, y: u64) -> bool {
        edge_in(self.objs, self.low, x, y)
    }

    /// Tracing starts here: a task is scheduled, or the scan of roots is yet to find it.
    pub open spec fn source(self, x: u64) -> bool {
        ||| self.tasks.contains(x)
        ||| self.live(x) && self.objs[x].rc > 0 && self.young_of(self.white()).count(x) > 0
    }

    /// A path of white objects, each with an edge to the next.
    pub open spec fn white_path(self, p: Seq<u64>) -> bool {
        &&& p.len() > 0
        &&& forall|i: int| 0 <= i < p.len() ==> self.is_white(#[trigger] p[i])
        &&& forall|i: int| 0 <= i < p.len() - 1 ==> self.edge(#[trigger] p[i], p[i + 1])
    }

    /// Tracing will get to the object along white objects.
    pub closed spec fn white_reach(self, x: u64) -> bool {
        exists|p: Seq<u64>| #[trigger]
            self.white_path(p) && self.source(p[0]) && p[p.len() - 1] == x
    }

    /// The object is black, or tracing will make it so.
    pub open spec fn kept(self, x: u64) -> bool {
        self.live(x) && (self.is_black(x) || self.white_reach(x))
    }

    /// No participant is still pinned in a normal phase.
    pub open spec fn synced(self) -> bool {
        forall|l: int|
            0 <= l < self.parts.len() && (#[trigger] self.parts[l]).pinned()
                ==> self.parts[l].epoch.ph() != Phase::N
    }

    /// What a pinned participant may use: nothing of it is reclaimed before it unpins.
    pub open spec fn protected(self, l: int, x: u64) -> bool {
        &&& self.live(x)
        &&& if !self.tracing() {
            self.is_white(x)
        } else if self.parts[l].epoch.ph() == Phase::N {
            true
        } else {
            self.kept(x)
        }
    }

    /// A root may be added to the object.
    pub open spec fn rootable(self, x: u64) -> bool {
        &&& self.live(x)
        &&& if self.tracing() {
            self.kept(x) || self.young_of(self.white()).count(x) > 0
        } else {
            self.is_white(x)
        }
    }

    /// The object is black or scheduled to be marked.
    pub open spec fn shaded(self, x: u64) -> bool {
        self.is_black(x) || self.tasks.contains(x)
    }

    // ---- What holds at every step ----

    /// Every object stands in exactly one list, once.
    pub open spec fn lists_ok(self) -> bool {
        &&& self.young.len() == 2
        &&& self.scanned.len() == 2
        &&& forall|x: u64|
            #![trigger self.objs.contains_key(x)]
            self.young[0].count(x) + self.young[1].count(x) + self.scanned[0].count(x)
                + self.scanned[1].count(x) == (if self.live(x) {
                1nat
            } else {
                0nat
            })
    }

    /// An edge has the color of the object it is in.
    pub open spec fn colors_ok(self) -> bool {
        forall|x: u64, i: int|
            #![trigger self.objs[x].links[i]]
            self.live(x) && 0 <= i < self.objs[x].links.len() ==> meta_of(self.objs[x].links[i])
                == PtrMeta::Unrooted(self.objs[x].color)
    }

    /// Every edge has a kind, and is null only where it may be.
    pub open spec fn fields_ok(self) -> bool {
        &&& forall|x: u64|
            #![trigger self.objs.contains_key(x)]
            self.live(x) ==> self.objs[x].kinds.len() == self.objs[x].links.len()
        &&& forall|x: u64, i: int|
            #![trigger self.objs[x].links[i]]
            self.live(x) && 0 <= i < self.objs[x].links.len() && self.objs[x].kinds[i]
                != LinkKind::Nullable ==> self.addr(self.objs[x].links[i]) != 0
    }

    /// How the epoch of a pinned participant can lag behind the global one.
    pub open spec fn lag_ok(self, e: Epoch) -> bool {
        &&& e.valid()
        &&& e.ts() == self.epoch.ts() ==> e == self.epoch.pin_of()
        &&& e.ts() != self.epoch.ts() ==> {
            &&& e.ts() + 1 == self.epoch.ts()
            &&& match self.epoch.ph() {
                Phase::N => e.ph() == Phase::CT && e.white() == self.black(),
                Phase::RT => e.ph() == Phase::N && e.white() == self.white(),
                Phase::CT => e.ph() != Phase::N && e.white() == self.white(),
            }
        }
    }

    pub open spec fn part_ok(self, p: PartModel) -> bool {
        &&& p.observed <= self.epoch.ts()
        &&& p.pinned() ==> self.lag_ok(p.epoch) && p.observed == p.epoch.ts() && p.using
        &&& !p.using ==> p.hazards == Set::<u64>::empty()
        &&& p.cached matches Some((_, e)) ==> e.ts() <= self.epoch.ts()
    }

    pub open spec fn parts_ok(self) -> bool {
        &&& self.epoch.valid()
        &&& !self.epoch.pinned_flag()
        &&& forall|l: int| 0 <= l < self.parts.len() ==> self.part_ok(#[trigger] self.parts[l])
    }

    /// In a normal phase: what is white is in use, what is black is dead and in the list to be
    /// swept.
    pub open spec fn normal_ok(self) -> bool {
        &&& self.tasks == Set::<u64>::empty()
        &&& self.young_of(self.black()) == Multiset::<u64>::empty()
        &&& self.scanned_of(self.white()) == Multiset::<u64>::empty()
        &&& forall|x: u64|
            #![trigger self.objs.contains_key(x)]
            self.live(x) && self.young_of(self.white()).count(x) > 0 ==> self.is_white(x)
        &&& forall|x: u64, y: u64| #[trigger]
            self.edge(x, y) && self.is_white(x) ==> self.is_white(y)
        &&& forall|x: u64|
            #![trigger self.objs.contains_key(x)]
            self.live(x) && self.objs[x].rc > 0 ==> self.is_white(x)
        &&& forall|l: int, x: u64|
            0 <= l < self.parts.len() && #[trigger] self.parts[l].hazards.contains(x)
                ==> self.is_white(x)
    }

    /// In a tracing phase.
    pub open spec fn tracing_ok(self) -> bool {
        &&& self.scanned_of(self.black()) == Multiset::<u64>::empty()
        &&& forall|x: u64|
            #![trigger self.objs.contains_key(x)]
            self.live(x) && self.young_of(self.black()).count(x) > 0 ==> self.is_black(x)
        &&& forall|x: u64| #[trigger] self.tasks.contains(x) ==> self.live(x)
        &&& forall|x: u64, y: u64| #[trigger] self.edge(x, y) ==> self.live(y)
        &&& forall|x: u64, y: u64| #[trigger]
            self.edge(x, y) && self.is_black(x) ==> self.kept(y)
        &&& forall|x: u64|
            #![trigger self.objs.contains_key(x)]
            self.live(x) && self.objs[x].rc > 0 ==> self.kept(x)
        &&& if self.epoch.ph() == Phase::RT {
            self.root_tracing_ok()
        } else {
            self.completion_ok()
        }
    }

    /// The participant has not been pinned since root tracing began.
    pub open spec fn unobserved(self, p: PartModel) -> bool {
        p.observed != self.epoch.ts()
    }

    pub open spec fn root_tracing_ok(self) -> bool {
        &&& !self.synced() ==> self.scanned_of(self.white()) == Multiset::<u64>::empty()
        &&& forall|l: int, x: u64|
            0 <= l < self.parts.len() && #[trigger] self.parts[l].hazards.contains(x)
                ==> self.live(x) && if self.unobserved(self.parts[l]) {
                self.is_black(x) || self.young_of(self.white()).count(x) > 0
            } else {
                self.kept(x)
            }
        &&& forall|k: int|
            0 <= k < self.parts.len() ==> self.cached_ok((#[trigger] self.parts[k]).cached)
    }

    /// Hazards that were collected in this phase hold all that the scan has to mark.
    pub open spec fn cached_ok(self, c: Option<(Set<u64>, Epoch)>) -> bool {
        c matches Some((h, e)) ==> e == self.epoch.pin_of() ==> self.synced() && self.covers(h)
    }

    /// The set holds the hazards of every participant that has not observed the phase.
    pub open spec fn covers(self, h: Set<u64>) -> bool {
        forall|l: int, x: u64|
            0 <= l < self.parts.len() && self.unobserved(self.parts[l])
                && #[trigger] self.parts[l].hazards.contains(x) ==> h.contains(x)
    }

    pub open spec fn completion_ok(self) -> bool {
        &&& self.young_of(self.white()) == Multiset::<u64>::empty()
        &&& forall|l: int, x: u64|
            0 <= l < self.parts.len() && #[trigger] self.parts[l].hazards.contains(x) ==> self.kept(
                x,
            )
    }

    /// The state of the collector is sound.
    pub open spec fn sound(self) -> bool {
        &&& self.lists_ok()
        &&& self.colors_ok()
        &&& self.fields_ok()
        &&& self.parts_ok()
        &&& if self.tracing() {
            self.tracing_ok()
        } else {
            self.normal_ok()
        }
    }
}

// ---- Reachability ----

/// Tracing gets to its sources.
pub proof fn lemma_reach_source(s: GcModel, x: u64)
    requires
        s.is_white(x),
        s.source(x),
    ensures
        s.white_reach(x),
{
    let p = seq![x];
    assert(s.white_path(p) && s.source(p[0]) && p[p.len() - 1] == x);
}

/// Tracing goes from a white object along its edges.
pub proof fn lemma_reach_step(s: GcModel, x: u64, y: u64)
    requires
        s.white_reach(x),
        s.edge(x, y),
        s.is_white(y),
    ensures
        s.white_reach(y),
{
    let p = choose|p: Seq<u64>| #[trigger]
        s.white_path(p) && s.source(p[0]) && p[p.len() - 1] == x;
    let q = p.push(y);
    assert forall|i: int| 0 <= i < q.len() - 1 implies s.edge(#[trigger] q[i], q[i + 1]) by {
        if i < p.len() - 1 {
            assert(s.edge(p[i], p[i + 1]));
        }
    }
    assert(s.white_path(q) && s.source(q[0]) && q[q.len() - 1] == y);
}

/// What holds of the white sources and goes along edges between white objects holds of all that
/// tracing gets to.
pub proof fn lemma_reach_induct(s: GcModel, f: spec_fn(u64) -> bool, x: u64)
    requires
        s.white_reach(x),
        forall|y: u64| s.is_white(y) && s.source(y) ==> #[trigger] f(y),
        forall|y: u64, z: u64| f(y) && s.is_white(y) && #[trigger] s.edge(y, z) && s.is_white(z) ==> f(z),
    ensures
        f(x),
        s.is_white(x),
{
    let p = choose|p: Seq<u64>| #[trigger]
        s.white_path(p) && s.source(p[0]) && p[p.len() - 1] == x;
    lemma_path_induct(s, f, p, p.len() - 1);
}

proof fn lemma_path_induct(s: GcModel, f: spec_fn(u64) -> bool, p: Seq<u64>, n: int)
    requires
        s.white_path(p),
        s.source(p[0]),
        0 <= n < p.len(),
        forall|y: u64| s.is_white(y) && s.source(y) ==> #[trigger] f(y),
        forall|y: u64, z: u64| f(y) && s.is_white(y) && #[trigger] s.edge(y, z) && s.is_white(z) ==> f(z),
    ensures
        f(p[n]),
    decreases n,
{
    assert(s.is_white(p[n]));
    if n > 0 {
        lemma_path_induct(s, f, p, n - 1);
        assert(s.is_white(p[n - 1]));
        assert(s.edge(p[n - 1], p[n - 1 + 1]));
    }
}

/// A step of tracing that loses nothing: sources and edges of white objects go only where what
/// they led to is still kept.
pub open spec fn loses_nothing(s: GcModel, t: GcModel) -> bool {
    &&& t.white() == s.white()
    &&& t.low == s.low
    &&& forall|x: u64| #[trigger] s.live(x) ==> t.live(x)
    &&& forall|x: u64| #[trigger] s.is_black(x) ==> t.is_black(x)
    &&& forall|x: u64| #[trigger] s.is_white(x) && s.source(x) ==> t.kept(x)
    &&& forall|x: u64, y: u64| #[trigger]
        s.edge(x, y) && s.is_white(x) && s.is_white(y) && t.kept(x) ==> t.kept(y)
}

/// What was kept is kept after such a step.
pub proof fn lemma_kept_mono(s: GcModel, t: GcModel)
    requires
        loses_nothing(s, t),
    ensures
        forall|x: u64| #[trigger] s.kept(x) ==> t.kept(x),
{
    assert forall|x: u64| #[trigger] s.kept(x) implies t.kept(x) by {
        if s.is_black(x) {
            assert(t.is_black(x));
        } else {
            let f = |y: u64| t.kept(y);
            lemma_reach_induct(s, f, x);
            assert(f(x));
        }
    }
}

/// An object that is kept keeps what it has edges to.
pub proof fn lemma_kept_step(s: GcModel, x: u64, y: u64)
    requires
        s.sound(),
        s.tracing(),
        s.kept(x),
        s.edge(x, y),
    ensures
        s.kept(y),
{
    assert(s.live(y));
    if !s.is_black(x) {
        lemma_reach_white(s, x);
        lemma_two_colors(s, y);
        if s.is_white(y) {
            lemma_reach_step(s, x, y);
        }
    }
}

/// What tracing gets to along white objects is white.
pub proof fn lemma_reach_white(s: GcModel, x: u64)
    requires
        s.white_reach(x),
    ensures
        s.is_white(x),
{
    lemma_reach_induct(s, |y: u64| true, x);
}

/// An object is white or black.
pub proof fn lemma_two_colors(s: GcModel, x: u64)
    requires
        s.live(x),
    ensures
        s.is_white(x) != s.is_black(x),
{
}

} // verus!
