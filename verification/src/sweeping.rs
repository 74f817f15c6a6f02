//! Sweeping: dead objects go, the others are as if newly allocated.

use crate::accounts::{
    lemma_books_none, lemma_books_on, lemma_books_same, lemma_counted, lemma_one_counted,
    lemma_one_less, lemma_wrapped_sum, wrapped, Books,
};
use crate::epoch::{Color, Phase};
use crate::global::{lemma_part_changed, Global};
use crate::heap::ManObj;
use crate::internal::Local;
use crate::lists::{ObjBatch, OBJ_BATCH_SIZE};
use crate::man_ptr::clear_meta;
use crate::model::GcModel;
use crate::publishing::add_young;
use crate::roots::lemma_same_white;
use crate::shards::OBJ_BATCHES_SHARD;
use crate::steps::{
    dead_in, is_sweep_batch, keeps_protected, lemma_sweep_batch, safe_step,
};
use crate::sync::reusable_slots::Node;
use crate::trace::TraceObj;
use vstd::multiset::Multiset;
use vstd::prelude::*;

verus! {

/// The state if some objects, which are in no list, were in the list of those of a color that
/// have not been looked at.
pub open spec fn with_limbo(s: GcModel, c: Color, m: Multiset<u64>) -> GcModel {
    let i = c.code() as int;
    GcModel { young: s.young.update(i, s.young[i].add(m)), ..s }
}

/// The first objects of a batch have been swept.
pub open spec fn swept_partly(s: GcModel, batch: Seq<u64>, k: int, t: GcModel) -> bool {
    let w = s.white().code() as int;
    let b = s.black().code() as int;
    let done = batch.subrange(0, k);
    &&& t.low == s.low
    &&& t.epoch == s.epoch
    &&& t.tasks == s.tasks
    &&& t.parts == s.parts
    &&& t.young.len() == 2
    &&& t.scanned.len() == 2
    &&& t.young[b] == s.young[b]
    &&& t.scanned[w] == s.scanned[w]
    &&& t.scanned[b] == s.scanned[b].sub(batch.to_multiset())
    &&& forall|x: u64| #[trigger]
        t.young[w].count(x) == s.young[w].count(x) + (if s.is_black(x) {
            0
        } else {
            done.to_multiset().count(x)
        })
    &&& forall|x: u64| #[trigger]
        t.objs.contains_key(x) <==> s.live(x) && !(s.is_black(x) && done.contains(x))
    &&& forall|x: u64| #[trigger] t.objs.contains_key(x) ==> t.objs[x] == s.objs[x]
}

/// A batch out of the list to be swept holds every object once.
proof fn lemma_batch_distinct(s: GcModel, batch: Seq<u64>)
    requires
        s.sound(),
        batch.to_multiset().subset_of(s.scanned_of(s.black())),
    ensures
        batch.no_duplicates(),
        forall|i: int| 0 <= i < batch.len() ==> s.live(#[trigger] batch[i]),
{
    broadcast use vstd::seq_lib::group_to_multiset_ensures;

    let m = batch.to_multiset();
    assert forall|x: u64| m.contains(x) implies m.count(x) == 1 by {
        assert(m.count(x) <= s.scanned_of(s.black()).count(x));
        assert(s.objs.contains_key(x) || true);
        assert(s.young[0].count(x) + s.young[1].count(x) + s.scanned[0].count(x)
            + s.scanned[1].count(x) == (if s.objs.contains_key(x) {
            1nat
        } else {
            0nat
        }));
    }
    batch.lemma_multiset_has_no_duplicates_conv();
    assert forall|i: int| 0 <= i < batch.len() implies s.live(#[trigger] batch[i]) by {
        assert(m.count(batch[i]) > 0);
        assert(m.count(batch[i]) <= s.scanned_of(s.black()).count(batch[i]));
        assert(s.objs.contains_key(batch[i]) || true);
        assert(s.young[0].count(batch[i]) + s.young[1].count(batch[i]) + s.scanned[0].count(
            batch[i],
        ) + s.scanned[1].count(batch[i]) == (if s.objs.contains_key(batch[i]) {
            1nat
        } else {
            0nat
        }));
    }
}

/// The next object of a batch, which is still there.
proof fn lemma_swept_next(s: GcModel, batch: Seq<u64>, k: int, t: GcModel)
    requires
        s.sound(),
        batch.to_multiset().subset_of(s.scanned_of(s.black())),
        0 <= k < batch.len(),
        swept_partly(s, batch, k, t),
    ensures
        t.live(batch[k]),
        t.objs[batch[k]] == s.objs[batch[k]],
        // If it is dead, it goes.
        s.is_black(batch[k]) ==> swept_partly(
            s,
            batch,
            k + 1,
            GcModel { objs: t.objs.remove(batch[k]), ..t },
        ),
        // If it is not, it is as if newly allocated.
        !s.is_black(batch[k]) ==> swept_partly(
            s,
            batch,
            k + 1,
            add_young(t, s.white(), batch[k]),
        ),
{
    broadcast use vstd::seq_lib::group_to_multiset_ensures;

    lemma_batch_distinct(s, batch);
    let a = batch[k];
    let done = batch.subrange(0, k);
    let next = batch.subrange(0, k + 1);
    assert(next =~= done.push(a));
    assert(!done.contains(a)) by {
        if done.contains(a) {
            let i = choose|i: int| 0 <= i < done.len() && done[i] == a;
            assert(batch[i] == a);
        }
    }
    assert(t.objs.contains_key(a));
    assert forall|x: u64| #[trigger] next.contains(x) <==> done.contains(x) || x == a by {
        if next.contains(x) {
            let i = choose|i: int| 0 <= i < next.len() && next[i] == x;
            if i < k {
                assert(done[i] == x);
            }
        }
        if done.contains(x) {
            let i = choose|i: int| 0 <= i < done.len() && done[i] == x;
            assert(next[i] == x);
        }
        if x == a {
            assert(next[k] == x);
        }
    }
    assert forall|x: u64| #[trigger] next.to_multiset().count(x) == done.to_multiset().count(x) + (
    if x == a {
        1nat
    } else {
        0
    }) by {
        assert(next.to_multiset() == done.to_multiset().insert(a));
    }
    let w = s.white().code() as int;
    let dead = GcModel { objs: t.objs.remove(a), ..t };
    let alive = add_young(t, s.white(), a);
    if s.is_black(a) {
        assert forall|x: u64| #[trigger]
            dead.young[w].count(x) == s.young[w].count(x) + (if s.is_black(x) {
                0
            } else {
                next.to_multiset().count(x)
            }) by {
            assert(t.young[w].count(x) == s.young[w].count(x) + (if s.is_black(x) {
                0
            } else {
                done.to_multiset().count(x)
            }));
        }
    } else {
        assert forall|x: u64| #[trigger]
            alive.young[w].count(x) == s.young[w].count(x) + (if s.is_black(x) {
                0
            } else {
                next.to_multiset().count(x)
            }) by {
            assert(t.young[w].count(x) == s.young[w].count(x) + (if s.is_black(x) {
                0
            } else {
                done.to_multiset().count(x)
            }));
        }
    }
}

/// Once all of a batch has been swept.
proof fn lemma_swept_all(s: GcModel, batch: Seq<u64>, t: GcModel)
    requires
        s.sound(),
        s.epoch.ph() == Phase::N,
        batch.to_multiset().subset_of(s.scanned_of(s.black())),
        swept_partly(s, batch, batch.len() as int, t),
    ensures
        is_sweep_batch(s, batch.to_multiset(), t),
        safe_step(s, t),
        sweeps(s, t),
{
    broadcast use vstd::seq_lib::group_to_multiset_ensures;

    let m = batch.to_multiset();
    assert(batch.subrange(0, batch.len() as int) =~= batch);
    assert forall|x: u64| #[trigger] t.objs.contains_key(x) <==> s.live(x) && !dead_in(
        s,
        m,
        x,
    ) by {
        assert(batch.contains(x) <==> m.count(x) > 0);
    }
    lemma_sweep_batch(s, m, t);
    assert forall|x: u64| #[trigger] t.scanned_of(s.black()).count(x) <= s.scanned_of(
        s.black(),
    ).count(x) by {}
    assert forall|x: u64| #[trigger] t.objs.contains_key(x) <==> s.live(x) && (s.is_white(x)
        || t.scanned_of(s.black()).count(x) > 0) by {
        lemma_dead_listed(s, x);
        lemma_dead_listed(t, x);
    }
}

/// In a normal phase, what is black is in the list to be swept.
pub proof fn lemma_dead_listed(s: GcModel, x: u64)
    requires
        s.sound(),
        s.epoch.ph() == Phase::N,
    ensures
        s.is_black(x) ==> s.scanned_of(s.black()).count(x) > 0,
        s.scanned_of(s.black()).count(x) > 0 ==> s.live(x),
{
    assert(s.objs.contains_key(x) || true);
    assert(s.young[0].count(x) + s.young[1].count(x) + s.scanned[0].count(x) + s.scanned[1].count(
        x,
    ) == (if s.objs.contains_key(x) {
        1nat
    } else {
        0nat
    }));
    assert(s.young_of(s.black()).count(x) == 0);
    assert(s.scanned_of(s.white()).count(x) == 0);
}

/// Sweeping has taken place: what is gone was black, and what is black and left is still in the
/// list to be swept.
pub open spec fn sweeps(s: GcModel, t: GcModel) -> bool {
    &&& t.low == s.low
    &&& t.epoch == s.epoch
    &&& t.tasks == s.tasks
    &&& t.parts == s.parts
    &&& t.scanned_of(s.black()).subset_of(s.scanned_of(s.black()))
    &&& forall|x: u64| #[trigger]
        t.objs.contains_key(x) <==> s.live(x) && (s.is_white(x) || t.scanned_of(s.black()).count(x)
            > 0)
    &&& forall|x: u64| #[trigger] t.objs.contains_key(x) ==> t.objs[x] == s.objs[x]
}

/// Sweeping leaves survivors as they were.
pub proof fn lemma_sweeps_surviving(s: GcModel, t: GcModel)
    requires
        sweeps(s, t),
    ensures
        crate::steps::surviving(s, t),
{
    assert forall|x: u64, i: int|
        #![trigger t.objs[x].links[i]]
        t.objs.contains_key(x) && 0 <= i < t.objs[x].links.len() implies clear_meta(
        t.objs[x].links[i],
    ) == clear_meta(s.objs[x].links[i]) by {
        assert(t.objs[x] == s.objs[x]);
    }
}

/// Sweeping goes on.
pub proof fn lemma_sweeps_on(s: GcModel, t: GcModel, u: GcModel)
    requires
        sweeps(s, t),
        sweeps(t, u),
    ensures
        sweeps(s, u),
{
    assert forall|x: u64| #[trigger] u.objs.contains_key(x) <==> s.live(x) && (s.is_white(x)
        || u.scanned_of(s.black()).count(x) > 0) by {
        assert(t.objs.contains_key(x) == (s.live(x) && (s.is_white(x) || t.scanned_of(
            s.black(),
        ).count(x) > 0)));
        assert(u.scanned_of(t.black()).count(x) <= t.scanned_of(t.black()).count(x));
        assert(t.objs.contains_key(x) ==> t.objs[x] == s.objs[x]);
    }
    assert forall|x: u64| #[trigger] u.scanned_of(s.black()).count(x) <= s.scanned_of(
        s.black(),
    ).count(x) by {
        assert(u.scanned_of(s.black()).count(x) <= t.scanned_of(s.black()).count(x));
        assert(t.scanned_of(s.black()).count(x) <= s.scanned_of(s.black()).count(x));
    }
    assert forall|x: u64| #[trigger] u.objs.contains_key(x) implies u.objs[x] == s.objs[x] by {
        assert(t.objs.contains_key(x));
    }
}

/// Nothing to sweep is nothing swept.
pub proof fn lemma_sweeps_none(s: GcModel)
    requires
        s.sound(),
        s.epoch.ph() == Phase::N,
    ensures
        sweeps(s, s),
{
    assert forall|x: u64| #[trigger] s.objs.contains_key(x) <==> s.live(x) && (s.is_white(x)
        || s.scanned_of(s.black()).count(x) > 0) by {
        lemma_dead_listed(s, x);
    }
}

impl<T: TraceObj> Global<T> {
    /// Nothing differs but the objects that are gone, the lists, the counts of bytes and the
    /// batches of one participant.
    pub open spec fn only_sweeping(self, before: Self, l: int) -> bool {
        &&& self == (Global {
            heap: self.heap,
            locals: self.locals,
            fresh_objs: self.fresh_objs,
            marked_objs: self.marked_objs,
            stats: self.stats,
            ..before
        })
        &&& self.nodes().len() == before.nodes().len()
        &&& forall|k: int|
            0 <= k < self.nodes().len() && k != l ==> #[trigger] self.nodes()[k]
                == before.nodes()[k]
        &&& self.nodes()[l].using == before.nodes()[l].using
        &&& self.local(l) == (Local {
            objs: self.local(l).objs,
            picker: self.local(l).picker,
            ..before.local(l)
        })
        &&& self.keeps_payloads(before)
    }

    /// What is in the heap was there before, and is what it was.
    pub open spec fn keeps_payloads(self, before: Self) -> bool {
        forall|x: u64|
            #![trigger self.heap.payloads().contains_key(x)]
            #![trigger self.heap.payloads()[x]]
            self.heap.payloads().contains_key(x) ==> before.heap.payloads().contains_key(x)
                && self.heap.payloads()[x] == before.heap.payloads()[x]
    }

    /// Reclaims an object.
    fn reclaim(&mut self, a: u64)
        requires
            old(self).fits(),
            old(self).heap.has(a),
        ensures
            final(self).fits(),
            final(self).abs() == (GcModel {
                objs: old(self).abs().objs.remove(a),
                ..old(self).abs()
            }),
            *final(self) == (Global { heap: final(self).heap, ..*old(self) }),
            final(self).heap.payloads() == old(self).heap.payloads().remove(a),
            final(self).heap.objs() == old(self).heap.objs().remove(a),
            final(self).books() == (Books {
                count: (old(self).books().count - 1) as nat,
                ..old(self).books()
            }),
            old(self).books().count > 0,
    {
        self.heap.remove(a);
        proof {
            lemma_one_less(*old(self), *self, a);
        }
    }

    /// Counts bytes as reclaimed.
    fn count_reclaimed(&mut self, bytes: usize)
        requires
            old(self).fits(),
        ensures
            final(self).fits(),
            final(self).abs() == old(self).abs(),
            *final(self) == (Global { stats: final(self).stats, ..*old(self) }),
            final(self).stats.total_allocated == old(self).stats.total_allocated,
            final(self).books() == (Books {
                reclaimed: wrapped(old(self).books().reclaimed + bytes),
                ..old(self).books()
            }),
    {
        self.stats.total_reclaimed = self.stats.total_reclaimed.wrapping_add(bytes);
        proof {
            lemma_counted(old(self).stats.total_reclaimed, bytes);
        }
    }

    /// Sweeps the oldest batch of a shard for a participant in a normal phase, which gets what is
    /// not dead. Returns `true` if there was one.
    pub fn help_sweep_one(&mut self, lid: usize, q_idx: usize) -> (r: bool)
        requires
            old(self).wf(),
            old(self).abs().epoch.ph() == Phase::N,
            old(self).pinned(lid as int),
            old(self).local(lid as int).epoch.ph() == Phase::N,
            q_idx < OBJ_BATCHES_SHARD,
        ensures
            final(self).wf(),
            final(self).only_sweeping(*old(self), lid as int),
            final(self).books_kept(*old(self)),
            sweeps(old(self).abs(), final(self).abs()),
            keeps_protected(old(self).abs(), final(self).abs()),
            ({
                let b = old(self).abs().black();
                let before = old(self).marked_objs.shard(b, q_idx as int);
                &&& r == (before.len() > 0)
                &&& r ==> final(self).marked_objs.shard_set(
                    old(self).marked_objs,
                    b,
                    q_idx as int,
                    before.subrange(1, before.len() as int),
                )
                &&& !r ==> final(self).marked_objs == old(self).marked_objs
            }),
    {
        let ghost s = self.abs();
        let ghost before = *self;
        let ghost l = lid as int;
        proof {
            lemma_same_white(s, l);
            lemma_sweeps_none(s);
            lemma_books_none(before.books(), Self::obj_size() as int);
            lemma_wrapped_sum(0, 0);
        }
        let prev_white: Color = self.locals.nodes[lid].item.epoch.color().flip();
        let obj_size: usize = std::mem::size_of::<ManObj<T>>();
        let batch: ObjBatch = match self.marked_objs.try_pop(prev_white, q_idx) {
            Some(batch) => batch,
            None => {
                return false;
            },
        };
        let mut reclaimed_bytes: usize = 0;
        let mut i: usize = 0;
        let ghost popped = self.marked_objs;
        proof {
            broadcast use vstd::seq_lib::group_to_multiset_ensures;

            assert(batch@.subrange(0, 0) =~= Seq::<u64>::empty());
            assert(batch@.subrange(0, 0).to_multiset() =~= Multiset::<u64>::empty());
            assert(swept_partly(s, batch@, 0, self.abs()));
            assert(obj_size * (before.books().count - self.books().count) == 0)
                by (nonlinear_arith)
                requires
                    before.books().count == self.books().count,
            ;
        }
        while i < batch.items.len()
            invariant
                before == *old(self),
                s == before.abs(),
                before.wf(),
                s.sound(),
                s.epoch.ph() == Phase::N,
                l == lid,
                before.pinned(l),
                before.local(l).epoch.ph() == Phase::N,
                before.local(l).epoch.valid(),
                before.local(l).epoch.white() == s.white(),
                prev_white == s.black(),
                batch@.to_multiset().subset_of(s.scanned_of(s.black())),
                i <= batch@.len(),
                self.fits(),
                self.marked_objs == popped,
                swept_partly(s, batch@, i as int, self.abs()),
                self.only_sweeping(before, l),
                self.nodes()[l].using == before.nodes()[l].using,
                obj_size == Self::obj_size(),
                self.books().count <= before.books().count,
                self.books() == (Books { count: self.books().count, ..before.books() }),
                reclaimed_bytes == wrapped(
                    obj_size * (before.books().count - self.books().count),
                ),
            decreases batch@.len() - i,
        {
            let a: u64 = batch.items[i];
            let ghost mid = *self;
            proof {
                lemma_swept_next(s, batch@, i as int, self.abs());
                assert(self.abs().objs.contains_key(a));
            }
            if self.heap.get(a).header.load().marked() == prev_white {
                proof {
                    lemma_one_counted(
                        reclaimed_bytes,
                        obj_size,
                        before.books().count - self.books().count,
                    );
                }
                reclaimed_bytes = reclaimed_bytes.wrapping_add(obj_size);
                self.reclaim(a);
            } else {
                self.push_fresh_obj(lid, a, false);
                proof {
                    lemma_wrapped_sum(
                        before.stats.total_allocated + crate::accounts::pending_bytes(
                            before.nodes(),
                        ),
                        0,
                    );
                }
            }
            i = i + 1;
        }
        let ghost last = *self;
        self.count_reclaimed(reclaimed_bytes);
        proof {
            lemma_books_swept(before, last, *self, reclaimed_bytes);
            lemma_swept_all(s, batch@, self.abs());
        }
        true
    }
}

/// What is gone has been counted as reclaimed.
proof fn lemma_books_swept<T: TraceObj>(
    before: Global<T>,
    last: Global<T>,
    after: Global<T>,
    bytes: usize,
)
    requires
        last.books() == (Books { count: last.books().count, ..before.books() }),
        bytes == wrapped(Global::<T>::obj_size() * (before.books().count - last.books().count)),
        after.books() == (Books {
            reclaimed: wrapped(last.books().reclaimed + bytes),
            ..last.books()
        }),
    ensures
        after.books_kept(before),
{
    lemma_wrapped_sum(
        before.books().reclaimed,
        Global::<T>::obj_size() * (before.books().count - last.books().count),
    );
}

impl<T: TraceObj> Global<T> {
    /// Puts a batch of objects that survived into the list of fresh objects.
    fn push_survivors(&mut self, lid: usize, color: Color, batch: ObjBatch)
        requires
            old(self).fits(),
            lid < old(self).nodes().len(),
            batch.is_usual(),
        ensures
            final(self).fits(),
            final(self).abs() == with_limbo(old(self).abs(), color, batch.bag()),
            *final(self) == (Global {
                locals: final(self).locals,
                fresh_objs: final(self).fresh_objs,
                ..*old(self)
            }),
            final(self).nodes() == old(self).nodes().update(
                lid as int,
                (Node {
                    using: old(self).nodes()[lid as int].using,
                    item: final(self).local(lid as int),
                }),
            ),
            final(self).local(lid as int) == (Local {
                picker: final(self).local(lid as int).picker,
                ..old(self).local(lid as int)
            }),
            final(self).books() == old(self).books(),
    {
        let ghost before = *self;
        let ghost l = lid as int;
        assert(self.nodes()[l].item.wf());
        let shard: usize = self.locals.nodes[lid].item.picker.select_obj_shard();
        let ghost picked = *self;
        proof {
            assert(self.nodes() =~= before.nodes().update(l, self.nodes()[l]));
            lemma_part_changed(before, *self, l);
            assert(self.abs() =~= before.abs());
        }
        self.fresh_objs.push(color, shard, batch);
        proof {
            let t = with_limbo(before.abs(), color, batch.bag());
            assert(self.young(color) =~= picked.young(color).add(batch.bag()));
            assert(self.young(color.flipped()) =~= picked.young(color.flipped()));
            assert(self.abs().young =~= t.young);
            assert(self.abs() =~= t);
            lemma_books_same(before, *self);
        }
    }

    /// Nothing differs but the objects that are gone, the lists, the counts of bytes and the
    /// choice of shards.
    pub open spec fn only_swept(self, before: Self, l: int) -> bool {
        &&& self == (Global {
            heap: self.heap,
            locals: self.locals,
            fresh_objs: self.fresh_objs,
            marked_objs: self.marked_objs,
            stats: self.stats,
            ..before
        })
        &&& self.nodes() == before.nodes().update(
            l,
            (Node { using: before.nodes()[l].using, item: self.local(l) }),
        )
        &&& self.local(l) == (Local { picker: self.local(l).picker, ..before.local(l) })
        &&& self.keeps_payloads(before)
    }

    /// Sweeps the oldest batch of a shard. What is not dead goes to the batch of survivors, which
    /// is put into the list of fresh objects when it is full. Returns `true` if there was one.
    fn sweep_one(
        &mut self,
        lid: usize,
        q_idx: usize,
        prev_white: Color,
        survived: &mut ObjBatch,
    ) -> (r: bool)
        requires
            old(self).fits(),
            lid < old(self).nodes().len(),
            q_idx < OBJ_BATCHES_SHARD,
            prev_white == old(self).abs().black(),
            old(survived).is_usual(),
            with_limbo(old(self).abs(), prev_white.flipped(), old(survived).bag()).sound(),
            old(self).abs().epoch.ph() == Phase::N,
        ensures
            final(self).fits(),
            final(survived).is_usual(),
            final(self).only_swept(*old(self), lid as int),
            final(self).books_kept(*old(self)),
            final(self).abs().epoch == old(self).abs().epoch,
            with_limbo(final(self).abs(), prev_white.flipped(), final(survived).bag()).sound(),
            sweeps(
                with_limbo(old(self).abs(), prev_white.flipped(), old(survived).bag()),
                with_limbo(final(self).abs(), prev_white.flipped(), final(survived).bag()),
            ),
            keeps_protected(
                with_limbo(old(self).abs(), prev_white.flipped(), old(survived).bag()),
                with_limbo(final(self).abs(), prev_white.flipped(), final(survived).bag()),
            ),
            ({
                let before = old(self).marked_objs.shard(prev_white, q_idx as int);
                &&& r == (before.len() > 0)
                &&& r ==> final(self).marked_objs.shard_set(
                    old(self).marked_objs,
                    prev_white,
                    q_idx as int,
                    before.subrange(1, before.len() as int),
                )
                &&& !r ==> final(self).marked_objs == old(self).marked_objs
            }),
    {
        let ghost before = *self;
        let ghost l = lid as int;
        let ghost w = prev_white.flipped();
        let ghost s = with_limbo(self.abs(), w, survived.bag());
        proof {
            lemma_sweeps_none(s);
            lemma_books_none(before.books(), Self::obj_size() as int);
            lemma_wrapped_sum(0, 0);
            assert(self.nodes() =~= before.nodes().update(l, self.nodes()[l]));
        }
        let obj_size: usize = std::mem::size_of::<ManObj<T>>();
        let batch: ObjBatch = match self.marked_objs.try_pop(prev_white, q_idx) {
            Some(batch) => batch,
            None => {
                return false;
            },
        };
        let ghost popped = self.marked_objs;
        let mut reclaimed_bytes: usize = 0;
        let mut i: usize = 0;
        proof {
            broadcast use vstd::seq_lib::group_to_multiset_ensures;

            assert(batch@.subrange(0, 0) =~= Seq::<u64>::empty());
            assert(batch@.subrange(0, 0).to_multiset() =~= Multiset::<u64>::empty());
            assert(swept_partly(s, batch@, 0, with_limbo(self.abs(), w, survived.bag())));
            assert(obj_size * (before.books().count - self.books().count) == 0)
                by (nonlinear_arith)
                requires
                    before.books().count == self.books().count,
            ;
        }
        while i < batch.items.len()
            invariant
                before == *old(self),
                lid < before.nodes().len(),
                l == lid,
                w == prev_white.flipped(),
                prev_white == s.black(),
                w == s.white(),
                s.sound(),
                s.epoch == before.abs().epoch,
                s.epoch.ph() == Phase::N,
                batch@.to_multiset().subset_of(s.scanned_of(s.black())),
                i <= batch@.len(),
                self.fits(),
                self.abs().young.len() == 2,
                self.marked_objs == popped,
                survived.is_usual(),
                swept_partly(s, batch@, i as int, with_limbo(self.abs(), w, survived.bag())),
                self.only_swept(before, l),
                obj_size == Self::obj_size(),
                self.books().count <= before.books().count,
                self.books() == (Books { count: self.books().count, ..before.books() }),
                reclaimed_bytes == wrapped(
                    obj_size * (before.books().count - self.books().count),
                ),
            decreases batch@.len() - i,
        {
            let a: u64 = batch.items[i];
            let ghost mid = *self;
            let ghost t = with_limbo(self.abs(), w, survived.bag());
            proof {
                lemma_swept_next(s, batch@, i as int, t);
                assert(self.abs().objs.contains_key(a));
            }
            if self.heap.get(a).header.load().marked() == prev_white {
                proof {
                    lemma_one_counted(
                        reclaimed_bytes,
                        obj_size,
                        before.books().count - self.books().count,
                    );
                }
                reclaimed_bytes = reclaimed_bytes.wrapping_add(obj_size);
                self.reclaim(a);
                proof {
                    assert(with_limbo(self.abs(), w, survived.bag()) =~= (GcModel {
                        objs: t.objs.remove(a),
                        ..t
                    }));
                    assert(self.keeps_payloads(before)) by {
                        assert forall|x: u64| #[trigger]
                            self.heap.payloads().contains_key(x) implies before.heap.payloads().contains_key(x) && self.heap.payloads()[x] == before.heap.payloads()[x] by {
                            assert(mid.heap.payloads().contains_key(x));
                        }
                    }
                }
            } else {
                self.keep_survivor(lid, a, prev_white, survived);
                proof {
                    assert(self.nodes() =~= before.nodes().update(l, self.nodes()[l]));
                }
            }
            i = i + 1;
        }
        let ghost last = *self;
        self.count_reclaimed(reclaimed_bytes);
        proof {
            lemma_books_swept(before, last, *self, reclaimed_bytes);
            lemma_swept_all(s, batch@, with_limbo(self.abs(), w, survived.bag()));
        }
        true
    }

    /// Adds an object to the batch of survivors, which is put into the list of fresh objects
    /// first if it is full.
    fn keep_survivor(&mut self, lid: usize, a: u64, prev_white: Color, survived: &mut ObjBatch)
        requires
            old(self).fits(),
            lid < old(self).nodes().len(),
            old(survived).is_usual(),
        ensures
            final(self).fits(),
            final(survived).is_usual(),
            *final(self) == (Global {
                locals: final(self).locals,
                fresh_objs: final(self).fresh_objs,
                ..*old(self)
            }),
            final(self).nodes() == old(self).nodes().update(
                lid as int,
                (Node {
                    using: old(self).nodes()[lid as int].using,
                    item: final(self).local(lid as int),
                }),
            ),
            final(self).local(lid as int) == (Local {
                picker: final(self).local(lid as int).picker,
                ..old(self).local(lid as int)
            }),
            with_limbo(final(self).abs(), prev_white.flipped(), final(survived).bag())
                == add_young(
                with_limbo(old(self).abs(), prev_white.flipped(), old(survived).bag()),
                prev_white.flipped(),
                a,
            ),
            final(self).books() == old(self).books(),
    {
        let ghost before = *self;
        let ghost l = lid as int;
        let ghost w = prev_white.flipped();
        let ghost had = survived.bag();
        proof {
            broadcast use vstd::seq_lib::group_to_multiset_ensures;

            assert(self.nodes() =~= before.nodes().update(l, self.nodes()[l]));
        }
        match survived.push_within_capacity(a) {
            Ok(()) => {
                proof {
                    broadcast use vstd::seq_lib::group_to_multiset_ensures;

                    assert(survived.bag() =~= had.insert(a));
                    let i = w.code() as int;
                    assert(self.abs().young[i].add(survived.bag()) =~= self.abs().young[i].add(
                        had,
                    ).insert(a));
                    assert(with_limbo(self.abs(), w, survived.bag()) =~= add_young(
                        with_limbo(before.abs(), w, had),
                        w,
                        a,
                    ));
                }
            },
            Err(e) => {
                let mut full: ObjBatch = ObjBatch::default();
                std::mem::swap(survived, &mut full);
                self.push_survivors(lid, prev_white.flip(), full);
                let r: Result<(), u64> = survived.push_within_capacity(e);
                proof {
                    broadcast use vstd::seq_lib::group_to_multiset_ensures;

                    assert(survived@ =~= Seq::<u64>::empty().push(a));
                    assert(Seq::<u64>::empty().to_multiset() =~= Multiset::<u64>::empty());
                    assert(survived.bag() =~= Multiset::<u64>::empty().insert(a));
                    let i = w.code() as int;
                    assert(self.abs().young[i].add(survived.bag()) =~= before.abs().young[i].add(
                        had,
                    ).insert(a));
                    assert(with_limbo(self.abs(), w, survived.bag()) =~= add_young(
                        with_limbo(before.abs(), w, had),
                        w,
                        a,
                    ));
                }
            },
        }
    }

    /// Sweeps all that is to be swept in a normal phase, shard by shard.
    pub fn sweep(&mut self, lid: usize)
        requires
            old(self).wf(),
            old(self).abs().epoch.ph() == Phase::N,
            lid < old(self).nodes().len(),
        ensures
            final(self).wf(),
            final(self).only_swept(*old(self), lid as int),
            final(self).books_kept(*old(self)),
            sweeps(old(self).abs(), final(self).abs()),
            final(self).abs().scanned_of(old(self).abs().black()) == Multiset::<u64>::empty(),
            keeps_protected(old(self).abs(), final(self).abs()),
            forall|c: Color, q: int, k: int|
                0 <= q < OBJ_BATCHES_SHARD && 0 <= k < final(self).fresh_objs.shard(c, q).len() ==> (
                #[trigger] final(self).fresh_objs.shard(c, q)[k])@.len() <= OBJ_BATCH_SIZE,
    {
        let ghost before = *self;
        let ghost s = self.abs();
        let ghost l = lid as int;
        let ghost b = s.black();
        let num_threads: usize = self.collector_threads;
        let mut t: usize = 0;
        proof {
            assert(self.nodes() =~= before.nodes().update(l, self.nodes()[l]));
            lemma_sweeps_none(s);
            lemma_books_none(before.books(), Self::obj_size() as int);
        }
        assert(crate::shards::shard_start(0, num_threads as int) == 0) by (nonlinear_arith)
            requires
                1 <= num_threads,
        ;
        while t < num_threads
            invariant
                before == *old(self),
                s == before.abs(),
                b == s.black(),
                l == lid,
                lid < before.nodes().len(),
                s.epoch.ph() == Phase::N,
                1 <= num_threads <= OBJ_BATCHES_SHARD,
                t <= num_threads,
                self.wf(),
                self.only_swept(before, l),
                self.books_kept(before),
                sweeps(s, self.abs()),
                keeps_protected(s, self.abs()),
                forall|q: int|
                    0 <= q < OBJ_BATCHES_SHARD && (q < crate::shards::shard_start(
                        t as int,
                        num_threads as int,
                    ) || t == num_threads) ==> #[trigger] self.marked_objs.shard(b, q).len() == 0,
            decreases num_threads - t,
        {
            let (start, end): (usize, usize) = crate::shards::shard_range(t, num_threads);
            let ghost mid = *self;
            self.sweep_shards(lid, start, end);
            proof {
                lemma_sweeps_on(s, mid.abs(), self.abs());
                lemma_books_on(
                    before.books(),
                    mid.books(),
                    self.books(),
                    Self::obj_size() as int,
                );
                lemma_only_swept_on(before, mid, *self, l, mid.abs(), self.abs());
                let n = num_threads as int;
                let ti = t as int;
                assert(end == crate::shards::shard_end(ti, n));
                assert forall|p: int|
                    0 <= p < OBJ_BATCHES_SHARD && (p < crate::shards::shard_start(ti + 1, n) || ti + 1
                        == n) implies #[trigger] self.marked_objs.shard(b, p).len() == 0 by {
                    if ti + 1 == n {
                        assert(end == 8);
                    }
                }
            }
            t = t + 1;
        }
        proof {
            crate::lists::lemma_list_empty(self.marked_objs, b);
            match b {
                Color::C0 => {
                    assert(self.abs().scanned[0] == self.marked_objs.bag(b));
                },
                Color::C1 => {
                    assert(self.abs().scanned[1] == self.marked_objs.bag(b));
                },
            }
        }
    }

    /// Sweeps the shards in a range.
    fn sweep_shards(&mut self, lid: usize, start: usize, end: usize)
        requires
            old(self).wf(),
            old(self).abs().epoch.ph() == Phase::N,
            lid < old(self).nodes().len(),
            start <= end <= OBJ_BATCHES_SHARD,
        ensures
            final(self).wf(),
            final(self).only_swept(*old(self), lid as int),
            final(self).books_kept(*old(self)),
            sweeps(old(self).abs(), final(self).abs()),
            keeps_protected(old(self).abs(), final(self).abs()),
            forall|q: int|
                start <= q < end ==> #[trigger] final(self).marked_objs.shard(
                    old(self).abs().black(),
                    q,
                ).len() == 0,
            forall|q: int|
                0 <= q < OBJ_BATCHES_SHARD && !(start <= q < end) ==> #[trigger] final(
                    self).marked_objs.shard(old(self).abs().black(), q) == old(
                    self).marked_objs.shard(old(self).abs().black(), q),
    {
        let ghost before = *self;
        let ghost s = self.abs();
        let ghost l = lid as int;
        let ghost b = s.black();
        let ghost w = s.white();
        let prev_white: Color = self.epoch.load().color().flip();
        let mut survived: ObjBatch = ObjBatch::default();
        let mut q: usize = start;
        proof {
            broadcast use vstd::seq_lib::group_to_multiset_ensures;

            assert(self.nodes() =~= before.nodes().update(l, self.nodes()[l]));
            lemma_sweeps_none(s);
            lemma_books_none(before.books(), Self::obj_size() as int);
            assert(survived.bag() =~= Multiset::<u64>::empty());
            assert(s.young[w.code() as int].add(survived.bag()) =~= s.young[w.code() as int]);
            assert(with_limbo(s, w, survived.bag()) =~= s);
        }
        while q < end
            invariant
                before == *old(self),
                s == before.abs(),
                s.sound(),
                b == s.black(),
                w == s.white(),
                prev_white == b,
                w == prev_white.flipped(),
                l == lid,
                lid < before.nodes().len(),
                s.epoch.ph() == Phase::N,
                start <= q <= end,
                end <= OBJ_BATCHES_SHARD,
                self.fits(),
                self.abs().epoch == s.epoch,
                survived.is_usual(),
                self.only_swept(before, l),
                self.books_kept(before),
                with_limbo(self.abs(), w, survived.bag()).sound(),
                sweeps(s, with_limbo(self.abs(), w, survived.bag())),
                keeps_protected(s, with_limbo(self.abs(), w, survived.bag())),
                forall|p: int|
                    start <= p < q ==> #[trigger] self.marked_objs.shard(b, p).len() == 0,
                forall|p: int|
                    0 <= p < OBJ_BATCHES_SHARD && !(start <= p < q)
                        ==> #[trigger] self.marked_objs.shard(b, p) == before.marked_objs.shard(b, p),
            decreases end - q,
        {
            let mut more = true;
            while more
                invariant
                    before == *old(self),
                    s == before.abs(),
                    s.sound(),
                    b == s.black(),
                    w == s.white(),
                    prev_white == b,
                    w == prev_white.flipped(),
                    l == lid,
                    lid < before.nodes().len(),
                    s.epoch.ph() == Phase::N,
                    start <= q < end,
                    end <= OBJ_BATCHES_SHARD,
                    self.fits(),
                    self.abs().epoch == s.epoch,
                    survived.is_usual(),
                    self.only_swept(before, l),
                    self.books_kept(before),
                    with_limbo(self.abs(), w, survived.bag()).sound(),
                    sweeps(s, with_limbo(self.abs(), w, survived.bag())),
                    keeps_protected(s, with_limbo(self.abs(), w, survived.bag())),
                    forall|p: int|
                        start <= p < q ==> #[trigger] self.marked_objs.shard(b, p).len() == 0,
                    forall|p: int|
                        0 <= p < OBJ_BATCHES_SHARD && !(start <= p <= q)
                            ==> #[trigger] self.marked_objs.shard(b, p)
                            == before.marked_objs.shard(b, p),
                    !more ==> self.marked_objs.shard(b, q as int).len() == 0,
                decreases
                    self.marked_objs.shard(b, q as int).len(),
                    if more {
                        1nat
                    } else {
                        0nat
                    },
            {
                let ghost mid = *self;
                let ghost u = with_limbo(self.abs(), w, survived.bag());
                more = self.sweep_one(lid, q, prev_white, &mut survived);
                proof {
                    let v = with_limbo(self.abs(), w, survived.bag());
                    lemma_sweeps_on(s, u, v);
                    lemma_books_on(
                        before.books(),
                        mid.books(),
                        self.books(),
                        Self::obj_size() as int,
                    );
                    lemma_only_swept_on(before, mid, *self, l, u, v);
                }
            }
            q = q + 1;
        }
        if !survived.is_empty() {
            let ghost mid = *self;
            self.push_survivors(lid, prev_white.flip(), survived);
            proof {
                assert(self.nodes() =~= before.nodes().update(l, self.nodes()[l]));
            }
        } else {
            proof {
                broadcast use vstd::seq_lib::group_to_multiset_ensures;

                assert(survived@ =~= Seq::<u64>::empty());
                assert(survived.bag() =~= Multiset::<u64>::empty());
                let i = w.code() as int;
                assert(self.abs().young[i].add(survived.bag()) =~= self.abs().young[i]);
                assert(with_limbo(self.abs(), w, survived.bag()) =~= self.abs());
            }
        }
    }
}

/// Sweeping goes on.
proof fn lemma_only_swept_on<T: TraceObj>(
    a: Global<T>,
    b: Global<T>,
    c: Global<T>,
    l: int,
    u: GcModel,
    v: GcModel,
)
    requires
        0 <= l < a.nodes().len(),
        b.only_swept(a, l),
        c.only_swept(b, l),
        sweeps(u, v),
        u.objs == b.abs().objs,
        v.objs == c.abs().objs,
    ensures
        c.only_swept(a, l),
{
    assert(c.nodes() =~= a.nodes().update(l, c.nodes()[l]));
    assert forall|x: u64| #[trigger]
        c.heap.payloads().contains_key(x) implies a.heap.payloads().contains_key(x) && c.heap.payloads()[x] == a.heap.payloads()[x] by {
        assert(v.objs.contains_key(x));
        assert(u.objs.contains_key(x));
        assert(b.heap.payloads().contains_key(x));
    }
}
} // verus!
