//! An insert-only hash set with fixed capacity.
//!
//! The set is backed by a flat array of slots, with open addressing and linear probing. It
//! supports only insertion and lookup: an entry, once it is there, stays where it is.

use std::hash::{DefaultHasher, Hasher};
use vstd::prelude::*;
use vstd::std_specs::hash::DefaultHasherAdditionalSpecFns;

verus! {

/// What can be kept in a [`FixedHashSet`].
pub trait SetKey: Sized {
    /// What two equal keys have in common.
    type Model;

    spec fn model(&self) -> Self::Model;

    /// What is hashed of a key.
    spec fn hashed(&self) -> Seq<u8>;

    /// Equal keys are hashed alike.
    proof fn lemma_hashed(&self, other: &Self)
        requires
            self.model() == other.model(),
        ensures
            self.hashed() == other.hashed(),
    ;

    /// The bytes that are hashed.
    fn bytes(&self) -> (r: Vec<u8>)
        ensures
            r@ == self.hashed(),
    ;

    /// Returns `true` if the keys are equal.
    fn same(&self, other: &Self) -> (r: bool)
        ensures
            r == (self.model() == other.model()),
    ;
}

impl SetKey for u64 {
    type Model = u64;

    open spec fn model(&self) -> u64 {
        *self
    }

    open spec fn hashed(&self) -> Seq<u8> {
        Seq::new(8, |i: int| (*self >> (8 * i) as u64) as u8)
    }

    proof fn lemma_hashed(&self, other: &Self) {
    }

    fn bytes(&self) -> (r: Vec<u8>) {
        let mut r: Vec<u8> = Vec::new();
        let mut i: u64 = 0;
        while i < 8
            invariant
                i <= 8,
                r@ == Seq::new(i as nat, |k: int| (*self >> (8 * k) as u64) as u8),
            decreases 8 - i,
        {
            r.push((*self >> (8 * i)) as u8);
            i = i + 1;
            assert(r@ =~= Seq::new(i as nat, |k: int| (*self >> (8 * k) as u64) as u8));
        }
        r
    }

    fn same(&self, other: &Self) -> (r: bool) {
        *self == *other
    }
}

/// The hash of a key.
pub open spec fn hash_of<T: SetKey>(key: T) -> u64 {
    DefaultHasher::spec_finish(seq![key.hashed()])
}

impl SetKey for String {
    type Model = Seq<char>;

    open spec fn model(&self) -> Seq<char> {
        self@
    }

    open spec fn hashed(&self) -> Seq<u8> {
        vstd::utf8::encode_utf8(self@)
    }

    proof fn lemma_hashed(&self, other: &Self) {
    }

    fn bytes(&self) -> (r: Vec<u8>) {
        let slice: &[u8] = self.as_str().as_bytes();
        vstd::slice::slice_to_vec(slice)
    }

    fn same(&self, other: &Self) -> (r: bool) {
        *self == *other
    }
}

/// The slot that comes some steps after another in the order of probing.
pub open spec fn probe(home: int, step: int, n: int) -> int {
    (home + step) % n
}

/// An insert-only hash set with a fixed capacity of `N` slots, a power of two.
pub struct FixedHashSet<T, const N: usize> {
    pub slots: Vec<Option<T>>,
}

impl<T: SetKey, const N: usize> Default for FixedHashSet<T, N> {
    /// An empty set. Its capacity has to be a power of two.
    fn default() -> (r: Self)
        ensures
            N > 0 && N & ((N - 1) as usize) == 0 ==> r.wf() && !r.full(),
            r.keys() == Set::<T::Model>::empty(),
    {
        Self::empty()
    }
}

impl<T: SetKey, const N: usize> FixedHashSet<T, N> {
    /// The slot where the search for a key begins.
    pub open spec fn home(key: T) -> int {
        (hash_of(key) as usize) as int % N as int
    }

    /// All slots on the way from where the search for a key begins to a slot are occupied.
    pub open spec fn filled_to(self, key: T, step: int) -> bool {
        forall|e: int|
            0 <= e < step ==> self.slots@[#[trigger] probe(Self::home(key), e, N as int)] is Some
    }

    /// Every entry is found on its way, and no two entries are equal.
    pub open spec fn wf(self) -> bool {
        &&& N > 0
        &&& self.slots@.len() == N
        &&& forall|i: int|
            0 <= i < N && (#[trigger] self.slots@[i]) is Some ==> self.placed(i)
        &&& forall|i: int, j: int|
            0 <= i < N && 0 <= j < N && (#[trigger] self.slots@[i]) is Some && (
            #[trigger] self.slots@[j]) is Some && self.slots@[i]->0.model()
                == self.slots@[j]->0.model() ==> i == j
    }

    /// The entry in a slot is found on its way.
    pub open spec fn placed(self, i: int) -> bool {
        exists|d: int|
            0 <= d < N && #[trigger] probe(Self::home(self.slots@[i]->0), d, N as int) == i
                && self.filled_to(self.slots@[i]->0, d)
    }

    /// The keys in the set.
    pub open spec fn keys(self) -> Set<T::Model> {
        Set::new(
            |k: T::Model|
                exists|i: int|
                    0 <= i < N && (#[trigger] self.slots@[i]) is Some && self.slots@[i]->0.model()
                        == k,
        )
    }

    /// All slots are occupied.
    pub open spec fn full(self) -> bool {
        forall|i: int| 0 <= i < N ==> (#[trigger] self.slots@[i]) is Some
    }

    /// Creates an empty set.
    pub fn new() -> (r: Self)
        requires
            N > 0,
            N & ((N - 1) as usize) == 0,
        ensures
            r.wf(),
            r.keys() == Set::<T::Model>::empty(),
            !r.full(),
    {
        Self::empty()
    }

    /// A set with no entry.
    fn empty() -> (r: Self)
        ensures
            N > 0 ==> r.wf() && !r.full(),
            r.keys() == Set::<T::Model>::empty(),
    {
        let mut slots: Vec<Option<T>> = Vec::new();
        while slots.len() < N
            invariant
                slots@.len() <= N,
                forall|i: int| 0 <= i < slots@.len() ==> (#[trigger] slots@[i]) is None,
            decreases N - slots@.len(),
        {
            slots.push(None);
        }
        let r = FixedHashSet { slots };
        assert(N > 0 ==> r.slots@[0] is None);
        assert(r.keys() =~= Set::<T::Model>::empty());
        r
    }

    /// The hash of a key.
    fn hash_key(key: &T) -> (r: usize)
        ensures
            r == hash_of(*key) as usize,
    {
        let mut h: DefaultHasher = DefaultHasher::new();
        let bytes: Vec<u8> = key.bytes();
        h.write(bytes.as_slice());
        assert(h@ =~= seq![key.hashed()]);
        h.finish() as usize
    }

    /// Searches for a key along its way. Returns the slot it is in, or the free slot where the
    /// search ended, or nothing if there is neither.
    fn search(&self, key: &T) -> (r: (Option<usize>, bool))
        requires
            self.wf(),
        ensures
            r.1 == self.keys().contains(key.model()),
            r.1 ==> r.0 is Some,
            r.0 matches Some(i) ==> i < N,
            r.0 matches Some(i) ==> r.1 ==> self.slots@[i as int] is Some && self.slots@[i
                as int]->0.model() == key.model(),
            r.0 matches Some(i) ==> !r.1 ==> self.slots@[i as int] is None && exists|d: int|
                0 <= d < N && #[trigger] probe(Self::home(*key), d, N as int) == i
                    && self.filled_to(*key, d),
            r.0 is None ==> self.full(),
    {
        let ghost home = Self::home(*key);
        let mut idx: usize = Self::hash_key(key) % N;
        let mut step: usize = 0;
        proof {
            lemma_probe_start(home, N as int);
        }
        while step < N
            invariant
                self.wf(),
                home == Self::home(*key),
                0 <= home < N,
                step <= N,
                idx < N,
                idx == probe(home, step as int, N as int),
                self.filled_to(*key, step as int),
                forall|e: int|
                    0 <= e < step ==> self.slots@[#[trigger] probe(home, e, N as int)]->0.model()
                        != key.model(),
            decreases N - step,
        {
            match &self.slots[idx] {
                None => {
                    proof {
                        self.lemma_absent(*key, step as int);
                        assert(probe(Self::home(*key), step as int, N as int) == idx);
                    }
                    return (Some(idx), false);
                },
                Some(existing) => {
                    if existing.same(key) {
                        return (Some(idx), true);
                    }
                },
            }
            proof {
                lemma_probe_next(home, step as int, N as int);
            }
            step = step + 1;
            idx = if idx + 1 == N {
                0
            } else {
                idx + 1
            };
        }
        proof {
            assert forall|i: int| 0 <= i < N implies (#[trigger] self.slots@[i]) is Some by {
                lemma_probe_covers(home, i, N as int);
                let e = choose|e: int| 0 <= e < N && #[trigger] probe(home, e, N as int) == i;
                assert(self.slots@[probe(home, e, N as int)] is Some);
            }
            assert(!self.keys().contains(key.model())) by {
                if self.keys().contains(key.model()) {
                    let i = choose|i: int|
                        0 <= i < N && (#[trigger] self.slots@[i]) is Some
                            && self.slots@[i]->0.model() == key.model();
                    lemma_probe_covers(home, i, N as int);
                    let e = choose|e: int| 0 <= e < N && #[trigger] probe(home, e, N as int) == i;
                    assert(self.slots@[probe(home, e, N as int)]->0.model() != key.model());
                }
            }
        }
        (None, false)
    }

    /// Where the search for a key comes to a free slot without finding it, it is not there.
    proof fn lemma_absent(self, key: T, step: int)
        requires
            self.wf(),
            0 <= step < N,
            self.slots@[probe(Self::home(key), step, N as int)] is None,
            forall|e: int|
                0 <= e < step ==> self.slots@[#[trigger] probe(
                    Self::home(key),
                    e,
                    N as int,
                )]->0.model() != key.model(),
        ensures
            !self.keys().contains(key.model()),
    {
        if self.keys().contains(key.model()) {
            let i = choose|i: int|
                0 <= i < N && (#[trigger] self.slots@[i]) is Some && self.slots@[i]->0.model()
                    == key.model();
            let found = self.slots@[i]->0;
            found.lemma_hashed(&key);
            assert(Self::home(found) == Self::home(key));
            assert(self.placed(i));
            let d = choose|d: int|
                0 <= d < N && #[trigger] probe(Self::home(found), d, N as int) == i
                    && self.filled_to(found, d);
            if d < step {
                assert(self.slots@[probe(Self::home(key), d, N as int)]->0.model() != key.model());
            } else if d > step {
                assert(self.slots@[probe(Self::home(found), step, N as int)] is Some);
            }
        }
    }

    /// Inserts a key if it is not there. Returns the entry, and `true` if it is new. A set that
    /// is full takes no new key.
    pub fn get_or_insert(&mut self, key: T) -> (r: (&T, bool))
        requires
            old(self).wf(),
            old(self).keys().contains(key.model()) || !old(self).full(),
        ensures
            final(self).wf(),
            r.0.model() == key.model(),
            r.1 == !old(self).keys().contains(key.model()),
            final(self).keys() == old(self).keys().insert(key.model()),
            forall|i: int|
                0 <= i < N && (#[trigger] old(self).slots@[i]) is Some ==> final(self).slots@[i]
                    == old(self).slots@[i],
            !r.1 ==> final(self).slots@ == old(self).slots@,
            // What is returned is the entry itself.
            exists|i: int| 0 <= i < N && #[trigger] final(self).slots@[i] == Some(*r.0),
            r.1 ==> *r.0 == key,
    {
        let ghost model = key.model();
        match self.search(&key) {
            (Some(idx), true) => {
                proof {
                    assert(self.keys() =~= old(self).keys().insert(model));
                }
                match &self.slots[idx] {
                    Some(existing) => (existing, false),
                    None => vstd::pervasive::unreached(),
                }
            },
            (Some(idx), false) => {
                let ghost before = *self;
                self.slots[idx] = Some(key);
                proof {
                    before.lemma_inserted(*self, idx as int, key);
                }
                match &self.slots[idx] {
                    Some(entry) => (entry, true),
                    None => vstd::pervasive::unreached(),
                }
            },
            (None, _) => vstd::pervasive::unreached(),
        }
    }

    /// A key has been put where the search for it ended.
    proof fn lemma_inserted(self, after: Self, idx: int, key: T)
        requires
            self.wf(),
            0 <= idx < N,
            self.slots@[idx] is None,
            !self.keys().contains(key.model()),
            after.slots@ == self.slots@.update(idx, Some(key)),
            exists|d: int|
                0 <= d < N && #[trigger] probe(Self::home(key), d, N as int) == idx
                    && self.filled_to(key, d),
        ensures
            after.wf(),
            after.keys() =~= self.keys().insert(key.model()),
    {
        assert(after.slots@[idx] == Some(key));
        assert forall|k: T, d: int| #[trigger] self.filled_to(k, d) implies after.filled_to(
            k,
            d,
        ) by {
            assert forall|e: int| 0 <= e < d implies after.slots@[#[trigger] probe(
                Self::home(k),
                e,
                N as int,
            )] is Some by {
                assert(self.slots@[probe(Self::home(k), e, N as int)] is Some);
            }
        }
        assert forall|i: int| 0 <= i < N && (#[trigger] after.slots@[i]) is Some implies after.placed(
            i,
        ) by {
            if i == idx {
                let d = choose|d: int|
                    0 <= d < N && #[trigger] probe(Self::home(key), d, N as int) == idx
                        && self.filled_to(key, d);
                assert(after.filled_to(key, d));
                assert(probe(Self::home(after.slots@[i]->0), d, N as int) == i);
            } else {
                assert(self.slots@[i] is Some);
                assert(self.placed(i));
                let k = self.slots@[i]->0;
                let d = choose|d: int|
                    0 <= d < N && #[trigger] probe(Self::home(k), d, N as int) == i
                        && self.filled_to(k, d);
                assert(after.filled_to(k, d));
                assert(probe(Self::home(after.slots@[i]->0), d, N as int) == i);
            }
        }
        assert forall|i: int, j: int|
            0 <= i < N && 0 <= j < N && (#[trigger] after.slots@[i]) is Some && (
            #[trigger] after.slots@[j]) is Some && after.slots@[i]->0.model()
                == after.slots@[j]->0.model() implies i == j by {
            if i != idx && j != idx {
                assert(self.slots@[i] is Some && self.slots@[j] is Some);
            } else if i != idx {
                assert(self.slots@[i] is Some);
                assert(self.keys().contains(key.model()));
            } else if j != idx {
                assert(self.slots@[j] is Some);
                assert(self.keys().contains(key.model()));
            }
        }
        assert forall|k: T::Model| after.keys().contains(k) == self.keys().insert(
            key.model(),
        ).contains(k) by {
            if self.keys().contains(k) {
                let i = choose|i: int|
                    0 <= i < N && (#[trigger] self.slots@[i]) is Some && self.slots@[i]->0.model()
                        == k;
                assert(after.slots@[i] is Some);
            }
            if after.keys().contains(k) {
                let i = choose|i: int|
                    0 <= i < N && (#[trigger] after.slots@[i]) is Some && after.slots@[i]->0.model()
                        == k;
                if i != idx {
                    assert(self.slots@[i] is Some);
                }
            }
            if k == key.model() {
                assert(after.slots@[idx] is Some);
            }
        }
    }

    /// Inserts a key. Returns `true` if it was not there.
    pub fn insert(&mut self, key: T) -> (r: bool)
        requires
            old(self).wf(),
            old(self).keys().contains(key.model()) || !old(self).full(),
        ensures
            final(self).wf(),
            r == !old(self).keys().contains(key.model()),
            final(self).keys() == old(self).keys().insert(key.model()),
            // Entries stay where they are, and the new one is the key itself.
            forall|i: int|
                0 <= i < N && (#[trigger] old(self).slots@[i]) is Some ==> final(self).slots@[i]
                    == old(self).slots@[i],
            !r ==> final(self).slots@ == old(self).slots@,
            r ==> exists|i: int| 0 <= i < N && #[trigger] final(self).slots@[i] == Some(key),
    {
        self.get_or_insert(key).1
    }

    /// Returns `true` if the key is in the set.
    pub fn contains(&self, key: &T) -> (r: bool)
        requires
            self.wf(),
        ensures
            r == self.keys().contains(key.model()),
    {
        self.search(key).1
    }

    /// The slot that a key is in. It stays there.
    pub fn position(&self, key: &T) -> (r: Option<usize>)
        requires
            self.wf(),
        ensures
            r is Some <==> self.keys().contains(key.model()),
            r matches Some(i) ==> i < N && self.slots@[i as int] is Some && self.slots@[i
                as int]->0.model() == key.model(),
    {
        let (idx, found) = self.search(key);
        if found {
            idx
        } else {
            None
        }
    }
}

proof fn lemma_probe_start(home: int, n: int)
    requires
        0 <= home < n,
    ensures
        probe(home, 0, n) == home,
{
    vstd::arithmetic::div_mod::lemma_small_mod(home as nat, n as nat);
}

proof fn lemma_probe_next(home: int, step: int, n: int)
    requires
        0 <= home < n,
        0 <= step < n,
    ensures
        0 <= probe(home, step, n) < n,
        probe(home, step + 1, n) == (if probe(home, step, n) + 1 == n {
            0
        } else {
            probe(home, step, n) + 1
        }),
{
    let x = home + step;
    if x < n {
        vstd::arithmetic::div_mod::lemma_small_mod(x as nat, n as nat);
        if x + 1 < n {
            vstd::arithmetic::div_mod::lemma_small_mod((x + 1) as nat, n as nat);
        } else {
            vstd::arithmetic::div_mod::lemma_mod_self_0(n);
        }
    } else {
        vstd::arithmetic::div_mod::lemma_small_mod((x - n) as nat, n as nat);
        vstd::arithmetic::div_mod::lemma_mod_add_multiples_vanish(x - n, n);
        vstd::arithmetic::div_mod::lemma_small_mod((x - n + 1) as nat, n as nat);
        vstd::arithmetic::div_mod::lemma_mod_add_multiples_vanish(x - n + 1, n);
    }
}

proof fn lemma_probe_covers(home: int, i: int, n: int)
    requires
        0 <= home < n,
        0 <= i < n,
    ensures
        exists|e: int| 0 <= e < n && #[trigger] probe(home, e, n) == i,
{
    if i >= home {
        vstd::arithmetic::div_mod::lemma_small_mod(i as nat, n as nat);
        assert(probe(home, i - home, n) == i);
    } else {
        vstd::arithmetic::div_mod::lemma_small_mod(i as nat, n as nat);
        vstd::arithmetic::div_mod::lemma_mod_add_multiples_vanish(i, n);
        assert(probe(home, i + n - home, n) == i);
    }
}

/// Two numbers are the same key exactly if they are equal, and two strings exactly if they are the
/// same characters.
pub proof fn law_keys_are_what_they_are(a: u64, b: u64, s: String, t: String)
    ensures
        a.model() == b.model() <==> a == b,
        s.model() == t.model() <==> s@ == t@,
{
}

/// Of a number its eight bytes are hashed, the lowest first.
pub proof fn law_bytes_of_numbers(a: u64, i: int)
    requires
        0 <= i < 8,
    ensures
        a.hashed().len() == 8,
        a.hashed()[i] as int == a as int / vstd::arithmetic::power2::pow2((8 * i) as nat) as int
            % 256,
{
    let s = (8 * i) as u64;
    let x = a >> s;
    vstd::bits::lemma_u64_shr_is_div(a, s);
    assert(x as u8 as u64 == x % 256) by (bit_vector);
}

/// Of a string its bytes are hashed.
pub proof fn law_bytes_of_strings(s: String)
    ensures
        s.hashed() == vstd::utf8::encode_utf8(s@),
{
}

impl<T: SetKey, const N: usize> FixedHashSet<T, N> {
    /// The keys in the set are those of its slots, and it is full where no slot is free.
    pub proof fn law_keys_are_in_slots(self, k: T::Model)
        requires
            self.wf(),
        ensures
            self.slots@.len() == N,
            self.keys().contains(k) <==> exists|x: T|
                #![trigger self.slots@.contains(Some(x))]
                x.model() == k && self.slots@.contains(Some(x)),
            self.full() <==> !self.slots@.contains(None),
    {
        if self.keys().contains(k) {
            let i = choose|i: int|
                0 <= i < N && (#[trigger] self.slots@[i]) is Some && self.slots@[i]->0.model() == k;
            let x = self.slots@[i]->0;
            assert(self.slots@[i] == Some(x));
            assert(self.slots@.contains(Some(x)));
        }
        if exists|x: T|
            #![trigger self.slots@.contains(Some(x))]
            x.model() == k && self.slots@.contains(Some(x)) {
            let x = choose|x: T|
                #![trigger self.slots@.contains(Some(x))]
                x.model() == k && self.slots@.contains(Some(x));
            let i = choose|i: int| 0 <= i < self.slots@.len() && self.slots@[i] == Some(x);
            assert(self.slots@[i] is Some);
        }
        if self.slots@.contains(None) {
            let i = choose|i: int| 0 <= i < self.slots@.len() && self.slots@[i] == None::<T>;
            assert(!(self.slots@[i] is Some));
        }
        if !self.full() {
            let i = choose|i: int| 0 <= i < N && !((#[trigger] self.slots@[i]) is Some);
            assert(self.slots@[i] == None::<T>);
        }
    }

    /// A set holds as many keys as it has slots: it is full exactly if there are so many keys in
    /// it, and there are never more.
    pub proof fn law_capacity(self)
        requires
            self.wf(),
        ensures
            self.keys().finite(),
            self.keys().len() <= N,
            self.full() <==> self.keys().len() == N,
    {
        let all = vstd::set_lib::set_int_range(0, N as int);
        vstd::set_lib::lemma_int_range(0, N as int);
        let used = all.filter(|i: int| self.slots@[i] is Some);
        let f = |i: int| self.slots@[i]->0.model();
        let keys = used.map(f);
        assert(self.keys() =~= keys) by {
            assert forall|k: T::Model| self.keys().contains(k) == keys.contains(k) by {
                if self.keys().contains(k) {
                    let i = choose|i: int|
                        0 <= i < N && (#[trigger] self.slots@[i]) is Some
                            && self.slots@[i]->0.model() == k;
                    assert(used.contains(i));
                    assert(f(i) == k);
                }
                if keys.contains(k) {
                    let i = choose|i: int| used.contains(i) && f(i) == k;
                    assert(self.slots@[i] is Some);
                }
            }
        }
        all.lemma_len_filter(|i: int| self.slots@[i] is Some);
        assert forall|i: int, j: int|
            used.contains(i) && used.contains(j) && f(i) == f(j) implies i == j by {
            assert(self.slots@[i] is Some && self.slots@[j] is Some);
        }
        vstd::set_lib::lemma_map_size(used, keys, f);
        if self.full() {
            assert(used =~= all);
        }
        if used.len() == N {
            vstd::set_lib::lemma_subset_equality(used, all);
            assert forall|i: int| 0 <= i < N implies (#[trigger] self.slots@[i]) is Some by {
                assert(used.contains(i));
            }
        }
    }

    /// A key is searched for from the slot that its hash is the number of, and an entry stands
    /// there or behind a row of occupied slots that begins there.
    pub proof fn law_entries_are_on_their_way(self, i: int) -> (d: int)
        requires
            self.wf(),
            0 <= i < N,
            self.slots@[i] is Some,
        ensures
            ({
                let home = (DefaultHasher::spec_finish(
                    seq![self.slots@[i]->0.hashed()],
                ) as usize) as int;
                &&& 0 <= d < N
                &&& (home % N as int + d) % N as int == i
                &&& forall|e: int|
                    0 <= e <= d ==> (#[trigger] self.slots@[(home % N as int + e) % N as int])
                        is Some
            }),
    {
        assert(self.placed(i));
        let key = self.slots@[i]->0;
        let d = choose|d: int|
            0 <= d < N && #[trigger] probe(Self::home(key), d, N as int) == i && self.filled_to(
                key,
                d,
            );
        let home = (DefaultHasher::spec_finish(seq![key.hashed()]) as usize) as int;
        assert forall|e: int| 0 <= e <= d implies (#[trigger] self.slots@[(home % N as int + e)
            % N as int]) is Some by {
            assert(probe(Self::home(key), e, N as int) == (home % N as int + e) % N as int);
        }
        d
    }
}

} // verus!
