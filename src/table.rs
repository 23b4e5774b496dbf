//! Linear-probed open-addressing table from words to occurrence counts.
use vstd::arithmetic::power2::{lemma2_to64, lemma_pow2_unfold, pow2};
use vstd::bits::{lemma_u64_low_bits_mask_is_mod, low_bits_mask};
use vstd::prelude::*;
use vstd::set_lib::lemma_len_subset;
use crate::export::{lists, pairs, pview};

verus! {

/// One occupied slot: a word, its count and the hash it was stored under.
pub struct FrequencyHashEntry {
    pub key: Vec<u8>,
    pub value: usize,
    pub hash: u64,
}

type Slots = Seq<Option<FrequencyHashEntry>>;

/// Open-addressing table. Capacity is a power of two, at least 128; the table
/// doubles once more than nine tenths of its slots are taken.
pub struct FrequencyHashMap {
    buckets: Vec<Option<FrequencyHashEntry>>,
    capacity: usize,
    length: usize,
    mask: u64,
    max: usize,
    log_cap: Ghost<nat>,
    counts: Ghost<Map<Seq<u8>, nat>>,
    hashes: Ghost<Map<Seq<u8>, u64>>,
}

pub const INITIAL: usize = 128;

/// Largest number of entries the table accepts before an insertion.
pub const MAX_ENTRIES: usize = usize::MAX / 3;

/// Slot `i` lies on the probe path from slot `s` strictly before slot `j`.
pub open spec fn between(s: int, i: int, j: int) -> bool {
    if s <= j {
        s <= i < j
    } else {
        s <= i || i < j
    }
}

pub open spec fn home(h: u64, cap: int) -> int {
    (h as int) % cap
}

pub closed spec fn num_some(b: Slots) -> nat
    decreases b.len(),
{
    if b.len() == 0 {
        0
    } else {
        num_some(b.drop_last()) + if b.last() is Some {
            1nat
        } else {
            0nat
        }
    }
}

spec fn entry_ok(b: Slots, counts: Map<Seq<u8>, nat>, hashes: Map<Seq<u8>, u64>, j: int) -> bool {
    b[j] is Some ==> {
        let e = b[j]->Some_0;
        &&& counts.contains_key(e.key@)
        &&& counts[e.key@] == e.value
        &&& hashes.contains_key(e.key@)
        &&& hashes[e.key@] == e.hash
        &&& e.key@.len() > 0
        &&& forall|i: int|
            0 <= i < b.len() && between(home(e.hash, b.len() as int), i, j) ==> #[trigger] b[i] is Some
    }
}

spec fn table_ok(b: Slots, counts: Map<Seq<u8>, nat>, hashes: Map<Seq<u8>, u64>) -> bool {
    &&& counts.dom() == hashes.dom()
    &&& counts.dom().finite()
    &&& num_some(b) == counts.len()
    &&& forall|j: int| 0 <= j < b.len() ==> #[trigger] entry_ok(b, counts, hashes, j)
    &&& forall|j1: int, j2: int|
        0 <= j1 < b.len() && 0 <= j2 < b.len() && #[trigger] b[j1] is Some && #[trigger] b[j2] is Some
            && b[j1]->Some_0.key@ == b[j2]->Some_0.key@ ==> j1 == j2
    &&& forall|k: Seq<u8>|
        #[trigger] counts.contains_key(k) ==> exists|j: int|
            0 <= j < b.len() && #[trigger] b[j] is Some && b[j]->Some_0.key@ == k
}

proof fn lemma_num_some_bound(b: Slots)
    ensures
        num_some(b) <= b.len(),
        (forall|i: int| 0 <= i < b.len() ==> #[trigger] b[i] is Some) ==> num_some(b) == b.len(),
        (forall|i: int| 0 <= i < b.len() ==> #[trigger] b[i] is None) ==> num_some(b) == 0,
    decreases b.len(),
{
    if b.len() > 0 {
        lemma_num_some_bound(b.drop_last());
        assert(forall|i: int| 0 <= i < b.len() - 1 ==> b.drop_last()[i] == b[i]);
    }
}

proof fn lemma_num_some_update(b: Slots, j: int, x: Option<FrequencyHashEntry>)
    requires
        0 <= j < b.len(),
    ensures
        num_some(b.update(j, x)) == num_some(b) - (if b[j] is Some { 1int } else { 0int }) + (if x is Some {
            1int
        } else {
            0int
        }),
    decreases b.len(),
{
    if j == b.len() - 1 {
        assert(b.update(j, x).drop_last() =~= b.drop_last());
    } else {
        lemma_num_some_update(b.drop_last(), j, x);
        assert(b.update(j, x).drop_last() =~= b.drop_last().update(j, x));
    }
}

/// Placing a new word in an empty slot at the end of its probe path keeps the table sound.
proof fn lemma_insert_at(
    b: Slots,
    counts: Map<Seq<u8>, nat>,
    hashes: Map<Seq<u8>, u64>,
    j: int,
    e: FrequencyHashEntry,
)
    requires
        table_ok(b, counts, hashes),
        0 <= j < b.len(),
        b[j] is None,
        !counts.contains_key(e.key@),
        e.key@.len() > 0,
        forall|i: int| 0 <= i < b.len() && between(home(e.hash, b.len() as int), i, j) ==> #[trigger] b[i] is Some,
    ensures
        table_ok(b.update(j, Some(e)), counts.insert(e.key@, e.value as nat), hashes.insert(e.key@, e.hash)),
{
    let nb = b.update(j, Some(e));
    let nc = counts.insert(e.key@, e.value as nat);
    let nh = hashes.insert(e.key@, e.hash);
    lemma_num_some_update(b, j, Some(e));
    assert(nc.dom() =~= nh.dom());
    assert forall|q: int| 0 <= q < nb.len() implies #[trigger] entry_ok(nb, nc, nh, q) by {
        if q != j {
            assert(entry_ok(b, counts, hashes, q));
            if b[q] is Some {
                assert(b[q]->Some_0.key@ != e.key@);
                let eq = b[q]->Some_0;
                assert forall|i: int|
                    0 <= i < nb.len() && between(home(eq.hash, nb.len() as int), i, q) implies #[trigger] nb[i] is Some by {
                    assert(b[i] is Some);
                }
            }
        }
    }
    assert forall|k: Seq<u8>| #[trigger] nc.contains_key(k) implies exists|q: int|
        0 <= q < nb.len() && #[trigger] nb[q] is Some && nb[q]->Some_0.key@ == k by {
        if k == e.key@ {
            assert(nb[j] is Some);
        } else {
            let q = choose|q: int| 0 <= q < b.len() && #[trigger] b[q] is Some && b[q]->Some_0.key@ == k;
            assert(nb[q] is Some);
        }
    }
    assert forall|j1: int, j2: int|
        0 <= j1 < nb.len() && 0 <= j2 < nb.len() && #[trigger] nb[j1] is Some && #[trigger] nb[j2] is Some
            && nb[j1]->Some_0.key@ == nb[j2]->Some_0.key@ implies j1 == j2 by {
        if j1 != j && j2 != j {
            assert(b[j1] is Some && b[j2] is Some);
        } else if j1 != j {
            assert(entry_ok(b, counts, hashes, j1));
        } else if j2 != j {
            assert(entry_ok(b, counts, hashes, j2));
        }
    }
}

/// Replacing the count of a stored word keeps the table sound.
proof fn lemma_set_value(
    b: Slots,
    counts: Map<Seq<u8>, nat>,
    hashes: Map<Seq<u8>, u64>,
    j: int,
    e: FrequencyHashEntry,
)
    requires
        table_ok(b, counts, hashes),
        0 <= j < b.len(),
        b[j] is Some,
        b[j]->Some_0.key@ == e.key@,
        b[j]->Some_0.hash == e.hash,
    ensures
        table_ok(b.update(j, Some(e)), counts.insert(e.key@, e.value as nat), hashes),
{
    let nb = b.update(j, Some(e));
    let nc = counts.insert(e.key@, e.value as nat);
    lemma_num_some_update(b, j, Some(e));
    assert(entry_ok(b, counts, hashes, j));
    assert(nc.dom() =~= counts.dom());
    assert forall|q: int| 0 <= q < nb.len() implies #[trigger] entry_ok(nb, nc, hashes, q) by {
        assert(entry_ok(b, counts, hashes, q));
        if nb[q] is Some {
            let eq = nb[q]->Some_0;
            assert forall|i: int|
                0 <= i < nb.len() && between(home(eq.hash, nb.len() as int), i, q) implies #[trigger] nb[i] is Some by {
                assert(b[i] is Some);
            }
        }
    }
    assert forall|k: Seq<u8>| #[trigger] nc.contains_key(k) implies exists|q: int|
        0 <= q < nb.len() && #[trigger] nb[q] is Some && nb[q]->Some_0.key@ == k by {
        let q = choose|q: int| 0 <= q < b.len() && #[trigger] b[q] is Some && b[q]->Some_0.key@ == k;
        assert(nb[q] is Some);
    }
    assert forall|j1: int, j2: int|
        0 <= j1 < nb.len() && 0 <= j2 < nb.len() && #[trigger] nb[j1] is Some && #[trigger] nb[j2] is Some
            && nb[j1]->Some_0.key@ == nb[j2]->Some_0.key@ implies j1 == j2 by {
        assert(b[j1] is Some && b[j2] is Some);
    }
}

/// `x & mask` is `x` modulo the capacity.
proof fn lemma_mask(x: u64, n: nat, mask: u64)
    requires
        n < 64,
        mask as int == pow2(n) - 1,
    ensures
        (x & mask) as int == (x as int) % (pow2(n) as int),
        pow2(n) > 0,
{
    vstd::arithmetic::power2::lemma_pow2_pos(n);
    vstd::arithmetic::power2::lemma_pow2_strictly_increases(n, 64);
    lemma2_to64();
    assert(pow2(n) < u64::MAX + 1);
    lemma_u64_low_bits_mask_is_mod(x, n);
    assert(low_bits_mask(n) == pow2(n) - 1);
    assert(mask == low_bits_mask(n) as u64);
    assert(x % (pow2(n) as u64) == (x as int) % (pow2(n) as int));
}

proof fn lemma_next(index: int, cap: int)
    requires
        0 <= index < cap,
    ensures
        (index + 1) % cap == if index + 1 < cap {
            index + 1
        } else {
            0
        },
{
    if index + 1 < cap {
        vstd::arithmetic::div_mod::lemma_small_mod((index + 1) as nat, cap as nat);
    } else {
        vstd::arithmetic::div_mod::lemma_mod_self_0(cap);
    }
}

fn empty_slots(n: usize) -> (r: Vec<Option<FrequencyHashEntry>>)
    ensures
        r@.len() == n,
        forall|i: int| 0 <= i < n ==> #[trigger] r@[i] is None,
{
    let mut r: Vec<Option<FrequencyHashEntry>> = Vec::with_capacity(n);
    let mut i: usize = 0;
    while i < n
        invariant
            i <= n,
            r@.len() == i,
            forall|q: int| 0 <= q < i ==> #[trigger] r@[q] is None,
        decreases n - i,
    {
        r.push(None);
        i = i + 1;
    }
    r
}

/// Byte-wise equality of two words.
pub fn bytes_eq(a: &[u8], b: &[u8]) -> (r: bool)
    ensures
        r == (a@ == b@),
{
    if a.len() != b.len() {
        return false;
    }
    let mut i: usize = 0;
    while i < a.len()
        invariant
            i <= a@.len(),
            a@.len() == b@.len(),
            forall|q: int| 0 <= q < i ==> a@[q] == b@[q],
        decreases a@.len() - i,
    {
        if a[i] != b[i] {
            return false;
        }
        i = i + 1;
    }
    assert(a@ =~= b@);
    true
}

fn copy_bytes(a: &[u8]) -> (r: Vec<u8>)
    ensures
        r@ == a@,
{
    let mut r: Vec<u8> = Vec::with_capacity(a.len());
    let mut i: usize = 0;
    while i < a.len()
        invariant
            i <= a@.len(),
            r@ =~= a@.subrange(0, i as int),
        decreases a@.len() - i,
    {
        r.push(a[i]);
        i = i + 1;
    }
    assert(r@ =~= a@);
    r
}

/// Number of entries at which a table of `cap` slots grows: nine tenths of it, rounded down.
fn load_limit(cap: usize) -> (m: usize)
    ensures
        m == cap * 9 / 10,
{
    let q = cap / 10;
    let r = cap % 10;
    assert(q * 9 + r * 9 / 10 == cap * 9 / 10) by (nonlinear_arith)
        requires
            q == cap / 10,
            r == cap % 10,
    {
        assert(cap == q * 10 + r);
    }
    q * 9 + r * 9 / 10
}

/// Puts `e` into the first empty slot of its probe path; used while rebuilding.
fn place(
    b: &mut Vec<Option<FrequencyHashEntry>>,
    mask: u64,
    e: FrequencyHashEntry,
    Ghost(n): Ghost<nat>,
    Ghost(counts): Ghost<Map<Seq<u8>, nat>>,
    Ghost(hashes): Ghost<Map<Seq<u8>, u64>>,
)
    requires
        table_ok(old(b)@, counts, hashes),
        n < 64,
        old(b)@.len() == pow2(n),
        mask as int == pow2(n) - 1,
        num_some(old(b)@) < old(b)@.len(),
        !counts.contains_key(e.key@),
        e.key@.len() > 0,
    ensures
        final(b)@.len() == old(b)@.len(),
        table_ok(final(b)@, counts.insert(e.key@, e.value as nat), hashes.insert(e.key@, e.hash)),
{
    let len = b.len();
    let ghost cap = b@.len() as int;
    proof {
        lemma_mask(e.hash, n, mask);
    }
    let mut index: usize = (e.hash & mask) as usize;
    let ghost start = index as int;
    let ghost mut steps: int = 0;
    while b[index].is_some()
        invariant
            b@ == old(b)@,
            cap == b@.len(),
            cap <= usize::MAX,
            cap == pow2(n),
            n < 64,
            mask as int == cap - 1,
            num_some(b@) < cap,
            start == home(e.hash, cap),
            0 <= steps < cap,
            index as int == if start + steps < cap {
                start + steps
            } else {
                start + steps - cap
            },
            forall|i: int| 0 <= i < cap && between(start, i, index as int) ==> #[trigger] b@[i] is Some,
        decreases cap - steps,
    {
        proof {
            lemma_mask((index + 1) as u64, n, mask);
            lemma_next(index as int, cap);
            if steps + 1 == cap {
                assert forall|i: int| 0 <= i < cap implies #[trigger] b@[i] is Some by {
                    if i != index {
                        assert(between(start, i, index as int));
                    }
                }
                lemma_num_some_bound(b@);
            }
            steps = steps + 1;
        }
        index = ((index + 1) as u64 & mask) as usize;
    }
    proof {
        lemma_insert_at(b@, counts, hashes, index as int, e);
    }
    b[index] = Some(e);
}

impl FrequencyHashMap {
    /// The word-to-count map that the table holds.
    pub closed spec fn view(&self) -> Map<Seq<u8>, nat> {
        self.counts@
    }

    /// The hash under which each stored word was inserted.
    pub closed spec fn hash_of(&self) -> Map<Seq<u8>, u64> {
        self.hashes@
    }

    pub closed spec fn spec_capacity(&self) -> nat {
        self.capacity as nat
    }

    pub closed spec fn wf(&self) -> bool {
        &&& self.buckets@.len() == self.capacity
        &&& 7 <= self.log_cap@ < 64
        &&& self.capacity as int == pow2(self.log_cap@)
        &&& self.mask as int == self.capacity - 1
        &&& self.max == self.capacity * 9 / 10
        &&& self.length <= self.max + 1
        &&& self.length == self.counts@.len()
        &&& table_ok(self.buckets@, self.counts@, self.hashes@)
    }

    /// Every stored word was stored under `hash_of`, which is a total map on the stored words.
    pub proof fn lemma_wf(&self)
        requires
            self.wf(),
        ensures
            self@.dom() == self.hash_of().dom(),
            self@.dom().finite(),
            self.spec_capacity() >= INITIAL,
            forall|k: Seq<u8>| #[trigger] self@.contains_key(k) ==> k.len() > 0,
    {
        if self.log_cap@ > 7 {
            vstd::arithmetic::power2::lemma_pow2_strictly_increases(7, self.log_cap@);
        }
        lemma2_to64();
        assert forall|k: Seq<u8>| #[trigger] self@.contains_key(k) implies k.len() > 0 by {
            let j = choose|j: int|
                0 <= j < self.buckets@.len() && #[trigger] self.buckets@[j] is Some && self.buckets@[j]->Some_0.key@ == k;
            assert(entry_ok(self.buckets@, self.counts@, self.hashes@, j));
        }
    }

    /// An empty table of 128 slots.
    pub fn new() -> (r: FrequencyHashMap)
        ensures
            r.wf(),
            r@ == Map::<Seq<u8>, nat>::empty(),
            r.hash_of() == Map::<Seq<u8>, u64>::empty(),
            r.spec_capacity() == INITIAL,
    {
        let buckets = empty_slots(INITIAL);
        let r = FrequencyHashMap {
            buckets,
            capacity: INITIAL,
            length: 0,
            mask: 127,
            max: load_limit(INITIAL),
            log_cap: Ghost(7),
            counts: Ghost(Map::empty()),
            hashes: Ghost(Map::empty()),
        };
        proof {
            lemma2_to64();
            lemma_num_some_bound(r.buckets@);
            assert(r.counts@.dom() =~= Set::empty());
            assert forall|j: int| 0 <= j < r.buckets@.len() implies #[trigger] entry_ok(
                r.buckets@,
                r.counts@,
                r.hashes@,
                j,
            ) by {
                assert(r.buckets@[j] is None);
            }
        }
        r
    }

    /// Whether probing for `word` stops at slot `index`: the slot is empty or holds `word`.
    fn stops_at(&self, index: usize, hash: u64, word: &[u8]) -> (r: bool)
        requires
            index < self.buckets@.len(),
        ensures
            r == (self.buckets@[index as int] is None || (self.buckets@[index as int]->Some_0.hash == hash
                && self.buckets@[index as int]->Some_0.key@ == word@)),
    {
        match &self.buckets[index] {
            Some(entry) => entry.hash == hash && bytes_eq(entry.key.as_slice(), word),
            None => true,
        }
    }

    /// Finds the slot of `word`, creating it with count 0 when the word is new.
    fn locate_or_create(&mut self, hash: u64, word: &[u8]) -> (idx: usize)
        requires
            old(self).wf(),
            old(self).length <= old(self).max,
            word@.len() > 0,
            old(self).hashes@.contains_key(word@) ==> old(self).hashes@[word@] == hash,
        ensures
            final(self).wf(),
            idx < final(self).buckets@.len(),
            final(self).buckets@[idx as int] is Some,
            final(self).buckets@[idx as int]->Some_0.key@ == word@,
            final(self).buckets@[idx as int]->Some_0.hash == hash,
            final(self).counts@ == if old(self).counts@.contains_key(word@) {
                old(self).counts@
            } else {
                old(self).counts@.insert(word@, 0)
            },
            final(self).hashes@ == old(self).hashes@.insert(word@, hash),
            final(self).capacity == old(self).capacity,
    {
        let len = self.buckets.len();
        let ghost cap = self.buckets@.len() as int;
        proof {
            lemma_mask(hash, self.log_cap@, self.mask);
            lemma2_to64();
            if self.log_cap@ > 7 {
                vstd::arithmetic::power2::lemma_pow2_strictly_increases(7, self.log_cap@);
            }
        }
        let mut index: usize = (hash & self.mask) as usize;
        let ghost start = index as int;
        let ghost mut steps: int = 0;
        while !self.stops_at(index, hash, word)
            invariant
                *self == *old(self),
                self.wf(),
                self.length <= self.max,
                cap == self.buckets@.len(),
                start == home(hash, cap),
                0 <= steps < cap,
                index as int == if start + steps < cap {
                    start + steps
                } else {
                    start + steps - cap
                },
                forall|i: int|
                    0 <= i < cap && between(start, i, index as int) ==> #[trigger] self.buckets@[i] is Some
                        && !(self.buckets@[i]->Some_0.hash == hash && self.buckets@[i]->Some_0.key@ == word@),
            decreases cap - steps,
        {
            proof {
                lemma_mask((index + 1) as u64, self.log_cap@, self.mask);
                lemma_next(index as int, cap);
                if steps + 1 == cap {
                    assert forall|i: int| 0 <= i < cap implies #[trigger] self.buckets@[i] is Some by {
                        if i != index {
                            assert(between(start, i, index as int));
                        }
                    }
                    lemma_num_some_bound(self.buckets@);
                }
                steps = steps + 1;
            }
            index = ((index + 1) as u64 & self.mask) as usize;
        }
        if self.buckets[index].is_none() {
            let ghost b = self.buckets@;
            proof {
                if self.counts@.contains_key(word@) {
                    let j = choose|j: int| 0 <= j < cap && #[trigger] b[j] is Some && b[j]->Some_0.key@ == word@;
                    assert(entry_ok(b, self.counts@, self.hashes@, j));
                    assert(!between(start, index as int, j));
                    assert(!between(start, j, index as int));
                }
            }
            let e = FrequencyHashEntry { key: copy_bytes(word), value: 0, hash };
            proof {
                lemma_insert_at(b, self.counts@, self.hashes@, index as int, e);
            }
            self.buckets[index] = Some(e);
            self.length = self.length + 1;
            self.counts = Ghost(self.counts@.insert(word@, 0));
            self.hashes = Ghost(self.hashes@.insert(word@, hash));
        } else {
            proof {
                assert(entry_ok(self.buckets@, self.counts@, self.hashes@, index as int));
                assert(self.hashes@.insert(word@, hash) =~= self.hashes@);
            }
        }
        index
    }

    /// Doubles the table when more than nine tenths of its slots are taken,
    /// moving every entry to its place under its stored hash.
    fn ensure_capacity(&mut self)
        requires
            old(self).wf(),
            old(self).length < MAX_ENTRIES,
        ensures
            final(self).wf(),
            final(self).length <= final(self).max,
            final(self).counts@ == old(self).counts@,
            final(self).hashes@ == old(self).hashes@,
            final(self).capacity >= old(self).capacity,
            old(self).length > old(self).max ==> final(self).capacity == 2 * old(self).capacity,
    {
        if self.length > self.max {
            let ghost n = self.log_cap@;
            proof {
                assert(self.length < 2 * self.capacity);
                lemma_pow2_unfold(n + 1);
                lemma2_to64();
                assert(2 * self.capacity <= usize::MAX);
                if n + 1 >= 64 {
                    assert(n + 1 == 64);
                }
            }
            let new_cap = 2 * self.capacity;
            let new_mask = (new_cap - 1) as u64;
            let mut nb = empty_slots(new_cap);
            let mut old_b: Vec<Option<FrequencyHashEntry>> = Vec::new();
            core::mem::swap(&mut self.buckets, &mut old_b);
            let ghost ob = old_b@;
            let ghost counts = self.counts@;
            let ghost hashes = self.hashes@;
            let ghost mut nc = Map::<Seq<u8>, nat>::empty();
            let ghost mut nh = Map::<Seq<u8>, u64>::empty();
            proof {
                lemma_num_some_bound(nb@);
                assert(nc.dom() =~= Set::empty());
                assert(nh.dom() =~= Set::empty());
                assert forall|j: int| 0 <= j < nb@.len() implies #[trigger] entry_ok(nb@, nc, nh, j) by {
                    assert(nb@[j] is None);
                }
            }
            while old_b.len() > 0
                invariant
                    old_b@.len() <= ob.len(),
                    old_b@ == ob.subrange(0, old_b@.len() as int),
                    table_ok(ob, counts, hashes),
                    counts.len() < new_cap,
                    nb@.len() == new_cap,
                    new_cap == pow2(n + 1),
                    n + 1 < 64,
                    new_mask as int == new_cap - 1,
                    table_ok(nb@, nc, nh),
                    forall|k: Seq<u8>|
                        #[trigger] nc.contains_key(k) ==> counts.contains_key(k) && nc[k] == counts[k]
                            && nh[k] == hashes[k],
                    forall|j: int|
                        old_b@.len() <= j < ob.len() && #[trigger] ob[j] is Some ==> nc.contains_key(
                            ob[j]->Some_0.key@,
                        ),
                    forall|j: int|
                        0 <= j < old_b@.len() && #[trigger] ob[j] is Some ==> !nc.contains_key(
                            ob[j]->Some_0.key@,
                        ),
                decreases old_b@.len(),
            {
                let ghost p = old_b@.len() - 1;
                let slot = old_b.pop();
                proof {
                    assert(slot == Some(ob[p]));
                    assert(old_b@ =~= ob.subrange(0, old_b@.len() as int));
                }
                match slot {
                    Some(Some(e)) => {
                        let ghost ek = e.key@;
                        let ghost ev = e.value as nat;
                        let ghost eh = e.hash;
                        proof {
                            assert(ob[p] == Some(e));
                            assert(entry_ok(ob, counts, hashes, p));
                            assert(nc.dom().subset_of(counts.dom()));
                            lemma_len_subset(nc.dom(), counts.dom());
                        }
                        place(&mut nb, new_mask, e, Ghost(n + 1), Ghost(nc), Ghost(nh));
                        proof {
                            nc = nc.insert(ek, ev);
                            nh = nh.insert(ek, eh);
                            assert forall|j: int|
                                0 <= j < old_b@.len() && #[trigger] ob[j] is Some implies !nc.contains_key(
                                    ob[j]->Some_0.key@,
                                ) by {
                                assert(ob[p] is Some);
                            }
                        }
                    },
                    _ => {},
                }
            }
            proof {
                assert forall|k: Seq<u8>| #[trigger] counts.contains_key(k) implies nc.contains_key(k) by {
                    let j = choose|j: int| 0 <= j < ob.len() && #[trigger] ob[j] is Some && ob[j]->Some_0.key@ == k;
                }
                assert(nc =~= counts);
                assert(nh =~= hashes);
            }
            self.buckets = nb;
            self.capacity = new_cap;
            self.mask = new_mask;
            self.max = load_limit(new_cap);
            self.log_cap = Ghost(n + 1);
        }
    }

    /// Adds one occurrence of `word`, stored under `hash`.
    pub fn increment(&mut self, hash: u64, word: &[u8])
        requires
            old(self).wf(),
            word@.len() > 0,
            old(self)@.len() < MAX_ENTRIES,
            old(self).hash_of().contains_key(word@) ==> old(self).hash_of()[word@] == hash,
            old(self)@.contains_key(word@) ==> old(self)@[word@] < usize::MAX,
        ensures
            final(self).wf(),
            final(self)@ == old(self)@.insert(
                word@,
                (if old(self)@.contains_key(word@) {
                    old(self)@[word@]
                } else {
                    0
                }) + 1,
            ),
            final(self).hash_of() == old(self).hash_of().insert(word@, hash),
            final(self).spec_capacity() >= old(self).spec_capacity(),
    {
        self.ensure_capacity();
        let idx = self.locate_or_create(hash, word);
        let ghost b = self.buckets@;
        proof {
            assert(entry_ok(b, self.counts@, self.hashes@, idx as int));
        }
        let mut slot: Option<FrequencyHashEntry> = None;
        core::mem::swap(&mut self.buckets[idx], &mut slot);
        match slot {
            Some(mut e) => {
                e.value = e.value + 1;
                proof {
                    lemma_set_value(b, self.counts@, self.hashes@, idx as int, e);
                    assert(b.update(idx as int, Some(e)) =~= self.buckets@.update(idx as int, Some(e)));
                }
                self.buckets[idx] = Some(e);
                self.counts = Ghost(self.counts@.insert(word@, e.value as nat));
            },
            None => {},
        }
    }

    /// Takes the table apart into its (count, word) pairs, in slot order.
    pub fn into_entries(self) -> (r: Vec<(usize, Vec<u8>)>)
        requires
            self.wf(),
        ensures
            lists(self@, pairs(r@)),
    {
        let ghost ob = self.buckets@;
        let ghost counts = self.counts@;
        let ghost hashes = self.hashes@;
        let mut b = self.buckets;
        let mut out: Vec<(usize, Vec<u8>)> = Vec::new();
        proof {
            assert(pairs(out@) =~= Seq::<(nat, Seq<u8>)>::empty());
        }
        while b.len() > 0
            invariant
                b@.len() <= ob.len(),
                b@ == ob.subrange(0, b@.len() as int),
                table_ok(ob, counts, hashes),
                pairs(out@).len() == out@.len(),
                forall|i: int|
                    0 <= i < out@.len() ==> #[trigger] counts.contains_key(pairs(out@)[i].1) && counts[pairs(
                        out@,
                    )[i].1] == pairs(out@)[i].0,
                forall|i: int, j: int|
                    0 <= i < out@.len() && 0 <= j < b@.len() && #[trigger] ob[j] is Some ==> #[trigger] pairs(
                        out@,
                    )[i].1 != ob[j]->Some_0.key@,
                forall|i: int, k: int|
                    0 <= i < k < out@.len() ==> #[trigger] pairs(out@)[i].1 != #[trigger] pairs(out@)[k].1,
                forall|j: int|
                    b@.len() <= j < ob.len() && #[trigger] ob[j] is Some ==> exists|i: int|
                        0 <= i < out@.len() && #[trigger] pairs(out@)[i].1 == ob[j]->Some_0.key@,
            decreases b@.len(),
        {
            let ghost p = b@.len() - 1;
            let ghost before = pairs(out@);
            let slot = b.pop();
            proof {
                assert(slot == Some(ob[p]));
                assert(b@ =~= ob.subrange(0, b@.len() as int));
                assert(entry_ok(ob, counts, hashes, p));
            }
            match slot {
                Some(Some(e)) => {
                    let ghost x = (e.value, e.key);
                    proof {
                        crate::export::lemma_pairs_push(out@, (e.value, e.key));
                    }
                    out.push((e.value, e.key));
                    proof {
                        let o = pairs(out@);
                        assert(o[o.len() - 1] == pview(x));
                        assert forall|i: int, j: int|
                            0 <= i < out@.len() && 0 <= j < b@.len() && #[trigger] ob[j] is Some implies #[trigger] pairs(
                                out@,
                            )[i].1 != ob[j]->Some_0.key@ by {
                            if i < out@.len() - 1 {
                                assert(o[i] == before[i]);
                            } else {
                                assert(ob[p] is Some);
                            }
                        }
                        assert forall|i: int, k: int| 0 <= i < k < out@.len() implies #[trigger] pairs(out@)[i].1
                            != #[trigger] pairs(out@)[k].1 by {
                            assert(o[i] == before[i]);
                            if k < out@.len() - 1 {
                                assert(o[k] == before[k]);
                            } else {
                                assert(ob[p] is Some);
                            }
                        }
                        assert forall|j: int| b@.len() <= j < ob.len() && #[trigger] ob[j] is Some implies exists|i: int|
                            0 <= i < out@.len() && #[trigger] pairs(out@)[i].1 == ob[j]->Some_0.key@ by {
                            if j > p {
                                let i = choose|i: int| 0 <= i < before.len() && #[trigger] before[i].1 == ob[j]->Some_0.key@;
                                assert(o[i] == before[i]);
                            } else {
                                assert(o[o.len() - 1].1 == ob[j]->Some_0.key@);
                            }
                        }
                    }
                },
                _ => {},
            }
        }
        proof {
            let o = pairs(out@);
            assert forall|w: Seq<u8>| #[trigger] counts.contains_key(w) implies exists|i: int|
                0 <= i < o.len() && #[trigger] o[i].1 == w by {
                let j = choose|j: int| 0 <= j < ob.len() && #[trigger] ob[j] is Some && ob[j]->Some_0.key@ == w;
            }
        }
        out
    }

    /// Number of distinct words stored.
    pub fn len(&self) -> (n: usize)
        requires
            self.wf(),
        ensures
            n == self@.len(),
    {
        self.length
    }

    /// Number of slots.
    pub fn capacity(&self) -> (n: usize)
        requires
            self.wf(),
        ensures
            n == self.spec_capacity(),
    {
        self.capacity
    }
}

} // verus!
