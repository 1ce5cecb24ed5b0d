//! A typed arena that carves contiguous runs of fixed-size blocks out of one
//! growable backing buffer and coalesces neighbouring free runs on release.

use std::collections::{BTreeSet, HashSet};
use vstd::prelude::*;

verus! {

broadcast use vstd::std_specs::btree::group_btree_axioms;

/// Capability that names one allocated run. Only the storage mints keys, and a
/// key cannot be copied: it is handed over to obtain a view or to free the run.
#[derive(Debug)]
pub struct BlockKey {
    idx: usize,
    blocks: usize,
    generation: usize,
}

impl BlockKey {
    /// First block of the run.
    pub closed spec fn start(&self) -> int {
        self.idx as int
    }

    /// Number of blocks in the run.
    pub closed spec fn span(&self) -> int {
        self.blocks as int
    }

    /// Generation of the storage when the key was minted.
    pub closed spec fn issued_in(&self) -> int {
        self.generation as int
    }

    pub fn idx(&self) -> (r: usize)
        ensures
            r == self.start(),
    {
        self.idx
    }

    pub fn blocks(&self) -> (r: usize)
        ensures
            r == self.span(),
    {
        self.blocks
    }

    pub fn generation(&self) -> (r: usize)
        ensures
            r == self.issued_in(),
    {
        self.generation
    }
}

/// Bookkeeping record of a run handed out since the last reset.
#[derive(Debug, Clone, Copy, Hash, PartialEq, Eq)]
struct InternalBlockKey {
    idx: usize,
    blocks: usize,
}

/// Per-block tag of the backing store.
#[derive(Debug, Clone, Copy, PartialEq, Eq, Structural)]
pub enum BlockIdx {
    /// First block of an allocated run, with the number of live elements of the run.
    OwnedStart(usize),
    /// Continuation block of an allocated run, with the run's first block.
    Owned(usize),
    /// First block of a free run, with the number of blocks of the run.
    EmptyStart(usize),
    /// Continuation block of a free run, with the run's first block.
    Empty(usize),
}

impl BlockIdx {
    /// Value carried by the tag, whatever its kind.
    pub open spec fn payload(self) -> int {
        match self {
            BlockIdx::OwnedStart(v) => v as int,
            BlockIdx::Owned(v) => v as int,
            BlockIdx::EmptyStart(v) => v as int,
            BlockIdx::Empty(v) => v as int,
        }
    }

    pub fn is_empty_start(&self) -> (r: bool)
        ensures
            r == (*self is EmptyStart),
    {
        match self {
            BlockIdx::EmptyStart(_) => true,
            _ => false,
        }
    }

    pub fn get_empty_count(&self) -> (r: usize)
        requires
            *self is EmptyStart,
        ensures
            r == self.payload(),
    {
        match self {
            BlockIdx::EmptyStart(size) => *size,
            _ => vstd::pervasive::unreached(),
        }
    }

    pub fn get_allocated_count(&self) -> (r: usize)
        requires
            *self is OwnedStart,
        ensures
            r == self.payload(),
    {
        match self {
            BlockIdx::OwnedStart(size) => *size,
            _ => vstd::pervasive::unreached(),
        }
    }

    pub fn is_owned_start(&self) -> (r: bool)
        ensures
            r == (*self is OwnedStart),
    {
        match self {
            BlockIdx::OwnedStart(_) => true,
            _ => false,
        }
    }

    /// Continuation block of the allocated run that starts at `start`.
    fn is_owned_by(&self, start: usize) -> (r: bool)
        ensures
            r == (*self == BlockIdx::Owned(start)),
    {
        match self {
            BlockIdx::Owned(q) => *q == start,
            _ => false,
        }
    }

    pub fn get_allocated_count_mut(&mut self) -> (r: &mut usize)
        requires
            *old(self) is OwnedStart,
        ensures
            *r == old(self).payload(),
            *final(self) == BlockIdx::OwnedStart(*final(r)),
    {
        match self {
            BlockIdx::OwnedStart(size) => size,
            _ => vstd::pervasive::unreached(),
        }
    }
}

/// Typed storage whose elements live in runs of `block_size`-element blocks.
pub struct BlockStorage<T> {
    block_size: usize,
    generation: usize,
    active_keys: HashSet<InternalBlockKey>,
    available_blocks: BTreeSet<usize>,
    blocks: Vec<BlockIdx>,
    data: Vec<Option<T>>,
    spans: Ghost<Map<int, int>>,
}

/// `a <= b` scales by a non-negative factor.
proof fn lemma_mul_mono(a: int, b: int, c: int)
    requires
        a <= b,
        0 <= c,
    ensures
        a * c <= b * c,
{
    assert(a * c <= b * c) by (nonlinear_arith)
        requires
            a <= b,
            0 <= c,
    ;
}

/// Multiplication distributes over a sum of block counts.
proof fn lemma_mul_distr(a: int, b: int, c: int)
    ensures
        (a + b) * c == a * c + b * c,
{
    assert((a + b) * c == a * c + b * c) by (nonlinear_arith);
}

/// Appends `count` empty slots.
fn push_empty_slots<T>(data: &mut Vec<Option<T>>, count: usize)
    requires
        old(data)@.len() + count <= usize::MAX,
    ensures
        final(data)@.len() == old(data)@.len() + count,
        forall|s: int| 0 <= s < old(data)@.len() ==> #[trigger] final(data)@[s] == old(data)@[s],
        forall|s: int| old(data)@.len() <= s < final(data)@.len() ==> #[trigger] final(data)@[s] is None,
{
    let mut j: usize = 0;
    while j < count
        invariant
            0 <= j <= count,
            old(data)@.len() + count <= usize::MAX,
            data@.len() == old(data)@.len() + j,
            forall|s: int| 0 <= s < old(data)@.len() ==> #[trigger] data@[s] == old(data)@[s],
            forall|s: int| old(data)@.len() <= s < data@.len() ==> #[trigger] data@[s] is None,
        decreases count - j,
    {
        data.push(None);
        j += 1;
    }
}

impl<T> BlockStorage<T> {
    /// Elements per block.
    pub closed spec fn bs(&self) -> int {
        self.block_size as int
    }

    /// Current generation; keys minted under another one are stale.
    pub closed spec fn gen(&self) -> int {
        self.generation as int
    }

    /// The block tags, one per block of the backing store.
    pub closed spec fn tags(&self) -> Seq<BlockIdx> {
        self.blocks@
    }

    /// The free-run index: starting blocks of the free runs.
    pub closed spec fn free_index(&self) -> Set<usize> {
        self.available_blocks@
    }

    /// The element slots of the backing store.
    pub closed spec fn slots(&self) -> Seq<Option<T>> {
        self.data@
    }

    /// Number of blocks of the allocated run that starts at `p`.
    pub closed spec fn span_of(&self, p: int) -> int {
        self.spans@[p]
    }

    /// Number of blocks of the run (allocated or free) that starts at `p`; 0 elsewhere.
    pub open spec fn run_len(&self, p: int) -> int {
        match self.tags()[p] {
            BlockIdx::OwnedStart(_) => self.span_of(p),
            BlockIdx::EmptyStart(k) => k as int,
            _ => 0,
        }
    }

    /// Block `p` starts an allocated run.
    pub open spec fn owns(&self, p: int) -> bool {
        0 <= p < self.tags().len() && self.tags()[p] is OwnedStart
    }

    /// Block `p` starts a free run.
    pub open spec fn is_free_start(&self, p: int) -> bool {
        0 <= p < self.tags().len() && self.tags()[p] is EmptyStart
    }

    /// Live elements of the allocated run that starts at `p`.
    pub open spec fn count_of(&self, p: int) -> int {
        self.tags()[p].payload()
    }

    /// The tag at block `p` fits the run it belongs to.
    pub closed spec fn tag_ok(&self, p: int) -> bool {
        let n = self.blocks@.len();
        match self.blocks@[p] {
            BlockIdx::OwnedStart(c) => {
                &&& 1 <= self.span_of(p)
                &&& p + self.span_of(p) <= n
                &&& c <= self.span_of(p) * self.bs()
                &&& forall|j: int|
                    p < j < p + self.span_of(p) ==> #[trigger] self.blocks@[j] == BlockIdx::Owned(
                        p as usize,
                    )
            },
            BlockIdx::Owned(q) => {
                &&& q < p
                &&& self.blocks@[q as int] is OwnedStart
                &&& p < q + self.span_of(q as int)
            },
            BlockIdx::EmptyStart(k) => {
                &&& 1 <= k
                &&& p + k <= n
                &&& forall|j: int|
                    p < j < p + k ==> #[trigger] self.blocks@[j] == BlockIdx::Empty(p as usize)
                &&& p + k < n ==> !(self.blocks@[p + k] is EmptyStart)
            },
            BlockIdx::Empty(q) => {
                &&& q < p
                &&& self.blocks@[q as int] is EmptyStart
                &&& p < q + self.blocks@[q as int].payload()
            },
        }
    }

    /// Slot `s`, when it lies in the run starting at block `p`, holds an element
    /// exactly when it is in the live prefix of an allocated run.
    pub closed spec fn slot_ok(&self, p: int, s: int) -> bool {
        (0 <= p < self.blocks@.len() && p * self.bs() <= s < (p + self.run_len(p)) * self.bs()) ==> (
        self.data@[s] is Some <==> (self.blocks@[p] is OwnedStart && s < p * self.bs()
            + self.count_of(p)))
    }

    /// Well formed: the internal invariant, and the layout facts it gives.
    pub open spec fn wf(&self) -> bool {
        self.inv() && self.shape()
    }

    /// The layout of the store in terms of its tags, its free-run index and
    /// its slots.
    pub open spec fn shape(&self) -> bool {
        let n = self.tags().len();
        &&& self.bs() > 0
        &&& n <= usize::MAX
        &&& self.slots().len() == n * self.bs()
        &&& self.slots().len() <= usize::MAX
        &&& forall|i: usize| #[trigger]
            self.free_index().contains(i) <==> self.is_free_start(i as int)
        &&& forall|p: int|
            #[trigger] self.owns(p) ==> {
                &&& 1 <= self.span_of(p)
                &&& p + self.span_of(p) <= n
                &&& self.count_of(p) <= self.span_of(p) * self.bs()
                &&& forall|j: int|
                    p < j < p + self.span_of(p) ==> #[trigger] self.tags()[j] == BlockIdx::Owned(
                        p as usize,
                    )
            }
        &&& forall|p: int|
            #[trigger] self.is_free_start(p) ==> {
                &&& self.free_index().contains(p as usize)
                &&& 1 <= self.run_len(p)
                &&& p + self.run_len(p) <= n
                &&& forall|j: int|
                    p < j < p + self.run_len(p) ==> #[trigger] self.tags()[j] == BlockIdx::Empty(
                        p as usize,
                    )
                &&& p + self.run_len(p) < n ==> self.owns(p + self.run_len(p))
            }
        &&& forall|j: int|
            0 <= j < n ==> match #[trigger] self.tags()[j] {
                BlockIdx::Owned(q) => self.owns(q as int) && q < j < q + self.span_of(q as int),
                BlockIdx::Empty(q) => self.is_free_start(q as int) && q < j < q + self.run_len(
                    q as int,
                ),
                _ => true,
            }
        &&& forall|i: int|
            0 <= i && i + 1 < n && (self.tags()[i] is EmptyStart || self.tags()[i] is Empty)
                ==> !(#[trigger] self.tags()[i + 1] is EmptyStart)
    }

    /// The invariant in the form the proofs use.
    pub closed spec fn inv(&self) -> bool {
        &&& self.block_size > 0
        &&& self.data@.len() == self.blocks@.len() * self.bs()
        &&& self.data@.len() <= usize::MAX
        &&& forall|p: int| 0 <= p < self.blocks@.len() ==> #[trigger] self.tag_ok(p)
        &&& forall|p: int, s: int| #[trigger] self.slot_ok(p, s)
        &&& forall|i: usize|
            #[trigger] self.free_index().contains(i) <==> self.is_free_start(i as int)
    }

    /// `key` names a live run of this storage.
    pub open spec fn key_valid(&self, key: &BlockKey) -> bool {
        &&& key.issued_in() == self.gen()
        &&& self.owns(key.start())
        &&& self.span_of(key.start()) == key.span()
    }

    /// Number of blocks a run of `size` elements takes.
    pub open spec fn required(&self, size: int) -> int {
        size / self.bs() + if size % self.bs() > 0 {
            1int
        } else {
            0int
        }
    }

    /// Growing the store by a run for `size` elements stays within machine limits.
    pub open spec fn fits(&self, size: int) -> bool {
        (self.tags().len() + self.required(size)) * self.bs() <= usize::MAX
    }

    /// Some free run is large enough for `req` blocks.
    pub open spec fn has_fit(&self, req: int) -> bool {
        exists|q: int| #[trigger] self.is_free_start(q) && self.run_len(q) >= req
    }

    /// Free run `p` is large enough for `req` blocks, no other large-enough run
    /// leaves less surplus, and none with equal surplus starts earlier.
    pub open spec fn is_best_fit(&self, p: int, req: int) -> bool {
        &&& self.is_free_start(p)
        &&& self.run_len(p) >= req
        &&& forall|q: int|
            #![trigger self.is_free_start(q)]
            self.is_free_start(q) && self.run_len(q) >= req ==> self.run_len(p) < self.run_len(q)
                || (self.run_len(p) == self.run_len(q) && p <= q)
    }

    /// Block where a run appended at the end begins: the start of the free run
    /// at the tail if there is one, else the end of the store.
    pub open spec fn tail_start(&self) -> int {
        let n = self.tags().len() as int;
        if n == 0 {
            0
        } else {
            match self.tags()[n - 1] {
                BlockIdx::EmptyStart(_) => n - 1,
                BlockIdx::Empty(q) => q as int,
                _ => n,
            }
        }
    }

    /// Elements of the allocated run that starts at `p`, in order.
    pub open spec fn run_items(&self, p: int) -> Seq<T> {
        Seq::new(self.count_of(p) as nat, |e: int| self.slots()[p * self.bs() + e]->0)
    }

    /// Creates an empty storage whose blocks hold `block_size` elements each.
    pub fn new(block_size: usize) -> (r: Self)
        requires
            block_size > 0,
        ensures
            r.wf(),
            r.bs() == block_size,
            r.gen() == 0,
            r.tags().len() == 0,
            r.free_index().is_empty(),
    {
        let r = BlockStorage {
            block_size,
            generation: 0,
            active_keys: HashSet::new(),
            available_blocks: BTreeSet::new(),
            blocks: Vec::new(),
            data: Vec::new(),
            spans: Ghost(Map::empty()),
        };
        proof {
            assert(r.data@.len() == r.blocks@.len() * r.bs()) by (nonlinear_arith)
                requires
                    r.data@.len() == 0,
                    r.blocks@.len() == 0,
            ;
            assert forall|p: int, x: int| #[trigger] r.slot_ok(p, x) by {}
            Self::lemma_shape(&r);
        }
        r
    }

    /// Overwriting an occupied slot with another element keeps the store well
    /// formed.
    proof fn lemma_slot_overwrite(a: Self, x: int)
        requires
            a.wf(),
            0 <= x < a.data@.len(),
            a.data@[x] is Some,
        ensures
            forall|b: Self|
                #![trigger b.wf()]
                b.block_size == a.block_size && b.blocks == a.blocks && b.spans == a.spans
                    && b.available_blocks == a.available_blocks && b.generation == a.generation
                    && b.data@.len() == a.data@.len() && b.data@[x] is Some && (forall|y: int|
                    0 <= y < a.data@.len() && y != x ==> b.data@[y] == a.data@[y]) ==> b.wf(),
    {
        assert forall|b: Self|
            #![trigger b.wf()]
            b.block_size == a.block_size && b.blocks == a.blocks && b.spans == a.spans
                && b.available_blocks == a.available_blocks && b.generation == a.generation
                && b.data@.len() == a.data@.len() && b.data@[x] is Some && (forall|y: int|
                0 <= y < a.data@.len() && y != x ==> b.data@[y] == a.data@[y]) implies b.wf() by {
            assert forall|p: int| 0 <= p < b.blocks@.len() implies #[trigger] b.tag_ok(p) by {
                assert(a.tag_ok(p));
            }
            assert forall|p: int, y: int| #[trigger] b.slot_ok(p, y) by {
                assert(a.slot_ok(p, y));
                if 0 <= p < a.blocks@.len() {
                    assert(a.tag_ok(p));
                    lemma_mul_mono(p + a.run_len(p), a.blocks@.len() as int, a.bs());
                    lemma_mul_mono(0, p, a.bs());
                }
            }
            assert forall|i: usize| #[trigger]
                b.free_index().contains(i) <==> b.is_free_start(i as int) by {
                assert(a.free_index().contains(i) <==> a.is_free_start(i as int));
            }
            Self::lemma_shape(&b);
        }
    }

    /// The internal invariant gives the layout facts.
    proof fn lemma_shape(s: &Self)
        requires
            s.inv(),
        ensures
            s.shape(),
    {
        let n = s.blocks@.len() as int;
        assert(n <= usize::MAX) by (nonlinear_arith)
            requires
                s.data@.len() == n * s.bs(),
                s.data@.len() <= usize::MAX,
                s.bs() > 0,
                n >= 0,
        ;
        assert forall|p: int| #[trigger] s.owns(p) implies {
            &&& 1 <= s.span_of(p)
            &&& p + s.span_of(p) <= n
            &&& s.count_of(p) <= s.span_of(p) * s.bs()
            &&& forall|j: int|
                p < j < p + s.span_of(p) ==> #[trigger] s.tags()[j] == BlockIdx::Owned(p as usize)
        } by {
            assert(s.tag_ok(p));
        }
        assert forall|p: int| #[trigger] s.is_free_start(p) implies {
            &&& 1 <= s.run_len(p)
            &&& p + s.run_len(p) <= n
            &&& s.free_index().contains(p as usize)
            &&& forall|j: int|
                p < j < p + s.run_len(p) ==> #[trigger] s.tags()[j] == BlockIdx::Empty(p as usize)
            &&& p + s.run_len(p) < n ==> s.owns(p + s.run_len(p))
        } by {
            assert(s.tag_ok(p));
            assert(s.free_index().contains(p as usize) <==> s.is_free_start((p as usize) as int));
            let e = p + s.run_len(p);
            if e < n {
                assert(s.tag_ok(e));
                match s.blocks@[e] {
                    BlockIdx::Empty(q) => {
                        assert(s.tag_ok(q as int));
                        if q < p {
                            assert(s.blocks@[p] == BlockIdx::Empty(q));
                        } else if q > p {
                            assert(s.blocks@[q as int] == BlockIdx::Empty(p as usize));
                        }
                    },
                    BlockIdx::Owned(q) => {
                        assert(s.tag_ok(q as int));
                        if q < p {
                            assert(s.blocks@[p] == BlockIdx::Owned(q));
                        } else if q > p {
                            assert(s.blocks@[q as int] == BlockIdx::Empty(p as usize));
                        }
                    },
                    _ => {},
                }
            }
        }
        assert forall|j: int| 0 <= j < n implies match #[trigger] s.tags()[j] {
            BlockIdx::Owned(q) => s.owns(q as int) && q < j < q + s.span_of(q as int),
            BlockIdx::Empty(q) => s.is_free_start(q as int) && q < j < q + s.run_len(q as int),
            _ => true,
        } by {
            assert(s.tag_ok(j));
        }
        assert forall|i: int|
            0 <= i && i + 1 < n && (s.tags()[i] is EmptyStart || s.tags()[i] is Empty) implies !(
            #[trigger] s.tags()[i + 1] is EmptyStart) by {
            assert(s.tag_ok(i));
            assert(s.tag_ok(i + 1));
            if let BlockIdx::Empty(q) = s.blocks@[i] {
                assert(s.tag_ok(q as int));
            }
        }
    }

    /// Well-formedness does not depend on the record of handed-out runs.
    proof fn lemma_wf_ignores_records(a: Self, b: Self)
        requires
            a.inv(),
            a.block_size == b.block_size,
            a.blocks == b.blocks,
            a.data == b.data,
            a.spans == b.spans,
            a.available_blocks == b.available_blocks,
        ensures
            b.inv(),
    {
        assert forall|p: int| 0 <= p < b.blocks@.len() implies #[trigger] b.tag_ok(p) by {
            assert(a.tag_ok(p));
        }
        assert forall|p: int, s: int| #[trigger] b.slot_ok(p, s) by {
            assert(a.slot_ok(p, s));
        }
        assert forall|i: usize| #[trigger]
            b.free_index().contains(i) <==> b.is_free_start(i as int) by {
            assert(a.free_index().contains(i) <==> a.is_free_start(i as int));
        }
    }

    /// The tags, slots and index of `b` are those of `a` once the run starting
    /// at `ki` has been freed and merged into the free region `[ms, me)`.
    pub closed spec fn merged_from(b: Self, a: Self, ki: int, ms: int, me: int) -> bool {
        let ni = ki + a.span_of(ki);
        &&& a.inv()
        &&& a.blocks@.len() <= usize::MAX
        &&& a.owns(ki)
        &&& ms == a.merged_start(ki)
        &&& me == a.merged_end(ni)
        &&& b.block_size == a.block_size
        &&& b.spans == a.spans
        &&& b.blocks@.len() == a.blocks@.len()
        &&& b.blocks@[ms] == BlockIdx::EmptyStart((me - ms) as usize)
        &&& forall|j: int| ms < j < me ==> #[trigger] b.blocks@[j] == BlockIdx::Empty(ms as usize)
        &&& forall|j: int|
            0 <= j < a.blocks@.len() && !(ms <= j < me) ==> #[trigger] b.blocks@[j] == a.blocks@[j]
        &&& b.data@.len() == a.data@.len()
        &&& forall|s: int|
            ki * a.bs() <= s < ki * a.bs() + a.count_of(ki) ==> #[trigger] b.data@[s] is None
        &&& forall|s: int|
            0 <= s < a.data@.len() && !(ki * a.bs() <= s < ki * a.bs() + a.count_of(ki))
                ==> #[trigger] b.data@[s] == a.data@[s]
        &&& b.available_blocks@ == a.available_blocks@.remove(ni as usize).remove(
            ms as usize,
        ).insert(ms as usize)
    }

    /// Every tag of the merged store fits its run.
    proof fn lemma_merged_tags(a: Self, b: Self, ki: int, ms: int, me: int)
        requires
            Self::merged_from(b, a, ki, ms, me),
        ensures
            forall|q: int| 0 <= q < b.blocks@.len() ==> #[trigger] b.tag_ok(q),
    {
        let bsi = a.bs();
        let ni = ki + a.span_of(ki);
        let n = a.blocks@.len() as int;
        assert(a.tag_ok(ki));
        if ki > 0 {
            assert(a.tag_ok(ki - 1));
            if a.blocks@[ki - 1] is Empty || a.blocks@[ki - 1] is EmptyStart {
                assert(a.tag_ok(ms));
                if ms + a.run_len(ms) > ki {
                    assert(a.blocks@[ki] == BlockIdx::Empty(ms as usize));
                }
                assert(ms + a.run_len(ms) == ki);
            }
        }
        if ni < n && a.blocks@[ni] is EmptyStart {
            assert(a.tag_ok(ni));
        }
        lemma_mul_distr(ki, a.span_of(ki), bsi);
        lemma_mul_mono(0, ms, bsi);
        lemma_mul_mono(me, n, bsi);
        assert(ms == a.merged_start(ki));
        assert(me == a.merged_end(ni));
        lemma_mul_mono(ms, ki, bsi);
        lemma_mul_mono(ni, me, bsi);
        assert forall|j: int| 0 <= j < n && !(ms <= j < me) implies #[trigger] b.blocks@[j]
            == a.blocks@[j] by {}
        assert forall|q: int| 0 <= q < n implies #[trigger] b.tag_ok(q) by {
            if !(ms <= q < me) {
                assert(a.tag_ok(q));
                match a.blocks@[q] {
                    BlockIdx::OwnedStart(c) => {
                        if q < ms && q + a.span_of(q) > ms {
                            assert(a.tag_ok(ms));
                            assert(a.blocks@[ms] == BlockIdx::Owned(q as usize));
                        }
                        assert forall|j: int| q < j < q + b.span_of(q) implies #[trigger]
                            b.blocks@[j] == BlockIdx::Owned(q as usize) by {
                            assert(a.blocks@[j] == BlockIdx::Owned(q as usize));
                        }
                    },
                    BlockIdx::Owned(r) => {
                        assert(a.tag_ok(r as int));
                        if ms <= r < me {
                            if ki < r < ni {
                                assert(a.blocks@[r as int] == BlockIdx::Owned(ki as usize));
                            }
                            if ms <= r < ki {
                                assert(a.blocks@[r as int] == BlockIdx::Empty(ms as usize) || r == ms);
                            }
                            if ni <= r < me {
                                assert(a.blocks@[r as int] == BlockIdx::Empty(ni as usize) || r == ni);
                            }
                            if r == ki {
                                assert(a.blocks@[q] == BlockIdx::Owned(ki as usize));
                            }
                        }
                    },
                    BlockIdx::EmptyStart(kk) => {
                        if q < ms && q + kk > ms {
                            assert(a.tag_ok(ms));
                            assert(a.blocks@[ms] == BlockIdx::Empty(q as usize));
                        }
                        if q < ms && q + kk == ms && ms == ki && ki > 0 {
                            assert(a.blocks@[ki - 1] == BlockIdx::Empty(q as usize) || q == ki - 1);
                        }
                        assert forall|j: int| q < j < q + kk implies #[trigger] b.blocks@[j]
                            == BlockIdx::Empty(q as usize) by {
                            assert(a.blocks@[j] == BlockIdx::Empty(q as usize));
                        }
                    },
                    BlockIdx::Empty(r) => {
                        assert(a.tag_ok(r as int));
                        if ms <= r < me {
                            if ki <= r < ni {
                                assert(a.tag_ok(ki));
                                assert(a.blocks@[r as int] == BlockIdx::Owned(ki as usize) || r == ki);
                            }
                            if ms < r < ki {
                                assert(a.blocks@[r as int] == BlockIdx::Empty(ms as usize));
                            }
                            if ni < r < me {
                                assert(a.blocks@[r as int] == BlockIdx::Empty(ni as usize));
                            }
                        }
                    },
                }
            } else if q == ms && me < n {
                if ni < n && a.blocks@[ni] is EmptyStart {
                    assert(a.tag_ok(ni));
                } else {
                    assert(me == ni);
                }
            }
        }
    }

    /// Every slot of the merged store is occupied as its run says.
    proof fn lemma_merged_slots(a: Self, b: Self, ki: int, ms: int, me: int)
        requires
            Self::merged_from(b, a, ki, ms, me),
        ensures
            forall|q: int, s: int| #[trigger] b.slot_ok(q, s),
            forall|s: int|
                ki * a.bs() <= s < (ki + a.span_of(ki)) * a.bs() ==> #[trigger] b.data@[s] is None,
    {
        let bsi = a.bs();
        let ni = ki + a.span_of(ki);
        let n = a.blocks@.len() as int;
        assert(a.tag_ok(ki));
        if ki > 0 {
            assert(a.tag_ok(ki - 1));
            if a.blocks@[ki - 1] is Empty || a.blocks@[ki - 1] is EmptyStart {
                assert(a.tag_ok(ms));
                if ms + a.run_len(ms) > ki {
                    assert(a.blocks@[ki] == BlockIdx::Empty(ms as usize));
                }
                assert(ms + a.run_len(ms) == ki);
            }
        }
        if ni < n && a.blocks@[ni] is EmptyStart {
            assert(a.tag_ok(ni));
        }
        lemma_mul_distr(ki, a.span_of(ki), bsi);
        lemma_mul_mono(0, ms, bsi);
        lemma_mul_mono(me, n, bsi);
        assert(ms == a.merged_start(ki));
        assert(me == a.merged_end(ni));
        lemma_mul_mono(ms, ki, bsi);
        lemma_mul_mono(ni, me, bsi);
        assert forall|q: int, s: int| #[trigger] b.slot_ok(q, s) by {
            assert(a.slot_ok(q, s));
            if q == ms {
                if ms * bsi <= s < me * bsi {
                    if s < ki * bsi {
                        assert(a.slot_ok(ms, s));
                    } else if s < ni * bsi {
                        assert(a.slot_ok(ki, s));
                    } else {
                        assert(a.tag_ok(ni));
                        assert(a.slot_ok(ni, s));
                    }
                }
                assert(b.slot_ok(q, s));
            } else if 0 <= q < n && !(ms <= q < me) {
                assert(a.tag_ok(q));
                assert(a.tag_ok(ki));
                if q * bsi <= s < (q + b.run_len(q)) * bsi {
                    if q < ms {
                        if q + a.run_len(q) > ms {
                            assert(a.tag_ok(ms));
                            assert(a.blocks@[ms] == BlockIdx::Owned(q as usize)
                                || a.blocks@[ms] == BlockIdx::Empty(q as usize));
                        }
                        lemma_mul_mono(q + a.run_len(q), ms, bsi);
                    } else {
                        lemma_mul_mono(me, q, bsi);
                    }
                    lemma_mul_mono(q + a.run_len(q), n, bsi);
                }
                assert(b.slot_ok(q, s));
            } else {
                assert(b.slot_ok(q, s));
            }
        }
        assert forall|s: int| ki * bsi <= s < (ki + a.span_of(ki)) * bsi implies #[trigger] b.data@[s] is None by {
            assert(a.slot_ok(ki, s));
        }
    }

    /// The free-run index matches the tags, and the other runs are kept.
    proof fn lemma_merged_rest(a: Self, b: Self, ki: int, ms: int, me: int)
        requires
            Self::merged_from(b, a, ki, ms, me),
        ensures
            forall|i: usize| #[trigger] b.free_index().contains(i) <==> b.is_free_start(i as int),
            forall|p: int|
                #[trigger] a.owns(p) && p != ki ==> b.owns(p) && b.span_of(p) == a.span_of(p)
                    && b.count_of(p) == a.count_of(p) && b.run_items(p) == a.run_items(p),
    {
        let bsi = a.bs();
        let ni = ki + a.span_of(ki);
        let n = a.blocks@.len() as int;
        assert(a.tag_ok(ki));
        if ki > 0 {
            assert(a.tag_ok(ki - 1));
            if a.blocks@[ki - 1] is Empty || a.blocks@[ki - 1] is EmptyStart {
                assert(a.tag_ok(ms));
                if ms + a.run_len(ms) > ki {
                    assert(a.blocks@[ki] == BlockIdx::Empty(ms as usize));
                }
                assert(ms + a.run_len(ms) == ki);
            }
        }
        if ni < n && a.blocks@[ni] is EmptyStart {
            assert(a.tag_ok(ni));
        }
        lemma_mul_distr(ki, a.span_of(ki), bsi);
        lemma_mul_mono(0, ms, bsi);
        lemma_mul_mono(me, n, bsi);
        assert(ms == a.merged_start(ki));
        assert(me == a.merged_end(ni));
        lemma_mul_mono(ms, ki, bsi);
        lemma_mul_mono(ni, me, bsi);
        assert forall|q: usize| #[trigger]
            b.free_index().contains(q) <==> b.is_free_start(q as int) by {
            if a.free_index().contains(q) {
                assert(a.is_free_start(q as int));
            }
            if ms <= q < me && q != ms {
                if ki <= q < ni {
                    assert(a.tag_ok(ki));
                    assert(a.blocks@[q as int] == BlockIdx::Owned(ki as usize) || q == ki);
                }
                if ms < q < ki {
                    assert(a.tag_ok(ms));
                    assert(a.blocks@[q as int] == BlockIdx::Empty(ms as usize));
                }
                if ni < q < me {
                    assert(a.tag_ok(ni));
                    assert(a.blocks@[q as int] == BlockIdx::Empty(ni as usize));
                }
            }
        }
        assert forall|p: int| #[trigger] a.owns(p) && p != ki implies b.owns(p)
            && b.span_of(p) == a.span_of(p) && b.count_of(p) == a.count_of(p)
            && b.run_items(p) == a.run_items(p) by {
            assert(a.tag_ok(p));
            assert(a.tag_ok(ki));
            if ms <= p < me {
                if ki < p < ni {
                    assert(a.blocks@[p] == BlockIdx::Owned(ki as usize));
                }
                if ms <= p < ki {
                    assert(a.tag_ok(ms));
                    assert(a.blocks@[p] == BlockIdx::Empty(ms as usize) || p == ms);
                }
                if ni <= p < me {
                    assert(a.tag_ok(ni));
                    assert(a.blocks@[p] == BlockIdx::Empty(ni as usize) || p == ni);
                }
            }
            if p < ki {
                if p + a.span_of(p) > ki {
                    assert(a.blocks@[ki] == BlockIdx::Owned(p as usize));
                }
                lemma_mul_mono(p + a.span_of(p), ki, bsi);
            } else {
                lemma_mul_mono(ni, p, bsi);
            }
            lemma_mul_distr(p, a.span_of(p), bsi);
            lemma_mul_mono(p + a.span_of(p), n, bsi);
            lemma_mul_mono(0, p, bsi);
            assert(b.run_items(p) =~= a.run_items(p));
        }
    }

    proof fn lemma_merged(a: Self, b: Self, ki: int, ms: int, me: int)
        requires
            Self::merged_from(b, a, ki, ms, me),
        ensures
            b.inv(),
            forall|p: int|
                #[trigger] a.owns(p) && p != ki ==> b.owns(p) && b.span_of(p) == a.span_of(p)
                    && b.count_of(p) == a.count_of(p) && b.run_items(p) == a.run_items(p),
            forall|s: int|
                ki * a.bs() <= s < (ki + a.span_of(ki)) * a.bs() ==> #[trigger] b.data@[s] is None,
    {
        Self::lemma_merged_tags(a, b, ki, ms, me);
        Self::lemma_merged_slots(a, b, ki, ms, me);
        Self::lemma_merged_rest(a, b, ki, ms, me);
    }

    /// Drops every live element and empties the backing store.
    fn clear_data(&mut self)
        ensures
            final(self).blocks@.len() == 0,
            final(self).data@.len() == 0,
            final(self).block_size == old(self).block_size,
            final(self).generation == old(self).generation,
            final(self).available_blocks == old(self).available_blocks,
    {
        self.blocks.clear();
        self.data.clear();
    }

    /// Frees every run, drops every live element and invalidates every key
    /// minted so far.
    pub fn clear(&mut self)
        requires
            old(self).wf(),
            old(self).gen() < usize::MAX,
        ensures
            final(self).wf(),
            final(self).gen() == old(self).gen() + 1,
            final(self).bs() == old(self).bs(),
            final(self).tags().len() == 0,
            final(self).slots().len() == 0,
            final(self).free_index().is_empty(),
    {
        self.generation += 1;
        self.clear_data();
        self.active_keys.clear();
        self.available_blocks.clear();
        assert(self.data@.len() == self.blocks@.len() * self.bs()) by (nonlinear_arith)
            requires
                self.data@.len() == 0,
                self.blocks@.len() == 0,
        ;
        assert forall|p: int, s: int| #[trigger] self.slot_ok(p, s) by {}
        assert forall|i: usize| #[trigger]
            self.free_index().contains(i) <==> self.is_free_start(i as int) by {}
        proof {
            Self::lemma_shape(&*self);
        }
    }

    /// Number of live elements of the run that `key` names, if the key is valid.
    pub fn get_len(&self, key: &BlockKey) -> (r: Option<usize>)
        requires
            self.wf(),
        ensures
            r == (if self.key_valid(key) {
                Some(self.count_of(key.start()) as usize)
            } else {
                None
            }),
    {
        if !self.check_key(key) {
            return None;
        }
        Some(self.blocks[key.idx].get_allocated_count())
    }

    /// Tests at run time whether `key` names a live run of this storage.
    fn check_key(&self, key: &BlockKey) -> (r: bool)
        requires
            self.wf(),
        ensures
            r == self.key_valid(key),
    {
        if key.generation != self.generation || key.idx >= self.blocks.len() {
            return false;
        }
        if !self.blocks[key.idx].is_owned_start() {
            return false;
        }
        proof {
            assert(self.tag_ok(key.start()));
        }
        let n = self.blocks.len();
        if key.blocks == 0 || key.blocks > n - key.idx {
            return false;
        }
        let last = key.idx + key.blocks - 1;
        if last > key.idx && !self.blocks[last].is_owned_by(key.idx) {
            return false;
        }
        let after = key.idx + key.blocks;
        if after < n && self.blocks[after].is_owned_by(key.idx) {
            proof {
                assert(self.tag_ok(after as int));
            }
            return false;
        }
        proof {
            let p = key.start();
            let sp = self.span_of(p);
            if sp < key.span() {
                assert(self.tag_ok(last as int));
            }
            if sp > key.span() {
                assert(self.blocks@[after as int] == BlockIdx::Owned(p as usize));
            }
        }
        true
    }

    /// The free-run index, ascending.
    pub fn available_blocks(&self) -> (r: &BTreeSet<usize>)
        ensures
            r@ == self.free_index(),
    {
        &self.available_blocks
    }

    /// Tag of block `i`, if the store has that many blocks.
    pub fn block_tag(&self, i: usize) -> (r: Option<BlockIdx>)
        ensures
            r == (if i < self.tags().len() {
                Some(self.tags()[i as int])
            } else {
                None
            }),
    {
        if i < self.blocks.len() {
            Some(self.blocks[i])
        } else {
            None
        }
    }

    /// Grows the free run at the tail of the store (or appends a new one) so
    /// that it spans exactly `size` blocks.
    fn push_empty_blocks_until(&mut self, size: usize) -> (r: InternalBlockKey)
        requires
            old(self).inv(),
            size >= 1,
            old(self).tail_start() + size >= old(self).blocks@.len(),
            (old(self).blocks@.len() + size) * old(self).bs() <= usize::MAX,
        ensures
            final(self).inv(),
            r.idx == old(self).tail_start(),
            r.blocks == size,
            final(self).is_free_start(r.idx as int),
            final(self).run_len(r.idx as int) == size,
            final(self).blocks@.len() == r.idx + size,
            forall|j: int| 0 <= j < r.idx ==> #[trigger] final(self).blocks@[j] == old(self).blocks@[j],
            forall|s: int|
                0 <= s < old(self).data@.len() ==> #[trigger] final(self).data@[s] == old(
                    self,
                ).data@[s],
            final(self).spans == old(self).spans,
            final(self).block_size == old(self).block_size,
            final(self).generation == old(self).generation,
            final(self).free_index() == old(self).free_index().insert(r.idx),
    {
        let n = self.blocks.len();
        let bs = self.block_size;
        let (parent, empty_size) = if n == 0 {
            (0usize, 0usize)
        } else {
            match self.blocks[n - 1] {
                BlockIdx::Empty(q) => {
                    proof {
                        assert(self.tag_ok(n - 1));
                        assert(self.tag_ok(q as int));
                    }
                    (q, self.blocks[q].get_empty_count())
                },
                BlockIdx::EmptyStart(c) => {
                    proof {
                        assert(self.tag_ok(n - 1));
                    }
                    (n - 1, c)
                },
                _ => (n, 0),
            }
        };
        assert(parent + empty_size == n);
        assert(parent < n ==> self.blocks@[parent as int] == BlockIdx::EmptyStart(empty_size));
        let mut i: usize = empty_size;
        while i < size
            invariant
                parent == old(self).tail_start(),
                parent + empty_size == n,
                n == old(self).blocks@.len(),
                empty_size <= i <= size,
                bs == self.block_size,
                bs > 0,
                (n + size) * bs <= usize::MAX,
                self.blocks@.len() == parent + i,
                forall|j: int| 0 <= j < n ==> #[trigger] self.blocks@[j] == old(self).blocks@[j],
                forall|j: int|
                    n <= j < parent + i ==> #[trigger] self.blocks@[j] == BlockIdx::Empty(parent),
                self.data@.len() == (parent + i) * bs,
                forall|s: int|
                    0 <= s < n * bs ==> #[trigger] self.data@[s] == old(self).data@[s],
                forall|s: int| n * bs <= s < self.data@.len() ==> #[trigger] self.data@[s] is None,
                self.spans == old(self).spans,
                self.block_size == old(self).block_size,
                self.generation == old(self).generation,
                self.available_blocks == old(self).available_blocks,
                old(self).inv(),
            decreases size - i,
        {
            self.blocks.push(BlockIdx::Empty(parent));
            proof {
                lemma_mul_distr((parent + i) as int, 1, bs as int);
                lemma_mul_mono((parent + i + 1) as int, (n + size) as int, bs as int);
                lemma_mul_mono(n as int, (parent + i) as int, bs as int);
            }
            push_empty_slots(&mut self.data, bs);
            i += 1;
        }
        self.blocks.set(parent, BlockIdx::EmptyStart(size));
        self.available_blocks.insert(parent);
        proof {
            let old_s = old(self);
            lemma_mul_mono(n as int, (parent + size) as int, bs as int);
            lemma_mul_mono((parent + size) as int, (n + size) as int, bs as int);
            assert forall|p: int| 0 <= p < self.blocks@.len() implies #[trigger] self.tag_ok(p) by {
                if p < parent {
                    assert(old_s.tag_ok(p));
                    match old_s.blocks@[p] {
                        BlockIdx::OwnedStart(c) => {
                            if p + old_s.span_of(p) > parent {
                                assert(old_s.blocks@[parent as int] == BlockIdx::Owned(p as usize));
                            }
                            assert(p + old_s.span_of(p) <= n);
                        },
                        BlockIdx::EmptyStart(k) => {
                            if p + k > parent {
                                assert(old_s.blocks@[parent as int] == BlockIdx::Empty(p as usize));
                            }
                            if p + k == n {
                                assert(old_s.blocks@[n - 1] == BlockIdx::Empty(p as usize)
                                    || p == n - 1);
                            }
                        },
                        _ => {},
                    }
                }
            }
            assert forall|p: int, s: int| #[trigger] self.slot_ok(p, s) by {
                if 0 <= p < parent {
                    assert(old_s.tag_ok(p));
                    assert(old_s.slot_ok(p, s));
                    if p * bs <= s < (p + self.run_len(p)) * bs {
                        lemma_mul_mono(p + self.run_len(p), n as int, bs as int);
                    }
                } else if p == parent && p * bs <= s < n * bs {
                    assert(old_s.slot_ok(p, s));
                }
            }
            assert forall|q: usize| #[trigger]
                self.free_index().contains(q) <==> self.is_free_start(q as int) by {
                if old_s.free_index().contains(q) {
                    assert(old_s.is_free_start(q as int));
                }
            }
        }
        InternalBlockKey { idx: parent, blocks: size }
    }

    /// Turns the first `req` blocks of the free run at `p` into an allocated
    /// run with no live element; what is left of the free run stays free.
    fn carve(&mut self, p: usize, req: usize)
        requires
            old(self).inv(),
            old(self).is_free_start(p as int),
            1 <= req <= old(self).run_len(p as int),
        ensures
            final(self).inv(),
            final(self).blocks@.len() == old(self).blocks@.len(),
            final(self).blocks@[p as int] == BlockIdx::OwnedStart(0),
            final(self).span_of(p as int) == req,
            req < old(self).run_len(p as int) ==> final(self).is_free_start(p + req)
                && final(self).run_len(p + req) == old(self).run_len(p as int) - req,
            forall|j: int|
                0 <= j < old(self).blocks@.len() && !(p <= j < p + old(self).run_len(p as int))
                    ==> #[trigger] final(self).blocks@[j] == old(self).blocks@[j],
            forall|q: int| q != p ==> #[trigger] final(self).spans@[q] == old(self).spans@[q],
            final(self).data == old(self).data,
            final(self).block_size == old(self).block_size,
            final(self).generation == old(self).generation,
            final(self).free_index() == (if req < old(self).run_len(p as int) {
                old(self).free_index().remove(p).insert((p + req) as usize)
            } else {
                old(self).free_index().remove(p)
            }),
    {
        let ghost s0 = *old(self);
        proof {
            assert(s0.tag_ok(p as int));
        }
        let k = self.blocks[p].get_empty_count();
        let n = self.blocks.len();
        assert(p + k <= n);
        self.available_blocks.remove(&p);
        if k > req {
            let idx = p + req;
            let cnt = k - req;
            self.blocks.set(idx, BlockIdx::EmptyStart(cnt));
            let mut i: usize = 1;
            while i < cnt
                invariant
                    idx == p + req,
                    cnt == k - req,
                    p + k <= n,
                    n == s0.blocks@.len(),
                    1 <= i <= cnt,
                    self.blocks@.len() == s0.blocks@.len(),
                    self.blocks@[idx as int] == BlockIdx::EmptyStart(cnt),
                    forall|j: int| idx < j < idx + i ==> #[trigger] self.blocks@[j] == BlockIdx::Empty(idx),
                    forall|j: int|
                        0 <= j < s0.blocks@.len() && !(idx <= j < idx + i) ==> #[trigger] self.blocks@[j]
                            == s0.blocks@[j],
                    self.data == s0.data,
                    self.spans == s0.spans,
                    self.block_size == s0.block_size,
                    self.generation == s0.generation,
                    self.available_blocks@ == s0.available_blocks@.remove(p),
                decreases cnt - i,
            {
                self.blocks.set(idx + i, BlockIdx::Empty(idx));
                i += 1;
            }
            self.available_blocks.insert(idx);
        }
        let ghost s1 = *self;
        self.blocks.set(p, BlockIdx::OwnedStart(0));
        let mut i: usize = 1;
        while i < req
            invariant
                1 <= i <= req,
                req <= k,
                p + k <= n,
                n == s0.blocks@.len(),
                s1.blocks@.len() == n,
                self.blocks@.len() == s0.blocks@.len(),
                self.blocks@[p as int] == BlockIdx::OwnedStart(0),
                forall|j: int| p < j < p + i ==> #[trigger] self.blocks@[j] == BlockIdx::Owned(p),
                forall|j: int|
                    0 <= j < s0.blocks@.len() && !(p <= j < p + i) ==> #[trigger] self.blocks@[j]
                        == s1.blocks@[j],
                self.data == s0.data,
                self.spans == s0.spans,
                self.block_size == s0.block_size,
                self.generation == s0.generation,
                self.available_blocks == s1.available_blocks,
            decreases req - i,
        {
            self.blocks.set(p + i, BlockIdx::Owned(p));
            i += 1;
        }
        self.spans = Ghost(self.spans@.insert(p as int, req as int));
        proof {
            let bs = self.bs();
            let n = self.blocks@.len() as int;
            let pk = p + k;
            // What each block's tag became.
            assert forall|j: int| 0 <= j < n implies #[trigger] self.blocks@[j] == (if j == p {
                BlockIdx::OwnedStart(0)
            } else if p < j < p + req {
                BlockIdx::Owned(p)
            } else if j == p + req && req < k {
                BlockIdx::EmptyStart((k - req) as usize)
            } else if p + req < j < pk {
                BlockIdx::Empty((p + req) as usize)
            } else {
                s0.blocks@[j]
            }) by {
                if p < j < pk {
                    assert(s0.blocks@[j] == BlockIdx::Empty(p));
                }
            }
            assert forall|q: int| 0 <= q < n implies #[trigger] self.tag_ok(q) by {
                if !(p <= q < pk) {
                    assert(s0.tag_ok(q));
                    match s0.blocks@[q] {
                        BlockIdx::OwnedStart(c) => {
                            if q < p && q + s0.span_of(q) > p {
                                assert(s0.blocks@[p as int] == BlockIdx::Owned(q as usize));
                            }
                            assert forall|j: int| q < j < q + self.span_of(q) implies #[trigger]
                                self.blocks@[j] == BlockIdx::Owned(q as usize) by {
                                assert(s0.blocks@[j] == BlockIdx::Owned(q as usize));
                            }
                        },
                        BlockIdx::Owned(r) => {
                            assert(s0.tag_ok(r as int));
                            if p <= r < pk {
                                assert(s0.blocks@[r as int] == BlockIdx::Empty(p) || r == p);
                            }
                        },
                        BlockIdx::EmptyStart(kk) => {
                            if q < p && q + kk > p {
                                assert(s0.blocks@[p as int] == BlockIdx::Empty(q as usize));
                            }
                            assert forall|j: int| q < j < q + kk implies #[trigger] self.blocks@[j]
                                == BlockIdx::Empty(q as usize) by {
                                assert(s0.blocks@[j] == BlockIdx::Empty(q as usize));
                            }
                        },
                        BlockIdx::Empty(r) => {
                            assert(s0.tag_ok(r as int));
                            if p < r < pk {
                                assert(s0.blocks@[r as int] == BlockIdx::Empty(p));
                            }
                        },
                    }
                } else if q == p + req && req < k {
                    if pk < n {
                        assert(!(s0.blocks@[pk] is EmptyStart));
                    }
                }
            }
            assert forall|q: int, s: int| #[trigger] self.slot_ok(q, s) by {
                assert(s0.slot_ok(q, s));
                assert(s0.slot_ok(p as int, s));
                if q == p || (q == p + req && req < k) {
                    if q * bs <= s < (q + self.run_len(q)) * bs {
                        lemma_mul_mono(p as int, q, bs);
                        lemma_mul_mono(q + self.run_len(q), pk, bs);
                    }
                }
            }
            assert forall|q: usize| #[trigger]
                self.free_index().contains(q) <==> self.is_free_start(q as int) by {
                if s0.free_index().contains(q) {
                    assert(s0.is_free_start(q as int));
                }
                if p < q < pk {
                    assert(s0.blocks@[q as int] == BlockIdx::Empty(p));
                }
            }
        }
    }

    /// Allocates a run for `size` elements and returns its key.
    ///
    /// The run is carved from the free run that leaves the least surplus
    /// (the lowest-numbered one among equals); when no free run is large
    /// enough, the store grows at its tail.
    pub fn create(&mut self, size: usize) -> (r: BlockKey)
        requires
            old(self).wf(),
            size > 0,
            old(self).fits(size as int),
        ensures
            final(self).wf(),
            final(self).gen() == old(self).gen(),
            final(self).bs() == old(self).bs(),
            r.issued_in() == old(self).gen(),
            r.span() == old(self).required(size as int),
            final(self).key_valid(&r),
            final(self).count_of(r.start()) == 0,
            old(self).has_fit(r.span()) ==> old(self).is_best_fit(r.start(), r.span()),
            !old(self).has_fit(r.span()) ==> r.start() == old(self).tail_start()
                && final(self).tags().len() == r.start() + r.span() && final(self).free_index()
                == old(self).free_index().remove(r.start() as usize),
            old(self).has_fit(r.span()) ==> final(self).tags().len() == old(self).tags().len()
                && final(self).free_index() == if r.span() < old(self).run_len(r.start()) {
                old(self).free_index().remove(r.start() as usize).insert(
                    (r.start() + r.span()) as usize,
                )
            } else {
                old(self).free_index().remove(r.start() as usize)
            },
            final(self).tags()[r.start()] == BlockIdx::OwnedStart(0),
            forall|j: int|
                r.start() < j < r.start() + r.span() ==> #[trigger] final(self).tags()[j]
                    == BlockIdx::Owned(r.start() as usize),
            old(self).has_fit(r.span()) && r.span() < old(self).run_len(r.start()) ==> final(
            self).tags()[r.start() + r.span()] == BlockIdx::EmptyStart(
                (old(self).run_len(r.start()) - r.span()) as usize,
            ) && forall|j: int|
                r.start() + r.span() < j < r.start() + old(self).run_len(r.start()) ==> #[trigger] final(
                self).tags()[j] == BlockIdx::Empty((r.start() + r.span()) as usize),
            forall|j: int|
                0 <= j < old(self).tags().len() && !(r.start() <= j < (if old(self).has_fit(
                    r.span(),
                ) {
                    r.start() + old(self).run_len(r.start())
                } else {
                    old(self).tags().len() as int
                })) ==> #[trigger] final(self).tags()[j] == old(self).tags()[j],
            forall|p: int|
                #[trigger] old(self).owns(p) ==> final(self).owns(p) && final(self).span_of(p)
                    == old(self).span_of(p) && final(self).count_of(p) == old(self).count_of(p)
                    && final(self).run_items(p) == old(self).run_items(p),
    {
        let bs = self.block_size;
        let n0 = self.blocks.len();
        proof {
            let r = self.required(size as int);
            assert(0 <= n0 + r <= (n0 + r) * bs) by (nonlinear_arith)
                requires
                    bs >= 1,
                    r >= 0,
                    n0 >= 0,
            ;
            assert(r >= 0) by (nonlinear_arith)
                requires
                    bs >= 1,
                    size >= 0,
                    r == size / bs + if size % bs > 0 {
                        1int
                    } else {
                        0int
                    },
            ;
        }
        let required = size / bs + if size % bs > 0 {
            1
        } else {
            0
        };
        assert(required >= 1) by (nonlinear_arith)
            requires
                size > 0,
                bs > 0,
                required == size / bs + if size % bs > 0 {
                    1int
                } else {
                    0int
                },
        ;
        let mut best: Option<usize> = None;
        let mut best_count: usize = 0;
        let ghost mut seen: Set<usize> = Set::empty();
        for b in it: self.available_blocks.iter()
            invariant
                self.wf(),
                self == old(self),
                forall|q: usize| self.available_blocks@.contains(q) <==> it.seq().unref().contains(q),
                forall|i: int| 0 <= i < it.index() ==> seen.contains(#[trigger] it.seq().unref()[i]),
                forall|q: usize|
                    #[trigger] self.available_blocks@.contains(q) ==> seen.contains(q) || exists|i: int|
                        it.index() <= i < it.seq().len() && it.seq().unref()[i] == q,
                forall|q: usize| #[trigger] seen.contains(q) ==> self.is_free_start(q as int),
                best matches Some(p) ==> {
                    &&& self.is_free_start(p as int)
                    &&& self.run_len(p as int) >= required
                    &&& best_count == self.run_len(p as int)
                    &&& forall|q: usize|
                        #[trigger] seen.contains(q) && self.run_len(q as int) >= required ==> (
                        self.run_len(p as int) < self.run_len(q as int) || (self.run_len(p as int)
                            == self.run_len(q as int) && p <= q))
                },
                best is None ==> forall|q: usize|
                    #[trigger] seen.contains(q) ==> self.run_len(q as int) < required,
        {
            assert(it.seq().unref()[it.index()] == *b);
            assert(self.free_index().contains(*b));
            assert(self.is_free_start(*b as int));
            let count = self.blocks[*b].get_empty_count();
            if count >= required {
                let better = match best {
                    None => true,
                    Some(p) => count < best_count || (count == best_count && *b < p),
                };
                if better {
                    best = Some(*b);
                    best_count = count;
                }
            }
            proof {
                seen = seen.insert(*b);
            }
        }
        proof {
            assert forall|q: usize| #[trigger] self.is_free_start(q as int) implies seen.contains(q) by {
                assert(self.free_index().contains(q));
            }
        }
        let ghost s0 = *self;
        let p = match best {
            Some(p) => p,
            None => {
                proof {
                    let n = self.blocks@.len() as int;
                    if n > 0 {
                        let t = self.tail_start();
                        assert(self.tag_ok(n - 1));
                        if t < n {
                            assert(self.tag_ok(t));
                            assert(self.is_free_start(t));
                            assert(seen.contains(t as usize));
                            assert(self.run_len(t) < required);
                        }
                    }
                    lemma_mul_mono(
                        n + required,
                        n + self.required(size as int),
                        bs as int,
                    );
                }
                let grown = self.push_empty_blocks_until(required);
                grown.idx
            },
        };
        let ghost s1 = *self;
        proof {
            if best is None {
                assert(s1.run_len(p as int) == required);
            }
        }
        self.carve(p, required);
        let ghost s2 = *self;
        self.active_keys.insert(InternalBlockKey { idx: p, blocks: required });
        proof {
            Self::lemma_wf_ignores_records(s2, *self);
            Self::lemma_shape(&*self);
            assert(self.owns(p as int));
            if best is Some {
                assert(s0.has_fit(required as int));
                if required < s0.run_len(p as int) {
                    assert(self.is_free_start(p + required));
                }
            } else {
                assert(!s0.has_fit(required as int)) by {
                    if s0.has_fit(required as int) {
                        let q = choose|q: int| #[trigger] s0.is_free_start(q) && s0.run_len(q) >= required;
                        assert(seen.contains(q as usize));
                    }
                }
            }
            if best is None {
                assert(self.free_index() =~= s0.free_index().remove(p));
            }
            let bs = bs as int;
            assert forall|q: int| #[trigger] s0.owns(q) implies self.owns(q) && self.span_of(q)
                == s0.span_of(q) && self.count_of(q) == s0.count_of(q) && self.run_items(q)
                == s0.run_items(q) by {
                assert(s0.tag_ok(q));
                if best is None {
                    let n = s0.blocks@.len() as int;
                    if q >= s0.tail_start() {
                        assert(s0.tag_ok(n - 1));
                        assert(s0.blocks@[n - 1] is EmptyStart || s0.blocks@[n - 1] is Empty);
                        if q > s0.tail_start() {
                            assert(s0.tag_ok(s0.tail_start()));
                        }
                    }
                    assert(q < s0.tail_start());
                }
                assert(s1.blocks@[q] == s0.blocks@[q]);
                assert(s1.tag_ok(q));
                assert(s1.tag_ok(p as int));
                if p <= q < p + s1.run_len(p as int) {
                    assert(s1.blocks@[q] == BlockIdx::Empty(p) || q == p);
                }
                lemma_mul_mono(q + s0.span_of(q), s0.blocks@.len() as int, bs);
                lemma_mul_distr(q, s0.span_of(q), bs);
                assert(self.run_items(q) =~= s0.run_items(q));
            }
        }
        BlockKey { idx: p, blocks: required, generation: self.generation }
    }

    /// First block of the free region formed when the run starting at `p` is
    /// freed: the free run just before it, if any, is absorbed.
    pub open spec fn merged_start(&self, p: int) -> int {
        if p > 0 {
            match self.tags()[p - 1] {
                BlockIdx::EmptyStart(_) => p - 1,
                BlockIdx::Empty(q) => q as int,
                _ => p,
            }
        } else {
            p
        }
    }

    /// End of the free region formed when the run ending at block `e` is
    /// freed: the free run just after it, if any, is absorbed.
    pub open spec fn merged_end(&self, e: int) -> int {
        if e < self.tags().len() {
            match self.tags()[e] {
                BlockIdx::EmptyStart(k) => e + k,
                _ => e,
            }
        } else {
            e
        }
    }

    /// Frees the run that `key` names: drops its live elements and merges it
    /// with the free runs on either side. A stale key, or one that names no
    /// live run, changes nothing.
    pub fn remove(&mut self, key: BlockKey)
        requires
            old(self).wf(),
        ensures
            final(self).wf(),
            final(self).gen() == old(self).gen(),
            final(self).bs() == old(self).bs(),
            !old(self).key_valid(&key) ==> *final(self) == *old(self),
            old(self).key_valid(&key) ==> ({
                let ms = old(self).merged_start(key.start());
                let me = old(self).merged_end(key.start() + key.span());
                &&& final(self).tags().len() == old(self).tags().len()
                &&& final(self).tags()[ms] == BlockIdx::EmptyStart((me - ms) as usize)
                &&& final(self).is_free_start(ms)
                &&& final(self).run_len(ms) == me - ms
                &&& forall|j: int| ms < j < me ==> #[trigger] final(self).tags()[j] == BlockIdx::Empty(ms as usize)
                &&& forall|j: int|
                    0 <= j < old(self).tags().len() && !(ms <= j < me) ==> #[trigger] final(self).tags()[j]
                        == old(self).tags()[j]
                &&& forall|s: int|
                    key.start() * old(self).bs() <= s < (key.start() + key.span()) * old(self).bs()
                        ==> #[trigger] final(self).slots()[s] is None
                &&& final(self).free_index() == old(self).free_index().remove(
                    (key.start() + key.span()) as usize,
                ).remove(ms as usize).insert(ms as usize)
            }),
            forall|p: int|
                #[trigger] old(self).owns(p) && p != key.start() ==> final(self).owns(p)
                    && final(self).span_of(p) == old(self).span_of(p) && final(self).count_of(p)
                    == old(self).count_of(p) && final(self).run_items(p) == old(self).run_items(p),
    {
        if !self.check_key(&key) {
            return;
        }
        let ghost s0 = *self;
        let idx = key.idx;
        let span = key.blocks;
        let bs = self.block_size;
        let n = self.blocks.len();
        proof {
            assert(s0.tag_ok(idx as int));
            lemma_mul_mono((idx + span) as int, n as int, bs as int);
            lemma_mul_distr(idx as int, span as int, bs as int);
        }
        let dlen = self.data.len();
        proof {
            lemma_mul_mono(idx as int, (idx + span) as int, bs as int);
        }
        let start = idx * bs;
        let allocated = self.blocks[idx].get_allocated_count();
        let mut i: usize = 0;
        while i < allocated
            invariant
                start == idx * bs,
                allocated <= span * bs,
                (idx + span) * bs == idx * bs + span * bs,
                (idx + span) * bs <= n * bs,
                n * bs == dlen,
                0 <= i <= allocated,
                self.data@.len() == s0.data@.len(),
                s0.data@.len() == n * bs,
                forall|s: int| start <= s < start + i ==> #[trigger] self.data@[s] is None,
                forall|s: int|
                    0 <= s < s0.data@.len() && !(start <= s < start + i) ==> #[trigger] self.data@[s]
                        == s0.data@[s],
                self.blocks == s0.blocks,
                self.spans == s0.spans,
                self.block_size == s0.block_size,
                self.generation == s0.generation,
                self.available_blocks == s0.available_blocks,
            decreases allocated - i,
        {
            self.data.set(start + i, None);
            i += 1;
        }
        let next = idx + span;
        let mut end = next;
        if next < n {
            if let BlockIdx::EmptyStart(count) = self.blocks[next] {
                proof {
                    assert(s0.tag_ok(next as int));
                }
                self.available_blocks.remove(&next);
                end = next + count;
            }
        }
        let mut first = idx;
        if idx > 0 {
            match self.blocks[idx - 1] {
                BlockIdx::Empty(parent) => {
                    self.available_blocks.remove(&parent);
                    first = parent;
                },
                BlockIdx::EmptyStart(_) => {
                    self.available_blocks.remove(&(idx - 1));
                    first = idx - 1;
                },
                _ => {},
            }
        }
        proof {
            if idx > 0 {
                assert(s0.tag_ok(idx - 1));
                if s0.blocks@[idx - 1] is Empty || s0.blocks@[idx - 1] is EmptyStart {
                    assert(s0.tag_ok(first as int));
                    if first + s0.run_len(first as int) > idx {
                        assert(s0.blocks@[idx as int] == BlockIdx::Empty(first));
                    }
                    assert(first + s0.run_len(first as int) == idx);
                }
            }
        }
        proof {
            if s0.free_index().contains(next) {
                assert(s0.is_free_start(next as int));
            }
            if idx > 0 && s0.free_index().contains(first) && first == idx {
                assert(s0.is_free_start(first as int));
            }
        }
        let count = end - first;
        let ghost s_mid = *self;
        self.blocks.set(first, BlockIdx::EmptyStart(count));
        let mut i: usize = 1;
        while i < count
            invariant
                1 <= i <= count,
                count == end - first,
                end <= n,
                n == s0.blocks@.len(),
                self.blocks@.len() == n,
                self.blocks@[first as int] == BlockIdx::EmptyStart(count),
                self.data == s_mid.data,
                self.available_blocks == s_mid.available_blocks,
                forall|j: int| first < j < first + i ==> #[trigger] self.blocks@[j] == BlockIdx::Empty(first),
                forall|j: int|
                    0 <= j < n && !(first <= j < first + i) ==> #[trigger] self.blocks@[j] == s0.blocks@[j],
                self.spans == s0.spans,
                self.block_size == s0.block_size,
                self.generation == s0.generation,
            decreases count - i,
        {
            self.blocks.set(first + i, BlockIdx::Empty(first));
            i += 1;
        }
        self.available_blocks.insert(first);
        proof {
            assert(self.available_blocks@ =~= s0.available_blocks@.remove(next).remove(first).insert(
                first,
            ));
            Self::lemma_merged(s0, *self, idx as int, first as int, end as int);
            Self::lemma_shape(&*self);
        }
    }

    /// Changing the live count of the run at `p` to `c`, with the slots of that
    /// run filled accordingly, keeps the store well formed and every other run intact.
    proof fn lemma_live_update(a: Self, b: Self, p: int, c: int)
        requires
            a.inv(),
            a.owns(p),
            0 <= c <= a.span_of(p) * a.bs(),
            c <= usize::MAX,
            b.block_size == a.block_size,
            b.spans == a.spans,
            b.available_blocks == a.available_blocks,
            b.blocks@ == a.blocks@.update(p, BlockIdx::OwnedStart(c as usize)),
            b.data@.len() == a.data@.len(),
            forall|s: int|
                0 <= s < a.data@.len() && !(p * a.bs() <= s < (p + a.span_of(p)) * a.bs())
                    ==> #[trigger] b.data@[s] == a.data@[s],
            forall|s: int|
                p * a.bs() <= s < (p + a.span_of(p)) * a.bs() ==> (#[trigger] b.data@[s] is Some
                    <==> s < p * a.bs() + c),
        ensures
            b.inv(),
            forall|q: int|
                #[trigger] a.owns(q) && q != p ==> b.owns(q) && b.span_of(q) == a.span_of(q)
                    && b.count_of(q) == a.count_of(q) && b.run_items(q) == a.run_items(q),
    {
        let bs = a.bs();
        let n = a.blocks@.len() as int;
        assert(a.tag_ok(p));
        assert forall|q: int| 0 <= q < n implies #[trigger] b.tag_ok(q) by {
            assert(a.tag_ok(q));
            match a.blocks@[q] {
                BlockIdx::OwnedStart(_) => {
                    assert forall|j: int| q < j < q + b.span_of(q) implies #[trigger] b.blocks@[j]
                        == BlockIdx::Owned(q as usize) by {
                        assert(a.blocks@[j] == BlockIdx::Owned(q as usize));
                    }
                },
                BlockIdx::EmptyStart(kk) => {
                    assert forall|j: int| q < j < q + kk implies #[trigger] b.blocks@[j]
                        == BlockIdx::Empty(q as usize) by {
                        assert(a.blocks@[j] == BlockIdx::Empty(q as usize));
                    }
                },
                _ => {},
            }
        }
        assert forall|q: int, s: int| #[trigger] b.slot_ok(q, s) by {
            assert(a.slot_ok(q, s));
            if 0 <= q < n && q != p && q * bs <= s < (q + b.run_len(q)) * bs {
                assert(a.tag_ok(q));
                if q < p {
                    if q + a.run_len(q) > p {
                        assert(a.blocks@[p] == BlockIdx::Owned(q as usize) || a.blocks@[p]
                            == BlockIdx::Empty(q as usize));
                    }
                    lemma_mul_mono(q + a.run_len(q), p, bs);
                } else {
                    if p + a.span_of(p) > q {
                        assert(a.blocks@[q] == BlockIdx::Owned(p as usize));
                    }
                    lemma_mul_mono(p + a.span_of(p), q, bs);
                }
                lemma_mul_mono(q + a.run_len(q), n, bs);
            }
        }
        assert forall|i: usize| #[trigger]
            b.free_index().contains(i) <==> b.is_free_start(i as int) by {
            assert(a.free_index().contains(i) <==> a.is_free_start(i as int));
        }
        assert forall|q: int| #[trigger] a.owns(q) && q != p implies b.owns(q) && b.span_of(q)
            == a.span_of(q) && b.count_of(q) == a.count_of(q) && b.run_items(q) == a.run_items(
            q,
        ) by {
            assert(a.tag_ok(q));
            if q < p {
                if q + a.span_of(q) > p {
                    assert(a.blocks@[p] == BlockIdx::Owned(q as usize));
                }
                lemma_mul_mono(q + a.span_of(q), p, bs);
            } else {
                if p + a.span_of(p) > q {
                    assert(a.blocks@[q] == BlockIdx::Owned(p as usize));
                }
                lemma_mul_mono(p + a.span_of(p), q, bs);
            }
            lemma_mul_mono(q + a.span_of(q), n, bs);
            lemma_mul_mono(0, q, bs);
            lemma_mul_distr(q, a.span_of(q), bs);
            assert(b.run_items(q) =~= a.run_items(q));
        }
    }

    /// Exchanges a key for a view of its run. A stale key, or one that names
    /// no live run, gives nothing.
    pub fn get(&mut self, key: BlockKey) -> (r: Option<Block<'_, T>>)
        requires
            old(self).wf(),
        ensures
            old(self).key_valid(&key) ==> (r matches Some(b) && b.wf() && b.key_start()
                == key.start() && b.key_span() == key.span() && b.key_generation()
                == key.issued_in() && b.items() == old(self).run_items(key.start()) && b.cap()
                == key.span() * old(self).bs() && b.store() == *old(self) && *final(self)
                == *final(b.handle())),
            !old(self).key_valid(&key) ==> r is None && *final(self) == *old(self),
    {
        if !self.check_key(&key) {
            return None;
        }
        Some(Block { key, storage: self })
    }
}

/// Exclusive view of one allocated run, holding the run's key.
pub struct Block<'a, T> {
    key: BlockKey,
    storage: &'a mut BlockStorage<T>,
}

impl<'a, T> Block<'a, T> {
    /// The borrow of the storage the view holds; the storage takes its value
    /// back when the view ends.
    pub closed spec fn handle(&self) -> &'a mut BlockStorage<T> {
        self.storage
    }

    /// The storage as the view currently sees it.
    pub closed spec fn store(&self) -> BlockStorage<T> {
        *self.storage
    }

    /// The storage is well formed and the key names one of its live runs.
    pub open spec fn wf(&self) -> bool {
        &&& self.store().wf()
        &&& self.store().owns(self.key_start())
        &&& self.store().span_of(self.key_start()) == self.key_span()
        &&& self.key_generation() == self.store().gen()
        &&& self.store().count_of(self.key_start()) == self.items().len()
    }

    /// Live elements of the run, in order.
    pub open spec fn items(&self) -> Seq<T> {
        self.store().run_items(self.key_start())
    }

    /// Number of elements the run can hold.
    pub open spec fn cap(&self) -> int {
        self.key_span() * self.store().bs()
    }

    pub closed spec fn key_start(&self) -> int {
        self.key.start()
    }

    pub closed spec fn key_span(&self) -> int {
        self.key.span()
    }

    pub closed spec fn key_generation(&self) -> int {
        self.key.issued_in()
    }

    /// Gives the key back; the view ends and the storage keeps what the view
    /// left in it.
    pub fn return_key(self) -> (r: BlockKey)
        ensures
            *final(self.handle()) == self.store(),
            r.start() == self.key_start(),
            r.span() == self.key_span(),
            r.issued_in() == self.key_generation(),
    {
        self.key
    }

    pub fn len(&self) -> (r: usize)
        requires
            self.wf(),
        ensures
            r == self.items().len(),
    {
        proof {
            assert(self.storage.tag_ok(self.key.start()));
        }
        self.storage.blocks[self.key.idx].get_allocated_count()
    }

    pub fn capacity(&self) -> (r: usize)
        requires
            self.wf(),
        ensures
            r == self.cap(),
    {
        proof {
            let st = &*self.storage;
            let p = self.key.start();
            assert(st.tag_ok(p));
            lemma_mul_mono(p + st.span_of(p), st.blocks@.len() as int, st.bs());
            lemma_mul_distr(p, st.span_of(p), st.bs());
            lemma_mul_mono(0, p, st.bs());
        }
        self.key.blocks * self.storage.block_size
    }

    /// Appends `item` if the run has room; otherwise hands `item` back unchanged.
    pub fn push(&mut self, item: T) -> (r: Option<T>)
        requires
            old(self).wf(),
        ensures
            final(self).wf(),
            *final(final(self).handle()) == *final(old(self).handle()),
            final(self).store().gen() == old(self).store().gen(),
            final(self).store().bs() == old(self).store().bs(),
            final(self).store().tags().len() == old(self).store().tags().len(),
            final(self).store().free_index() == old(self).store().free_index(),
            forall|p: int|
                #[trigger] old(self).store().owns(p) ==> final(self).store().owns(p) && final(
                self).store().span_of(p) == old(self).store().span_of(p) && (p != old(self).key_start() ==> final(
                self).store().count_of(p) == old(self).store().count_of(p) && final(self).store().run_items(p)
                == old(self).store().run_items(p)),
            final(self).cap() == old(self).cap(),
            final(self).key_start() == old(self).key_start(),
            final(self).key_span() == old(self).key_span(),
            final(self).key_generation() == old(self).key_generation(),
            old(self).items().len() < old(self).cap() ==> r is None && final(self).items()
                == old(self).items().push(item),
            old(self).items().len() >= old(self).cap() ==> r == Some(item) && final(self).items()
                == old(self).items(),
    {
        let len = self.len();
        let cap = self.capacity();
        if len >= cap {
            return Some(item);
        }
        let ghost a = *self.storage;
        let p = self.key.idx;
        let bs = self.storage.block_size;
        proof {
            assert(a.tag_ok(p as int));
            lemma_mul_mono(p + a.span_of(p as int), a.blocks@.len() as int, bs as int);
            lemma_mul_distr(p as int, a.span_of(p as int), bs as int);
            lemma_mul_mono(0, p as int, bs as int);
        }
        let slot = p * bs + len;
        self.storage.data.set(slot, Some(item));
        self.storage.blocks.set(p, BlockIdx::OwnedStart(len + 1));
        proof {
            let b = *self.storage;
            assert forall|s: int|
                p * a.bs() <= s < (p + a.span_of(p as int)) * a.bs() implies (#[trigger] b.data@[s] is Some
                <==> s < p * a.bs() + len + 1) by {
                assert(a.slot_ok(p as int, s));
            }
            BlockStorage::lemma_live_update(a, b, p as int, len + 1);
            BlockStorage::lemma_shape(&b);
            assert(self.items() =~= a.run_items(p as int).push(item));
        }
        None
    }

    /// Removes and returns the last live element, if any.
    pub fn pop(&mut self) -> (r: Option<T>)
        requires
            old(self).wf(),
        ensures
            final(self).wf(),
            *final(final(self).handle()) == *final(old(self).handle()),
            final(self).store().gen() == old(self).store().gen(),
            final(self).store().bs() == old(self).store().bs(),
            final(self).store().tags().len() == old(self).store().tags().len(),
            final(self).store().free_index() == old(self).store().free_index(),
            forall|p: int|
                #[trigger] old(self).store().owns(p) ==> final(self).store().owns(p) && final(
                self).store().span_of(p) == old(self).store().span_of(p) && (p != old(self).key_start() ==> final(
                self).store().count_of(p) == old(self).store().count_of(p) && final(self).store().run_items(p)
                == old(self).store().run_items(p)),
            final(self).cap() == old(self).cap(),
            final(self).key_start() == old(self).key_start(),
            final(self).key_span() == old(self).key_span(),
            final(self).key_generation() == old(self).key_generation(),
            old(self).items().len() == 0 ==> r is None && final(self).items() == old(self).items(),
            old(self).items().len() > 0 ==> r == Some(old(self).items().last())
                && final(self).items() == old(self).items().drop_last(),
    {
        let len = self.len();
        if len == 0 {
            return None;
        }
        let cap = self.capacity();
        let ghost a = *self.storage;
        let p = self.key.idx;
        let bs = self.storage.block_size;
        proof {
            assert(a.tag_ok(p as int));
            lemma_mul_mono(p + a.span_of(p as int), a.blocks@.len() as int, bs as int);
            lemma_mul_distr(p as int, a.span_of(p as int), bs as int);
            lemma_mul_mono(0, p as int, bs as int);
            assert(a.slot_ok(p as int, p * bs + len - 1));
        }
        let slot = p * bs + len - 1;
        let value = self.storage.data[slot].take();
        self.storage.blocks.set(p, BlockIdx::OwnedStart(len - 1));
        proof {
            let b = *self.storage;
            assert forall|s: int|
                p * a.bs() <= s < (p + a.span_of(p as int)) * a.bs() implies (#[trigger] b.data@[s] is Some
                <==> s < p * a.bs() + len - 1) by {
                assert(a.slot_ok(p as int, s));
            }
            BlockStorage::lemma_live_update(a, b, p as int, len - 1);
            BlockStorage::lemma_shape(&b);
            assert(self.items() =~= a.run_items(p as int).drop_last());
        }
        value
    }

    /// The element at `index`, if it is live.
    pub fn get(&self, index: usize) -> (r: Option<&T>)
        requires
            self.wf(),
        ensures
            index < self.items().len() ==> r == Some(&self.items()[index as int]),
            index >= self.items().len() ==> r is None,
    {
        let len = self.len();
        if index >= len {
            return None;
        }
        let st = &*self.storage;
        let p = self.key.idx;
        let bs = st.block_size;
        proof {
            assert(st.tag_ok(p as int));
            lemma_mul_mono(p + st.span_of(p as int), st.blocks@.len() as int, bs as int);
            lemma_mul_distr(p as int, st.span_of(p as int), bs as int);
            lemma_mul_mono(0, p as int, bs as int);
            assert(st.slot_ok(p as int, p * bs + index));
        }
        st.data[p * bs + index].as_ref()
    }
}

/// Two keys that are both valid for the same storage and start at different
/// blocks name runs that share no block.
pub proof fn lemma_valid_keys_disjoint<T>(s: &BlockStorage<T>, a: &BlockKey, b: &BlockKey)
    requires
        s.wf(),
        s.key_valid(a),
        s.key_valid(b),
        a.start() != b.start(),
    ensures
        a.start() + a.span() <= b.start() || b.start() + b.span() <= a.start(),
{
    assert(s.tag_ok(a.start()));
    assert(s.tag_ok(b.start()));
    if a.start() < b.start() && b.start() < a.start() + a.span() {
        assert(s.blocks@[b.start()] == BlockIdx::Owned(a.start() as usize));
    }
    if b.start() < a.start() && a.start() < b.start() + b.span() {
        assert(s.blocks@[a.start()] == BlockIdx::Owned(b.start() as usize));
    }
}

/// Free space is always fully coalesced: no two neighbouring blocks both
/// start a free run, and the block after a free run is never free.
pub proof fn lemma_free_runs_coalesced<T>(s: &BlockStorage<T>)
    requires
        s.wf(),
    ensures
        forall|i: int|
            0 < i < s.tags().len() ==> !(#[trigger] s.is_free_start(i - 1) && s.is_free_start(i)),
        forall|p: int|
            #[trigger] s.is_free_start(p) && p + s.run_len(p) < s.tags().len() ==> !(s.tags()[p
                + s.run_len(p)] is EmptyStart || s.tags()[p + s.run_len(p)] is Empty),
{
    assert forall|i: int| 0 < i < s.tags().len() implies !(#[trigger] s.is_free_start(i - 1)
        && s.is_free_start(i)) by {
        assert(s.tag_ok(i - 1));
    }
    assert forall|p: int| #[trigger]
        s.is_free_start(p) && p + s.run_len(p) < s.tags().len() implies !(s.tags()[p + s.run_len(
        p,
    )] is EmptyStart || s.tags()[p + s.run_len(p)] is Empty) by {
        let e = p + s.run_len(p);
        assert(s.tag_ok(p));
        assert(s.tag_ok(e));
        if let BlockIdx::Empty(q) = s.blocks@[e] {
            assert(s.tag_ok(q as int));
            if q < p {
                assert(s.blocks@[p] == BlockIdx::Empty(q));
            } else if q > p {
                assert(s.blocks@[q as int] == BlockIdx::Empty(p as usize));
            }
        }
    }
}

/// After `clear`, no key minted before it is valid any more, so `get` gives
/// nothing for it and `remove` ignores it.
pub proof fn lemma_clear_invalidates_keys<T>(
    before: &BlockStorage<T>,
    after: &BlockStorage<T>,
    key: &BlockKey,
)
    requires
        key.issued_in() <= before.gen(),
        after.gen() == before.gen() + 1,
    ensures
        !after.key_valid(key),
{
}

impl<'a, T> Block<'a, T> {
    /// References to the live elements, in order.
    pub fn as_slice(&self) -> (r: Vec<&T>)
        requires
            self.wf(),
        ensures
            r@.len() == self.items().len(),
            forall|k: int| 0 <= k < r@.len() ==> *r@[k] == self.items()[k],
    {
        let len = self.len();
        let mut r: Vec<&T> = Vec::new();
        let mut i: usize = 0;
        while i < len
            invariant
                self.wf(),
                len == self.items().len(),
                0 <= i <= len,
                r@.len() == i,
                forall|k: int| 0 <= k < i ==> *r@[k] == self.items()[k],
            decreases len - i,
        {
            match self.get(i) {
                Some(v) => r.push(v),
                None => {},
            }
            i += 1;
        }
        r
    }

    /// The live element at `index`, for writing.
    pub fn get_mut(&mut self, index: usize) -> (r: Option<&mut T>)
        requires
            old(self).wf(),
        ensures
            *final(final(self).handle()) == *final(old(self).handle()),
            index >= old(self).items().len() ==> r is None,
            index >= old(self).items().len() ==> *final(self) == *old(self),
            index < old(self).items().len() ==> (r matches Some(m) && *m == old(self).items()[index as int]
                && final(self).wf() && final(self).key_start() == old(self).key_start()
                && final(self).key_span() == old(self).key_span() && final(self).key_generation()
                == old(self).key_generation() && final(self).items() == old(self).items().update(
                index as int,
                *final(m),
            )),
    {
        let len = self.len();
        if index >= len {
            return None;
        }
        let p = self.key.idx;
        let bs = self.storage.block_size;
        proof {
            let st = &*self.storage;
            assert(st.tag_ok(p as int));
            lemma_mul_mono(p + st.span_of(p as int), st.blocks@.len() as int, bs as int);
            lemma_mul_distr(p as int, st.span_of(p as int), bs as int);
            lemma_mul_mono(0, p as int, bs as int);
            assert(st.slot_ok(p as int, p * bs + index));
            BlockStorage::lemma_slot_overwrite(*st, p * bs + index);
        }
        self.storage.data[p * bs + index].as_mut()
    }
}

/// A slot of the backing store holds an element exactly when it lies in the
/// live prefix of an allocated run: free runs and the unused tail of a run
/// hold nothing, so `remove` and `clear` leave no element behind.
pub proof fn lemma_elements_only_in_live_prefixes<T>(s: &BlockStorage<T>, p: int, x: int)
    requires
        s.wf(),
        0 <= p < s.tags().len(),
        p * s.bs() <= x < (p + s.run_len(p)) * s.bs(),
    ensures
        s.slots()[x] is Some <==> (s.owns(p) && x < p * s.bs() + s.count_of(p)),
{
    assert(s.slot_ok(p, x));
}

impl<'a, T> Block<'a, T> {
    /// Mutable references to the live elements, in order.
    pub fn as_slice_mut(&mut self) -> (r: Vec<&mut T>)
        requires
            old(self).wf(),
        ensures
            *final(final(self).handle()) == *final(old(self).handle()),
            r@.len() == old(self).items().len(),
            forall|k: int| 0 <= k < r@.len() ==> *r@[k] == old(self).items()[k],
    {
        let len = self.len();
        let p = self.key.idx;
        let bs = self.storage.block_size;
        let ghost st = *self.storage;
        proof {
            assert(st.tag_ok(p as int));
            lemma_mul_mono(p + st.span_of(p as int), st.blocks@.len() as int, bs as int);
            lemma_mul_distr(p as int, st.span_of(p as int), bs as int);
            lemma_mul_mono(0, p as int, bs as int);
        }
        let start = p * bs;
        proof {
            assert forall|k: int| 0 <= k < len implies (#[trigger] st.data@[start + k]) is Some by {
                assert(st.slot_ok(p as int, start + k));
            }
        }
        let all: &mut [Option<T>] = self.storage.data.as_mut_slice();
        let (_, mut rest) = all.split_at_mut(start);
        let mut r: Vec<&mut T> = Vec::new();
        let mut i: usize = 0;
        while i < len
            invariant
                0 <= i <= len,
                len == st.run_items(p as int).len(),
                bs == st.block_size,
                start == p * bs,
                start + len <= st.data@.len(),
                rest@ == st.data@.subrange(start + i, st.data@.len() as int),
                r@.len() == i,
                forall|k: int| 0 <= k < i ==> *r@[k] == st.run_items(p as int)[k],
                forall|k: int| 0 <= k < len ==> (#[trigger] st.data@[start + k]) is Some,
            decreases len - i,
        {
            proof {
                assert(st.data@[start + i] is Some);
                assert(rest@[0] == st.data@[start + i]);
            }
            let (head, tail) = rest.split_at_mut(1);
            rest = tail;
            let first = head.first_mut().unwrap();
            if let Some(v) = first.as_mut() {
                proof {
                    assert(st.run_items(p as int)[i as int] == st.data@[start + i]->0);
                }
                r.push(v);
            }
            i += 1;
        }
        r
    }
}

} // verus!
