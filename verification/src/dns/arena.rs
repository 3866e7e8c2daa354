//! A first-fit byte allocator over one fixed range of offsets.
//!
//! The arena keeps the free space of `[0, capacity)` as a sorted list of holes.
//! A request is rounded up to a block, and the lowest hole with room for the
//! block gives its first bytes away. A hole has room if the block fills it, or
//! if what the block leaves behind can hold a hole of its own. Freed blocks merge
//! with the holes around them, so no byte is ever lost.

use vstd::prelude::*;

verus! {

/// The smallest block, and so the smallest hole.
pub const MIN_BLOCK: usize = 16;

/// Blocks and holes start and end at multiples of this.
pub const GRAIN: usize = 8;

/// The size of the block that holds `len` bytes.
pub open spec fn block_size(len: nat) -> nat {
    let rounded = (len + GRAIN - 1) / (GRAIN as int) * GRAIN;
    if rounded < MIN_BLOCK {
        MIN_BLOCK as nat
    } else {
        rounded as nat
    }
}

/// Whether a hole of `size` bytes can give away a block of `block` bytes.
pub open spec fn has_room(size: int, block: int) -> bool {
    size == block || size >= block + MIN_BLOCK
}

/// The offsets from `start` up to, not including, `end`.
pub open spec fn range(start: int, end: int) -> Set<int> {
    Set::new(|b: int| start <= b < end)
}

/// `[start, end)` is a maximal run of free offsets.
pub open spec fn is_gap(free: Set<int>, start: int, end: int) -> bool {
    &&& start < end
    &&& forall|b: int| start <= b < end ==> #[trigger] free.contains(b)
    &&& !free.contains(start - 1)
    &&& !free.contains(end)
}

/// A maximal run of free offsets starts at `start` and has room for the block.
pub open spec fn fits_at(free: Set<int>, start: int, block: int) -> bool {
    exists|end: int| #[trigger] is_gap(free, start, end) && has_room(end - start, block)
}

/// The block fits somewhere.
pub open spec fn fits(free: Set<int>, block: int) -> bool {
    exists|start: int| #[trigger] fits_at(free, start, block)
}

/// `start` is the lowest offset at which the block fits.
pub open spec fn is_first_fit(free: Set<int>, start: int, block: int) -> bool {
    &&& fits_at(free, start, block)
    &&& forall|a: int| #[trigger] fits_at(free, a, block) ==> start <= a
}

#[derive(Clone, Copy)]
pub struct Hole {
    pub start: usize,
    pub size: usize,
}

impl Hole {
    pub open spec fn end(self) -> int {
        self.start + self.size
    }
}

pub open spec fn holes_wf(holes: Seq<Hole>, capacity: int) -> bool {
    &&& forall|i: int| #![trigger holes[i]] 0 <= i < holes.len() ==> {
        &&& holes[i].size >= MIN_BLOCK
        &&& holes[i].size % GRAIN == 0
        &&& holes[i].start % GRAIN == 0
        &&& holes[i].end() <= capacity
    }
    &&& forall|i: int, j: int|
        #![trigger holes[i], holes[j]]
        0 <= i < j < holes.len() ==> holes[i].end() < holes[j].start
}

pub open spec fn holes_free(holes: Seq<Hole>) -> Set<int> {
    Set::new(
        |b: int|
            exists|i: int|
                0 <= i < holes.len() && (#[trigger] holes[i]).start <= b < holes[i].end(),
    )
}

proof fn lemma_gap_is_hole(holes: Seq<Hole>, capacity: int, start: int, end: int)
    requires
        holes_wf(holes, capacity),
        is_gap(holes_free(holes), start, end),
    ensures
        exists|i: int|
            0 <= i < holes.len() && (#[trigger] holes[i]).start == start && holes[i].end() == end,
{
    let free = holes_free(holes);
    assert(free.contains(start));
    let i = choose|i: int|
        0 <= i < holes.len() && (#[trigger] holes[i]).start <= start < holes[i].end();
    if holes[i].start < start {
        assert(free.contains(start - 1));
    }
    if end < holes[i].end() {
        assert(free.contains(end));
    }
    if end > holes[i].end() {
        lemma_hole_is_gap(holes, capacity, i);
        assert(free.contains(holes[i].end()));
    }
}

proof fn lemma_hole_is_gap(holes: Seq<Hole>, capacity: int, i: int)
    requires
        holes_wf(holes, capacity),
        0 <= i < holes.len(),
    ensures
        is_gap(holes_free(holes), holes[i].start as int, holes[i].end()),
{
    let free = holes_free(holes);
    assert forall|b: int| holes[i].start <= b < holes[i].end() implies #[trigger] free.contains(
        b,
    ) by {}
    if free.contains(holes[i].start - 1) {
        let j = choose|j: int|
            0 <= j < holes.len() && (#[trigger] holes[j]).start <= holes[i].start - 1
                < holes[j].end();
        assert(holes[i].start <= holes[i].end());
    }
    if free.contains(holes[i].end()) {
        let j = choose|j: int|
            0 <= j < holes.len() && (#[trigger] holes[j]).start <= holes[i].end()
                < holes[j].end();
        assert(holes[i].start <= holes[i].end());
    }
}

pub struct Arena {
    capacity: usize,
    holes: Vec<Hole>,
}

impl Arena {
    /// The number of offsets that the arena hands out and takes back.
    pub closed spec fn capacity(&self) -> int {
        self.capacity as int
    }

    /// The offsets that are not in use.
    pub closed spec fn free_set(&self) -> Set<int> {
        holes_free(self.holes@)
    }

    /// No run of free offsets is too small to be of use.
    pub proof fn lemma_gaps(&self)
        requires
            self.wf(),
        ensures
            forall|start: int, end: int| #[trigger]
                is_gap(self.free_set(), start, end) ==> end - start >= MIN_BLOCK,
    {
        assert forall|start: int, end: int| #[trigger]
            is_gap(self.free_set(), start, end) implies end - start >= MIN_BLOCK by {
            lemma_gap_is_hole(self.holes@, self.capacity as int, start, end);
        }
    }

    pub closed spec fn wf(&self) -> bool {
        &&& self.capacity % GRAIN == 0
        &&& self.capacity <= isize::MAX
        &&& holes_wf(self.holes@, self.capacity as int)
    }

    /// An arena over `size` bytes, rounded down to a whole number of grains; all
    /// of it is free.
    pub fn new(size: usize) -> (r: Self)
        requires
            size <= isize::MAX,
        ensures
            r.wf(),
            r.capacity() == size / GRAIN * GRAIN,
            r.free_set() == (if r.capacity() < MIN_BLOCK {
                Set::empty()
            } else {
                range(0, r.capacity())
            }),
    {
        let capacity: usize = size / GRAIN * GRAIN;
        let mut holes: Vec<Hole> = Vec::new();
        if capacity >= MIN_BLOCK {
            holes.push(Hole { start: 0, size: capacity });
            assert(holes@[0] == (Hole { start: 0, size: capacity }));
        }
        let r = Arena { capacity, holes };
        assert(r.free_set() =~= (if r.capacity() < MIN_BLOCK {
            Set::empty()
        } else {
            range(0, r.capacity())
        }));
        r
    }

    /// The block size for `len` bytes, for a length within the arena.
    fn block(len: usize) -> (r: usize)
        requires
            len <= usize::MAX - 16,
        ensures
            r == block_size(len as nat),
            r % GRAIN == 0,
            r >= MIN_BLOCK,
            r >= len,
    {
        let rounded: usize = (len + (GRAIN - 1)) / GRAIN * GRAIN;
        if rounded < MIN_BLOCK {
            MIN_BLOCK
        } else {
            rounded
        }
    }

    /// Takes the lowest run of free offsets with room for `len` bytes, or changes
    /// nothing if there is none.
    pub fn allocate(&mut self, len: usize) -> (r: Option<usize>)
        requires
            old(self).wf(),
        ensures
            final(self).wf(),
            final(self).capacity() == old(self).capacity(),
            match r {
                Some(offset) => {
                    &&& is_first_fit(old(self).free_set(), offset as int, block_size(len as nat) as int)
                    &&& offset % GRAIN == 0
                    &&& offset + block_size(len as nat) <= old(self).capacity()
                    &&& final(self).free_set() == old(self).free_set().difference(
                        range(offset as int, offset + block_size(len as nat)),
                    )
                },
                None => {
                    &&& !fits(old(self).free_set(), block_size(len as nat) as int)
                    &&& final(self).free_set() == old(self).free_set()
                },
            },
    {
        let ghost before = self.holes@;
        let ghost free = self.free_set();
        let ghost wanted = block_size(len as nat) as int;
        let n: usize = self.holes.len();
        if len > self.capacity {
            proof {
                assert(wanted >= len);
                assert forall|a: int| !#[trigger] fits_at(free, a, wanted) by {
                    if fits_at(free, a, wanted) {
                        let e = choose|e: int|
                            #[trigger] is_gap(free, a, e) && has_room(e - a, wanted);
                        lemma_gap_is_hole(before, self.capacity as int, a, e);
                    }
                }
            }
            return None;
        }
        let block: usize = Self::block(len);
        let mut i: usize = 0;
        while i < n
            invariant
                i <= n,
                n == self.holes@.len(),
                *self == *old(self),
                self.wf(),
                before == self.holes@,
                free == holes_free(before),
                block == wanted,
                wanted == block_size(len as nat),
                block % GRAIN == 0,
                block >= MIN_BLOCK,
                forall|k: int|
                    #![trigger before[k]]
                    0 <= k < i ==> !has_room(before[k].size as int, block as int),
            decreases n - i,
        {
            let hole: Hole = self.holes[i];
            assert(hole == before[i as int]);
            if hole.size == block || (hole.size >= MIN_BLOCK && hole.size - MIN_BLOCK >= block) {
                proof {
                    lemma_hole_is_gap(before, self.capacity as int, i as int);
                    assert(fits_at(free, hole.start as int, wanted));
                    assert forall|a: int| #[trigger] fits_at(free, a, wanted) implies hole.start
                        <= a by {
                        let e = choose|e: int|
                            #[trigger] is_gap(free, a, e) && has_room(e - a, wanted);
                        lemma_gap_is_hole(before, self.capacity as int, a, e);
                        let k = choose|k: int|
                            0 <= k < before.len() && (#[trigger] before[k]).start == a
                                && before[k].end() == e;
                        assert(has_room(before[k].size as int, block as int));
                    }
                }
                if hole.size == block {
                    self.holes.remove(i);
                    proof {
                        self.lemma_taken_whole(before, i as int);
                    }
                } else {
                    let rest = Hole { start: hole.start + block, size: hole.size - block };
                    self.holes.set(i, rest);
                    proof {
                        self.lemma_taken_part(before, i as int, block);
                    }
                }
                return Some(hole.start);
            }
            i = i + 1;
        }
        proof {
            assert forall|a: int| !#[trigger] fits_at(free, a, wanted) by {
                if fits_at(free, a, wanted) {
                    let e = choose|e: int|
                        #[trigger] is_gap(free, a, e) && has_room(e - a, wanted);
                    lemma_gap_is_hole(before, self.capacity as int, a, e);
                    let k = choose|k: int|
                        0 <= k < before.len() && (#[trigger] before[k]).start == a
                            && before[k].end() == e;
                    assert(has_room(before[k].size as int, block as int));
                }
            }
        }
        None
    }

    proof fn lemma_taken_whole(&self, before: Seq<Hole>, i: int)
        requires
            0 <= i < before.len(),
            self.capacity % GRAIN == 0,
            self.capacity <= isize::MAX,
            holes_wf(before, self.capacity as int),
            self.holes@ == before.remove(i),
        ensures
            self.wf(),
            self.free_set() == holes_free(before).difference(
                range(before[i].start as int, before[i].end()),
            ),
    {
        let after = self.holes@;
        let taken = range(before[i].start as int, before[i].end());
        assert forall|k: int| 0 <= k < after.len() implies #[trigger] after[k] == before[if k < i {
            k
        } else {
            k + 1
        }] by {}
        assert forall|b: int|
            self.free_set().contains(b) == holes_free(before).difference(taken).contains(b) by {
            if self.free_set().contains(b) {
                let k = choose|k: int|
                    0 <= k < after.len() && (#[trigger] after[k]).start <= b < after[k].end();
                let j = if k < i {
                    k
                } else {
                    k + 1
                };
                assert(after[k] == before[j]);
                assert(before[i].start <= before[i].end());
            }
            if holes_free(before).difference(taken).contains(b) {
                let k = choose|k: int|
                    0 <= k < before.len() && (#[trigger] before[k]).start <= b < before[k].end();
                let j = if k < i {
                    k
                } else {
                    k - 1
                };
                assert(after[j] == before[k]);
            }
        }
        assert(self.free_set() =~= holes_free(before).difference(taken));
    }

    proof fn lemma_taken_part(&self, before: Seq<Hole>, i: int, block: usize)
        requires
            0 <= i < before.len(),
            self.capacity % GRAIN == 0,
            self.capacity <= isize::MAX,
            holes_wf(before, self.capacity as int),
            block % GRAIN == 0,
            block >= MIN_BLOCK,
            before[i].size >= block + MIN_BLOCK,
            before[i].end() <= usize::MAX,
            self.holes@ == before.update(
                i,
                Hole {
                    start: (before[i].start + block) as usize,
                    size: (before[i].size - block) as usize,
                },
            ),
        ensures
            self.wf(),
            self.free_set() == holes_free(before).difference(
                range(before[i].start as int, before[i].start + block),
            ),
    {
        let after = self.holes@;
        let taken = range(before[i].start as int, before[i].start + block);
        assert(after[i].start == before[i].start + block);
        assert(after[i].end() == before[i].end());
        assert forall|k: int| 0 <= k < after.len() && k != i implies #[trigger] after[k]
            == before[k] by {}
        assert forall|k: int, j: int|
            #![trigger after[k], after[j]]
            0 <= k < j < after.len() implies after[k].end() < after[j].start by {
            assert(before[k].end() < before[j].start);
        }
        assert forall|b: int|
            self.free_set().contains(b) == holes_free(before).difference(taken).contains(b) by {
            if self.free_set().contains(b) {
                let k = choose|k: int|
                    0 <= k < after.len() && (#[trigger] after[k]).start <= b < after[k].end();
                assert(before[k].start <= b < before[k].end());
                assert(before[i].start <= before[i].end());
                if k != i && taken.contains(b) {
                    assert(k < i ==> before[k].end() < before[i].start);
                    assert(i < k ==> before[i].end() < before[k].start);
                }
            }
            if holes_free(before).difference(taken).contains(b) {
                let k = choose|k: int|
                    0 <= k < before.len() && (#[trigger] before[k]).start <= b < before[k].end();
                assert(after[k].start <= b < after[k].end());
            }
        }
        assert(self.free_set() =~= holes_free(before).difference(taken));
    }

    /// Gives the block of `len` bytes at `offset` back; none of it may be free.
    pub fn deallocate(&mut self, offset: usize, len: usize)
        requires
            old(self).wf(),
            offset % GRAIN == 0,
            offset + block_size(len as nat) <= old(self).capacity(),
            old(self).free_set().disjoint(range(offset as int, offset + block_size(len as nat))),
        ensures
            final(self).wf(),
            final(self).capacity() == old(self).capacity(),
            final(self).free_set() == old(self).free_set().union(
                range(offset as int, offset + block_size(len as nat)),
            ),
    {
        let ghost before = self.holes@;
        let block: usize = Self::block(len);
        let end: usize = offset + block;
        let ghost freed = range(offset as int, end as int);
        let n: usize = self.holes.len();
        let mut i: usize = 0;
        while i < n && self.holes[i].start < offset
            invariant
                i <= n,
                n == self.holes@.len(),
                *self == *old(self),
                before == self.holes@,
                forall|k: int| #![trigger before[k]] 0 <= k < i ==> before[k].start < offset,
            decreases n - i,
        {
            i = i + 1;
        }
        proof {
            assert forall|k: int| #![trigger before[k]] 0 <= k < i implies before[k].end()
                <= offset by {
                if before[k].end() > offset {
                    assert(holes_free(before).contains(offset as int));
                    assert(freed.contains(offset as int));
                }
            }
            assert forall|k: int| #![trigger before[k]] i <= k < n implies end
                <= before[k].start by {
                assert(i < n ==> before[i as int].start >= offset);
                assert(before[k].start >= offset) by {
                    if k > i {
                        assert(before[i as int].end() < before[k].start);
                    }
                }
                if before[k].start < end {
                    assert(holes_free(before).contains(before[k].start as int));
                    assert(freed.contains(before[k].start as int));
                }
            }
        }
        let joins_left: bool = i > 0 && self.holes[i - 1].start + self.holes[i - 1].size == offset;
        let joins_right: bool = i < n && self.holes[i].start == end;
        let from: usize = if joins_left {
            i - 1
        } else {
            i
        };
        let to: usize = if joins_right {
            i + 1
        } else {
            i
        };
        let start: usize = if joins_left {
            self.holes[i - 1].start
        } else {
            offset
        };
        let stop: usize = if joins_right {
            end + self.holes[i].size
        } else {
            end
        };
        let merged = Hole { start, size: stop - start };
        proof {
            assert forall|b: int|
                merged.start <= b < merged.end() && !(offset <= b < end) implies (
            #[trigger] holes_free(before).contains(b)) by {
                if b < offset {
                    assert(before[i - 1].start <= b < before[i - 1].end());
                } else {
                    assert(before[i as int].start <= b < before[i as int].end());
                }
            }
        }
        self.replace(from, to, merged);
        proof {
            self.lemma_merged(before, from as int, to as int, merged, offset as int, end as int);
        }
    }

    /// Puts one hole in the place of those from `from` up to, not including, `to`.
    fn replace(&mut self, from: usize, to: usize, hole: Hole)
        requires
            from <= to <= old(self).holes@.len(),
            to - from <= 2,
        ensures
            final(self).capacity == old(self).capacity,
            final(self).holes@ == old(self).holes@.take(from as int).push(hole)
                + old(self).holes@.skip(to as int),
    {
        let ghost before = self.holes@;
        if to == from {
            self.holes.insert(from, hole);
        } else {
            if to - from == 2 {
                self.holes.remove(from);
            }
            self.holes.set(from, hole);
        }
        assert(self.holes@ =~= before.take(from as int).push(hole) + before.skip(to as int));
    }

    /// The holes `from..to` and the freed range become the one hole `merged`.
    proof fn lemma_merged(
        &self,
        before: Seq<Hole>,
        from: int,
        to: int,
        merged: Hole,
        offset: int,
        end: int,
    )
        requires
            0 <= from <= to <= before.len(),
            to - from <= 2,
            self.capacity % GRAIN == 0,
            self.capacity <= isize::MAX,
            holes_wf(before, self.capacity as int),
            offset < end,
            merged.size >= MIN_BLOCK,
            merged.size % GRAIN == 0,
            merged.start % GRAIN == 0,
            merged.end() <= self.capacity,
            forall|k: int| #![trigger before[k]] 0 <= k < from ==> before[k].end() < merged.start,
            forall|k: int| #![trigger before[k]] to <= k < before.len() ==> merged.end() < before[k].start,
            forall|k: int|
                #![trigger before[k]]
                from <= k < to ==> merged.start <= before[k].start && before[k].end() <= merged.end(),
            forall|b: int|
                merged.start <= b < merged.end() && !(offset <= b < end) ==> (
                #[trigger] holes_free(before).contains(b)),
            merged.start <= offset,
            end <= merged.end(),
            self.holes@ == before.take(from).push(merged) + before.skip(to),
        ensures
            self.wf(),
            self.free_set() == holes_free(before).union(range(offset, end)),
    {
        let after = self.holes@;
        let shift = to - from - 1;
        assert forall|k: int| 0 <= k < after.len() implies #[trigger] after[k] == (if k < from {
            before[k]
        } else if k == from {
            merged
        } else {
            before[k + shift]
        }) by {}
        assert forall|b: int|
            self.free_set().contains(b) == holes_free(before).union(range(offset, end)).contains(
                b,
            ) by {
            if self.free_set().contains(b) {
                let k = choose|k: int|
                    0 <= k < after.len() && (#[trigger] after[k]).start <= b < after[k].end();
                if k < from {
                    assert(before[k].start <= b < before[k].end());
                } else if k > from {
                    assert(before[k + shift].start <= b < before[k + shift].end());
                }
            }
            if range(offset, end).contains(b) {
                assert(after[from].start <= b < after[from].end());
            }
            if holes_free(before).contains(b) {
                let k = choose|k: int|
                    0 <= k < before.len() && (#[trigger] before[k]).start <= b < before[k].end();
                if k < from {
                    assert(after[k].start <= b < after[k].end());
                } else if k < to {
                    assert(after[from].start <= b < after[from].end());
                } else {
                    assert(after[k - shift].start <= b < after[k - shift].end());
                }
            }
        }
        assert(self.free_set() =~= holes_free(before).union(range(offset, end)));
    }
}

} // verus!
