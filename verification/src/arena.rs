//! Free-range bookkeeping for arena-style slot allocation.
//!
//! `FreeList` keeps the free ranges of an arena twice over: ordered by start
//! offset (for neighbour merging on release) and ordered by size (so that an
//! allocation takes the smallest range that fits, splitting off the rest).

use vstd::prelude::*;

verus! {

/// A ticket naming one allocation.
#[derive(Copy, Clone, PartialEq, Eq, Structural, Debug)]
pub struct AllocationId(pub usize);

impl AllocationId {
    /// A ticket with the given serial number; the caller hands out serials.
    pub fn new(serial: usize) -> (r: AllocationId)
        ensures
            r == AllocationId(serial),
    {
        AllocationId(serial)
    }
}

/// Entries ordered strictly by their first component.
pub open spec fn spec_keys_sorted(s: Seq<(usize, usize)>) -> bool {
    forall|i: int, j: int| 0 <= i < j < s.len() ==> s[i].0 < s[j].0
}

/// Entries ordered strictly lexicographically.
pub open spec fn spec_lex_sorted(s: Seq<(usize, usize)>) -> bool {
    forall|i: int, j: int|
        0 <= i < j < s.len() ==> (s[i].0 < s[j].0 || (s[i].0 == s[j].0 && s[i].1 < s[j].1))
}

/// The first index whose key is not below `k`.
pub open spec fn spec_key_lb(s: Seq<(usize, usize)>, k: usize) -> int
    decreases s.len(),
{
    if s.len() == 0 {
        0
    } else if s[0].0 >= k {
        0
    } else {
        1 + spec_key_lb(s.drop_first(), k)
    }
}

/// The first index not lexicographically below `p`.
pub open spec fn spec_lex_lb(s: Seq<(usize, usize)>, p: (usize, usize)) -> int
    decreases s.len(),
{
    if s.len() == 0 {
        0
    } else if s[0].0 > p.0 || (s[0].0 == p.0 && s[0].1 >= p.1) {
        0
    } else {
        1 + spec_lex_lb(s.drop_first(), p)
    }
}

/// A map-style insertion by key: replaces the entry with an equal key, else
/// places the new entry at its ordered position.
pub open spec fn spec_key_insert(s: Seq<(usize, usize)>, e: (usize, usize)) -> Seq<
    (usize, usize),
> {
    let i = spec_key_lb(s, e.0);
    if i < s.len() && s[i].0 == e.0 {
        s.update(i, e)
    } else {
        s.insert(i, e)
    }
}

/// A map-style removal by key.
pub open spec fn spec_key_remove(s: Seq<(usize, usize)>, k: usize) -> Seq<(usize, usize)> {
    let i = spec_key_lb(s, k);
    if i < s.len() && s[i].0 == k {
        s.remove(i)
    } else {
        s
    }
}

/// A set-style insertion: a pair already present stays single.
pub open spec fn spec_lex_insert(s: Seq<(usize, usize)>, p: (usize, usize)) -> Seq<
    (usize, usize),
> {
    let i = spec_lex_lb(s, p);
    if i < s.len() && s[i] == p {
        s
    } else {
        s.insert(i, p)
    }
}

/// A set-style removal.
pub open spec fn spec_lex_remove(s: Seq<(usize, usize)>, p: (usize, usize)) -> Seq<
    (usize, usize),
> {
    let i = spec_lex_lb(s, p);
    if i < s.len() && s[i] == p {
        s.remove(i)
    } else {
        s
    }
}

/// An allocation of `len` slots: the lexicographically first free range
/// whose size fits is taken off both orders, and what remains of it is put
/// back.
pub open spec fn spec_fl_alloc(
    by_start: Seq<(usize, usize)>,
    by_size: Seq<(usize, usize)>,
    len: usize,
) -> (Seq<(usize, usize)>, Seq<(usize, usize)>, Option<(usize, usize)>) {
    let i = spec_key_lb(by_size, len);
    if i >= by_size.len() {
        (by_start, by_size, None)
    } else {
        let size = by_size[i].0;
        let start = by_size[i].1;
        let bz1 = by_size.remove(i);
        let bs1 = spec_key_remove(by_start, start);
        if size > len {
            (
                spec_key_insert(bs1, ((start + len) as usize, (start + size) as usize)),
                spec_lex_insert(bz1, ((size - len) as usize, (start + len) as usize)),
                Some((start, (start + len) as usize)),
            )
        } else {
            (bs1, bz1, Some((start, (start + len) as usize)))
        }
    }
}

/// A release of `start..end`: the range is merged with an adjacent free
/// range on either side, then recorded in both orders.
pub open spec fn spec_fl_dealloc(
    by_start: Seq<(usize, usize)>,
    by_size: Seq<(usize, usize)>,
    start: usize,
    end: usize,
) -> (Seq<(usize, usize)>, Seq<(usize, usize)>) {
    let i = spec_key_lb(by_start, end);
    let merge_next = i < by_start.len() && by_start[i].0 == end;
    let end1 = if merge_next {
        by_start[i].1
    } else {
        end
    };
    let bz1 = if merge_next {
        spec_lex_remove(by_size, ((by_start[i].1 - by_start[i].0) as usize, by_start[i].0))
    } else {
        by_size
    };
    let bs1 = if merge_next {
        by_start.remove(i)
    } else {
        by_start
    };
    let j = spec_key_lb(bs1, start);
    let merge_prev = j > 0 && bs1[j - 1].1 == start;
    let start1 = if merge_prev {
        bs1[j - 1].0
    } else {
        start
    };
    let bz2 = if merge_prev {
        spec_lex_remove(bz1, ((bs1[j - 1].1 - bs1[j - 1].0) as usize, bs1[j - 1].0))
    } else {
        bz1
    };
    let bs2 = if merge_prev {
        bs1.remove(j - 1)
    } else {
        bs1
    };
    (
        spec_key_insert(bs2, (start1, end1)),
        spec_lex_insert(bz2, ((end1 - start1) as usize, start1)),
    )
}

/// The free ranges of an arena, ordered by start offset and by size.
pub struct FreeList {
    by_start: Vec<(usize, usize)>,
    by_size: Vec<(usize, usize)>,
}

impl FreeList {
    /// The ranges as `(start, end)`, ordered by start.
    pub closed spec fn starts(self) -> Seq<(usize, usize)> {
        self.by_start@
    }

    /// The ranges as `(size, start)`, ordered lexicographically.
    pub closed spec fn sizes(self) -> Seq<(usize, usize)> {
        self.by_size@
    }

    /// Well-formedness: both orders hold — so a lookup by start offset and
    /// the smallest-fit choice mean what they say — every range runs
    /// forward, and every size entry stays within the address space.
    pub open spec fn wf(self) -> bool {
        &&& spec_keys_sorted(self.starts())
        &&& spec_lex_sorted(self.sizes())
        &&& (forall|k: int|
            0 <= k < self.starts().len() ==> (#[trigger] self.starts()[k]).0
                <= self.starts()[k].1)
        &&& (forall|k: int|
            0 <= k < self.sizes().len() ==> (#[trigger] self.sizes()[k]).0 + self.sizes()[k].1
                <= usize::MAX)
    }

    /// An empty free list.
    pub fn new() -> (r: FreeList)
        ensures
            r.wf(),
            r.starts() == Seq::<(usize, usize)>::empty(),
            r.sizes() == Seq::<(usize, usize)>::empty(),
    {
        FreeList { by_start: Vec::new(), by_size: Vec::new() }
    }

    /// How many free ranges there are.
    pub fn segment_count(&self) -> (n: usize)
        ensures
            n == self.starts().len(),
    {
        self.by_start.len()
    }

    /// The end of the free range starting exactly at `start`, if one does.
    pub fn lookup(&self, start: usize) -> (r: Option<usize>)
        ensures
            ({
                let i = spec_key_lb(self.starts(), start);
                if i < self.starts().len() && self.starts()[i].0 == start {
                    r == Some(self.starts()[i].1)
                } else {
                    r is None
                }
            }),
    {
        let i = key_lb(&self.by_start, start);
        if i < self.by_start.len() && self.by_start[i].0 == start {
            Some(self.by_start[i].1)
        } else {
            None
        }
    }
}

/// The first index of `s` whose key is not below `k`.
fn key_lb(s: &Vec<(usize, usize)>, k: usize) -> (i: usize)
    ensures
        i == spec_key_lb(s@, k),
        i <= s@.len(),
{
    let ghost view = s@;
    let n = s.len();
    let mut i: usize = 0;
    proof {
        assert(view.skip(0) =~= view);
    }
    while i < n && s[i].0 < k
        invariant
            i <= n,
            n == s@.len(),
            view == s@,
            spec_key_lb(view, k) == i + spec_key_lb(view.skip(i as int), k),
        decreases n - i,
    {
        proof {
            assert(view.skip(i as int)[0] == view[i as int]);
            assert(view.skip(i as int).drop_first() =~= view.skip(i + 1));
        }
        i = i + 1;
    }
    proof {
        if i < n {
            assert(view.skip(i as int)[0] == view[i as int]);
        } else {
            assert(view.skip(i as int).len() == 0);
        }
    }
    i
}

/// The first index of `s` not lexicographically below `p`.
fn lex_lb(s: &Vec<(usize, usize)>, p: (usize, usize)) -> (i: usize)
    ensures
        i == spec_lex_lb(s@, p),
        i <= s@.len(),
{
    let ghost view = s@;
    let n = s.len();
    let mut i: usize = 0;
    proof {
        assert(view.skip(0) =~= view);
    }
    while i < n && (s[i].0 < p.0 || (s[i].0 == p.0 && s[i].1 < p.1))
        invariant
            i <= n,
            n == s@.len(),
            view == s@,
            spec_lex_lb(view, p) == i + spec_lex_lb(view.skip(i as int), p),
        decreases n - i,
    {
        proof {
            assert(view.skip(i as int)[0] == view[i as int]);
            assert(view.skip(i as int).drop_first() =~= view.skip(i + 1));
        }
        i = i + 1;
    }
    proof {
        if i < n {
            assert(view.skip(i as int)[0] == view[i as int]);
        } else {
            assert(view.skip(i as int).len() == 0);
        }
    }
    i
}

/// The key order splits at the lower bound.
proof fn lemma_key_lb_bounds(s: Seq<(usize, usize)>, k: usize)
    requires
        spec_keys_sorted(s),
    ensures
        0 <= spec_key_lb(s, k) <= s.len(),
        forall|j: int| 0 <= j < spec_key_lb(s, k) ==> s[j].0 < k,
        forall|j: int| spec_key_lb(s, k) <= j < s.len() ==> s[j].0 >= k,
    decreases s.len(),
{
    if s.len() == 0 {
    } else if s[0].0 >= k {
        assert(forall|j: int| 0 < j < s.len() ==> (#[trigger] s[j]).0 >= k);
    } else {
        assert(spec_keys_sorted(s.drop_first())) by {
            assert(forall|i: int, j: int|
                0 <= i < j < s.drop_first().len() ==> s.drop_first()[i].0 < s.drop_first()[j].0);
        }
        lemma_key_lb_bounds(s.drop_first(), k);
        let p = spec_key_lb(s, k);
        assert(forall|j: int| 1 <= j < p ==> s[j] == s.drop_first()[j - 1]);
        assert(forall|j: int| p <= j < s.len() ==> s[j] == s.drop_first()[j - 1]);
    }
}

/// The lexicographic order splits at the lower bound.
proof fn lemma_lex_lb_bounds(s: Seq<(usize, usize)>, p: (usize, usize))
    requires
        spec_lex_sorted(s),
    ensures
        0 <= spec_lex_lb(s, p) <= s.len(),
        forall|j: int|
            0 <= j < spec_lex_lb(s, p) ==> (s[j].0 < p.0 || (s[j].0 == p.0 && s[j].1 < p.1)),
        forall|j: int|
            spec_lex_lb(s, p) <= j < s.len() ==> (s[j].0 > p.0 || (s[j].0 == p.0 && s[j].1
                >= p.1)),
    decreases s.len(),
{
    if s.len() == 0 {
    } else if s[0].0 > p.0 || (s[0].0 == p.0 && s[0].1 >= p.1) {
        assert(forall|j: int|
            0 < j < s.len() ==> ((#[trigger] s[j]).0 > p.0 || (s[j].0 == p.0 && s[j].1 >= p.1)));
    } else {
        assert(spec_lex_sorted(s.drop_first())) by {
            assert(forall|i: int, j: int|
                0 <= i < j < s.drop_first().len() ==> (s.drop_first()[i].0 < s.drop_first()[j].0
                    || (s.drop_first()[i].0 == s.drop_first()[j].0 && s.drop_first()[i].1
                    < s.drop_first()[j].1)));
        }
        lemma_lex_lb_bounds(s.drop_first(), p);
        let q = spec_lex_lb(s, p);
        assert(forall|j: int| 1 <= j < q ==> s[j] == s.drop_first()[j - 1]);
        assert(forall|j: int| q <= j < s.len() ==> s[j] == s.drop_first()[j - 1]);
    }
}

impl FreeList {
    /// Inserts a `(start, end)` range into the start order.
    fn start_insert(&mut self, e: (usize, usize))
        requires
            old(self).wf(),
            e.0 <= e.1,
        ensures
            final(self).starts() == spec_key_insert(old(self).starts(), e),
            final(self).sizes() == old(self).sizes(),
            final(self).wf(),
    {
        let i = key_lb(&self.by_start, e.0);
        proof {
            lemma_key_lb_bounds(self.by_start@, e.0);
        }
        if i < self.by_start.len() && self.by_start[i].0 == e.0 {
            self.by_start[i] = e;
        } else {
            self.by_start.insert(i, e);
        }
    }

    /// Removes the range starting at `k` from the start order, if any.
    fn start_remove(&mut self, k: usize)
        requires
            old(self).wf(),
        ensures
            final(self).starts() == spec_key_remove(old(self).starts(), k),
            final(self).sizes() == old(self).sizes(),
            final(self).wf(),
    {
        let i = key_lb(&self.by_start, k);
        if i < self.by_start.len() && self.by_start[i].0 == k {
            self.by_start.remove(i);
        }
    }

    /// Inserts a `(size, start)` pair into the size order.
    fn size_insert(&mut self, p: (usize, usize))
        requires
            old(self).wf(),
            p.0 + p.1 <= usize::MAX,
        ensures
            final(self).sizes() == spec_lex_insert(old(self).sizes(), p),
            final(self).starts() == old(self).starts(),
            final(self).wf(),
    {
        let i = lex_lb(&self.by_size, p);
        proof {
            lemma_lex_lb_bounds(self.by_size@, p);
        }
        if !(i < self.by_size.len() && self.by_size[i].0 == p.0 && self.by_size[i].1 == p.1) {
            self.by_size.insert(i, p);
        }
    }

    /// Removes a `(size, start)` pair from the size order, if present.
    fn size_remove(&mut self, p: (usize, usize))
        requires
            old(self).wf(),
        ensures
            final(self).sizes() == spec_lex_remove(old(self).sizes(), p),
            final(self).starts() == old(self).starts(),
            final(self).wf(),
    {
        let i = lex_lb(&self.by_size, p);
        if i < self.by_size.len() && self.by_size[i].0 == p.0 && self.by_size[i].1 == p.1 {
            self.by_size.remove(i);
        }
    }

    /// Takes `len` slots out of the smallest free range that fits,
    /// returning its bounds, or `None` when no range fits.
    pub fn allocate(&mut self, len: usize) -> (r: Option<(usize, usize)>)
        requires
            old(self).wf(),
        ensures
            final(self).wf(),
            ({
                let a = spec_fl_alloc(old(self).starts(), old(self).sizes(), len);
                final(self).starts() == a.0 && final(self).sizes() == a.1 && r == a.2
            }),
    {
        let i = lex_lb(&self.by_size, (len, 0));
        proof {
            assert(spec_lex_lb(self.by_size@, (len, 0usize)) == spec_key_lb(self.by_size@, len))
                by {
                lemma_lex_key_lb_agree(self.by_size@, len);
            }
        }
        if i >= self.by_size.len() {
            return None;
        }
        let (size, start) = self.by_size[i];
        proof {
            assert(self.by_size@[i as int].0 + self.by_size@[i as int].1 <= usize::MAX);
            lemma_key_lb_at(self.by_size@, len);
            assert(size >= len);
        }
        self.by_size.remove(i);
        self.start_remove(start);
        if size > len {
            let new_start = start + len;
            let new_size = size - len;
            self.start_insert((new_start, new_start + new_size));
            self.size_insert((new_size, new_start));
        }
        Some((start, start + len))
    }

    /// Returns `start..end` to the free list, merging it with an adjacent
    /// free range on either side.
    #[verifier::rlimit(60)]
    pub fn dealloc(&mut self, start: usize, end: usize)
        requires
            old(self).wf(),
            start <= end,
        ensures
            final(self).wf(),
            ({
                let d = spec_fl_dealloc(old(self).starts(), old(self).sizes(), start, end);
                final(self).starts() == d.0 && final(self).sizes() == d.1
            }),
    {
        let mut start = start;
        let mut end = end;
        let i = key_lb(&self.by_start, end);
        if i < self.by_start.len() && self.by_start[i].0 == end {
            let (next_start, next_end) = self.by_start[i];
            self.size_remove((next_end - next_start, next_start));
            self.by_start.remove(i);
            end = next_end;
        }
        let j = key_lb(&self.by_start, start);
        if j > 0 && {
            let prev = self.by_start[j - 1];
            prev.1 == start
        } {
            let (prev_start, prev_end) = self.by_start[j - 1];
            self.size_remove((prev_end - prev_start, prev_start));
            self.by_start.remove(j - 1);
            start = prev_start;
        }
        self.start_insert((start, end));
        self.size_insert((end - start, start));
    }
}

/// A key lower bound that lands inside the sequence points at an entry
/// whose key reached the probe.
proof fn lemma_key_lb_at(s: Seq<(usize, usize)>, k: usize)
    ensures
        0 <= spec_key_lb(s, k) <= s.len(),
        spec_key_lb(s, k) < s.len() ==> s[spec_key_lb(s, k)].0 >= k,
    decreases s.len(),
{
    if s.len() == 0 {
    } else if s[0].0 >= k {
    } else {
        lemma_key_lb_at(s.drop_first(), k);
        let p = spec_key_lb(s, k);
        assert(p == 1 + spec_key_lb(s.drop_first(), k));
        if p < s.len() {
            assert(s.drop_first().len() == s.len() - 1);
            assert(0 <= p - 1 < s.drop_first().len());
            assert(s.drop_first() =~= s.subrange(1, s.len() as int));
            assert(s.subrange(1, s.len() as int)[p - 1] == s[p]);
        }
    }
}

/// For a probe pair with second component zero, the lexicographic lower
/// bound is the key lower bound.
proof fn lemma_lex_key_lb_agree(s: Seq<(usize, usize)>, k: usize)
    ensures
        spec_lex_lb(s, (k, 0usize)) == spec_key_lb(s, k),
    decreases s.len(),
{
    if s.len() == 0 {
    } else if s[0].0 >= k {
    } else {
        lemma_lex_key_lb_agree(s.drop_first(), k);
    }
}

} // verus!
