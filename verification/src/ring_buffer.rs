use vstd::prelude::*;

verus! {

/// A fixed-capacity circular store. The live region is `len` elements
/// starting at `start`, wrapping at the end of the backing storage. One
/// instance serves as the rolling input-history window of the grain engine
/// and another as its output overlap-add accumulator.
pub struct RingBuffer<T> {
    data: Vec<T>,
    size: usize,
    start: usize,
    len: usize,
    fill: T,
}

impl<T> RingBuffer<T> {
    /// Capacity of the backing storage.
    pub closed spec fn cap(&self) -> nat {
        self.size as nat
    }

    /// The value unused slots are initialised to, and the value written into
    /// freed slots when a slide is given no source.
    pub closed spec fn fill_value(&self) -> T {
        self.fill
    }

    pub closed spec fn well_formed(&self) -> bool {
        &&& self.data@.len() == self.size
        &&& self.len <= self.size
        &&& (self.start < self.size || (self.size == 0 && self.start == 0))
    }

    /// Physical index of logical position `i` of the live region.
    spec fn phys_at(&self, i: int) -> int {
        if self.start + i < self.size {
            self.start + i
        } else {
            self.start + i - self.size
        }
    }
}

impl<T> View for RingBuffer<T> {
    type V = Seq<T>;

    /// The live region in logical order, oldest element first.
    closed spec fn view(&self) -> Seq<T> {
        Seq::new(self.len as nat, |i: int| self.data@[self.phys_at(i)])
    }
}

impl<T: Copy> RingBuffer<T> {
    pub fn new(size: usize, filled: bool, fill: T) -> (r: Self)
        ensures
            r.well_formed(),
            r.cap() == size,
            r.fill_value() == fill,
            r@.len() == (if filled { size as nat } else { 0nat }),
            forall|i: int| 0 <= i < r@.len() ==> r@[i] == fill,
    {
        let mut data: Vec<T> = Vec::new();
        let mut i: usize = 0;
        while i < size
            invariant
                i <= size,
                data@.len() == i,
                forall|j: int| 0 <= j < i ==> data@[j] == fill,
            decreases size - i,
        {
            data.push(fill);
            i = i + 1;
        }
        RingBuffer { data, size, start: 0, len: if filled { size } else { 0 }, fill }
    }

    pub fn len(&self) -> (r: usize)
        ensures
            r == self@.len(),
    {
        self.len
    }

    /// Physical index of logical position `i`, computed without overflow.
    fn phys(&self, i: usize) -> (r: usize)
        requires
            self.well_formed(),
            i < self.size,
        ensures
            r == self.phys_at(i as int),
            r < self.size,
    {
        let wrap = self.size - self.start;
        if i < wrap {
            self.start + i
        } else {
            i - wrap
        }
    }

    fn get_at(&self, i: usize) -> (r: T)
        requires
            self.well_formed(),
            i < self@.len(),
        ensures
            r == self@[i as int],
    {
        let p = self.phys(i);
        self.data[p]
    }

    fn set_at(&mut self, i: usize, v: T)
        requires
            old(self).well_formed(),
            i < old(self)@.len(),
        ensures
            final(self).well_formed(),
            final(self)@ == old(self)@.update(i as int, v),
            final(self).cap() == old(self).cap(),
            final(self).fill_value() == old(self).fill_value(),
    {
        let p = self.phys(i);
        self.data[p] = v;
        proof {
            assert(self@ =~= old(self)@.update(i as int, v));
        }
    }

    /// Logically discard the `count` oldest elements, advancing the head of
    /// the live region.
    pub fn remove(&mut self, count: usize)
        requires
            old(self).well_formed(),
            count <= old(self)@.len(),
        ensures
            final(self).well_formed(),
            final(self)@ == old(self)@.skip(count as int),
            final(self).cap() == old(self).cap(),
            final(self).fill_value() == old(self).fill_value(),
    {
        let wrap = self.size - self.start;
        self.start = if count < wrap {
            self.start + count
        } else {
            count - wrap
        };
        self.len = self.len - count;
        proof {
            assert(self@ =~= old(self)@.skip(count as int));
        }
    }

    /// Append the elements of `src` after the newest element of the live
    /// region, growing it.
    pub fn iter_append(&mut self, src: &[T])
        requires
            old(self).well_formed(),
            old(self)@.len() + src@.len() <= old(self).cap(),
        ensures
            final(self).well_formed(),
            final(self)@ == old(self)@ + src@,
            final(self).cap() == old(self).cap(),
            final(self).fill_value() == old(self).fill_value(),
    {
        let n = src.len();
        let old_len = self.len;
        self.len = self.len + n;
        let mut j: usize = 0;
        while j < n
            invariant
                j <= n,
                n == src@.len(),
                self.well_formed(),
                self.cap() == old(self).cap(),
                self.fill_value() == old(self).fill_value(),
                self@.len() == old_len + n,
                old_len + n <= self.cap(),
                old_len == old(self)@.len(),
                forall|k: int| 0 <= k < old_len ==> self@[k] == old(self)@[k],
                forall|k: int| 0 <= k < j ==> self@[old_len + k] == src@[k],
            decreases n - j,
        {
            let v = *vstd::slice::slice_index_get(src, j);
            self.set_at(old_len + j, v);
            j = j + 1;
        }
        proof {
            assert(self@ =~= old(self)@ + src@);
        }
    }

    /// Copy out the elements of the live region from a relative offset to its
    /// logical end. A non-negative offset counts forward from the oldest
    /// element; a negative offset `-k` names the `k` newest elements.
    pub fn iter(&self, start: isize) -> (r: Vec<T>)
        requires
            self.well_formed(),
            -(self@.len() as int) <= start < self@.len() as int,
        ensures
            r@ == self@.skip(
                if start >= 0 {
                    start as int
                } else {
                    self@.len() + start
                },
            ),
    {
        let norm: usize = if start >= 0 {
            start as usize
        } else {
            (self.len as i128 + start as i128) as usize
        };
        let mut r: Vec<T> = Vec::new();
        let mut k: usize = norm;
        while k < self.len
            invariant
                norm <= k <= self@.len(),
                self.well_formed(),
                r@.len() == k - norm,
                forall|j: int| 0 <= j < r@.len() ==> r@[j] == self@[norm + j],
            decreases self.len - k,
        {
            r.push(self.get_at(k));
            k = k + 1;
        }
        proof {
            assert(r@ =~= self@.skip(norm as int));
        }
        r
    }

    /// Overwrite `src.len()` elements of the live region in place, beginning
    /// at a relative offset with the meaning of `iter`.
    pub fn iter_mut(&mut self, start: isize, src: &[T])
        requires
            old(self).well_formed(),
            -(old(self)@.len() as int) <= start < old(self)@.len() as int,
            (if start >= 0 {
                start as int
            } else {
                old(self)@.len() + start
            }) + src@.len() <= old(self)@.len(),
        ensures
            final(self).well_formed(),
            final(self).cap() == old(self).cap(),
            final(self).fill_value() == old(self).fill_value(),
            ({
                let norm = if start >= 0 {
                    start as int
                } else {
                    old(self)@.len() + start
                };
                final(self)@ == old(self)@.take(norm) + src@ + old(self)@.skip(
                    norm + src@.len(),
                )
            }),
    {
        let norm: usize = if start >= 0 {
            start as usize
        } else {
            (self.len as i128 + start as i128) as usize
        };
        let n = src.len();
        let mut j: usize = 0;
        while j < n
            invariant
                j <= n,
                n == src@.len(),
                norm + n <= old(self)@.len(),
                self.well_formed(),
                self.cap() == old(self).cap(),
                self.fill_value() == old(self).fill_value(),
                self@.len() == old(self)@.len(),
                forall|k: int| 0 <= k < self@.len() && !(norm <= k < norm + j) ==> self@[k]
                    == old(self)@[k],
                forall|k: int| 0 <= k < j ==> self@[norm + k] == src@[k],
            decreases n - j,
        {
            let v = *vstd::slice::slice_index_get(src, j);
            self.set_at(norm + j, v);
            j = j + 1;
        }
        proof {
            assert(self@ =~= old(self)@.take(norm as int) + src@ + old(self)@.skip(
                norm + src@.len(),
            ));
        }
    }

    /// Remove the `count` oldest elements and hand back their values in
    /// logical order.
    pub fn iter_remove(&mut self, count: usize) -> (r: Vec<T>)
        requires
            old(self).well_formed(),
            count <= old(self)@.len(),
        ensures
            final(self).well_formed(),
            r@ == old(self)@.take(count as int),
            final(self)@ == old(self)@.skip(count as int),
            final(self).cap() == old(self).cap(),
            final(self).fill_value() == old(self).fill_value(),
    {
        let mut r: Vec<T> = Vec::new();
        let mut k: usize = 0;
        while k < count
            invariant
                k <= count,
                count <= self@.len(),
                self.well_formed(),
                r@.len() == k,
                forall|j: int| 0 <= j < k ==> r@[j] == self@[j],
            decreases count - k,
        {
            r.push(self.get_at(k));
            k = k + 1;
        }
        self.remove(count);
        proof {
            assert(r@ =~= old(self)@.take(count as int));
        }
        r
    }

    /// Slide a full buffer: the `src.len()` oldest elements leave the head of
    /// the live region and are handed back, while `src` is written into the
    /// freed slots at its tail, in lock-step. The buffer stays full.
    pub fn iter_replace(&mut self, src: &[T]) -> (r: Vec<T>)
        requires
            old(self).well_formed(),
            old(self)@.len() == old(self).cap(),
            src@.len() <= old(self).cap(),
        ensures
            final(self).well_formed(),
            r@ == old(self)@.take(src@.len() as int),
            final(self)@ == old(self)@.skip(src@.len() as int) + src@,
            final(self)@.len() == final(self).cap(),
            final(self).cap() == old(self).cap(),
            final(self).fill_value() == old(self).fill_value(),
    {
        let r = self.iter_remove(src.len());
        self.iter_append(src);
        r
    }

    /// Append the elements of `src`, exactly as `iter_append` does.
    pub fn copy_append(&mut self, src: &[T])
        requires
            old(self).well_formed(),
            old(self)@.len() + src@.len() <= old(self).cap(),
        ensures
            final(self).well_formed(),
            final(self)@ == old(self)@ + src@,
            final(self).cap() == old(self).cap(),
            final(self).fill_value() == old(self).fill_value(),
    {
        self.iter_append(src);
    }

    /// Remove the `count` oldest elements and hand back their values, exactly
    /// as `iter_remove` does.
    pub fn copy_remove(&mut self, count: usize) -> (r: Vec<T>)
        requires
            old(self).well_formed(),
            count <= old(self)@.len(),
        ensures
            final(self).well_formed(),
            r@ == old(self)@.take(count as int),
            final(self)@ == old(self)@.skip(count as int),
            final(self).cap() == old(self).cap(),
            final(self).fill_value() == old(self).fill_value(),
    {
        self.iter_remove(count)
    }

    /// Slide a full buffer by copying: the oldest elements leave and are
    /// handed back when `dst_len` asks for them, and the freed slots at the
    /// tail take `src`, or the fill value when no source is given. The number
    /// of slots slid is `src.len()`, or `dst_len` when there is no source;
    /// when both are given they must agree. The buffer stays full throughout.
    pub fn copy_replace(&mut self, src: Option<&[T]>, dst_len: Option<usize>) -> (r: Option<
        Vec<T>,
    >)
        requires
            old(self).well_formed(),
            old(self)@.len() == old(self).cap(),
            match (src, dst_len) {
                (Some(s), Some(d)) => s@.len() == d && d <= old(self).cap(),
                (Some(s), None) => s@.len() <= old(self).cap(),
                (None, Some(d)) => d <= old(self).cap(),
                (None, None) => false,
            },
        ensures
            final(self).well_formed(),
            final(self)@.len() == final(self).cap(),
            final(self).cap() == old(self).cap(),
            final(self).fill_value() == old(self).fill_value(),
            ({
                let k = match (src, dst_len) {
                    (Some(s), _) => s@.len() as int,
                    (None, Some(d)) => d as int,
                    (None, None) => 0,
                };
                &&& final(self)@ == old(self)@.skip(k) + (match src {
                    Some(s) => s@,
                    None => Seq::new(k as nat, |i: int| old(self).fill_value()),
                })
                &&& (match (dst_len, r) {
                    (Some(_), Some(out)) => out@ == old(self)@.take(k),
                    (None, None) => true,
                    _ => false,
                })
            }),
    {
        let k: usize = match (&src, &dst_len) {
            (Some(s), _) => s.len(),
            (None, Some(d)) => *d,
            (None, None) => 0,
        };
        let out = if dst_len.is_some() {
            Some(self.iter_remove(k))
        } else {
            self.remove(k);
            None
        };
        match src {
            Some(s) => {
                self.iter_append(s);
            },
            None => {
                let mut fills: Vec<T> = Vec::new();
                let mut i: usize = 0;
                while i < k
                    invariant
                        i <= k,
                        fills@.len() == i,
                        forall|j: int| 0 <= j < i ==> fills@[j] == self.fill_value(),
                    decreases k - i,
                {
                    let f = self.fill;
                    fills.push(f);
                    i = i + 1;
                }
                self.iter_append(fills.as_slice());
                proof {
                    assert(fills@ =~= Seq::new(k as nat, |i: int| old(self).fill_value()));
                }
            },
        }
        out
    }
}

/// One mutation of the circular-buffer model: appending new elements at the
/// tail, or removing the oldest elements from the head.
pub enum BufOp<T> {
    Append(Seq<T>),
    Remove(nat),
}

pub open spec fn apply_op<T>(s: Seq<T>, op: BufOp<T>) -> Seq<T> {
    match op {
        BufOp::Append(xs) => s + xs,
        BufOp::Remove(n) => s.skip(n as int),
    }
}

pub open spec fn apply_ops<T>(s: Seq<T>, ops: Seq<BufOp<T>>) -> Seq<T>
    decreases ops.len(),
{
    if ops.len() == 0 {
        s
    } else {
        apply_ops(apply_op(s, ops[0]), ops.skip(1))
    }
}

/// Each step stays within the capacity: an append fits in the free space and
/// a remove takes no more than what is live.
pub open spec fn ops_valid<T>(s: Seq<T>, ops: Seq<BufOp<T>>, cap: nat) -> bool
    decreases ops.len(),
{
    if ops.len() == 0 {
        true
    } else {
        &&& (match ops[0] {
            BufOp::Append(xs) => s.len() + xs.len() <= cap,
            BufOp::Remove(n) => n <= s.len(),
        })
        &&& ops_valid(apply_op(s, ops[0]), ops.skip(1), cap)
    }
}

pub open spec fn appended_total<T>(ops: Seq<BufOp<T>>) -> nat
    decreases ops.len(),
{
    if ops.len() == 0 {
        0
    } else {
        (match ops[0] {
            BufOp::Append(xs) => xs.len(),
            BufOp::Remove(n) => 0,
        }) + appended_total(ops.skip(1))
    }
}

pub open spec fn removed_total<T>(ops: Seq<BufOp<T>>) -> nat
    decreases ops.len(),
{
    if ops.len() == 0 {
        0
    } else {
        (match ops[0] {
            BufOp::Append(xs) => 0nat,
            BufOp::Remove(n) => n,
        }) + removed_total(ops.skip(1))
    }
}

/// Everything appended by `ops`, in order.
pub open spec fn appended_all<T>(ops: Seq<BufOp<T>>) -> Seq<T>
    decreases ops.len(),
{
    if ops.len() == 0 {
        Seq::empty()
    } else {
        (match ops[0] {
            BufOp::Append(xs) => xs,
            BufOp::Remove(n) => Seq::empty(),
        }) + appended_all(ops.skip(1))
    }
}

/// Law: over any capacity-respecting sequence of appends and removes, the
/// live region holds exactly the total appended minus the total removed, and
/// it is precisely the not-yet-removed suffix of the starting contents
/// followed by everything appended, in insertion order. Reading it from the
/// head (`iter(0)`) therefore yields the elements in insertion order, and
/// reading at offset `-k` (`iter(-k)`) yields the `k` newest.
pub proof fn lemma_append_remove<T>(s: Seq<T>, ops: Seq<BufOp<T>>, cap: nat)
    requires
        ops_valid(s, ops, cap),
    ensures
        appended_all(ops).len() == appended_total(ops),
        removed_total(ops) <= s.len() + appended_total(ops),
        apply_ops(s, ops).len() == s.len() + appended_total(ops) - removed_total(ops),
        apply_ops(s, ops) == (s + appended_all(ops)).skip(removed_total(ops) as int),
    decreases ops.len(),
{
    if ops.len() == 0 {
        assert(apply_ops(s, ops) =~= (s + appended_all(ops)).skip(removed_total(ops) as int));
    } else {
        let s1 = apply_op(s, ops[0]);
        let rest = ops.skip(1);
        lemma_append_remove(s1, rest, cap);
        assert(apply_ops(s, ops) == apply_ops(s1, rest));
        match ops[0] {
            BufOp::Append(xs) => {
                assert(s1 + appended_all(rest) =~= s + appended_all(ops));
                assert(removed_total(ops) == removed_total(rest));
                assert(apply_ops(s1, rest) == (s1 + appended_all(rest)).skip(
                    removed_total(rest) as int,
                ));
                assert(apply_ops(s, ops) == (s + appended_all(ops)).skip(
                    removed_total(ops) as int,
                ));
            },
            BufOp::Remove(n) => {
                assert(n <= s.len());
                assert(s1 + appended_all(rest) =~= (s + appended_all(ops)).skip(n as int));
                assert(removed_total(ops) == n + removed_total(rest));
                assert(apply_ops(s1, rest) == (s1 + appended_all(rest)).skip(
                    removed_total(rest) as int,
                ));
                assert(apply_ops(s, ops) == (s + appended_all(ops)).skip(n as int).skip(
                    removed_total(rest) as int,
                ));
                assert(n + removed_total(rest) <= (s + appended_all(ops)).len());
                vstd::seq_lib::lemma_seq_skip_of_skip(
                    s + appended_all(ops),
                    n as int,
                    removed_total(rest) as int,
                );
                assert(apply_ops(s, ops) == (s + appended_all(ops)).skip(
                    removed_total(ops) as int,
                ));
            },
        }
    }
}

} // verus!
