//! A value-distribution accumulator over non-negative integers: bucket `v`
//! counts how many times the value `v` was recorded.  Used to characterize
//! diagnostic measurements such as per-insertion probe displacements.

use crate::text::dec_str;
use crate::text::usize_to_string;
use vstd::prelude::*;
use vstd::string::StringExecFns;

verus! {

/// Dense, zero-indexed bucket counts; grows only by appending zeros up to a
/// newly requested index.
pub struct Hist(Vec<u32>);

impl View for Hist {
    type V = Seq<u32>;

    closed spec fn view(&self) -> Seq<u32> {
        self.0@
    }
}

/// The rendering `"<index> => <count>, "` of one histogram bucket.
pub open spec fn bucket_line(idx: nat, count: u32) -> Seq<char> {
    dec_str(idx) + " => "@ + dec_str(count as nat) + ", "@
}

/// The concatenated bucket lines for every index from `i` to the end.
pub open spec fn report_from(s: Seq<u32>, i: int) -> Seq<char>
    decreases s.len() - i,
{
    if i < 0 || i >= s.len() {
        Seq::empty()
    } else {
        bucket_line(i as nat, s[i]) + report_from(s, i + 1)
    }
}

/// The first index at or after `i` holding a nonzero count, or the length
/// of the sequence if there is none.
pub open spec fn first_nonzero(s: Seq<u32>, i: int) -> int
    decreases s.len() - i,
{
    if i < 0 || i >= s.len() {
        s.len() as int
    } else if s[i] != 0 {
        i
    } else {
        first_nonzero(s, i + 1)
    }
}

/// The full report: every bucket from the first nonzero count through the
/// end, rendered in order; indices before the first nonzero are omitted.
pub open spec fn report_str(s: Seq<u32>) -> Seq<char> {
    report_from(s, first_nonzero(s, 0))
}

/// The sum of `index * count` over all buckets: the total of all recorded
/// values.
pub open spec fn weighted_total(s: Seq<u32>) -> nat
    decreases s.len(),
{
    if s.len() == 0 {
        0
    } else {
        (weighted_total(s.drop_last()) + (s.len() - 1) * s.last()) as nat
    }
}

/// The sum of all bucket counts: the number of values recorded.
pub open spec fn count_total(s: Seq<u32>) -> nat
    decreases s.len(),
{
    if s.len() == 0 {
        0
    } else {
        (count_total(s.drop_last()) + s.last()) as nat
    }
}

proof fn lemma_weighted_take_succ(s: Seq<u32>, i: int)
    requires
        0 <= i < s.len(),
    ensures
        weighted_total(s.take(i + 1)) == weighted_total(s.take(i)) + i * s[i],
{
    assert(s.take(i + 1).drop_last() =~= s.take(i));
}

proof fn lemma_count_take_succ(s: Seq<u32>, i: int)
    requires
        0 <= i < s.len(),
    ensures
        count_total(s.take(i + 1)) == count_total(s.take(i)) + s[i],
{
    assert(s.take(i + 1).drop_last() =~= s.take(i));
}

proof fn lemma_weighted_take_le(s: Seq<u32>, i: int)
    requires
        0 <= i <= s.len(),
    ensures
        weighted_total(s.take(i)) <= weighted_total(s),
    decreases s.len() - i,
{
    if i == s.len() {
        assert(s.take(i) =~= s);
    } else {
        lemma_weighted_take_succ(s, i);
        lemma_weighted_take_le(s, i + 1);
        assert(i * s[i] >= 0) by (nonlinear_arith)
            requires
                i >= 0,
        ;
    }
}

proof fn lemma_count_take_le(s: Seq<u32>, i: int)
    requires
        0 <= i <= s.len(),
    ensures
        count_total(s.take(i)) <= count_total(s),
    decreases s.len() - i,
{
    if i == s.len() {
        assert(s.take(i) =~= s);
    } else {
        lemma_count_take_succ(s, i);
        lemma_count_take_le(s, i + 1);
    }
}

impl Hist {
    /// A fresh histogram with no buckets.
    pub fn new() -> (h: Hist)
        ensures
            h@ == Seq::<u32>::empty(),
    {
        Hist(Vec::new())
    }

    /// Record one occurrence of `val`: bump its bucket if it exists,
    /// otherwise zero-extend the buckets up through `val` and set that
    /// bucket to one.
    pub fn insert(&mut self, val: u32)
        requires
            val < old(self)@.len() ==> old(self)@[val as int] < u32::MAX,
        ensures
            val < old(self)@.len() ==> final(self)@ == old(self)@.update(
                val as int,
                (old(self)@[val as int] + 1) as u32,
            ),
            val >= old(self)@.len() ==> ({
                &&& final(self)@.len() == val + 1
                &&& forall|i: int| 0 <= i < old(self)@.len() ==> final(self)@[i] == old(self)@[i]
                &&& forall|i: int| old(self)@.len() <= i < val ==> final(self)@[i] == 0
                &&& final(self)@[val as int] == 1
            }),
    {
        if (val as usize) < self.0.len() {
            let c = self.0[val as usize];
            self.0[val as usize] = c + 1;
        } else {
            let ghost n0 = self@.len() as int;
            while self.0.len() < val as usize
                invariant
                    n0 == old(self)@.len(),
                    n0 <= self.0@.len() <= val,
                    forall|i: int| 0 <= i < n0 ==> self.0@[i] == old(self)@[i],
                    forall|i: int| n0 <= i < self.0@.len() ==> self.0@[i] == 0,
                decreases val as int - self.0@.len(),
            {
                self.0.push(0);
            }
            self.0.push(1);
        }
    }

    /// The number of buckets currently held.
    pub fn len(&self) -> (n: usize)
        ensures
            n == self@.len(),
    {
        self.0.len()
    }

    /// The count recorded in bucket `idx`.
    pub fn count_at(&self, idx: usize) -> (c: u32)
        requires
            idx < self@.len(),
        ensures
            c == self@[idx as int],
    {
        self.0[idx]
    }

    /// The sum of all recorded values (`index * count` over every bucket),
    /// or `None` exactly when that sum does not fit in a `u64`.
    pub fn weighted_sum(&self) -> (r: Option<u64>)
        ensures
            weighted_total(self@) <= u64::MAX ==> r == Some(weighted_total(self@) as u64),
            weighted_total(self@) > u64::MAX ==> r is None,
    {
        let n = self.0.len();
        let mut acc: u64 = 0;
        let mut i: usize = 0;
        while i < n
            invariant
                n == self@.len(),
                i <= n,
                acc == weighted_total(self@.take(i as int)),
            decreases n - i,
        {
            let c = self.0[i];
            proof {
                lemma_weighted_take_succ(self@, i as int);
            }
            let term = match (i as u64).checked_mul(c as u64) {
                Some(t) => t,
                None => {
                    proof {
                        lemma_weighted_take_le(self@, i as int + 1);
                    }
                    return None;
                },
            };
            acc = match acc.checked_add(term) {
                Some(a) => a,
                None => {
                    proof {
                        lemma_weighted_take_le(self@, i as int + 1);
                    }
                    return None;
                },
            };
            i = i + 1;
        }
        proof {
            assert(self@.take(n as int) =~= self@);
        }
        Some(acc)
    }

    /// The total number of values recorded (the sum of every bucket count),
    /// or `None` exactly when that sum does not fit in a `u64`.
    pub fn count_sum(&self) -> (r: Option<u64>)
        ensures
            count_total(self@) <= u64::MAX ==> r == Some(count_total(self@) as u64),
            count_total(self@) > u64::MAX ==> r is None,
    {
        let n = self.0.len();
        let mut acc: u64 = 0;
        let mut i: usize = 0;
        while i < n
            invariant
                n == self@.len(),
                i <= n,
                acc == count_total(self@.take(i as int)),
            decreases n - i,
        {
            let c = self.0[i];
            proof {
                lemma_count_take_succ(self@, i as int);
            }
            acc = match acc.checked_add(c as u64) {
                Some(a) => a,
                None => {
                    proof {
                        lemma_count_take_le(self@, i as int + 1);
                    }
                    return None;
                },
            };
            i = i + 1;
        }
        proof {
            assert(self@.take(n as int) =~= self@);
        }
        Some(acc)
    }

    /// Render `"<index> => <count>, "` for every bucket from the first
    /// nonzero count through the end of the sequence.
    pub fn report(&self) -> (out: String)
        ensures
            out@ == report_str(self@),
    {
        let n = self.0.len();
        let mut start: usize = 0;
        while start < n && self.0[start] == 0
            invariant
                n == self@.len(),
                start <= n,
                first_nonzero(self@, 0) == first_nonzero(self@, start as int),
            decreases n - start,
        {
            start = start + 1;
        }
        let mut out = String::new();
        let mut i = start;
        while i < n
            invariant
                n == self@.len(),
                start <= i <= n,
                out@ + report_from(self@, i as int) == report_from(self@, start as int),
            decreases n - i,
        {
            let ghost prev = out@;
            let c = self.0[i];
            let num = usize_to_string(i);
            out.append(num.as_str());
            out.append(" => ");
            let cnum = usize_to_string(c as usize);
            out.append(cnum.as_str());
            out.append(", ");
            proof {
                assert(out@ =~= prev + bucket_line(i as nat, c));
                assert(prev + bucket_line(i as nat, c) + report_from(self@, i as int + 1) =~= prev
                    + report_from(self@, i as int));
            }
            i = i + 1;
        }
        proof {
            assert(out@ + report_from(self@, n as int) =~= out@);
            assert(first_nonzero(self@, 0) == start as int);
        }
        out
    }
}

} // verus!
