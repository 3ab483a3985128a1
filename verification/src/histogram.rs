//! A frequency mapping from distinct opaque colors to occurrence counts,
//! built by scanning one or more pixel buffers and skipping fully
//! transparent pixels.

use vstd::prelude::*;
use crate::color::Color;

verus! {

/// One histogram bucket: an opaque color and how many pixels held it.
#[derive(Clone, Copy, PartialEq, Eq, Structural, Debug)]
pub struct HistEntry {
    pub color: Color,
    pub count: u64,
}

/// How many pixels of `pixels` equal `c`.
pub open spec fn occurrences(pixels: Seq<Color>, c: Color) -> nat
    decreases pixels.len(),
{
    if pixels.len() == 0 {
        0
    } else {
        occurrences(pixels.drop_last(), c) + (if pixels.last() == c {
            1nat
        } else {
            0nat
        })
    }
}

/// How many pixels of `pixels` are opaque (alpha above zero).
pub open spec fn opaque_count(pixels: Seq<Color>) -> nat
    decreases pixels.len(),
{
    if pixels.len() == 0 {
        0
    } else {
        opaque_count(pixels.drop_last()) + (if pixels.last().a > 0 {
            1nat
        } else {
            0nat
        })
    }
}

/// The count the buckets record for color `c`.
pub open spec fn bucket_count(entries: Seq<HistEntry>, c: Color) -> nat
    decreases entries.len(),
{
    if entries.len() == 0 {
        0
    } else {
        bucket_count(entries.drop_last(), c) + (if entries.last().color == c {
            entries.last().count as nat
        } else {
            0nat
        })
    }
}

/// The sum of all bucket counts.
pub open spec fn sum_counts(entries: Seq<HistEntry>) -> nat
    decreases entries.len(),
{
    if entries.len() == 0 {
        0
    } else {
        sum_counts(entries.drop_last()) + entries.last().count as nat
    }
}

/// A frequency table of the opaque colors seen so far. Keys are unique,
/// every recorded color is opaque, and `total` carries the overall number
/// of pixels counted.
pub struct Histogram {
    pub entries: Vec<HistEntry>,
    pub total: u64,
}

impl Histogram {
    pub open spec fn wf(self) -> bool {
        &&& forall|i: int|
            0 <= i < self.entries@.len() ==> (#[trigger] self.entries@[i]).color.a > 0
        &&& forall|i: int| 0 <= i < self.entries@.len() ==> (#[trigger] self.entries@[i]).count >= 1
        &&& forall|i: int, j: int|
            0 <= i < j < self.entries@.len() ==> (#[trigger] self.entries@[i]).color != (
            #[trigger] self.entries@[j]).color
        &&& sum_counts(self.entries@) == self.total
    }

    /// The number of occurrences recorded for color `c`.
    pub open spec fn count(self, c: Color) -> nat {
        bucket_count(self.entries@, c)
    }

    /// The overall number of pixels counted.
    pub open spec fn total(self) -> u64 {
        self.total
    }

    pub open spec fn buckets(self) -> Seq<HistEntry> {
        self.entries@
    }

    /// An empty mapping.
    pub fn new() -> (h: Histogram)
        ensures
            h.wf(),
            h.total() == 0,
            h.buckets().len() == 0,
            forall|c: Color| h.count(c) == 0,
    {
        let h = Histogram { entries: Vec::new(), total: 0 };
        proof {
            assert(forall|c: Color| h.count(c) == 0);
        }
        h
    }

    /// Read access to the buckets, for the quantizer.
    pub fn entries(&self) -> (entries: &Vec<HistEntry>)
        ensures
            entries@ == self.buckets(),
    {
        &self.entries
    }

    /// The count recorded for one color.
    pub fn count_of(&self, c: &Color) -> (n: u64)
        requires
            self.wf(),
        ensures
            n == self.count(*c),
    {
        let mut i: usize = 0;
        while i < self.entries.len()
            invariant
                self.wf(),
                i <= self.entries@.len(),
                bucket_count(self.entries@.take(i as int), *c) == 0,
            decreases self.entries@.len() - i,
        {
            proof {
                assert(self.entries@.take(i + 1).drop_last() =~= self.entries@.take(i as int));
            }
            if self.entries[i].color == *c {
                proof {
                    lemma_bucket_count_found(self.entries@, *c, i as int);
                }
                return self.entries[i].count;
            }
            i += 1;
        }
        proof {
            assert(self.entries@.take(i as int) =~= self.entries@);
        }
        0
    }

    /// Record one opaque pixel.
    fn add_pixel(&mut self, c: Color)
        requires
            old(self).wf(),
            c.a > 0,
            old(self).total() < u64::MAX,
        ensures
            final(self).wf(),
            final(self).count(c) == old(self).count(c) + 1,
            forall|d: Color| d != c ==> final(self).count(d) == old(self).count(d),
            final(self).total() == old(self).total() + 1,
    {
        let ghost entries0 = self.entries@;
        match self.find_color(&c) {
            Some(i) => {
                proof {
                    lemma_count_le_sum(entries0, i as int);
                }
                let old_count = self.entries[i].count;
                self.entries[i] = HistEntry { color: c, count: old_count + 1 };
                self.total = self.total + 1;
                proof {
                    lemma_bucket_update(entries0, i as int, self.entries@[i as int], c);
                    lemma_sum_update(entries0, i as int, self.entries@[i as int]);
                }
            }
            None => {
                self.entries.push(HistEntry { color: c, count: 1 });
                self.total = self.total + 1;
                proof {
                    assert(self.entries@.drop_last() =~= entries0);
                    lemma_bucket_missing(entries0, c);
                }
            }
        }
    }

    /// The index of the bucket holding color `c`, if one exists.
    fn find_color(&self, c: &Color) -> (r: Option<usize>)
        ensures
            match r {
                Some(i) => i < self.entries@.len() && self.entries@[i as int].color == *c,
                None => forall|j: int|
                    0 <= j < self.entries@.len() ==> (#[trigger] self.entries@[j]).color != *c,
            },
    {
        let mut i: usize = 0;
        while i < self.entries.len()
            invariant
                i <= self.entries@.len(),
                forall|j: int| 0 <= j < i ==> (#[trigger] self.entries@[j]).color != *c,
            decreases self.entries@.len() - i,
        {
            if self.entries[i].color == *c {
                return Some(i);
            }
            i += 1;
        }
        None
    }

    /// Count every opaque pixel of `pixels`, skipping fully transparent
    /// ones entirely. Repeated calls merge the contributions of several
    /// images; the merge lemmas below show the order cannot matter.
    pub fn accumulate(&mut self, pixels: &Vec<Color>)
        requires
            old(self).wf(),
            old(self).total() + pixels@.len() <= u64::MAX,
        ensures
            final(self).wf(),
            forall|c: Color|
                c.a > 0 ==> final(self).count(c) == old(self).count(c) + occurrences(pixels@, c),
            forall|c: Color| c.a == 0 ==> final(self).count(c) == old(self).count(c),
            final(self).total() == old(self).total() + opaque_count(pixels@),
            final(self).total() <= old(self).total() + pixels@.len(),
    {
        proof {
            lemma_opaque_count_le(pixels@);
        }
        let ghost h0 = *self;
        let mut i: usize = 0;
        while i < pixels.len()
            invariant
                self.wf(),
                i <= pixels@.len(),
                old(self).total() + pixels@.len() <= u64::MAX,
                forall|c: Color|
                    c.a > 0 ==> self.count(c) == h0.count(c) + occurrences(
                        pixels@.take(i as int),
                        c,
                    ),
                forall|c: Color| c.a == 0 ==> self.count(c) == h0.count(c),
                self.total() == h0.total() + opaque_count(pixels@.take(i as int)),
                h0 == *old(self),
            decreases pixels@.len() - i,
        {
            proof {
                assert(pixels@.take(i + 1).drop_last() =~= pixels@.take(i as int));
                lemma_opaque_count_le(pixels@.take(i + 1));
                assert(pixels@.take(i + 1).len() == i + 1);
            }
            let p = pixels[i];
            if p.a > 0 {
                proof {
                    lemma_opaque_count_le(pixels@.take(i as int));
                }
                self.add_pixel(p);
            }
            i += 1;
        }
        proof {
            assert(pixels@.take(i as int) =~= pixels@);
        }
    }
}

/// A bucket's count never exceeds the sum of all counts.
proof fn lemma_count_le_sum(entries: Seq<HistEntry>, i: int)
    requires
        0 <= i < entries.len(),
    ensures
        entries[i].count <= sum_counts(entries),
    decreases entries.len(),
{
    if i + 1 < entries.len() {
        lemma_count_le_sum(entries.drop_last(), i);
    }
}

/// Opaque pixels are no more numerous than pixels.
proof fn lemma_opaque_count_le(pixels: Seq<Color>)
    ensures
        opaque_count(pixels) <= pixels.len(),
    decreases pixels.len(),
{
    if pixels.len() > 0 {
        lemma_opaque_count_le(pixels.drop_last());
    }
}

/// With unique colors, the bucket holding `c` carries the whole count.
proof fn lemma_bucket_count_found(entries: Seq<HistEntry>, c: Color, i: int)
    requires
        0 <= i < entries.len(),
        entries[i].color == c,
        forall|k: int, j: int|
            0 <= k < j < entries.len() ==> (#[trigger] entries[k]).color != (
            #[trigger] entries[j]).color,
    ensures
        bucket_count(entries, c) == entries[i].count,
    decreases entries.len(),
{
    if i + 1 < entries.len() {
        lemma_bucket_count_found(entries.drop_last(), c, i);
    } else {
        lemma_bucket_missing(entries.drop_last(), c);
    }
}

/// A color held by no bucket has count zero.
proof fn lemma_bucket_missing(entries: Seq<HistEntry>, c: Color)
    requires
        forall|j: int| 0 <= j < entries.len() ==> (#[trigger] entries[j]).color != c,
    ensures
        bucket_count(entries, c) == 0,
    decreases entries.len(),
{
    if entries.len() > 0 {
        lemma_bucket_missing(entries.drop_last(), c);
    }
}

/// Raising one bucket's count by one raises that color's count by one and
/// no other.
proof fn lemma_bucket_update(entries: Seq<HistEntry>, i: int, e: HistEntry, c: Color)
    requires
        0 <= i < entries.len(),
        e.color == entries[i].color,
        e.color == c,
        e.count == entries[i].count + 1,
    ensures
        bucket_count(entries.update(i, e), c) == bucket_count(entries, c) + 1,
        forall|d: Color| d != c ==> bucket_count(entries.update(i, e), d) == bucket_count(
            entries,
            d,
        ),
    decreases entries.len(),
{
    if i + 1 < entries.len() {
        assert(entries.update(i, e).drop_last() =~= entries.drop_last().update(i, e));
        lemma_bucket_update(entries.drop_last(), i, e, c);
        assert forall|d: Color| d != c implies bucket_count(entries.update(i, e), d)
            == bucket_count(entries, d) by {
            assert(bucket_count(entries.drop_last().update(i, e), d) == bucket_count(
                entries.drop_last(),
                d,
            ));
        }
    } else {
        assert(entries.update(i, e).drop_last() =~= entries.drop_last());
        assert forall|d: Color| d != c implies bucket_count(entries.update(i, e), d)
            == bucket_count(entries, d) by {
            assert(entries.update(i, e).last() == e);
        }
    }
}

/// Raising one bucket's count by one raises the sum by one.
proof fn lemma_sum_update(entries: Seq<HistEntry>, i: int, e: HistEntry)
    requires
        0 <= i < entries.len(),
        e.count == entries[i].count + 1,
    ensures
        sum_counts(entries.update(i, e)) == sum_counts(entries) + 1,
    decreases entries.len(),
{
    if i + 1 < entries.len() {
        assert(entries.update(i, e).drop_last() =~= entries.drop_last().update(i, e));
        lemma_sum_update(entries.drop_last(), i, e);
    } else {
        assert(entries.update(i, e).drop_last() =~= entries.drop_last());
    }
}

/// Accumulating the concatenation of two pixel buffers records, for every
/// color, the sum of what each buffer records alone. Together with
/// `Histogram::accumulate`'s contract this makes histogram merging
/// associative and commutative: accumulating images A then B, B then A, or
/// their concatenation all leave every count equal.
pub proof fn lemma_merge_concat(a: Seq<Color>, b: Seq<Color>, c: Color)
    ensures
        occurrences(a + b, c) == occurrences(a, c) + occurrences(b, c),
        opaque_count(a + b) == opaque_count(a) + opaque_count(b),
    decreases b.len(),
{
    if b.len() == 0 {
        assert(a + b =~= a);
    } else {
        assert((a + b).drop_last() =~= a + b.drop_last());
        assert((a + b).last() == b.last());
        lemma_merge_concat(a, b.drop_last(), c);
    }
}

/// The order in which two pixel buffers are merged into a histogram cannot
/// matter: concatenating them either way records the same counts.
pub proof fn lemma_merge_commutative(a: Seq<Color>, b: Seq<Color>, c: Color)
    ensures
        occurrences(a + b, c) == occurrences(b + a, c),
{
    lemma_merge_concat(a, b, c);
    lemma_merge_concat(b, a, c);
}

} // verus!
