//! Sparse per-pixel mass spectra: the decimal-coded m/z values a pixel
//! accumulates, their compression into a sorted (m/z, count) spectrum, and
//! the per-row span bookkeeping that decides when a row is finished.
use vstd::prelude::*;
use vstd::pervasive::VecAdditionalExecFns;
use vstd::multiset::Multiset;

verus! {

/// A positive m/z value in decimal form: `key` holds its leading six
/// significant digits and `exp` its decimal exponent, so the value reads
/// `key * 10^(exp - 5)`. The spectrum compressor groups values by `key`.
#[derive(Clone, Copy, Debug, PartialEq, Eq, Structural)]
pub struct MzCode {
    /// Leading six significant decimal digits.
    pub key: u64,
    /// Decimal exponent of the value's most significant digit.
    pub exp: i8,
}

/// Numeric order of the coded values: by exponent, then by digits.
pub open spec fn code_le(a: MzCode, b: MzCode) -> bool {
    a.exp < b.exp || (a.exp == b.exp && a.key <= b.key)
}

/// Pairwise ascending in the coded numeric order.
pub open spec fn sorted_codes(s: Seq<MzCode>) -> bool {
    forall|i: int, j: int| 0 <= i < j < s.len() ==> code_le(#[trigger] s[i], #[trigger] s[j])
}

/// Sorts the coded values ascending by repeatedly extracting a minimum.
fn sort_codes(v: Vec<MzCode>) -> (r: Vec<MzCode>)
    ensures
        r@.to_multiset() == v@.to_multiset(),
        r@.len() == v@.len(),
        sorted_codes(r@),
{
    broadcast use vstd::seq_lib::group_to_multiset_ensures;

    let mut src = v;
    let ghost orig = src@;
    let mut out: Vec<MzCode> = Vec::new();
    while src.len() > 0
        invariant
            out@.to_multiset().add(src@.to_multiset()) =~= orig.to_multiset(),
            out@.len() + src@.len() == orig.len(),
            sorted_codes(out@),
            forall|i: int, k: int|
                0 <= i < out@.len() && 0 <= k < src@.len() ==> code_le(
                    #[trigger] out@[i],
                    #[trigger] src@[k],
                ),
        decreases src@.len(),
    {
        let n = src.len();
        let mut min_i: usize = 0;
        let mut k: usize = 1;
        while k < n
            invariant
                n == src@.len(),
                0 < n,
                0 <= min_i < k <= n,
                forall|j: int| 0 <= j < k ==> code_le(src@[min_i as int], #[trigger] src@[j]),
            decreases n - k,
        {
            let c = src[k];
            let m = src[min_i];
            if c.exp < m.exp || (c.exp == m.exp && c.key < m.key) {
                min_i = k;
            }
            k = k + 1;
        }
        let ghost pre = src@;
        let ghost pre_out = out@;
        let m = src.remove(min_i);
        out.push(m);
        proof {
            pre.to_multiset_ensures();
            pre_out.to_multiset_ensures();
            assert(src@.to_multiset() =~= pre.to_multiset().remove(m));
            assert(out@.to_multiset() =~= pre_out.to_multiset().insert(m));
            assert(pre.to_multiset().count(m) > 0);
            assert(out@.to_multiset().add(src@.to_multiset()) =~= orig.to_multiset());
            assert(forall|k2: int| 0 <= k2 < src@.len() ==> code_le(m, #[trigger] src@[k2]));
        }
    }
    proof {
        src@.to_multiset_ensures();
        assert(out@.to_multiset() =~= orig.to_multiset());
    }
    out
}

/// The compression fold over the first `i` sorted codes: a new spectrum
/// entry opens when the six-digit key rises; an equal key folds into the
/// previous entry's count; a zero key adds a count with no m/z of its own.
pub open spec fn compress_fold(codes: Seq<MzCode>, i: int) -> (Seq<MzCode>, Seq<i16>, u64)
    decreases i,
{
    if i <= 0 {
        (Seq::empty(), Seq::empty(), 0u64)
    } else {
        let (mzs, ints, prev) = compress_fold(codes, i - 1);
        let c = codes[i - 1];
        if c.key > prev {
            (mzs.push(c), ints.push(1i16), c.key)
        } else if c.key == 0 {
            (mzs, ints.push(1i16), c.key)
        } else {
            (mzs, ints.update(ints.len() - 1, (ints.last() + 1) as i16), c.key)
        }
    }
}

/// Sum of the emitted counts.
pub open spec fn sum_counts(ints: Seq<i16>) -> int
    decreases ints.len(),
{
    if ints.len() == 0 {
        0
    } else {
        sum_counts(ints.drop_last()) + ints.last()
    }
}

/// Each value feeds exactly one count, so the counts total the values; and
/// every count is positive while the spectrum never outgrows the values.
pub proof fn lemma_compress_counts(s: Seq<MzCode>, i: int)
    requires
        0 <= i <= s.len(),
        s.len() <= 32767,
    ensures
        sum_counts(compress_fold(s, i).1) == i,
        forall|k: int|
            0 <= k < compress_fold(s, i).1.len() ==> 0 < #[trigger] compress_fold(s, i).1[k] <= i,
        compress_fold(s, i).1.len() <= i,
        compress_fold(s, i).0.len() <= compress_fold(s, i).1.len(),
        compress_fold(s, i).2 != 0 ==> compress_fold(s, i).1.len() >= 1,
    decreases i,
{
    if i > 0 {
        lemma_compress_counts(s, i - 1);
        let (mzs, ints, prev) = compress_fold(s, i - 1);
        let c = s[i - 1];
        if c.key > prev || c.key == 0 {
            assert(ints.push(1i16).drop_last() =~= ints);
        } else {
            let upd = ints.update(ints.len() - 1, (ints.last() + 1) as i16);
            assert(upd.drop_last() =~= ints.drop_last());
            assert(upd.last() == (ints.last() + 1) as i16);
        }
    }
}

/// Sparse accumulator of coded m/z values for one image pixel.
#[derive(Debug)]
pub struct Pixel {
    /// The values added so far, in arrival order until compressed.
    pub codes: Vec<MzCode>,
}

impl Pixel {
    /// A pixel that has seen nothing yet.
    pub fn empty() -> (p: Pixel)
        ensures
            p.codes@.len() == 0,
    {
        Pixel { codes: Vec::new() }
    }

    /// Records one m/z value.
    pub fn add(&mut self, code: MzCode)
        requires
            old(self).codes@.len() < usize::MAX,
        ensures
            final(self).codes@ == old(self).codes@.push(code),
    {
        self.codes.push(code);
    }

    /// Collapses the pixel to a sorted spectrum: the stored values sorted
    /// ascending, grouped by their six-digit key into one (m/z, count) pair
    /// per group. The pixel keeps its values, sorted.
    pub fn to_vecs(&mut self) -> (r: (Vec<MzCode>, Vec<i16>))
        requires
            old(self).codes@.len() <= 32767,
        ensures
            sorted_codes(final(self).codes@),
            final(self).codes@.to_multiset() == old(self).codes@.to_multiset(),
            final(self).codes@.len() == old(self).codes@.len(),
            r.0@ == compress_fold(final(self).codes@, final(self).codes@.len() as int).0,
            r.1@ == compress_fold(final(self).codes@, final(self).codes@.len() as int).1,
    {
        let mut taken: Vec<MzCode> = Vec::new();
        core::mem::swap(&mut self.codes, &mut taken);
        let sorted = sort_codes(taken);
        self.codes = sorted;
        let ghost s = self.codes@;
        let n = self.codes.len();
        let mut mzs: Vec<MzCode> = Vec::new();
        let mut ints: Vec<i16> = Vec::new();
        let mut prev: u64 = 0;
        let mut i: usize = 0;
        while i < n
            invariant
                n == s.len(),
                n <= 32767,
                s == self.codes@,
                0 <= i <= n,
                (mzs@, ints@, prev) == compress_fold(s, i as int),
                ints@.len() <= i,
                prev != 0 ==> ints@.len() >= 1,
                forall|k: int| 0 <= k < ints@.len() ==> 0 < #[trigger] ints@[k] <= i,
            decreases n - i,
        {
            let c = self.codes[i];
            if c.key > prev {
                mzs.push(c);
                ints.push(1);
            } else if c.key == 0 {
                ints.push(1);
            } else {
                let li = ints.len() - 1;
                let v = ints[li] + 1;
                ints.set(li, v);
            }
            prev = c.key;
            i = i + 1;
        }
        (mzs, ints)
    }
}

/// Feeding ascending values with pairwise distinct positive keys round-trips:
/// the compressed spectrum lists exactly the given values, each with count 1.
pub proof fn lemma_compress_distinct_keys(s: Seq<MzCode>, i: int)
    requires
        0 <= i <= s.len(),
        forall|a: int, b: int| 0 <= a < b < s.len() ==> (#[trigger] s[a]).key < (#[trigger] s[b]).key,
        forall|a: int| 0 <= a < s.len() ==> (#[trigger] s[a]).key > 0,
    ensures
        compress_fold(s, i).0 == s.take(i),
        compress_fold(s, i).1.len() == i,
        forall|k: int| 0 <= k < i ==> #[trigger] compress_fold(s, i).1[k] == 1,
        compress_fold(s, i).2 == if i == 0 {
            0
        } else {
            s[i - 1].key
        },
    decreases i,
{
    if i > 0 {
        lemma_compress_distinct_keys(s, i - 1);
        assert(compress_fold(s, i).0 =~= s.take(i));
    } else {
        assert(compress_fold(s, i).0 =~= s.take(i));
    }
}

/// One image row of pixels, with the bookkeeping that decides when the row
/// can be flushed to the archive.
#[derive(Debug)]
pub struct PixelSpan {
    /// Whether any pixel of the row gained a value in the current pass.
    pub pixel_added: bool,
    /// Number of consecutive finished passes that added nothing to the row.
    pub empty_pass_count: usize,
    /// One sparse spectrum per image column.
    pub pixels: Vec<Pixel>,
}

impl PixelSpan {
    /// A fresh row of `pixel_count` empty pixels.
    pub fn empty(pixel_count: usize) -> (s: PixelSpan)
        ensures
            !s.pixel_added,
            s.empty_pass_count == 0,
            s.pixels@.len() == pixel_count,
            forall|k: int| 0 <= k < pixel_count ==> (#[trigger] s.pixels@[k]).codes@.len() == 0,
    {
        let mut pixels: Vec<Pixel> = Vec::new();
        let mut i: usize = 0;
        while i < pixel_count
            invariant
                0 <= i <= pixel_count,
                pixels@.len() == i,
                forall|k: int| 0 <= k < i ==> (#[trigger] pixels@[k]).codes@.len() == 0,
            decreases pixel_count - i,
        {
            pixels.push(Pixel::empty());
            i = i + 1;
        }
        PixelSpan { pixel_added: false, empty_pass_count: 0, pixels }
    }

    /// Records one m/z value in the pixel at `pixel_index` and marks the row
    /// live for the current pass.
    pub fn add_mz(&mut self, code: MzCode, pixel_index: usize)
        requires
            pixel_index < old(self).pixels@.len(),
            old(self).pixels@[pixel_index as int].codes@.len() < usize::MAX,
        ensures
            final(self).pixel_added,
            final(self).empty_pass_count == 0,
            final(self).pixels@.len() == old(self).pixels@.len(),
            final(self).pixels@[pixel_index as int].codes@ == old(self).pixels@[pixel_index as int].codes@.push(code),
            forall|k: int|
                0 <= k < old(self).pixels@.len() && k != pixel_index ==> final(self).pixels@[k]
                    == old(self).pixels@[k],
    {
        self.empty_pass_count = 0;
        self.pixel_added = true;
        let p = &mut self.pixels[pixel_index];
        p.codes.push(code);
    }

    /// Closes one pass over the row: a pass that added nothing raises the
    /// empty-pass counter (which sticks at the machine maximum), any
    /// activity resets it.
    pub fn update_end_pass(&mut self)
        ensures
            final(self).pixels@ == old(self).pixels@,
            !final(self).pixel_added,
            final(self).empty_pass_count == if old(self).pixel_added {
                0int
            } else if old(self).empty_pass_count < usize::MAX {
                old(self).empty_pass_count + 1
            } else {
                usize::MAX as int
            },
    {
        self.empty_pass_count = if self.pixel_added {
            0
        } else if self.empty_pass_count < usize::MAX {
            self.empty_pass_count + 1
        } else {
            usize::MAX
        };
        self.pixel_added = false;
    }
}

} // verus!
