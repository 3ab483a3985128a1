//! The orchestrator: owns the current source image, histogram and palette,
//! and sequences load, histogram accumulation, palette optimization and
//! index generation.

use vstd::prelude::*;
use crate::color::{color_to_item, item_to_color, spec_color_to_item, spec_item_to_color, Color,
    NHPaletteItem};
use crate::error::Error;
use crate::histogram::{occurrences, Histogram};
use crate::quant::{lemma_dist_bounds, lemma_nearest, min_dist, nearest_idx, spec_centroid,
    spec_dist, spec_grown, spec_refined_n, total_err, Optimizer, Quantizer};
use crate::remap::{remap, spec_fs_output, spec_normalized, spec_ordered_pixel, Ditherer};

verus! {

/// One raw input pixel, as the decoding collaborators hand it over.
pub open spec fn pixel_of(t: (u8, u8, u8, u8)) -> Color {
    Color { r: t.0, g: t.1, b: t.2, a: t.3 }
}

/// The colors of one raw pixel buffer.
pub open spec fn colors_of(pixels: Seq<(u8, u8, u8, u8)>) -> Seq<Color> {
    pixels.map_values(|t: (u8, u8, u8, u8)| pixel_of(t))
}

/// The count a freshly rebuilt histogram records for `c` after
/// accumulating every buffer of `images` in order.
pub open spec fn hist_count(images: Seq<Seq<(u8, u8, u8, u8)>>, c: Color) -> nat
    decreases images.len(),
{
    if images.len() == 0 {
        0
    } else {
        hist_count(images.drop_last(), c) + occurrences(colors_of(images.last()), c)
    }
}

/// Removing one buffer from an image list removes exactly its own
/// contribution to the rebuilt counts.
proof fn lemma_hist_count_remove(images: Seq<Seq<(u8, u8, u8, u8)>>, j: int, c: Color)
    requires
        0 <= j < images.len(),
    ensures
        hist_count(images, c) == hist_count(images.remove(j), c) + occurrences(
            colors_of(images[j]),
            c,
        ),
    decreases images.len(),
{
    if j == images.len() - 1 {
        assert(images.remove(j) =~= images.drop_last());
    } else {
        assert(images.remove(j).drop_last() =~= images.drop_last().remove(j));
        assert(images.remove(j).last() == images.last());
        lemma_hist_count_remove(images.drop_last(), j, c);
    }
}

/// Image lists that are permutations of each other rebuild the same
/// histogram: together with `load_histogram`'s contract, the order in
/// which any number of images is accumulated cannot matter.
pub proof fn lemma_hist_count_permutation(
    xs: Seq<Seq<(u8, u8, u8, u8)>>,
    ys: Seq<Seq<(u8, u8, u8, u8)>>,
    c: Color,
)
    requires
        xs.to_multiset() == ys.to_multiset(),
    ensures
        hist_count(xs, c) == hist_count(ys, c),
    decreases xs.len(),
{
    xs.to_multiset_ensures();
    ys.to_multiset_ensures();
    if xs.len() == 0 {
        assert(ys.len() == 0);
    } else {
        let x = xs.last();
        assert(xs[xs.len() - 1] == x);
        assert(xs.contains(x));
        assert(ys.to_multiset().count(x) > 0);
        assert(ys.contains(x));
        let j = choose|j: int| 0 <= j < ys.len() && ys[j] == x;
        assert(xs.drop_last().push(x) =~= xs);
        xs.drop_last().to_multiset_ensures();
        assert(xs.to_multiset() =~= xs.drop_last().to_multiset().insert(x));
        assert(ys.remove(j).to_multiset() =~= ys.to_multiset().remove(x));
        assert(xs.drop_last().to_multiset() =~= ys.remove(j).to_multiset());
        lemma_hist_count_permutation(xs.drop_last(), ys.remove(j), c);
        lemma_hist_count_remove(ys, j, c);
    }
}

/// The raw colors a palette presents to the remapper: each quantized entry
/// decoded, and the canonical zero color for the transparent slot.
pub open spec fn spec_palette_colors(items: Seq<NHPaletteItem>) -> Seq<Color> {
    items.map_values(|it: NHPaletteItem| spec_item_to_color(it))
}

/// When the palette's last entry decodes to the canonical zero color and
/// every other entry is opaque, the zero color's nearest palette entry is
/// exactly that last slot.
proof fn lemma_nearest_zero(pal: Seq<Color>)
    requires
        pal.len() >= 1,
        pal[pal.len() - 1] == Color::spec_zero(),
        forall|j: int| 0 <= j < pal.len() - 1 ==> (#[trigger] pal[j]).a == 255,
    ensures
        nearest_idx(pal, Color::spec_zero()) == pal.len() - 1,
{
    let z = Color::spec_zero();
    lemma_nearest(pal, z);
    let nidx = nearest_idx(pal, z);
    assert(spec_dist(pal[pal.len() - 1], z) == 0);
    if nidx < pal.len() - 1 {
        lemma_dist_bounds(pal[nidx], z);
        let da = pal[nidx].a - z.a;
        assert(da == 255);
        assert(da * da == 65025) by (nonlinear_arith)
            requires da == 255;
        assert(spec_dist(pal[nidx], z) >= 65025) by {
            assert((pal[nidx].r - z.r) * (pal[nidx].r - z.r) >= 0) by (nonlinear_arith);
            assert((pal[nidx].g - z.g) * (pal[nidx].g - z.g) >= 0) by (nonlinear_arith);
            assert((pal[nidx].b - z.b) * (pal[nidx].b - z.b) >= 0) by (nonlinear_arith);
        }
        assert(min_dist(pal, z) <= spec_dist(pal[pal.len() - 1], z));
        assert(false);
    }
}

/// The single mutable aggregate: one source image with its dimensions, one
/// histogram, one palette. Its invariant keeps the image normalized (every
/// zero-alpha pixel collapsed to the canonical zero color), the dimensions
/// within the 64x64 ceiling, and the palette well-formed with the
/// transparent slot last.
pub struct Design {
    pub image: Vec<Color>,
    pub dimensions: (usize, usize),
    pub histogram: Histogram,
    pub palette: Vec<NHPaletteItem>,
}

impl Design {
    pub open spec fn wf(self) -> bool {
        &&& self.image@.len() == self.dimensions.0 * self.dimensions.1
        &&& self.dimensions.0 <= 64
        &&& self.dimensions.1 <= 64
        &&& forall|i: int|
            0 <= i < self.image@.len() && (#[trigger] self.image@[i]).a == 0 ==> self.image@[i]
                == Color::spec_zero()
        &&& self.histogram.wf()
        &&& 1 <= self.palette@.len() <= 256
        &&& self.palette@[self.palette@.len() - 1] == NHPaletteItem::Transparent
        &&& forall|i: int|
            0 <= i < self.palette@.len() - 1 ==> (#[trigger] self.palette@[i]) is Color
        &&& forall|i: int| 0 <= i < self.palette@.len() ==> (#[trigger] self.palette@[i]).wf()
    }

    /// Load the full image, replacing the stored one. The pixel count must
    /// equal width times height, both dimensions must stay within 64, and
    /// every zero-alpha pixel is collapsed to the canonical zero color.
    /// Nothing changes on failure.
    pub fn load_image(&mut self, image: Vec<(u8, u8, u8, u8)>, dimensions: (usize, usize)) -> (r:
        Result<(), Error>)
        requires
            old(self).wf(),
        ensures
            final(self).wf(),
            r == (if image@.len() != dimensions.0 * dimensions.1 {
                Err::<(), Error>(Error::DimensionMismatch)
            } else if dimensions.0 > 64 || dimensions.1 > 64 {
                Err::<(), Error>(Error::SizeLimitExceeded)
            } else {
                Ok::<(), Error>(())
            }),
            r is Err ==> *final(self) == *old(self),
            r is Ok ==> {
                &&& final(self).dimensions == dimensions
                &&& final(self).image@.len() == image@.len()
                &&& forall|i: int|
                    0 <= i < image@.len() ==> final(self).image@[i] == spec_normalized(
                        pixel_of(#[trigger] image@[i]),
                    )
                &&& final(self).histogram == old(self).histogram
                &&& final(self).palette == old(self).palette
            },
    {
        proof {
            assert((dimensions.0 as int) * (dimensions.1 as int) <= (u64::MAX as int) * (
            u64::MAX as int) && (u64::MAX as int) * (u64::MAX as int) < u128::MAX as int)
                by (nonlinear_arith)
                requires
                    0 <= dimensions.0 <= u64::MAX,
                    0 <= dimensions.1 <= u64::MAX,
            ;
        }
        let expected = (dimensions.0 as u128) * (dimensions.1 as u128);
        if (image.len() as u128) != expected {
            return Err(Error::DimensionMismatch);
        }
        if dimensions.0 > 64 || dimensions.1 > 64 {
            return Err(Error::SizeLimitExceeded);
        }
        let mut pixels: Vec<Color> = Vec::new();
        let mut i: usize = 0;
        while i < image.len()
            invariant
                i <= image@.len(),
                pixels@.len() == i,
                forall|k: int|
                    0 <= k < i ==> pixels@[k] == spec_normalized(pixel_of(#[trigger] image@[k])),
            decreases image@.len() - i,
        {
            let p = image[i];
            if p.3 == 0 {
                pixels.push(Color { r: 0, g: 0, b: 0, a: 0 });
            } else {
                pixels.push(Color { r: p.0, g: p.1, b: p.2, a: p.3 });
            }
            i += 1;
        }
        self.image = pixels;
        self.dimensions = dimensions;
        proof {
            assert forall|k: int|
                0 <= k < self.image@.len() && (#[trigger] self.image@[k]).a == 0 implies self.image@[k]
                == Color::spec_zero() by {
                assert(self.image@[k] == spec_normalized(pixel_of(image@[k])));
            }
        }
        Ok(())
    }

    /// Rebuild the histogram from scratch by accumulating every given
    /// pixel buffer in order. Each buffer is capped at 4096 pixels, and
    /// the number of buffers at what the 64-bit counters can take; a
    /// violation fails with the size-limit error before anything mutates.
    pub fn load_histogram(&mut self, images: Vec<Vec<(u8, u8, u8, u8)>>) -> (r: Result<(), Error>)
        requires
            old(self).wf(),
        ensures
            final(self).wf(),
            r == (if (exists|k: int|
                0 <= k < images@.len() && (#[trigger] images@[k])@.len() > 4096) || images@.len()
                > u64::MAX / 4096 {
                Err::<(), Error>(Error::SizeLimitExceeded)
            } else {
                Ok::<(), Error>(())
            }),
            r is Err ==> *final(self) == *old(self),
            r is Ok ==> {
                &&& forall|c: Color|
                    c.a > 0 ==> final(self).histogram.count(c) == hist_count(
                        images@.map_values(|v: Vec<(u8, u8, u8, u8)>| v@),
                        c,
                    )
                &&& forall|c: Color| c.a == 0 ==> final(self).histogram.count(c) == 0
                &&& final(self).image == old(self).image
                &&& final(self).dimensions == old(self).dimensions
                &&& final(self).palette == old(self).palette
            },
    {
        let ghost views = images@.map_values(|v: Vec<(u8, u8, u8, u8)>| v@);
        if (images.len() as u64) > u64::MAX / 4096 {
            proof {
                assert(images@.len() > u64::MAX / 4096);
            }
            return Err(Error::SizeLimitExceeded);
        }
        let mut k: usize = 0;
        while k < images.len()
            invariant
                *self == *old(self),
                old(self).wf(),
                k <= images@.len(),
                forall|j: int| 0 <= j < k ==> (#[trigger] images@[j])@.len() <= 4096,
            decreases images@.len() - k,
        {
            if images[k].len() > 4096 {
                return Err(Error::SizeLimitExceeded);
            }
            k += 1;
        }
        let mut hist = Histogram::new();
        let mut m: usize = 0;
        while m < images.len()
            invariant
                *self == *old(self),
                old(self).wf(),
                m <= images@.len(),
                views == images@.map_values(|v: Vec<(u8, u8, u8, u8)>| v@),
                forall|j: int| 0 <= j < images@.len() ==> (#[trigger] images@[j])@.len() <= 4096,
                images@.len() <= u64::MAX / 4096,
                hist.wf(),
                hist.total() <= m * 4096,
                forall|c: Color|
                    c.a > 0 ==> hist.count(c) == hist_count(views.take(m as int), c),
                forall|c: Color| c.a == 0 ==> hist.count(c) == 0,
            decreases images@.len() - m,
        {
            let img = &images[m];
            let mut pixels: Vec<Color> = Vec::new();
            let mut i: usize = 0;
            while i < img.len()
                invariant
                    i <= img@.len(),
                    pixels@.len() == i,
                    forall|j: int| 0 <= j < i ==> pixels@[j] == pixel_of(#[trigger] img@[j]),
                decreases img@.len() - i,
            {
                let p = img[i];
                pixels.push(Color { r: p.0, g: p.1, b: p.2, a: p.3 });
                i += 1;
            }
            proof {
                assert(pixels@ =~= colors_of(img@));
                assert((m as int) * 4096 + 4096 == (m as int + 1) * 4096) by (nonlinear_arith);
                assert((m as int + 1) * 4096 <= ((u64::MAX / 4096) as int) * 4096)
                    by (nonlinear_arith)
                    requires m as int + 1 <= (u64::MAX / 4096) as int;
                assert(((u64::MAX / 4096) as int) * 4096 <= u64::MAX as int);
                assert(views.take(m + 1).drop_last() =~= views.take(m as int));
                assert(views.take(m + 1).last() == img@);
            }
            hist.accumulate(&pixels);
            m += 1;
        }
        proof {
            assert(views.take(m as int) =~= views);
        }
        self.histogram = hist;
        Ok(())
    }

    /// Run the quantizer against the current histogram and replace the
    /// stored palette: fifteen quantized colors built by repeated splits
    /// with four refinement passes each, one final sixteen-pass polish,
    /// and the transparent slot appended last. An empty histogram yields a
    /// degenerate all-black palette rather than failing.
    pub fn optimize_palette(&mut self, optimizer: Optimizer)
        requires
            old(self).wf(),
        ensures
            final(self).wf(),
            final(self).palette@.len() == 16,
            final(self).palette@[15] == NHPaletteItem::Transparent,
            forall|i: int| 0 <= i < 15 ==> (#[trigger] final(self).palette@[i]) is Color,
            final(self).image == old(self).image,
            final(self).dimensions == old(self).dimensions,
            final(self).histogram == old(self).histogram,
            final(self).palette@ == spec_refined_n(
                old(self).histogram.buckets(),
                spec_grown(
                    old(self).histogram.buckets(),
                    seq![spec_centroid(old(self).histogram.buckets(), true)],
                    optimizer.spec_weighted(),
                    15,
                    true,
                ),
                optimizer.spec_weighted(),
                16,
            ).map_values(|c: Color| spec_color_to_item(c)).push(NHPaletteItem::Transparent),
            exists|reps: Seq<Color>|
                {
                    &&& reps.len() == 15
                    &&& final(self).palette@ == reps.map_values(
                        |c: Color| spec_color_to_item(c),
                    ).push(NHPaletteItem::Transparent)
                    &&& total_err(
                        old(self).histogram.buckets(),
                        reps,
                        optimizer.spec_weighted(),
                    ) <= total_err(
                        old(self).histogram.buckets(),
                        seq![spec_centroid(old(self).histogram.buckets(), true)],
                        optimizer.spec_weighted(),
                    )
                },
    {
        self.rebuild_palette(optimizer, 15, true);
    }

    /// The pro-mode variant: quantize to one color fewer than `colors`,
    /// refining only on every 64th addition to bound cost, and reserve the
    /// last slot for the transparent entry. No quantized color can itself
    /// come out transparent and need relocating: histograms never hold a
    /// zero-alpha key, and the quantizer keeps every representative's
    /// alpha positive.
    pub fn optimize_palette_pro(&mut self, optimizer: Optimizer, colors: u16)
        requires
            old(self).wf(),
            2 <= colors <= 256,
        ensures
            final(self).wf(),
            final(self).palette@.len() == colors,
            final(self).palette@[colors as int - 1] == NHPaletteItem::Transparent,
            forall|i: int| 0 <= i < colors - 1 ==> (#[trigger] final(self).palette@[i]) is Color,
            final(self).image == old(self).image,
            final(self).dimensions == old(self).dimensions,
            final(self).histogram == old(self).histogram,
            final(self).palette@ == spec_refined_n(
                old(self).histogram.buckets(),
                spec_grown(
                    old(self).histogram.buckets(),
                    seq![spec_centroid(old(self).histogram.buckets(), true)],
                    optimizer.spec_weighted(),
                    colors as int - 1,
                    false,
                ),
                optimizer.spec_weighted(),
                16,
            ).map_values(|c: Color| spec_color_to_item(c)).push(NHPaletteItem::Transparent),
            exists|reps: Seq<Color>|
                {
                    &&& reps.len() == colors - 1
                    &&& final(self).palette@ == reps.map_values(
                        |c: Color| spec_color_to_item(c),
                    ).push(NHPaletteItem::Transparent)
                    &&& total_err(
                        old(self).histogram.buckets(),
                        reps,
                        optimizer.spec_weighted(),
                    ) <= total_err(
                        old(self).histogram.buckets(),
                        seq![spec_centroid(old(self).histogram.buckets(), true)],
                        optimizer.spec_weighted(),
                    )
                },
    {
        self.rebuild_palette(optimizer, (colors - 1) as usize, false);
    }

    /// Quantize `targets` colors from the histogram and store them with
    /// the transparent slot appended. The palette is pinned as a function
    /// of the histogram, the strategy and the target: the grown set of
    /// `spec_grown`, polished by sixteen final refinement passes, each
    /// color quantized. Its total weighted quantization error is no worse
    /// than the initial single-centroid set's: splits and refinement
    /// passes only ever lower it.
    fn rebuild_palette(&mut self, optimizer: Optimizer, targets: usize, every_step: bool)
        requires
            old(self).wf(),
            1 <= targets <= 255,
        ensures
            final(self).wf(),
            final(self).palette@.len() == targets + 1,
            final(self).palette@[targets as int] == NHPaletteItem::Transparent,
            forall|i: int| 0 <= i < targets ==> (#[trigger] final(self).palette@[i]) is Color,
            final(self).image == old(self).image,
            final(self).dimensions == old(self).dimensions,
            final(self).histogram == old(self).histogram,
            final(self).palette@ == spec_refined_n(
                old(self).histogram.buckets(),
                spec_grown(
                    old(self).histogram.buckets(),
                    seq![spec_centroid(old(self).histogram.buckets(), true)],
                    optimizer.spec_weighted(),
                    targets as int,
                    every_step,
                ),
                optimizer.spec_weighted(),
                16,
            ).map_values(|c: Color| spec_color_to_item(c)).push(NHPaletteItem::Transparent),
            exists|reps: Seq<Color>|
                {
                    &&& reps.len() == targets
                    &&& final(self).palette@ == reps.map_values(
                        |c: Color| spec_color_to_item(c),
                    ).push(NHPaletteItem::Transparent)
                    &&& total_err(
                        old(self).histogram.buckets(),
                        reps,
                        optimizer.spec_weighted(),
                    ) <= total_err(
                        old(self).histogram.buckets(),
                        seq![spec_centroid(old(self).histogram.buckets(), true)],
                        optimizer.spec_weighted(),
                    )
                },
    {
        let ghost buckets = self.histogram.buckets();
        let ghost weighted = optimizer.spec_weighted();
        let mut quantizer = Quantizer::new(&self.histogram);
        proof {
            assert(quantizer.reps@ =~= seq![spec_centroid(buckets, true)]);
        }
        let ghost reps0 = quantizer.reps@;
        while quantizer.num_colors() < targets
            invariant
                quantizer.wf(),
                1 <= quantizer.reps@.len() <= targets,
                targets <= 255,
                quantizer.entries@ == buckets,
                reps0 == seq![spec_centroid(buckets, true)],
                weighted == optimizer.spec_weighted(),
                spec_grown(buckets, quantizer.reps@, weighted, targets as int, every_step)
                    == spec_grown(buckets, reps0, weighted, targets as int, every_step),
                total_err(buckets, quantizer.reps@, optimizer.spec_weighted()) <= total_err(
                    buckets,
                    reps0,
                    optimizer.spec_weighted(),
                ),
            decreases targets - quantizer.reps@.len(),
        {
            let ghost before = quantizer.reps@;
            quantizer.step();
            if every_step || quantizer.num_colors() % 64 == 0 {
                quantizer.optimize(optimizer, 4);
            }
            proof {
                assert(spec_grown(buckets, before, weighted, targets as int, every_step)
                    == spec_grown(buckets, quantizer.reps@, weighted, targets as int, every_step));
            }
        }
        proof {
            assert(spec_grown(buckets, quantizer.reps@, weighted, targets as int, every_step)
                == quantizer.reps@);
        }
        quantizer.optimize(optimizer, 16);
        let colors = quantizer.colors();
        let mut palette: Vec<NHPaletteItem> = Vec::new();
        let mut i: usize = 0;
        while i < colors.len()
            invariant
                i <= colors@.len(),
                palette@.len() == i,
                forall|j: int| 0 <= j < colors@.len() ==> (#[trigger] colors@[j]).a >= 1,
                forall|j: int|
                    0 <= j < i ==> (#[trigger] palette@[j]) == spec_color_to_item(colors@[j]),
                forall|j: int| 0 <= j < i ==> (#[trigger] palette@[j]) is Color,
                forall|j: int| 0 <= j < i ==> (#[trigger] palette@[j]).wf(),
            decreases colors@.len() - i,
        {
            let item = color_to_item(&colors[i]);
            proof {
                let c = colors@[i as int];
                assert(crate::color::spec_rgb_to_hsva(c).a_num == c.a);
            }
            palette.push(item);
            i += 1;
        }
        palette.push(NHPaletteItem::Transparent);
        self.palette = palette;
        proof {
            assert(final(self).palette@ =~= colors@.map_values(
                |c: Color| spec_color_to_item(c),
            ).push(NHPaletteItem::Transparent));
        }
    }

    /// Generate the indexed design: each pixel of the loaded image becomes
    /// the index of its best palette match under the chosen ditherer. The
    /// output is exactly width times height bytes, every byte indexes the
    /// palette, and every fully transparent pixel lands on the transparent
    /// slot no matter which ditherer runs.
    pub fn generate(&self, ditherer: Ditherer) -> (out: Vec<u8>)
        requires
            self.wf(),
        ensures
            out@.len() == self.dimensions.0 * self.dimensions.1,
            forall|i: int| 0 <= i < out@.len() ==> out@[i] < self.palette@.len(),
            forall|i: int|
                0 <= i < out@.len() && (#[trigger] self.image@[i]).a == 0 ==> out@[i]
                    == self.palette@.len() - 1,
            ditherer == Ditherer::NoDither ==> forall|i: int|
                0 <= i < out@.len() ==> out@[i] == nearest_idx(
                    spec_palette_colors(self.palette@),
                    #[trigger] self.image@[i],
                ),
            ditherer == Ditherer::Ordered ==> forall|i: int|
                0 <= i < out@.len() ==> out@[i] == nearest_idx(
                    spec_palette_colors(self.palette@),
                    spec_ordered_pixel(
                        #[trigger] self.image@[i],
                        i % (self.dimensions.0 as int),
                        i / (self.dimensions.0 as int),
                    ),
                ),
            ditherer == Ditherer::FloydSteinberg ==> out@ == spec_fs_output(
                spec_palette_colors(self.palette@),
                self.image@,
                self.dimensions.0 as int,
                true,
                false,
            ),
            ditherer == Ditherer::FloydSteinbergVanilla ==> out@ == spec_fs_output(
                spec_palette_colors(self.palette@),
                self.image@,
                self.dimensions.0 as int,
                false,
                false,
            ),
            ditherer == Ditherer::FloydSteinbergCheckered ==> out@ == spec_fs_output(
                spec_palette_colors(self.palette@),
                self.image@,
                self.dimensions.0 as int,
                true,
                true,
            ),
    {
        let ghost pal_colors = spec_palette_colors(self.palette@);
        let mut pal: Vec<Color> = Vec::new();
        let mut i: usize = 0;
        while i < self.palette.len()
            invariant
                self.wf(),
                i <= self.palette@.len(),
                pal@.len() == i,
                forall|j: int|
                    0 <= j < i ==> pal@[j] == spec_item_to_color(#[trigger] self.palette@[j]),
            decreases self.palette@.len() - i,
        {
            let c = item_to_color(&self.palette[i]);
            pal.push(c);
            i += 1;
        }
        proof {
            assert(pal@ =~= pal_colors);
            // the transparent slot decodes to the canonical zero color,
            // every other entry to a fully opaque color
            let hz = crate::color::spec_quantized_to_hsva(NHPaletteItem::Transparent);
            assert(hz.v_num == 0 && hz.a_num == 0 && hz.a_den == 1);
            crate::color::lemma_rnd_exact(0, 1, 0);
            assert(spec_item_to_color(NHPaletteItem::Transparent) == Color::spec_zero());
            assert forall|j: int| 0 <= j < pal@.len() - 1 implies (#[trigger] pal@[j]).a == 255 by {
                let item = self.palette@[j];
                assert(item is Color);
                assert(crate::color::spec_quantized_to_hsva(item).a_num == 1
                    && crate::color::spec_quantized_to_hsva(item).a_den == 1);
                crate::color::lemma_rnd_exact(255, 1, 255);
            }
            lemma_nearest_zero(pal@);
            let w = self.dimensions.0;
            let h = self.dimensions.1;
            if self.image@.len() > 0 {
                assert(w >= 1) by (nonlinear_arith)
                    requires
                        self.image@.len() == (w as int) * (h as int),
                        self.image@.len() > 0,
                ;
            }
            if w >= 1 {
                vstd::arithmetic::div_mod::lemma_mod_multiples_basic(h as int, w as int);
                assert((self.image@.len() as int) % (w as int) == 0) by (nonlinear_arith)
                    requires
                        self.image@.len() == (w as int) * (h as int),
                        ((h as int) * (w as int)) % (w as int) == 0,
                ;
            }
        }
        let out = remap(&pal, &self.image, self.dimensions.0, ditherer);
        proof {
            assert forall|i2: int|
                0 <= i2 < out@.len() && (#[trigger] self.image@[i2]).a == 0 implies out@[i2]
                == self.palette@.len() - 1 by {
                assert(out@[i2] == nearest_idx(pal@, Color::spec_zero()));
            }
            if ditherer == Ditherer::NoDither {
                assert forall|i2: int| 0 <= i2 < out@.len() implies out@[i2] == nearest_idx(
                    pal_colors,
                    #[trigger] self.image@[i2],
                ) by {
                    assert(out@[i2] == nearest_idx(pal@, spec_normalized(self.image@[i2])));
                    assert(spec_normalized(self.image@[i2]) == self.image@[i2]);
                }
            }
        }
        out
    }

    /// Generate under a ditherer chosen by name; an unrecognized name
    /// fails and nothing is computed. A recognized name returns exactly
    /// what `generate` returns under the strategy it selects.
    pub fn generate_named(&self, ditherer: &str) -> (r: Result<Vec<u8>, Error>)
        requires
            self.wf(),
        ensures
            r is Err <==> (ditherer@ != "none"@ && ditherer@ != "floydsteinberg"@ && ditherer@
                != "floydsteinbergvanilla"@ && ditherer@ != "floydsteinbergcheckered"@ && ditherer@
                != "ordered"@),
            r matches Err(e) ==> e == Error::UnknownStrategy,
            r matches Ok(out) ==> {
                &&& out@.len() == self.dimensions.0 * self.dimensions.1
                &&& forall|i: int| 0 <= i < out@.len() ==> out@[i] < self.palette@.len()
                &&& forall|i: int|
                    0 <= i < out@.len() && (#[trigger] self.image@[i]).a == 0 ==> out@[i]
                        == self.palette@.len() - 1
                &&& ditherer@ == "none"@ ==> forall|i: int|
                    0 <= i < out@.len() ==> out@[i] == nearest_idx(
                        spec_palette_colors(self.palette@),
                        #[trigger] self.image@[i],
                    )
                &&& ditherer@ == "ordered"@ ==> forall|i: int|
                    0 <= i < out@.len() ==> out@[i] == nearest_idx(
                        spec_palette_colors(self.palette@),
                        spec_ordered_pixel(
                            #[trigger] self.image@[i],
                            i % (self.dimensions.0 as int),
                            i / (self.dimensions.0 as int),
                        ),
                    )
                &&& ditherer@ == "floydsteinberg"@ ==> out@ == spec_fs_output(
                    spec_palette_colors(self.palette@),
                    self.image@,
                    self.dimensions.0 as int,
                    true,
                    false,
                )
                &&& ditherer@ == "floydsteinbergvanilla"@ ==> out@ == spec_fs_output(
                    spec_palette_colors(self.palette@),
                    self.image@,
                    self.dimensions.0 as int,
                    false,
                    false,
                )
                &&& ditherer@ == "floydsteinbergcheckered"@ ==> out@ == spec_fs_output(
                    spec_palette_colors(self.palette@),
                    self.image@,
                    self.dimensions.0 as int,
                    true,
                    true,
                )
            },
    {
        proof {
            reveal_strlit("none");
            reveal_strlit("floydsteinberg");
            reveal_strlit("floydsteinbergvanilla");
            reveal_strlit("floydsteinbergcheckered");
            reveal_strlit("ordered");
            assert("none"@.len() == 4);
            assert("floydsteinberg"@.len() == 14);
            assert("floydsteinbergvanilla"@.len() == 21);
            assert("floydsteinbergcheckered"@.len() == 23);
            assert("ordered"@.len() == 7);
        }
        match Ditherer::from_name(ditherer) {
            Ok(d) => Ok(self.generate(d)),
            Err(e) => Err(e),
        }
    }

    /// Optimize the palette under an optimizer chosen by name; an
    /// unrecognized name fails and nothing changes. A recognized name
    /// behaves exactly as `optimize_palette` under the strategy it selects,
    /// error bound included.
    pub fn optimize_palette_named(&mut self, optimizer: &str) -> (r: Result<(), Error>)
        requires
            old(self).wf(),
        ensures
            final(self).wf(),
            r is Err <==> (optimizer@ != "kmeans"@ && optimizer@ != "weightedkmeans"@),
            r matches Err(e) ==> e == Error::UnknownStrategy && *final(self) == *old(self),
            r is Ok ==> {
                &&& final(self).palette@.len() == 16
                &&& final(self).palette@[15] == NHPaletteItem::Transparent
                &&& forall|i: int| 0 <= i < 15 ==> (#[trigger] final(self).palette@[i]) is Color
                &&& final(self).image == old(self).image
                &&& final(self).dimensions == old(self).dimensions
                &&& final(self).histogram == old(self).histogram
                &&& final(self).palette@ == spec_refined_n(
                    old(self).histogram.buckets(),
                    spec_grown(
                        old(self).histogram.buckets(),
                        seq![spec_centroid(old(self).histogram.buckets(), true)],
                        optimizer@ == "weightedkmeans"@,
                        15,
                        true,
                    ),
                    optimizer@ == "weightedkmeans"@,
                    16,
                ).map_values(|c: Color| spec_color_to_item(c)).push(NHPaletteItem::Transparent)
                &&& exists|reps: Seq<Color>|
                    {
                        &&& reps.len() == 15
                        &&& final(self).palette@ == reps.map_values(
                            |c: Color| spec_color_to_item(c),
                        ).push(NHPaletteItem::Transparent)
                        &&& total_err(
                            old(self).histogram.buckets(),
                            reps,
                            optimizer@ == "weightedkmeans"@,
                        ) <= total_err(
                            old(self).histogram.buckets(),
                            seq![spec_centroid(old(self).histogram.buckets(), true)],
                            optimizer@ == "weightedkmeans"@,
                        )
                    }
            },
    {
        proof {
            reveal_strlit("kmeans");
            reveal_strlit("weightedkmeans");
            assert("kmeans"@.len() == 6);
            assert("weightedkmeans"@.len() == 14);
            assert("kmeans"@ != "weightedkmeans"@);
        }
        match Optimizer::from_name(optimizer) {
            Ok(o) => {
                self.optimize_palette(o);
                proof {
                    assert(o.spec_weighted() == (optimizer@ == "weightedkmeans"@));
                    let reps = choose|reps: Seq<Color>|
                        {
                            &&& reps.len() == 15
                            &&& self.palette@ == reps.map_values(
                                |c: Color| spec_color_to_item(c),
                            ).push(NHPaletteItem::Transparent)
                            &&& total_err(
                                self.histogram.buckets(),
                                reps,
                                o.spec_weighted(),
                            ) <= total_err(
                                self.histogram.buckets(),
                                seq![spec_centroid(self.histogram.buckets(), true)],
                                o.spec_weighted(),
                            )
                        };
                    assert(total_err(self.histogram.buckets(), reps, optimizer@
                        == "weightedkmeans"@) <= total_err(
                        self.histogram.buckets(),
                        seq![spec_centroid(self.histogram.buckets(), true)],
                        optimizer@ == "weightedkmeans"@,
                    ));
                }
                Ok(())
            }
            Err(e) => Err(e),
        }
    }

    /// Read access to the palette.
    pub fn palette(&self) -> (p: &Vec<NHPaletteItem>)
        ensures
            p@ == self.palette@,
    {
        &self.palette
    }

    /// The dimensions of the loaded image.
    pub fn dimensions(&self) -> (d: (usize, usize))
        ensures
            d == self.dimensions,
    {
        self.dimensions
    }
}

impl Default for Design {
    /// Fifteen black palette colors plus the transparent slot, a 1x1 black
    /// image, and an empty histogram.
    fn default() -> (d: Design)
        ensures
            d.wf(),
            d.palette@.len() == 16,
            forall|i: int|
                0 <= i < 15 ==> (#[trigger] d.palette@[i]) == NHPaletteItem::Color(
                    crate::color::NHColor { h: 0, s: 0, v: 0 },
                ),
            d.palette@[15] == NHPaletteItem::Transparent,
            d.dimensions == (1usize, 1usize),
            d.image@ =~= seq![Color { r: 0, g: 0, b: 0, a: 255 }],
            d.histogram.total() == 0,
            forall|c: Color| d.histogram.count(c) == 0,
    {
        let mut palette: Vec<NHPaletteItem> = Vec::new();
        let mut i: usize = 0;
        while i < 15
            invariant
                i <= 15,
                palette@.len() == i,
                forall|j: int|
                    0 <= j < i ==> (#[trigger] palette@[j]) == NHPaletteItem::Color(
                        crate::color::NHColor { h: 0, s: 0, v: 0 },
                    ),
            decreases 15 - i,
        {
            palette.push(NHPaletteItem::default());
            i += 1;
        }
        palette.push(NHPaletteItem::Transparent);
        let mut image: Vec<Color> = Vec::new();
        image.push(Color { r: 0, g: 0, b: 0, a: 255 });
        Design { image, dimensions: (1, 1), histogram: Histogram::new(), palette }
    }
}

} // verus!
