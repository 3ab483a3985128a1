//! A window's view-model: the data a presentation layer shows for one
//! design, kept beside it and refreshed on demand. The GUI toolkit itself
//! stays outside the library; it reads the cached values after each
//! `update`.

use vstd::prelude::*;
use crate::color::{item_to_color, spec_item_to_color, Color};
use crate::design::{spec_palette_colors, Design};

verus! {

/// One design together with the derived data a window displays: the
/// palette decoded to raw RGBA swatches, and the image dimensions.
pub struct Window {
    pub design: Design,
    pub palette_rgba: Vec<Color>,
    pub width: usize,
    pub height: usize,
}

impl Window {
    /// The cached presentation data agrees with the design.
    pub open spec fn synced(self) -> bool {
        &&& self.palette_rgba@ == spec_palette_colors(self.design.palette@)
        &&& self.width == self.design.dimensions.0
        &&& self.height == self.design.dimensions.1
    }

    /// Wrap a design and derive its presentation data.
    pub fn new(design: Design) -> (w: Window)
        requires
            design.wf(),
        ensures
            w.design == design,
            w.design.wf(),
            w.synced(),
    {
        let mut w = Window { design, palette_rgba: Vec::new(), width: 0, height: 0 };
        w.update();
        w
    }

    /// Refresh every derived value from the design: each palette entry
    /// decoded to its raw RGBA equivalent, and the dimensions of the
    /// loaded image.
    pub fn update(&mut self)
        requires
            old(self).design.wf(),
        ensures
            final(self).design == old(self).design,
            final(self).synced(),
    {
        let mut pal: Vec<Color> = Vec::new();
        let mut i: usize = 0;
        while i < self.design.palette.len()
            invariant
                *self == *old(self),
                old(self).design.wf(),
                i <= self.design.palette@.len(),
                pal@.len() == i,
                forall|j: int|
                    0 <= j < i ==> pal@[j] == spec_item_to_color(
                        #[trigger] self.design.palette@[j],
                    ),
            decreases self.design.palette@.len() - i,
        {
            let c = item_to_color(&self.design.palette[i]);
            pal.push(c);
            i += 1;
        }
        proof {
            assert(pal@ =~= spec_palette_colors(self.design.palette@));
        }
        self.palette_rgba = pal;
        let dims = self.design.dimensions();
        self.width = dims.0;
        self.height = dims.1;
    }
}

} // verus!
