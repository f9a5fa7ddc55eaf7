//! The settings of a render pass.

use crate::resolution::{catalog, Resolution};
use vstd::prelude::*;

verus! {

/// Why settings were turned down.
#[derive(Copy, Clone, PartialEq, Eq, Debug, Structural)]
pub enum ParamsError {
    /// No sample for a pixel: its colour would be the mean of nothing.
    NoSamples,
    /// A side of the image is zero or negative, or the image has more pixels than
    /// a buffer can hold.
    BadResolution,
}

/// Whether a frame of this resolution can be rendered: both sides are positive,
/// and a buffer can hold its pixels.
pub open spec fn renderable(resolution: Resolution) -> bool {
    &&& resolution.width >= 1
    &&& resolution.height >= 1
    &&& resolution.width * resolution.height <= usize::MAX
}

/// The fault in the given settings, if there is one.
pub open spec fn fault(samples_per_pixel: u16, resolution: Resolution) -> Option<ParamsError> {
    if samples_per_pixel == 0 {
        Some(ParamsError::NoSamples)
    } else if !renderable(resolution) {
        Some(ParamsError::BadResolution)
    } else {
        None
    }
}

/// What the settings hold.
pub struct ParamsView<L> {
    pub lens: L,
    pub samples_per_pixel: u16,
    pub resolution: Resolution,
    pub available_resolutions: Seq<Resolution>,
}

impl<L> ParamsView<L> {
    /// The settings can be rendered with, and offer the catalog of resolutions.
    pub open spec fn valid(self) -> bool {
        &&& fault(self.samples_per_pixel, self.resolution) is None
        &&& self.available_resolutions == catalog()
    }
}

/// The settings of a render pass: the samples to take for each pixel, the
/// resolution of the image, the resolutions on offer, and the settings of the
/// camera's lens, which are carried along unread.
pub struct RenderParams<L> {
    lens: L,
    samples_per_pixel: u16,
    resolution: Resolution,
    available_resolutions: Vec<Resolution>,
}

impl<L> View for RenderParams<L> {
    type V = ParamsView<L>;

    closed spec fn view(&self) -> ParamsView<L> {
        ParamsView {
            lens: self.lens,
            samples_per_pixel: self.samples_per_pixel,
            resolution: self.resolution,
            available_resolutions: self.available_resolutions@,
        }
    }
}

/// Whether a frame of this resolution can be rendered.
pub fn is_renderable(resolution: Resolution) -> (ok: bool)
    ensures
        ok == renderable(resolution),
{
    match resolution.size() {
        Some((width, height)) => width >= 1 && height >= 1 && width.checked_mul(height).is_some(),
        None => false,
    }
}

impl<L: Clone> Clone for RenderParams<L> {
    /// The same settings, with a clone of the lens.
    fn clone(&self) -> (copy: Self)
        ensures
            copy@.valid(),
            cloned(self@.lens, copy@.lens),
            copy@.samples_per_pixel == self@.samples_per_pixel,
            copy@.resolution == self@.resolution,
            copy@.available_resolutions == self@.available_resolutions,
    {
        proof {
            use_type_invariant(self);
        }
        RenderParams {
            lens: self.lens.clone(),
            samples_per_pixel: self.samples_per_pixel,
            resolution: self.resolution,
            available_resolutions: Resolution::available(),
        }
    }
}

impl<L> RenderParams<L> {
    #[verifier::type_invariant]
    spec fn well_formed(&self) -> bool {
        self@.valid()
    }

    /// Settings with the given values, where they can be rendered with.
    pub fn new(lens: L, samples_per_pixel: u16, resolution: Resolution) -> (params: Result<
        Self,
        ParamsError,
    >)
        ensures
            match params {
                Ok(p) => fault(samples_per_pixel, resolution) is None && p@.valid() && p@.lens
                    == lens && p@.samples_per_pixel == samples_per_pixel && p@.resolution
                    == resolution,
                Err(e) => fault(samples_per_pixel, resolution) == Some(e),
            },
    {
        if samples_per_pixel == 0 {
            Err(ParamsError::NoSamples)
        } else if !is_renderable(resolution) {
            Err(ParamsError::BadResolution)
        } else {
            Ok(
                RenderParams {
                    lens,
                    samples_per_pixel,
                    resolution,
                    available_resolutions: Resolution::available(),
                },
            )
        }
    }

    /// The settings a renderer starts with: two samples for each pixel, at 800 by
    /// 600 pixels.
    pub fn with_defaults(lens: L) -> (params: Self)
        ensures
            params@.valid(),
            params@.lens == lens,
            params@.samples_per_pixel == 2,
            params@.resolution == (Resolution { width: 800, height: 600 }),
    {
        RenderParams {
            lens,
            samples_per_pixel: 2,
            resolution: Resolution::new(800, 600),
            available_resolutions: Resolution::available(),
        }
    }

    pub fn lens(&self) -> (lens: &L)
        ensures
            *lens == self@.lens,
    {
        &self.lens
    }

    pub fn samples_per_pixel(&self) -> (samples: u16)
        ensures
            samples == self@.samples_per_pixel,
            samples >= 1,
    {
        proof {
            use_type_invariant(self);
        }
        self.samples_per_pixel
    }

    pub fn resolution(&self) -> (resolution: Resolution)
        ensures
            resolution == self@.resolution,
            renderable(resolution),
    {
        proof {
            use_type_invariant(self);
        }
        self.resolution
    }

    /// The resolutions on offer, by ascending width.
    pub fn available_resolutions(&self) -> (list: &Vec<Resolution>)
        ensures
            list@ == self@.available_resolutions,
            list@ == catalog(),
    {
        proof {
            use_type_invariant(self);
        }
        &self.available_resolutions
    }

    /// The width and the height of the frame to render, in pixels.
    pub fn frame_size(&self) -> (size: (usize, usize))
        ensures
            self@.valid(),
            size.0 == self@.resolution.width,
            size.1 == self@.resolution.height,
            size.0 * size.1 <= usize::MAX,
    {
        proof {
            use_type_invariant(self);
        }
        (self.resolution.width as usize, self.resolution.height as usize)
    }

    pub fn set_lens(&mut self, lens: L)
        ensures
            final(self)@ == (ParamsView { lens, ..old(self)@ }),
    {
        proof {
            use_type_invariant(&*self);
        }
        self.lens = lens;
    }

    /// Changes the number of samples for each pixel, unless it is zero.
    pub fn set_samples_per_pixel(&mut self, samples_per_pixel: u16) -> (outcome: Result<
        (),
        ParamsError,
    >)
        ensures
            match outcome {
                Ok(_) => samples_per_pixel >= 1 && final(self)@ == (ParamsView {
                    samples_per_pixel,
                    ..old(self)@
                }),
                Err(e) => samples_per_pixel == 0 && e == ParamsError::NoSamples && final(self)@
                    == old(self)@,
            },
    {
        if samples_per_pixel == 0 {
            Err(ParamsError::NoSamples)
        } else {
            proof {
                use_type_invariant(&*self);
            }
            self.samples_per_pixel = samples_per_pixel;
            Ok(())
        }
    }

    /// Changes the resolution, unless a frame of that resolution cannot be
    /// rendered.
    pub fn set_resolution(&mut self, resolution: Resolution) -> (outcome: Result<(), ParamsError>)
        ensures
            match outcome {
                Ok(_) => renderable(resolution) && final(self)@ == (ParamsView {
                    resolution,
                    ..old(self)@
                }),
                Err(e) => !renderable(resolution) && e == ParamsError::BadResolution
                    && final(self)@ == old(self)@,
            },
    {
        if is_renderable(resolution) {
            proof {
                use_type_invariant(&*self);
            }
            self.resolution = resolution;
            Ok(())
        } else {
            Err(ParamsError::BadResolution)
        }
    }
}

} // verus!
