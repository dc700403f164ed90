//! The coordinate camera: the visible genomic window on one reference
//! sequence, and the maps between genomic positions and screen pixels.
//!
//! The window `[from, to]` always satisfies `0 <= from < to`; updates that
//! would break that are clamped or rejected.

#![allow(unused_imports)]
use vstd::prelude::*;
use vstd::arithmetic::div_mod::lemma_div_is_ordered;
use vstd::arithmetic::div_mod::lemma_div_by_multiple;
use vstd::arithmetic::mul::lemma_mul_inequality;

verus! {

/// The largest coordinate the camera works with. Genomic coordinates stay
/// below ~10^9; this bound leaves every intermediate product inside `i64`.
pub const COORD_LIMIT: i64 = 0x2000000000000000;

/// The camera: reference sequence and visible window, `0 <= from < to`.
#[derive(Clone, Debug, PartialEq)]
pub struct GBrowserCamera {
    pub chr: Vec<u8>,
    pub from: i64,
    pub to: i64,
}

/// Mathematical form of the camera.
#[verifier::ext_equal]
pub ghost struct CameraModel {
    pub chr: Seq<u8>,
    pub from: i64,
    pub to: i64,
}

impl View for GBrowserCamera {
    type V = CameraModel;

    open spec fn view(&self) -> CameraModel {
        CameraModel { chr: self.chr@, from: self.from, to: self.to }
    }
}

/// The window is ordered and non-negative.
pub open spec fn camera_wf(c: CameraModel) -> bool {
    0 <= c.from && c.from < c.to
}

/// What an anchored zoom does to a window: shrink or stretch the span by
/// `den / num`, but never below 2 bases; recenter it on the anchor; and
/// shift it right when that would cross the first chromosome base.
pub open spec fn zoom_model(c: CameraModel, num: u64, den: u64, anchor: i64) -> CameraModel {
    let d = c.to - c.from;
    let nd0 = d * den / (num as int);
    let nd = if nd0 < 2 {
        2int
    } else {
        nd0
    };
    let half = nd / 2;
    let lo = anchor - half;
    let hi = anchor + half;
    if lo >= 0 {
        CameraModel { chr: c.chr, from: lo as i64, to: hi as i64 }
    } else {
        CameraModel { chr: c.chr, from: 0, to: (hi - lo) as i64 }
    }
}

impl GBrowserCamera {
    /// A camera over the given window.
    pub fn new(chr: Vec<u8>, from: i64, to: i64) -> (r: GBrowserCamera)
        requires
            0 <= from < to,
        ensures
            r@ == (CameraModel { chr: chr@, from, to }),
            camera_wf(r@),
    {
        GBrowserCamera { chr, from, to }
    }

    /// Genomic position to pixel column: `(wx - from) * width / (to - from)`.
    pub fn world2cam(&self, wx: i64, screen_width: i64) -> (r: i64)
        requires
            camera_wf(self@),
            self@.from <= wx <= self@.to,
            1 <= screen_width,
            (self@.to - self@.from) * screen_width <= COORD_LIMIT,
        ensures
            r == (wx - self@.from) * screen_width / (self@.to - self@.from),
            0 <= r <= screen_width,
    {
        proof {
            broadcast use vstd::arithmetic::mul::lemma_mul_is_commutative;

            lemma_mul_inequality(wx - self.from, self.to - self.from, screen_width as int);
        }
        let num = (wx - self.from) as u64 * screen_width as u64;
        let den = (self.to - self.from) as u64;
        let q = num / den;
        proof {
            broadcast use vstd::arithmetic::mul::lemma_mul_is_commutative;

            lemma_div_is_ordered(
                (wx - self.from) * screen_width,
                (self.to - self.from) * screen_width,
                (self.to - self.from) as int,
            );
            lemma_div_by_multiple(screen_width as int, (self.to - self.from) as int);
            assert(q <= screen_width);
        }
        q as i64
    }

    /// Pixel column to genomic position: `from + cx * (to - from) / width`.
    pub fn cam2world(&self, cx: i64, screen_width: i64) -> (r: i64)
        requires
            camera_wf(self@),
            0 <= cx <= screen_width,
            1 <= screen_width,
            (self@.to - self@.from) * screen_width <= COORD_LIMIT,
        ensures
            r == self@.from + cx * (self@.to - self@.from) / (screen_width as int),
            self@.from <= r <= self@.to,
    {
        proof {
            broadcast use vstd::arithmetic::mul::lemma_mul_is_commutative;

            lemma_mul_inequality(cx as int, screen_width as int, (self.to - self.from) as int);
        }
        let num = cx as u64 * (self.to - self.from) as u64;
        let q = num / screen_width as u64;
        proof {
            broadcast use vstd::arithmetic::mul::lemma_mul_is_commutative;

            lemma_div_is_ordered(
                cx * (self.to - self.from),
                screen_width * (self.to - self.from),
                screen_width as int,
            );
            lemma_div_by_multiple((self.to - self.from) as int, screen_width as int);
            assert(q <= self.to - self.from);
        }
        self.from + q as i64
    }

    /// Anchored zoom: the span becomes `span * den / num` (so `num > den`
    /// zooms in), never below 2 bases, recentered on the anchor; a window
    /// that would cross the first chromosome base is shifted right to start
    /// at it.
    pub fn zoom_around(&mut self, scale_num: u64, scale_den: u64, anchor: i64)
        requires
            camera_wf(old(self)@),
            1 <= scale_num,
            1 <= scale_den,
            0 <= anchor <= COORD_LIMIT,
            (old(self)@.to - old(self)@.from) * scale_den <= COORD_LIMIT,
        ensures
            final(self)@ == zoom_model(old(self)@, scale_num, scale_den, anchor),
            camera_wf(final(self)@),
    {
        let d = (self.to - self.from) as u64;
        let nd0 = d * scale_den / scale_num;
        proof {
            lemma_div_is_ordered(
                (d * scale_den) as int,
                COORD_LIMIT as int,
                scale_num as int,
            );
        }
        let nd = if nd0 < 2 {
            2u64
        } else {
            nd0
        };
        let half = (nd / 2) as i64;
        let lo = anchor - half;
        let hi = anchor + half;
        if lo >= 0 {
            self.from = lo;
            self.to = hi;
        } else {
            self.from = 0;
            self.to = hi - lo;
        }
        proof {
            assert(final(self)@ =~= zoom_model(old(self)@, scale_num, scale_den, anchor));
        }
    }

    /// Zoom around the middle of the window.
    pub fn zoom(&mut self, scale_num: u64, scale_den: u64)
        requires
            camera_wf(old(self)@),
            1 <= scale_num,
            1 <= scale_den,
            old(self)@.to <= COORD_LIMIT,
            (old(self)@.to - old(self)@.from) * scale_den <= COORD_LIMIT,
        ensures
            final(self)@ == zoom_model(
                old(self)@,
                scale_num,
                scale_den,
                ((old(self)@.from + old(self)@.to) / 2) as i64,
            ),
            camera_wf(final(self)@),
    {
        let midpos = (self.from + self.to) / 2;
        self.zoom_around(scale_num, scale_den, midpos);
    }

    /// Pan the window by a world-space delta, keeping its width; a pan that
    /// would cross the first chromosome base is cut short to end at it.
    pub fn pan(&mut self, wdx: i64)
        requires
            camera_wf(old(self)@),
            -COORD_LIMIT <= wdx <= COORD_LIMIT,
            old(self)@.to <= COORD_LIMIT,
        ensures
            ({
                let shift = if old(self)@.from + wdx < 0 {
                    -old(self)@.from
                } else {
                    wdx as int
                };
                &&& final(self)@.from == old(self)@.from + shift
                &&& final(self)@.to == old(self)@.to + shift
            }),
            final(self)@.chr == old(self)@.chr,
            camera_wf(final(self)@),
    {
        let shift = if self.from + wdx < 0 {
            -self.from
        } else {
            wdx
        };
        self.from = self.from + shift;
        self.to = self.to + shift;
    }

    /// Set the window's start from user input: accepted exactly when it is
    /// non-negative and left of the window's end.
    pub fn set_range_from(&mut self, value: i64) -> (r: bool)
        requires
            camera_wf(old(self)@),
        ensures
            r == (0 <= value < old(self)@.to),
            r ==> final(self)@ == (CameraModel {
                from: value,
                ..old(self)@
            }),
            !r ==> final(self)@ == old(self)@,
            camera_wf(final(self)@),
    {
        if 0 <= value && value < self.to {
            self.from = value;
            true
        } else {
            false
        }
    }

    /// Set the window's end from user input: accepted exactly when it is
    /// right of the window's start and within the working range.
    pub fn set_range_to(&mut self, value: i64) -> (r: bool)
        requires
            camera_wf(old(self)@),
        ensures
            r == (old(self)@.from < value),
            r ==> final(self)@ == (CameraModel {
                to: value,
                ..old(self)@
            }),
            !r ==> final(self)@ == old(self)@,
            camera_wf(final(self)@),
    {
        if self.from < value {
            self.to = value;
            true
        } else {
            false
        }
    }
}

} // verus!
