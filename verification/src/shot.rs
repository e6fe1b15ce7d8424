//! The integer parts of the social-media shot: the output presets and the
//! model's mean color that the automatic background is drawn from.

use crate::geom::{Color8, IVec3};
use vstd::prelude::*;

verus! {

/// Background style: a flat fill, or a gradient between a lighter tone and
/// the base one.
#[derive(Clone, Copy, PartialEq, Eq, Debug, Structural)]
pub enum GradientMode {
    Solid,
    Vertical,
    Radial,
}

impl Default for GradientMode {
    fn default() -> (r: Self)
        ensures
            r == GradientMode::Solid,
    {
        GradientMode::Solid
    }
}

impl GradientMode {
    /// Every mode, in menu order.
    pub fn all() -> (r: [GradientMode; 3])
        ensures
            r@ == seq![GradientMode::Solid, GradientMode::Vertical, GradientMode::Radial],
    {
        [GradientMode::Solid, GradientMode::Vertical, GradientMode::Radial]
    }

    /// Menu text.
    pub fn label(self) -> (r: &'static str)
        ensures
            r@ == match self {
                GradientMode::Solid => "Solid"@,
                GradientMode::Vertical => "Vertical"@,
                GradientMode::Radial => "Radial"@,
            },
    {
        match self {
            GradientMode::Solid => "Solid",
            GradientMode::Vertical => "Vertical",
            GradientMode::Radial => "Radial",
        }
    }
}

/// Output resolution presets.
#[derive(Clone, Copy, PartialEq, Eq, Debug, Structural)]
pub enum ResPreset {
    Landscape,
    Square,
    Wide,
    Portrait,
}

impl Default for ResPreset {
    fn default() -> (r: Self)
        ensures
            r == ResPreset::Landscape,
    {
        ResPreset::Landscape
    }
}

/// Export width and height of a preset.
pub open spec fn preset_dims(p: ResPreset) -> (u32, u32) {
    match p {
        ResPreset::Landscape => (2000, 1500),
        ResPreset::Square => (2000, 2000),
        ResPreset::Wide => (1920, 1080),
        ResPreset::Portrait => (1500, 2000),
    }
}

impl ResPreset {
    /// Every preset, in menu order.
    pub fn all() -> (r: [ResPreset; 4])
        ensures
            r@ == seq![ResPreset::Landscape, ResPreset::Square, ResPreset::Wide, ResPreset::Portrait],
    {
        [ResPreset::Landscape, ResPreset::Square, ResPreset::Wide, ResPreset::Portrait]
    }

    /// Full-resolution export dimensions: 4:3, 1:1, 16:9 and 3:4.
    pub fn dims(self) -> (r: (u32, u32))
        ensures
            r == preset_dims(self),
    {
        match self {
            ResPreset::Landscape => (2000, 1500),
            ResPreset::Square => (2000, 2000),
            ResPreset::Wide => (1920, 1080),
            ResPreset::Portrait => (1500, 2000),
        }
    }

    /// Menu text: the aspect ratio.
    pub fn label(self) -> (r: &'static str)
        ensures
            r@ == match self {
                ResPreset::Landscape => "4:3"@,
                ResPreset::Square => "1:1"@,
                ResPreset::Wide => "16:9"@,
                ResPreset::Portrait => "3:4"@,
            },
    {
        match self {
            ResPreset::Landscape => "4:3",
            ResPreset::Square => "1:1",
            ResPreset::Wide => "16:9",
            ResPreset::Portrait => "3:4",
        }
    }
}

/// Sum of channel `k` over the cells.
pub open spec fn channel_sum(cells: Seq<(IVec3, Color8)>, k: int) -> nat
    decreases cells.len(),
{
    if cells.len() == 0 {
        0
    } else {
        channel_sum(cells.drop_last(), k) + cells.last().1[k] as nat
    }
}

proof fn lemma_channel_sum_bound(cells: Seq<(IVec3, Color8)>, k: int)
    requires
        0 <= k < 4,
    ensures
        channel_sum(cells, k) <= 255 * cells.len(),
    decreases cells.len(),
{
    if cells.len() > 0 {
        lemma_channel_sum_bound(cells.drop_last(), k);
    }
}

/// The mean red, green and blue of the cells, each rounded down; mid grey
/// for no cells.
pub fn average_color(cells: &[(IVec3, Color8)]) -> (r: [u8; 3])
    requires
        255 * cells@.len() <= u64::MAX,
    ensures
        cells@.len() == 0 ==> r@ == seq![128u8, 128u8, 128u8],
        cells@.len() > 0 ==> forall|k: int| 0 <= k < 3 ==> r@[k] == channel_sum(cells@, k) / cells@.len(),
{
    if cells.len() == 0 {
        return [128, 128, 128];
    }
    let mut acc0: u64 = 0;
    let mut acc1: u64 = 0;
    let mut acc2: u64 = 0;
    let mut i: usize = 0;
    while i < cells.len()
        invariant
            i <= cells@.len(),
            255 * cells@.len() <= u64::MAX,
            acc0 == channel_sum(cells@.take(i as int), 0),
            acc1 == channel_sum(cells@.take(i as int), 1),
            acc2 == channel_sum(cells@.take(i as int), 2),
        decreases cells.len() - i,
    {
        let c = cells[i].1;
        proof {
            assert(cells@.take(i + 1).drop_last() =~= cells@.take(i as int));
            lemma_channel_sum_bound(cells@.take(i as int), 0);
            lemma_channel_sum_bound(cells@.take(i as int), 1);
            lemma_channel_sum_bound(cells@.take(i as int), 2);
        }
        acc0 = acc0 + c[0] as u64;
        acc1 = acc1 + c[1] as u64;
        acc2 = acc2 + c[2] as u64;
        i = i + 1;
    }
    let n = cells.len() as u64;
    proof {
        assert(cells@.take(cells@.len() as int) =~= cells@);
        lemma_channel_sum_bound(cells@, 0);
        lemma_channel_sum_bound(cells@, 1);
        lemma_channel_sum_bound(cells@, 2);
        assert(acc0 / n <= 255) by (nonlinear_arith)
            requires
                acc0 <= 255 * n,
                n > 0,
        ;
        assert(acc1 / n <= 255) by (nonlinear_arith)
            requires
                acc1 <= 255 * n,
                n > 0,
        ;
        assert(acc2 / n <= 255) by (nonlinear_arith)
            requires
                acc2 <= 255 * n,
                n > 0,
        ;
    }
    let r = [(acc0 / n) as u8, (acc1 / n) as u8, (acc2 / n) as u8];
    proof {
        assert(r@[0] == acc0 / n && r@[1] == acc1 / n && r@[2] == acc2 / n);
    }
    r
}

} // verus!
