//! Per-genre configuration of the supervisor.
//!
//! A wattage profile owns the hardware parameters (power ceiling, time step,
//! dissipation, backreaction). A genre owns the game-loop parameters: how soon a
//! prediction error counts, how sensitive the prefetch trigger is, how long a
//! prefetch lives and how far the resolution may drop.

use vstd::prelude::*;

use crate::binary32::Binary32;
use crate::binary32_laws;

verus! {

/// How synthetic frames are made.
#[derive(Clone, Copy, Debug, PartialEq, Eq, Structural)]
pub enum FrameGenMode {
    Off,
    Interpolate,
    Extrapolate,
}

/// The parameters of the dynamics kernel at a power ceiling.
#[derive(Clone, Copy, Debug)]
pub struct WattageProfile {
    /// Power ceiling, in watts.
    pub tdp_watts: Binary32,
    /// Time step, in seconds.
    pub dt: Binary32,
    /// Dissipation.
    pub lambda: Binary32,
    /// Strength of the backreaction.
    pub alpha: Binary32,
    /// Energy towards which the backreaction pulls.
    pub e_target: Binary32,
    /// Smoothing of the memory vector.
    pub ema_beta: Binary32,
    pub frame_gen: FrameGenMode,
    pub vrs_enabled: bool,
}

/// A game genre.
#[derive(Clone, Copy, Debug, PartialEq, Eq, Structural)]
pub enum GenreMode {
    FpsCompetitive,
    FpsTactical,
    MmoOpenWorld,
    MmoInstance,
}

/// The table of genre parameters.
impl GenreMode {
    pub open spec fn is_fps_spec(self) -> bool {
        self == GenreMode::FpsCompetitive || self == GenreMode::FpsTactical
    }

    pub open spec fn ghost_threshold_spec(self) -> Binary32 {
        match self {
            GenreMode::FpsCompetitive => Binary32::fraction(3, 100),
            GenreMode::FpsTactical => Binary32::fraction(4, 100),
            GenreMode::MmoOpenWorld => Binary32::fraction(6, 100),
            GenreMode::MmoInstance => Binary32::fraction(5, 100),
        }
    }

    pub open spec fn divergence_threshold_spec(self) -> Binary32 {
        match self {
            GenreMode::FpsCompetitive => Binary32::fraction(22, 100),
            GenreMode::FpsTactical => Binary32::fraction(18, 100),
            GenreMode::MmoOpenWorld => Binary32::fraction(12, 100),
            GenreMode::MmoInstance => Binary32::fraction(15, 100),
        }
    }

    pub open spec fn salience_threshold_spec(self) -> Binary32 {
        match self {
            GenreMode::FpsCompetitive => Binary32::fraction(35, 100),
            GenreMode::FpsTactical => Binary32::fraction(30, 100),
            GenreMode::MmoOpenWorld => Binary32::fraction(18, 100),
            GenreMode::MmoInstance => Binary32::fraction(22, 100),
        }
    }

    pub open spec fn prefetch_ttl_frames_spec(self) -> u16 {
        match self {
            GenreMode::FpsCompetitive => 8,
            GenreMode::FpsTactical => 12,
            GenreMode::MmoOpenWorld => 32,
            GenreMode::MmoInstance => 20,
        }
    }

    pub open spec fn resolution_floor_spec(self) -> Binary32 {
        match self {
            GenreMode::FpsCompetitive => Binary32::fraction(75, 100),
            GenreMode::FpsTactical => Binary32::fraction(67, 100),
            GenreMode::MmoOpenWorld => Binary32::fraction(50, 100),
            GenreMode::MmoInstance => Binary32::fraction(60, 100),
        }
    }

    pub open spec fn afmf2_target_multiplier_spec(self, norm_variance: Binary32) -> u8 {
        if !self.is_fps_spec() && norm_variance.below(Binary32::fraction(2, 100)) {
            4
        } else {
            2
        }
    }

    pub open spec fn wattage_profile_spec(self, tdp_watts: Binary32) -> WattageProfile {
        let (steps_per_second, lambda, alpha, ema_beta): (nat, nat, nat, nat) = match self {
            GenreMode::FpsCompetitive => (360, 14, 10, 88),
            GenreMode::FpsTactical => (240, 12, 8, 91),
            GenreMode::MmoOpenWorld => (120, 9, 6, 97),
            GenreMode::MmoInstance => (120, 11, 7, 94),
        };
        WattageProfile {
            tdp_watts,
            dt: Binary32::fraction(1, steps_per_second),
            lambda: Binary32::fraction(lambda, 100),
            alpha: Binary32::fraction(alpha, 100),
            e_target: Binary32::whole(1),
            ema_beta: Binary32::fraction(ema_beta, 100),
            frame_gen: FrameGenMode::Interpolate,
            vrs_enabled: true,
        }
    }
}

impl GenreMode {
    /// Whether the genre is a shooter.
    pub fn is_fps(self) -> (r: bool)
        ensures
            r == self.is_fps_spec(),
    {
        match self {
            GenreMode::FpsCompetitive | GenreMode::FpsTactical => true,
            _ => false,
        }
    }

    /// Prediction error above which the ghost guard fires. Shooters need it
    /// tighter: there a prediction error is felt as input lag.
    pub fn ghost_threshold(self) -> (r: Binary32)
        ensures
            r == self.ghost_threshold_spec(),
    {
        match self {
            GenreMode::FpsCompetitive => Binary32::from_ratio(3, 100),
            GenreMode::FpsTactical => Binary32::from_ratio(4, 100),
            GenreMode::MmoOpenWorld => Binary32::from_ratio(6, 100),
            GenreMode::MmoInstance => Binary32::from_ratio(5, 100),
        }
    }

    /// Entropy divergence above which prefetching is triggered. Shooters have
    /// fast motion that is no scene transition, so theirs is higher.
    pub fn divergence_threshold(self) -> (r: Binary32)
        ensures
            r == self.divergence_threshold_spec(),
    {
        match self {
            GenreMode::FpsCompetitive => Binary32::from_ratio(22, 100),
            GenreMode::FpsTactical => Binary32::from_ratio(18, 100),
            GenreMode::MmoOpenWorld => Binary32::from_ratio(12, 100),
            GenreMode::MmoInstance => Binary32::from_ratio(15, 100),
        }
    }

    /// Probability of the next bucket above which a prefetch job is enqueued.
    /// Lowest in an open world, whose assets are large and slow.
    pub fn salience_threshold(self) -> (r: Binary32)
        ensures
            r == self.salience_threshold_spec(),
    {
        match self {
            GenreMode::FpsCompetitive => Binary32::from_ratio(35, 100),
            GenreMode::FpsTactical => Binary32::from_ratio(30, 100),
            GenreMode::MmoOpenWorld => Binary32::from_ratio(18, 100),
            GenreMode::MmoInstance => Binary32::from_ratio(22, 100),
        }
    }

    /// Frames that a prefetch job lives.
    pub fn prefetch_ttl_frames(self) -> (r: u16)
        ensures
            r == self.prefetch_ttl_frames_spec(),
    {
        match self {
            GenreMode::FpsCompetitive => 8,
            GenreMode::FpsTactical => 12,
            GenreMode::MmoOpenWorld => 32,
            GenreMode::MmoInstance => 20,
        }
    }

    /// Smallest render scale of a pre-emptive drop.
    pub fn resolution_floor(self) -> (r: Binary32)
        ensures
            r == self.resolution_floor_spec(),
    {
        match self {
            GenreMode::FpsCompetitive => Binary32::from_ratio(75, 100),
            GenreMode::FpsTactical => Binary32::from_ratio(67, 100),
            GenreMode::MmoOpenWorld => Binary32::from_ratio(50, 100),
            GenreMode::MmoInstance => Binary32::from_ratio(60, 100),
        }
    }

    /// Display frames per rendered frame: two at most for a shooter, whose latency
    /// budget allows no more; in an online world two, and four on a stable camera.
    pub fn afmf2_target_multiplier(self, norm_variance: Binary32) -> (r: u8)
        ensures
            r == self.afmf2_target_multiplier_spec(norm_variance),
    {
        match self {
            GenreMode::FpsCompetitive | GenreMode::FpsTactical => 2,
            GenreMode::MmoOpenWorld | GenreMode::MmoInstance => {
                if norm_variance.is_below(Binary32::from_ratio(2, 100)) {
                    4
                } else {
                    2
                }
            },
        }
    }

    /// The profile tuned for this genre at a power ceiling.
    pub fn wattage_profile(self, tdp_watts: Binary32) -> (r: WattageProfile)
        ensures
            r == self.wattage_profile_spec(tdp_watts),
    {
        match self {
            GenreMode::FpsCompetitive => WattageProfile {
                tdp_watts,
                dt: Binary32::from_ratio(1, 360),
                lambda: Binary32::from_ratio(14, 100),
                alpha: Binary32::from_ratio(10, 100),
                e_target: Binary32::from_u32(1),
                ema_beta: Binary32::from_ratio(88, 100),
                frame_gen: FrameGenMode::Interpolate,
                vrs_enabled: true,
            },
            GenreMode::FpsTactical => WattageProfile {
                tdp_watts,
                dt: Binary32::from_ratio(1, 240),
                lambda: Binary32::from_ratio(12, 100),
                alpha: Binary32::from_ratio(8, 100),
                e_target: Binary32::from_u32(1),
                ema_beta: Binary32::from_ratio(91, 100),
                frame_gen: FrameGenMode::Interpolate,
                vrs_enabled: true,
            },
            GenreMode::MmoOpenWorld => WattageProfile {
                tdp_watts,
                dt: Binary32::from_ratio(1, 120),
                lambda: Binary32::from_ratio(9, 100),
                alpha: Binary32::from_ratio(6, 100),
                e_target: Binary32::from_u32(1),
                ema_beta: Binary32::from_ratio(97, 100),
                frame_gen: FrameGenMode::Interpolate,
                vrs_enabled: true,
            },
            GenreMode::MmoInstance => WattageProfile {
                tdp_watts,
                dt: Binary32::from_ratio(1, 120),
                lambda: Binary32::from_ratio(11, 100),
                alpha: Binary32::from_ratio(7, 100),
                e_target: Binary32::from_u32(1),
                ema_beta: Binary32::from_ratio(94, 100),
                frame_gen: FrameGenMode::Interpolate,
                vrs_enabled: true,
            },
        }
    }
}

/// The active genre with the profile derived from it.
pub struct GenreGovernor {
    pub mode: GenreMode,
    pub profile: WattageProfile,
}

impl GenreGovernor {
    /// A governor for a genre at a power ceiling.
    pub fn new(mode: GenreMode, tdp_watts: Binary32) -> (r: GenreGovernor)
        ensures
            r.mode == mode,
            r.profile == mode.wattage_profile_spec(tdp_watts),
    {
        GenreGovernor { mode, profile: mode.wattage_profile(tdp_watts) }
    }

    /// Changes the genre at run time. Keeps the power ceiling and replaces every
    /// parameter of the dynamics.
    pub fn switch_mode(&mut self, new_mode: GenreMode)
        ensures
            final(self).mode == new_mode,
            final(self).profile == new_mode.wattage_profile_spec(old(self).profile.tdp_watts),
    {
        let tdp: Binary32 = self.profile.tdp_watts;
        self.mode = new_mode;
        self.profile = new_mode.wattage_profile(tdp);
    }
}

/// The bits of the numbers in the table.
pub proof fn lemma_table_bits()
    ensures
        Binary32::fraction(3, 100).bits == 0x3CF5_C28F,
        Binary32::fraction(4, 100).bits == 0x3D23_D70A,
        Binary32::fraction(5, 100).bits == 0x3D4C_CCCD,
        Binary32::fraction(6, 100).bits == 0x3D75_C28F,
        Binary32::fraction(12, 100).bits == 0x3DF5_C28F,
        Binary32::fraction(15, 100).bits == 0x3E19_999A,
        Binary32::fraction(18, 100).bits == 0x3E38_51EC,
        Binary32::fraction(22, 100).bits == 0x3E61_47AE,
        Binary32::fraction(30, 100).bits == 0x3E99_999A,
        Binary32::fraction(35, 100).bits == 0x3EB3_3333,
        Binary32::fraction(60, 100).bits == 0x3F19_999A,
        Binary32::fraction(67, 100).bits == 0x3F2B_851F,
        Binary32::fraction(75, 100).bits == 0x3F40_0000,
        Binary32::fraction(50, 100).bits == 0x3F00_0000,
{
    vstd::arithmetic::power2::lemma2_to64();
    binary32_laws::lemma_fraction_bits(3, 100, 0xF5_C28F, 120, 0x2000_0000);
    binary32_laws::lemma_fraction_bits(4, 100, 0xA3_D70A, 121, 0x1000_0000);
    binary32_laws::lemma_fraction_bits(5, 100, 0xCC_CCCD, 121, 0x1000_0000);
    binary32_laws::lemma_fraction_bits(6, 100, 0xF5_C28F, 121, 0x1000_0000);
    binary32_laws::lemma_fraction_bits(12, 100, 0xF5_C28F, 122, 0x800_0000);
    binary32_laws::lemma_fraction_bits(15, 100, 0x99_999A, 123, 0x400_0000);
    binary32_laws::lemma_fraction_bits(18, 100, 0xB8_51EC, 123, 0x400_0000);
    binary32_laws::lemma_fraction_bits(22, 100, 0xE1_47AE, 123, 0x400_0000);
    binary32_laws::lemma_fraction_bits(30, 100, 0x99_999A, 124, 0x200_0000);
    binary32_laws::lemma_fraction_bits(35, 100, 0xB3_3333, 124, 0x200_0000);
    binary32_laws::lemma_fraction_bits(60, 100, 0x99_999A, 125, 0x100_0000);
    binary32_laws::lemma_fraction_bits(67, 100, 0xAB_851F, 125, 0x100_0000);
    binary32_laws::lemma_fraction_bits(75, 100, 0xC0_0000, 125, 0x100_0000);
    binary32_laws::lemma_half();
    binary32_laws::lemma_same_fraction(50, 100, 1, 2);
}

/// Every shooter has a tighter ghost threshold, a less sensitive prefetch
/// trigger, a stricter salience threshold, a higher resolution floor and
/// shorter-lived prefetch jobs than every online world.
pub proof fn law_genre_tradeoffs(shooter: GenreMode, world: GenreMode)
    requires
        shooter.is_fps_spec(),
        !world.is_fps_spec(),
    ensures
        shooter.ghost_threshold_spec().below(world.ghost_threshold_spec()),
        world.divergence_threshold_spec().below(shooter.divergence_threshold_spec()),
        world.salience_threshold_spec().below(shooter.salience_threshold_spec()),
        world.resolution_floor_spec().below(shooter.resolution_floor_spec()),
        shooter.prefetch_ttl_frames_spec() < world.prefetch_ttl_frames_spec(),
{
    lemma_table_bits();
}

/// The open world is the most eager to prefetch: no genre has a lower divergence or
/// salience threshold, or a longer time to live.
pub proof fn law_open_world_prefetches_most(genre: GenreMode)
    ensures
        GenreMode::MmoOpenWorld.divergence_threshold_spec().at_most(
            genre.divergence_threshold_spec(),
        ),
        GenreMode::MmoOpenWorld.salience_threshold_spec().at_most(genre.salience_threshold_spec()),
        genre.prefetch_ttl_frames_spec() <= GenreMode::MmoOpenWorld.prefetch_ttl_frames_spec(),
{
    lemma_table_bits();
}

/// A competitive shooter never renders below three quarters of the resolution,
/// and no genre below one half.
pub proof fn law_resolution_floor_range(genre: GenreMode)
    ensures
        Binary32::fraction(1, 2).at_most(genre.resolution_floor_spec()),
        genre.resolution_floor_spec().at_most(
            GenreMode::FpsCompetitive.resolution_floor_spec(),
        ),
        genre.resolution_floor_spec().below(Binary32::whole(1)),
{
    lemma_table_bits();
    binary32_laws::lemma_half();
    binary32_laws::lemma_one();
}

/// A shooter gets two display frames per rendered frame, whatever moves; every other
/// genre gets four on a stable camera and two otherwise.
pub proof fn law_multiplier_range(genre: GenreMode, norm_variance: Binary32)
    ensures
        genre.is_fps_spec() ==> genre.afmf2_target_multiplier_spec(norm_variance) == 2,
        !genre.is_fps_spec() && norm_variance.below(Binary32::fraction(2, 100))
            ==> genre.afmf2_target_multiplier_spec(norm_variance) == 4,
        !norm_variance.below(Binary32::fraction(2, 100))
            ==> genre.afmf2_target_multiplier_spec(norm_variance) == 2,
{
}

/// Switching to a genre gives the profile that a fresh governor for it would
/// have at the same power ceiling, so the way there leaves no trace.
pub proof fn law_switch_forgets_the_way(
    start: GenreMode,
    between: GenreMode,
    last: GenreMode,
    tdp_watts: Binary32,
)
    ensures
        last.wattage_profile_spec(start.wattage_profile_spec(tdp_watts).tdp_watts)
            == last.wattage_profile_spec(tdp_watts),
        last.wattage_profile_spec(
            between.wattage_profile_spec(start.wattage_profile_spec(tdp_watts).tdp_watts).tdp_watts,
        ) == last.wattage_profile_spec(tdp_watts),
{
}

/// The ceiling of a profile is the one it was asked for, and nothing else of it depends
/// on the ceiling.
pub proof fn law_profile_keeps_the_ceiling(genre: GenreMode, first: Binary32, second: Binary32)
    ensures
        genre.wattage_profile_spec(first).tdp_watts == first,
        genre.wattage_profile_spec(first) == (WattageProfile {
            tdp_watts: first,
            ..genre.wattage_profile_spec(second)
        }),
{
}

/// Four frames are shown per rendered frame exactly where the game is no shooter and
/// the variance is under a fiftieth, and two otherwise.
pub proof fn law_stable_worlds_show_four_frames(genre: GenreMode, norm_variance: Binary32)
    requires
        norm_variance.finite(),
    ensures
        ({
            let u = Binary32::units_in_one();
            let v = norm_variance.units();
            let shown = genre.afmf2_target_multiplier_spec(norm_variance);
            let shooter = genre == GenreMode::FpsCompetitive || genre == GenreMode::FpsTactical;
            &&& shooter ==> shown == 2
            &&& 10_000 * v > 201 * u ==> shown == 2
            &&& !shooter && 10_000 * v < 199 * u ==> shown == 4
        }),
{
    let limit = Binary32::fraction(2, 100);
    crate::binary32_error::lemma_fraction_error(2, 100);
    binary32_laws::lemma_order_is_by_units(norm_variance, limit);
    binary32_laws::lemma_order_is_by_units(limit, norm_variance);
}

} // verus!
