//! Spectral entropy of the state vector, and the classes of its modes.
//!
//! A mode holds the share `z_k * z_k / norm_sq` of the energy. The entropy of the
//! shares, in bits, rises some frames before a scene transition; its rate of
//! change is the trigger of the prefetch governor.
//!
//! Logarithms are handed in: `mode_energies` gives the shares whose base-2
//! logarithms `SpectralEntropyState::update` takes.

use vstd::prelude::*;

use crate::binary32::Binary32;
use crate::binary32_laws;

verus! {

/// Number of modes of the state vector.
pub const DIM: usize = 16;

/// Frames after which a peak of the divergence is forgotten.
pub const PEAK_RESET_FRAMES: u32 = 120;

/// Largest number of frames by which a transition is announced.
pub const MAX_LEAD_FRAMES: u32 = 60;

/// Largest entropy of `DIM` modes, in bits.
pub open spec fn h_max_spec() -> Binary32 {
    Binary32::whole(4)
}

/// Largest entropy of `DIM` modes, in bits.
pub fn h_max() -> (r: Binary32)
    ensures
        r == h_max_spec(),
{
    Binary32::from_u32(4)
}

/// Rate of change of the entropy above which prefetching is triggered.
pub open spec fn divergence_threshold_spec() -> Binary32 {
    Binary32::fraction(15, 100)
}

/// Rate of change of the entropy above which prefetching is triggered.
pub fn divergence_threshold() -> (r: Binary32)
    ensures
        r == divergence_threshold_spec(),
{
    Binary32::from_ratio(15, 100)
}

/// Variance of a mode above which it is transient.
pub open spec fn diffuse_var_threshold_spec() -> Binary32 {
    Binary32::fraction(4, 1000)
}

/// Variance of a mode above which it is transient.
pub fn diffuse_var_threshold() -> (r: Binary32)
    ensures
        r == diffuse_var_threshold_spec(),
{
    Binary32::from_ratio(4, 1000)
}

/// Mean of a mode under which it is dead.
pub open spec fn collapse_threshold_spec() -> Binary32 {
    Binary32::fraction(1, 100)
}

/// Mean of a mode under which it is dead.
pub fn collapse_threshold() -> (r: Binary32)
    ensures
        r == collapse_threshold_spec(),
{
    Binary32::from_ratio(1, 100)
}

/// Energy under which the state, or a mode, counts as empty.
pub open spec fn energy_floor() -> Binary32 {
    Binary32::fraction(1, 1_000_000_000)
}

/// The share of the energy that a mode holds.
pub open spec fn mode_energy(z: Binary32, norm_sq: Binary32) -> Binary32 {
    z.product(z).quotient(norm_sq)
}

/// The entropy of the first `modes` modes, summed in order.
pub open spec fn entropy_of(
    z: Seq<Binary32>,
    norm_sq: Binary32,
    log2_energies: Seq<Binary32>,
    modes: nat,
) -> Binary32
    decreases modes,
{
    if modes == 0 {
        Binary32::nil()
    } else {
        let k = modes - 1;
        let before = entropy_of(z, norm_sq, log2_energies, k as nat);
        let p = mode_energy(z[k], norm_sq);
        if energy_floor().below(p) {
            before.difference(p.product(log2_energies[k]))
        } else {
            before
        }
    }
}

/// The rate at which the entropy changes over a time step.
pub open spec fn rate_of_change(h: Binary32, h_prev: Binary32, dt: Binary32) -> Binary32 {
    if Binary32::nil().below(dt) {
        h.difference(h_prev).quotient(dt)
    } else {
        Binary32::nil()
    }
}

/// The shares of the energy that the modes hold.
pub fn mode_energies(z: &[Binary32; DIM], norm_sq: Binary32) -> (r: [Binary32; DIM])
    ensures
        forall|k: int| 0 <= k < DIM ==> r[k] == mode_energy(#[trigger] z[k], norm_sq),
{
    let mut r: [Binary32; DIM] = [Binary32::from_bits(0);DIM];
    let mut k: usize = 0;
    while k < DIM
        invariant
            k <= DIM,
            forall|i: int| 0 <= i < k ==> r[i] == mode_energy(#[trigger] z[i], norm_sq),
        decreases DIM - k,
    {
        r[k] = z[k].times(z[k]).over(norm_sq);
        k = k + 1;
    }
    r
}

/// The entropy of the state and how fast it changes.
#[derive(Clone, Copy, Debug)]
pub struct SpectralEntropyState {
    pub h_current: Binary32,
    pub h_prev: Binary32,
    /// Rate of change of the entropy.
    pub divergence_rate: Binary32,
    pub peak_divergence: Binary32,
    /// Frames since the peak.
    pub peak_age: u32,
}

impl Default for SpectralEntropyState {
    fn default() -> (r: SpectralEntropyState)
        ensures
            r == SpectralEntropyState::initial(),
    {
        SpectralEntropyState {
            h_current: Binary32::from_bits(0),
            h_prev: Binary32::from_bits(0),
            divergence_rate: Binary32::from_bits(0),
            peak_divergence: Binary32::from_bits(0),
            peak_age: 0,
        }
    }
}

impl SpectralEntropyState {
    /// The state before the first frame.
    pub open spec fn initial() -> SpectralEntropyState {
        SpectralEntropyState {
            h_current: Binary32::nil(),
            h_prev: Binary32::nil(),
            divergence_rate: Binary32::nil(),
            peak_divergence: Binary32::nil(),
            peak_age: 0,
        }
    }

    /// The peak and its age after a frame with this divergence. A larger
    /// divergence is the new peak; an old peak gives way to the present one.
    pub open spec fn peak_after(self, divergence: Binary32) -> (Binary32, int) {
        if self.peak_divergence.below(divergence) || self.peak_age >= PEAK_RESET_FRAMES {
            (divergence, 0)
        } else {
            (self.peak_divergence, self.peak_age + 1)
        }
    }

    /// The state after a frame with energy.
    pub open spec fn after(self, h: Binary32, dt: Binary32) -> SpectralEntropyState {
        let rate = rate_of_change(h, self.h_current, dt);
        let (peak, age) = self.peak_after(rate.absolute());
        SpectralEntropyState {
            h_current: h,
            h_prev: self.h_current,
            divergence_rate: rate,
            peak_divergence: peak,
            peak_age: age as u32,
        }
    }

    /// The state after a frame without energy.
    pub open spec fn after_silence(self) -> SpectralEntropyState {
        SpectralEntropyState {
            h_current: Binary32::nil(),
            divergence_rate: Binary32::nil(),
            ..self
        }
    }

    /// The state after a frame, and whether prefetching is triggered.
    pub open spec fn updated(
        self,
        z: Seq<Binary32>,
        norm_sq: Binary32,
        dt: Binary32,
        log2_energies: Seq<Binary32>,
    ) -> (SpectralEntropyState, bool) {
        if norm_sq.below(energy_floor()) {
            (self.after_silence(), false)
        } else {
            let next = self.after(entropy_of(z, norm_sq, log2_energies, DIM as nat), dt);
            (next, divergence_threshold_spec().below(next.divergence_rate.absolute()))
        }
    }

    /// Whether the age of the peak does not overflow on this frame.
    pub open spec fn has_room(
        self,
        z: Seq<Binary32>,
        norm_sq: Binary32,
        dt: Binary32,
        log2_energies: Seq<Binary32>,
    ) -> bool {
        let h = entropy_of(z, norm_sq, log2_energies, DIM as nat);
        ||| self.peak_age < u32::MAX
        ||| norm_sq.below(energy_floor())
        ||| self.peak_divergence.below(rate_of_change(h, self.h_current, dt).absolute())
    }

    /// Takes in a state vector with its energy and the base-2 logarithms of its
    /// mode energies. Returns whether prefetching should be triggered.
    pub fn update(
        &mut self,
        z: &[Binary32; DIM],
        norm_sq: Binary32,
        dt: Binary32,
        log2_energies: &[Binary32; DIM],
    ) -> (trigger: bool)
        requires
            old(self).has_room(z@, norm_sq, dt, log2_energies@),
        ensures
            (*final(self), trigger) == old(self).updated(z@, norm_sq, dt, log2_energies@),
    {
        let floor: Binary32 = Binary32::from_ratio(1, 1_000_000_000);
        if norm_sq.is_below(floor) {
            self.h_current = Binary32::from_bits(0);
            self.divergence_rate = Binary32::from_bits(0);
            return false;
        }
        let mut h: Binary32 = Binary32::from_bits(0);
        let mut k: usize = 0;
        while k < DIM
            invariant
                k <= DIM,
                floor == energy_floor(),
                h == entropy_of(z@, norm_sq, log2_energies@, k as nat),
            decreases DIM - k,
        {
            let p: Binary32 = z[k].times(z[k]).over(norm_sq);
            if p.is_above(floor) {
                h = h.minus(p.times(log2_energies[k]));
            }
            k = k + 1;
        }
        self.h_prev = self.h_current;
        self.h_current = h;
        self.divergence_rate = if dt.is_above(Binary32::from_bits(0)) {
            h.minus(self.h_prev).over(dt)
        } else {
            Binary32::from_bits(0)
        };
        let magnitude: Binary32 = self.divergence_rate.abs();
        if magnitude.is_above(self.peak_divergence) {
            self.peak_divergence = magnitude;
            self.peak_age = 0;
        } else {
            self.peak_age = self.peak_age + 1;
            if self.peak_age > PEAK_RESET_FRAMES {
                self.peak_divergence = magnitude;
                self.peak_age = 0;
            }
        }
        magnitude.is_above(divergence_threshold())
    }

    pub open spec fn h_normalized_spec(self) -> Binary32 {
        self.h_current.quotient(h_max_spec())
    }

    /// The entropy as a share of the largest one.
    pub fn h_normalized(&self) -> (r: Binary32)
        ensures
            r == self.h_normalized_spec(),
    {
        self.h_current.over(h_max())
    }

    pub open spec fn estimated_lead_frames_spec(self) -> nat {
        let rate = self.divergence_rate.absolute();
        let gap = self.peak_divergence.difference(rate);
        if gap.at_most(Binary32::nil()) || rate.below(Binary32::fraction(1, 1_000_000)) {
            0
        } else {
            gap.quotient(rate).truncated(MAX_LEAD_FRAMES as nat)
        }
    }

    /// Estimated frames until the peak of a transition: the distance to the peak
    /// over the rate, and no more than `MAX_LEAD_FRAMES`.
    pub fn estimated_lead_frames(&self) -> (r: u32)
        ensures
            r == self.estimated_lead_frames_spec(),
            r <= MAX_LEAD_FRAMES,
    {
        let rate: Binary32 = self.divergence_rate.abs();
        let gap: Binary32 = self.peak_divergence.minus(rate);
        if gap.is_at_most(Binary32::from_bits(0)) || rate.is_below(
            Binary32::from_ratio(1, 1_000_000),
        ) {
            return 0;
        }
        proof {
            reveal(Binary32::truncated);
        }
        gap.over(rate).truncate(MAX_LEAD_FRAMES)
    }
}

/// What a mode has been doing.
#[derive(Clone, Copy, Debug, PartialEq, Eq, Structural)]
pub enum GhostClass {
    /// Stable: full resolution.
    Echo,
    /// Transient: one mip level less.
    Diffuse,
    /// Dead: two mip levels less.
    Collapsed,
}

impl GhostClass {
    pub open spec fn bias_spec(self) -> u8 {
        match self {
            GhostClass::Echo => 0,
            GhostClass::Diffuse => 1,
            GhostClass::Collapsed => 2,
        }
    }

    /// The mip levels that the class gives up.
    pub fn bias(self) -> (r: u8)
        ensures
            r == self.bias_spec(),
    {
        match self {
            GhostClass::Echo => 0,
            GhostClass::Diffuse => 1,
            GhostClass::Collapsed => 2,
        }
    }
}

/// Count, running mean and running sum of squared deviations of one mode.
pub struct ModeStatistics {
    pub n: nat,
    pub mean: Binary32,
    pub m2: Binary32,
}

impl ModeStatistics {
    /// The statistics before the first value.
    pub open spec fn initial() -> ModeStatistics {
        ModeStatistics { n: 0, mean: Binary32::nil(), m2: Binary32::nil() }
    }

    /// The statistics after one more value of the mode.
    pub open spec fn after(self, z: Binary32) -> ModeStatistics {
        let x = z.absolute();
        let n = self.n + 1;
        let d = x.difference(self.mean);
        let mean = self.mean.sum(d.quotient(Binary32::whole(n)));
        ModeStatistics { n, mean, m2: self.m2.sum(d.product(x.difference(mean))) }
    }

    pub open spec fn variance(self) -> Binary32 {
        if self.n < 2 {
            Binary32::nil()
        } else {
            self.m2.quotient(Binary32::whole(self.n))
        }
    }

    pub open spec fn class(self) -> GhostClass {
        if self.mean.below(collapse_threshold_spec()) {
            GhostClass::Collapsed
        } else if diffuse_var_threshold_spec().below(self.variance()) {
            GhostClass::Diffuse
        } else {
            GhostClass::Echo
        }
    }
}

/// Running statistics of the modes, by Welford's method.
#[derive(Clone, Copy, Debug)]
pub struct ModeClassifier {
    pub n: [u32; DIM],
    pub mean: [Binary32; DIM],
    pub m2: [Binary32; DIM],
}

impl Default for ModeClassifier {
    fn default() -> (r: ModeClassifier)
        ensures
            r.is_fresh(),
    {
        ModeClassifier {
            n: [0;DIM],
            mean: [Binary32::from_bits(0);DIM],
            m2: [Binary32::from_bits(0);DIM],
        }
    }
}

impl ModeClassifier {
    /// The statistics of a mode.
    pub open spec fn mode(self, k: int) -> ModeStatistics {
        ModeStatistics { n: self.n[k] as nat, mean: self.mean[k], m2: self.m2[k] }
    }

    /// Whether no state vector was taken in yet.
    pub open spec fn is_fresh(self) -> bool {
        forall|k: int| 0 <= k < DIM ==> #[trigger] self.mode(k) == ModeStatistics::initial()
    }

    /// Whether no counter overflows on the next state vector.
    pub open spec fn has_room(self) -> bool {
        forall|k: int| 0 <= k < DIM ==> (#[trigger] self.mode(k)).n < u32::MAX
    }

    /// Whether this is the classifier after `before` has taken in a state vector.
    pub open spec fn follows(self, before: ModeClassifier, z: Seq<Binary32>) -> bool {
        forall|k: int|
            0 <= k < DIM ==> #[trigger] self.mode(k) == before.mode(k).after(z[k])
    }

    /// Takes in a state vector.
    pub fn update(&mut self, z: &[Binary32; DIM])
        requires
            old(self).has_room(),
        ensures
            final(self).follows(*old(self), z@),
    {
        let mut k: usize = 0;
        while k < DIM
            invariant
                k <= DIM,
                old(self).has_room(),
                forall|i: int|
                    0 <= i < k ==> #[trigger] self.mode(i) == old(self).mode(i).after(z[i]),
                forall|i: int| k <= i < DIM ==> #[trigger] self.mode(i) == old(self).mode(i),
            decreases DIM - k,
        {
            assert(self.mode(k as int) == old(self).mode(k as int));
            let x: Binary32 = z[k].abs();
            let n: u32 = self.n[k] + 1;
            let d: Binary32 = x.minus(self.mean[k]);
            let mean: Binary32 = self.mean[k].plus(d.over(Binary32::from_u32(n)));
            let m2: Binary32 = self.m2[k].plus(d.times(x.minus(mean)));
            let ghost before = *self;
            self.n[k] = n;
            self.mean[k] = mean;
            self.m2[k] = m2;
            assert forall|i: int| 0 <= i < DIM && i != k implies #[trigger] self.mode(i)
                == before.mode(i) by {}
            k = k + 1;
        }
    }

    /// The class of a mode.
    pub fn classify(&self, k: usize) -> (r: GhostClass)
        requires
            k < DIM,
        ensures
            r == self.mode(k as int).class(),
    {
        if self.mean[k].is_below(collapse_threshold()) {
            return GhostClass::Collapsed;
        }
        let var: Binary32 = if self.n[k] < 2 {
            Binary32::from_bits(0)
        } else {
            self.m2[k].over(Binary32::from_u32(self.n[k]))
        };
        if var.is_above(diffuse_var_threshold()) {
            GhostClass::Diffuse
        } else {
            GhostClass::Echo
        }
    }

    /// The mip bias of a mode.
    pub open spec fn bias_of(self, k: int) -> u8 {
        self.mode(k).class().bias_spec()
    }

    /// The mip levels that a mode gives up.
    pub fn mip_bias(&self, k: usize) -> (r: u8)
        requires
            k < DIM,
        ensures
            r == self.bias_of(k as int),
    {
        self.classify(k).bias()
    }

    /// The largest bias of all modes: one streaming hint for the whole frame.
    pub fn global_mip_bias(&self) -> (r: u8)
        ensures
            forall|k: int| 0 <= k < DIM ==> #[trigger] self.bias_of(k) <= r,
            exists|k: int| 0 <= k < DIM && #[trigger] self.bias_of(k) == r,
    {
        let mut r: u8 = self.mip_bias(0);
        let mut k: usize = 1;
        while k < DIM
            invariant
                1 <= k <= DIM,
                forall|i: int| 0 <= i < k ==> #[trigger] self.bias_of(i) <= r,
                exists|i: int| 0 <= i < k && #[trigger] self.bias_of(i) == r,
            decreases DIM - k,
        {
            let bias: u8 = self.mip_bias(k);
            if bias > r {
                r = bias;
            }
            k = k + 1;
        }
        r
    }

    /// The bias of each mode, for fine-grained texture streaming.
    pub fn mip_bias_array(&self) -> (r: [u8; DIM])
        ensures
            forall|k: int| 0 <= k < DIM ==> #[trigger] r[k] == self.bias_of(k),
    {
        let mut r: [u8; DIM] = [0;DIM];
        let mut k: usize = 0;
        while k < DIM
            invariant
                k <= DIM,
                forall|i: int| 0 <= i < k ==> #[trigger] r[i] == self.bias_of(i),
            decreases DIM - k,
        {
            r[k] = self.mip_bias(k);
            k = k + 1;
        }
        r
    }
}

/// The age of the peak never exceeds the frames after which a peak is forgotten.
pub proof fn law_peak_is_recent(
    state: SpectralEntropyState,
    z: Seq<Binary32>,
    norm_sq: Binary32,
    dt: Binary32,
    log2_energies: Seq<Binary32>,
)
    requires
        state.peak_age <= PEAK_RESET_FRAMES,
    ensures
        SpectralEntropyState::initial().peak_age <= PEAK_RESET_FRAMES,
        state.updated(z, norm_sq, dt, log2_energies).0.peak_age <= PEAK_RESET_FRAMES,
        state.has_room(z, norm_sq, dt, log2_energies),
{
}

/// After every frame the peak is at least as large as the divergence, so that no
/// lead time comes from a peak that lies below.
pub proof fn law_peak_covers_the_divergence(
    state: SpectralEntropyState,
    z: Seq<Binary32>,
    norm_sq: Binary32,
    dt: Binary32,
    log2_energies: Seq<Binary32>,
)
    requires
        !state.peak_divergence.nan(),
        Binary32::nil().at_most(state.peak_divergence),
        !state.updated(z, norm_sq, dt, log2_energies).0.divergence_rate.nan(),
    ensures
        ({
            let next = state.updated(z, norm_sq, dt, log2_energies).0;
            &&& next.divergence_rate.absolute().at_most(next.peak_divergence)
            &&& Binary32::nil().at_most(next.peak_divergence)
        }),
{
}

/// At the peak there is no lead time, and there is never more than the limit.
pub proof fn law_lead_time_range(state: SpectralEntropyState)
    ensures
        state.estimated_lead_frames_spec() <= MAX_LEAD_FRAMES,
        state.divergence_rate.finite() && state.peak_divergence == state.divergence_rate.absolute()
            ==> state.estimated_lead_frames_spec() == 0,
{
    reveal(Binary32::truncated);
    reveal(Binary32::sum);
}

/// A frame without energy has no entropy and triggers nothing.
pub proof fn law_silence_triggers_nothing(
    state: SpectralEntropyState,
    z: Seq<Binary32>,
    norm_sq: Binary32,
    dt: Binary32,
    log2_energies: Seq<Binary32>,
)
    requires
        norm_sq.below(energy_floor()),
    ensures
        ({
            let (next, trigger) = state.updated(z, norm_sq, dt, log2_energies);
            &&& !trigger
            &&& next.divergence_rate == Binary32::nil()
            &&& next.h_normalized_spec() == Binary32::nil()
            &&& next.peak_divergence == state.peak_divergence
            &&& next.peak_age == state.peak_age
        }),
{
    binary32_laws::lemma_whole(4);
    binary32_laws::lemma_zero_over(Binary32::nil(), Binary32::whole(4));
}

/// The energy floor is positive and far below a sixteenth.
pub proof fn lemma_floor()
    ensures
        energy_floor() == (Binary32 { bits: 0x3089_705F }),
{
    vstd::arithmetic::power2::lemma2_to64();
    vstd::arithmetic::power2::lemma2_to64_rest();
    binary32_laws::lemma_fraction_bits(1, 1_000_000_000, 0x89_705F, 96, 0x20_0000_0000_0000);
}

/// The entropy is not negative where no share has a positive logarithm, as no share
/// up to one has.
pub proof fn law_entropy_is_not_negative(
    z: Seq<Binary32>,
    norm_sq: Binary32,
    log2_energies: Seq<Binary32>,
    modes: nat,
)
    requires
        forall|k: int|
            0 <= k < modes && energy_floor().below(mode_energy(#[trigger] z[k], norm_sq)) ==> {
                &&& mode_energy(z[k], norm_sq).finite()
                &&& log2_energies[k].at_most(Binary32::nil())
            },
    ensures
        Binary32::nil().at_most(entropy_of(z, norm_sq, log2_energies, modes)),
    decreases modes,
{
    if modes > 0 {
        let k = modes - 1;
        law_entropy_is_not_negative(z, norm_sq, log2_energies, k as nat);
        let before = entropy_of(z, norm_sq, log2_energies, k as nat);
        let p = mode_energy(z[k], norm_sq);
        if energy_floor().below(p) {
            lemma_floor();
            binary32_laws::lemma_minus_a_loss(before, p, log2_energies[k]);
        }
    }
}

/// The entropy is zero where all the energy is in one mode, whose share then has
/// the logarithm zero.
pub proof fn law_one_mode_has_no_entropy(
    z: Seq<Binary32>,
    norm_sq: Binary32,
    log2_energies: Seq<Binary32>,
    mode: int,
    modes: nat,
)
    requires
        mode_energy(z[mode], norm_sq).finite(),
        log2_energies[mode].zero(),
        forall|k: int|
            0 <= k < modes && k != mode ==> !energy_floor().below(
                mode_energy(#[trigger] z[k], norm_sq),
            ),
    ensures
        entropy_of(z, norm_sq, log2_energies, modes).zero(),
    decreases modes,
{
    if modes > 0 {
        let k = modes - 1;
        law_one_mode_has_no_entropy(z, norm_sq, log2_energies, mode, k as nat);
        let before = entropy_of(z, norm_sq, log2_energies, k as nat);
        let p = mode_energy(z[k], norm_sq);
        if energy_floor().below(p) {
            binary32_laws::lemma_times_a_zero(p, log2_energies[k]);
            binary32_laws::lemma_zero_minus_zero(before, p.product(log2_energies[k]));
        }
    }
}

/// The entropy is the largest one where the energy is spread evenly, each share then
/// being a sixteenth with the logarithm minus four.
pub proof fn law_even_modes_have_the_largest_entropy(
    z: Seq<Binary32>,
    norm_sq: Binary32,
    log2_energies: Seq<Binary32>,
)
    requires
        forall|k: int|
            0 <= k < DIM ==> mode_energy(#[trigger] z[k], norm_sq) == Binary32::fraction(1, 16),
        forall|k: int|
            0 <= k < DIM ==> #[trigger] log2_energies[k] == Binary32::whole(4).opposite(),
    ensures
        entropy_of(z, norm_sq, log2_energies, DIM as nat) == h_max_spec(),
{
    lemma_even_modes(z, norm_sq, log2_energies, DIM as nat);
    binary32_laws::lemma_same_fraction(16, 4, 4, 1);
}

proof fn lemma_even_modes(
    z: Seq<Binary32>,
    norm_sq: Binary32,
    log2_energies: Seq<Binary32>,
    modes: nat,
)
    requires
        modes <= DIM,
        forall|k: int|
            0 <= k < DIM ==> mode_energy(#[trigger] z[k], norm_sq) == Binary32::fraction(1, 16),
        forall|k: int|
            0 <= k < DIM ==> #[trigger] log2_energies[k] == Binary32::whole(4).opposite(),
    ensures
        entropy_of(z, norm_sq, log2_energies, modes) == Binary32::fraction(modes, 4),
    decreases modes,
{
    if modes > 0 {
        let k = modes - 1;
        lemma_even_modes(z, norm_sq, log2_energies, k as nat);
        assert(mode_energy(z[k], norm_sq) == Binary32::fraction(1, 16));
        assert(log2_energies[k] == Binary32::whole(4).opposite());
        lemma_floor();
        binary32_laws::lemma_one_quarter_more(k as nat);
    } else {
        binary32_laws::lemma_quarters(0);
    }
}

/// An entropy between zero and the largest one is normalised to a share between
/// zero and one.
pub proof fn law_normalized_entropy_is_a_share(state: SpectralEntropyState)
    requires
        Binary32::nil().at_most(state.h_current),
        state.h_current.at_most(h_max_spec()),
    ensures
        Binary32::nil().at_most(state.h_normalized_spec()),
        state.h_normalized_spec().at_most(Binary32::whole(1)),
{
    binary32_laws::lemma_whole(4);
    if state.h_current.negative() {
        binary32_laws::lemma_zero_over(state.h_current, Binary32::whole(4));
        binary32_laws::lemma_one();
    } else {
        binary32_laws::lemma_quotient_at_most_one(state.h_current, h_max_spec());
    }
}

/// The statistics of a mode after the same value some times.
pub open spec fn steady(z: Binary32, times: nat) -> ModeStatistics
    decreases times,
{
    if times == 0 {
        ModeStatistics::initial()
    } else {
        steady(z, (times - 1) as nat).after(z)
    }
}

/// A mode that holds still has its value as the mean and no deviation, so that it is
/// an echo, or collapsed where the value is small; it is never diffuse.
pub proof fn law_steady_modes_are_not_diffuse(z: Binary32, times: nat)
    requires
        z.finite(),
        0 < times <= u32::MAX,
    ensures
        steady(z, times).n == times,
        steady(z, times).mean == z.absolute(),
        steady(z, times).m2 == Binary32::nil(),
        steady(z, times).class() == if z.absolute().below(collapse_threshold_spec()) {
            GhostClass::Collapsed
        } else {
            GhostClass::Echo
        },
    decreases times,
{
    let x = z.absolute();
    let count = Binary32::whole(times);
    binary32_laws::lemma_whole(times);
    binary32_laws::lemma_zero_over(Binary32::nil(), count);
    binary32_laws::lemma_plus_zero(x, Binary32::nil());
    binary32_laws::lemma_plus_zero(x, Binary32::nil().opposite());
    binary32_laws::lemma_plus_zero(Binary32::nil(), Binary32::nil());
    binary32_laws::lemma_minus_itself(x);
    binary32_laws::lemma_times_a_zero(x, Binary32::nil());
    binary32_laws::lemma_times_a_zero(Binary32::nil(), Binary32::nil());
    binary32_laws::lemma_fraction_monotone(4, 1000, 4, 1000);
    if times == 1 {
        assert(steady(z, 0) == ModeStatistics::initial());
        binary32_laws::lemma_over_one(x);
    } else {
        law_steady_modes_are_not_diffuse(z, (times - 1) as nat);
    }
}

/// A stable mode keeps the most detail and a dead one the least.
pub proof fn law_bias_orders_the_classes()
    ensures
        GhostClass::Echo.bias_spec() < GhostClass::Diffuse.bias_spec(),
        GhostClass::Diffuse.bias_spec() < GhostClass::Collapsed.bias_spec(),
        forall|class: GhostClass| #[trigger] class.bias_spec() <= 2,
{
}

} // verus!
