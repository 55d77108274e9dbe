//! Frame supervision for a handheld: predictive prefetching, power telemetry, frame
//! generation hints and render quality, decided once per frame.
//!
//! - `entropy`, `markov_salience`, `prefetch_queue` and `prefetch_governor` watch
//!   the spectral entropy of the state vector and prefetch the asset groups that
//!   are likely to be needed next. `entropy_measure` and `entropy_bound` prove what the
//!   entropy is and how large it gets, `classifier_laws` what decides the class of a
//!   mode, and `governor_laws` what a frame leaves in the queue.
//! - `genre_governor` holds the parameters of the game genres.
//! - `afmf2_bridge` and `render_budget` turn the entropy signal into hints for frame
//!   interpolation and dynamic resolution; `confidence_laws` and `render_laws` prove how
//!   the hints follow the signal.
//! - `ally_x_power` scales a wattage profile with the power that is drawn;
//!   `power_laws` proves by how much.
//! - `cpu_stutter_guard` finds CPU-bound frame time spikes in a `frame_ring`;
//!   `spike_laws` and `stutter_laws` prove which frames those are, over runs of any
//!   length, and `smoothing_laws` what the smoothed values are.
//! - `binary32`, `rounding` and `binary32_laws` are the arithmetic underneath: IEEE
//!   754 binary32 numbers held by their bits, with correctly rounded operations.
//!   `binary32_error` bounds what the rounding takes.
//!
//! Nothing here touches the machine. Frame times, power readings and base-2
//! logarithms are handed in; actions and hints are handed back.

pub mod afmf2_bridge;
pub mod ally_x_power;
pub mod binary32;
pub mod binary32_error;
pub mod binary32_laws;
pub mod classifier_laws;
pub mod confidence_laws;
pub mod cpu_stutter_guard;
pub mod entropy;
pub mod entropy_bound;
pub mod entropy_measure;
pub mod frame_ring;
pub mod genre_governor;
pub mod governor_laws;
pub mod heapless_vec;
pub mod markov_salience;
pub mod power_laws;
pub mod prefetch_governor;
pub mod prefetch_queue;
pub mod render_budget;
pub mod render_laws;
pub mod rounding;
pub mod smoothing_laws;
pub mod spike_laws;
pub mod stutter_laws;

pub use afmf2_bridge::{Afmf2Bridge, Afmf2Signal};
pub use ally_x_power::{
    AllyXPowerReader, PowerEvent, PowerTelemetrySample, ProfilePatcher, SupervisorParamsGpu,
};
pub use binary32::Binary32;
pub use cpu_stutter_guard::{
    CpuStutterGuard, FrameBudgetSplit, FrametimeSpikeDetector, StutterAction,
};
pub use entropy::{
    divergence_threshold, h_max, mode_energies, GhostClass, ModeClassifier, SpectralEntropyState,
    DIM,
};
pub use genre_governor::{FrameGenMode, GenreGovernor, GenreMode, WattageProfile};
pub use heapless_vec::HeaplessVec;
pub use markov_salience::{salience_threshold, MarkovSalience, BUCKET_COUNT};
pub use prefetch_governor::{GovFrameResult, MipHintBuffer, SpectralIOGovernor};
pub use prefetch_queue::{CompressionFormat, PrefetchJob, PrefetchQueue};
pub use render_budget::{RenderBudgetAllocator, RenderBudgetOutput};
