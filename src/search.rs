//! How many candidates a placement search draws, and from where.
use vstd::prelude::*;

verus! {

/// Samples drawn uniformly over the whole strip, per search.
pub const N_UNIFORM_SAMPLES: usize = 100;

/// Best samples refined by coordinate descent, per search.
pub const N_COORD_DESCENTS: usize = 2;

/// Sample budget of one placement search.
#[derive(Clone, Copy, Debug, PartialEq, Eq, Structural)]
pub struct SampleConfig {
    /// Samples drawn over the whole strip.
    pub n_bin_samples: usize,
    /// Samples drawn around the current placement of the item.
    pub n_focussed_samples: usize,
    /// Best samples refined by coordinate descent.
    pub n_coord_descents: usize,
}

/// The budget of a search for an item: an item on jump cooldown draws all its
/// samples around its current placement, any other item half there and half
/// over the whole strip.
pub fn generate_search_config(on_jump_cooldown: bool) -> (r: SampleConfig)
    ensures
        r.n_coord_descents == N_COORD_DESCENTS,
        on_jump_cooldown ==> r.n_bin_samples == 0 && r.n_focussed_samples == N_UNIFORM_SAMPLES,
        !on_jump_cooldown ==> r.n_bin_samples == N_UNIFORM_SAMPLES / 2 && r.n_focussed_samples
            == N_UNIFORM_SAMPLES / 2,
{
    if on_jump_cooldown {
        SampleConfig {
            n_bin_samples: 0,
            n_focussed_samples: N_UNIFORM_SAMPLES,
            n_coord_descents: N_COORD_DESCENTS,
        }
    } else {
        SampleConfig {
            n_bin_samples: N_UNIFORM_SAMPLES / 2,
            n_focussed_samples: N_UNIFORM_SAMPLES / 2,
            n_coord_descents: N_COORD_DESCENTS,
        }
    }
}

} // verus!
