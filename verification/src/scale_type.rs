//! The round/wave/epoch conversions used by the scale-out deployment; they
//! are the same conversions as in [`crate::types_and_const`].

pub use crate::types_and_const::{
    get_epoch_by_round, get_epoch_by_wave, get_round_by_epoch_wave, get_wave_by_round,
};
