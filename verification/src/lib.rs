//! A live-codable music synthesis engine: musical state published as
//! immutable snapshots, a tempo scheduler, a wave renderer and a
//! partitioned convolution effect, all in exact integer arithmetic.

pub mod beat;
pub mod convolution;
pub mod convolution_law;
pub mod music_state;
pub mod name_map;
pub mod note;
pub mod phrase;
pub mod ring_buffer;
pub mod rounding;
pub mod sample;
pub mod scheduling_state;
pub mod section;
pub mod sf2_state;
pub mod sorted_keys;
pub mod sound_output;
pub mod store;
pub mod tempo;
pub mod wave_reader;
