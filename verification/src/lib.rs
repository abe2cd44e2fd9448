//! Verified core of SpectralBlend, a voice and music blender for PipeWire graphs.

pub mod answers;
pub mod approx;
pub mod apps;
pub mod arith;
pub mod binary32;
pub mod blend;
pub mod compressor;
pub mod config;
pub mod devices;
pub mod fft;
pub mod filter;
pub mod filter_laws;
pub mod frame_laws;
pub mod graph;
pub mod level;
pub mod link_laws;
pub mod mask_laws;
pub mod mask_numbers;
pub mod messages;
pub mod mix_laws;
pub mod mixer;
pub mod offline;
pub mod offline_laws;
pub mod order;
pub mod params;
pub mod pipeline;
pub mod pipeline_laws;
pub mod ports;
pub mod realtime;
pub mod ring;
pub mod rounding;
pub mod routing;
pub mod routing_laws;
pub mod sample_laws;
pub mod settings_laws;
pub mod setup_laws;
pub mod silence_laws;
pub mod spectral_mask;
pub mod stream;
pub mod table;
pub mod text;
pub mod voice_gate;
pub mod voice_numbers;
