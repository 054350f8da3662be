//! A fixed-point CELT decoder, the encoder of its band shapes, and the tools
//! around them, written with contracts that are checked by Verus.

pub mod all_bands;
pub mod allocation;
pub mod allocation_laws;
pub mod analysis;
pub mod angle_laws;
pub mod band_decode;
pub mod band_encode;
pub mod band_laws;
pub mod band_stereo;
pub mod band_tf;
pub mod bands;
pub mod bands_encode;
pub mod bench_args;
pub mod coder_laws;
pub mod collapse;
pub mod comb;
pub mod concealment;
pub mod concealment_laws;
pub mod corpus;
pub mod decode;
pub mod decoder;
pub mod division_laws;
pub mod encode_laws;
pub mod energy;
pub mod filter_laws;
pub mod fixed;
pub mod follow_laws;
pub mod frame;
pub mod hadamard;
pub mod head_laws;
pub mod header;
pub mod header_laws;
pub mod laws;
pub mod lpc;
pub mod math;
pub mod mdct;
pub mod memory;
pub mod mode;
pub mod mode_laws;
pub mod mode_tables;
pub mod norm_laws;
pub mod part_laws;
pub mod pitch;
pub mod plc;
pub mod pvq;
pub mod pvq_counts;
pub mod pvq_encode;
pub mod range_decoder;
pub mod range_encoder;
pub mod rate;
pub mod rotation_laws;
pub mod search_laws;
pub mod shape_laws;
pub mod spectrum;
pub mod spectrum_laws;
pub mod spreading;
pub mod spreading_laws;
pub mod stereo_encode;
pub mod synthesis;
pub mod synthesis_laws;
pub mod text;
pub mod theta;
pub mod tool_laws;
pub mod vectors;
