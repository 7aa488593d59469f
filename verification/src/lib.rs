//! Sample reconstruction for a block-transform image codec: quantized 8x8
//! coefficient blocks arrive one MCU row at a time and are transformed and
//! placed into a raster plane of byte samples, one plane per color component.

pub mod transform;
pub mod worker;
