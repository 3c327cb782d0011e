pub mod number_converter;
pub mod save_decoder;
pub mod unity_random;
