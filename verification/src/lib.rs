//! White-box lattice cryptography and the packed-container protocol built on it.

pub mod aes;
pub mod aes_laws;
pub mod bits;
pub mod checksum;
pub mod compress;
pub mod container;
pub mod convolution;
pub mod create_wb;
pub mod crt;
pub mod decrypt;
pub mod decrypt_laws;
pub mod encrypt;
pub mod entropy;
pub mod generate;
pub mod lattice;
pub mod lz77;
pub mod margin;
pub mod modular;
pub mod montgomery;
pub mod ntt;
pub mod ntt_laws;
pub mod ntt_spec;
pub mod payload;
pub mod roots;
pub mod stub;
pub mod text;
pub mod whitebox;
