pub mod bytewords;
pub mod engine;
pub mod envelope;
pub mod groupspec;
pub mod mnemonic;
pub mod recover;
pub mod shares;
pub mod split;
