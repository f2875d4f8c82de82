//! The upstream dictionaries, as the records that the builders and enrichers read.

pub mod jmdict;
pub mod jmdict_furigana;
pub mod kanjidic2;
pub mod kradfile;
