//! A compiler for phonological sound-change rules written in a compact notation
//! (`t→d/V_#`), checked against a phoneme and group inventory.
pub mod compile;
pub mod element;
pub mod focus;
pub mod forms;
pub mod group;
pub mod language;
pub mod laws;
pub mod phoneme;
pub mod rep;
pub mod roundtrip;
pub mod sc;
pub mod shape;
pub mod syllable;
pub mod text;
pub mod valid;

pub use element::{Element, Field, FieldKind};
pub use group::{Group, GroupKey, GroupName};
pub use phoneme::{Phoneme, PhonemeKey, PhonemeSrc};
pub use compile::FieldErrorKind;
pub use language::{Language, LanguageRaw};
pub use rep::RepPool;
pub use sc::{FieldParseError, SoundChange, SoundChangeParseError};
