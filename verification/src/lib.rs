//! Reading, editing and writing ID3v2 metadata containers.
//!
//! A tag stands at the head of an audio file. [`ID3Tag::load`] reads one out of the
//! bytes of a file, the methods of [`ID3Tag`] edit it, and [`ID3Tag::write`] plans how
//! the file has to change: either it is written anew, or only the frames behind the
//! first change are written over what the file holds. Nothing here touches a file; the
//! plan is carried out by the caller.
//!
//! The modules, from the bytes up: `synchsafe` (28-bit integers), `text` and `transcode`
//! (the four text encodings), `payload` and `contents` (the payload of each kind of
//! frame), `wire` (a whole frame), `legacy` (identifiers of version 2.2), `tag` (the
//! tag, its typed accessors, loading and saving). The `*_laws` modules and `tag::laws`
//! state what holds across operations.

pub mod chars;
pub mod contents;
pub mod error;
pub mod flags;
pub mod frame;
pub mod frame_laws;
pub mod legacy;
pub mod numbers;
pub mod payload;
pub mod picture;
pub mod select;
pub mod synchsafe;
pub mod tag;
pub mod text;
pub mod text_laws;
pub mod transcode;
pub mod wire;

pub use crate::error::{ErrorKind, TagError};
pub use crate::frame::{Contents, Frame, FrameFlags};
pub use crate::picture::{Picture, PictureType};
pub use crate::tag::save::WritePlan;
pub use crate::tag::ID3Tag;
pub use crate::text::Encoding;
