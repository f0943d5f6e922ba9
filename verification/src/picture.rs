//! Attached pictures and their roles.

use vstd::prelude::*;

verus! {

/// The role of an attached picture.
#[derive(Clone, Copy, Debug, PartialEq, Eq, Structural)]
pub enum PictureType {
    Other,
    Icon,
    OtherIcon,
    CoverFront,
    CoverBack,
    Leaflet,
    Media,
    LeadArtist,
    Artist,
    Conductor,
    Band,
    Composer,
    Lyricist,
    RecordingLocation,
    DuringRecording,
    DuringPerformance,
    ScreenCapture,
    BrightFish,
    Illustration,
    BandLogo,
    PublisherLogo,
}

impl PictureType {
    /// The byte that stands for this role in a picture frame.
    pub open spec fn spec_byte(self) -> u8 {
        match self {
            PictureType::Other => 0x00u8,
            PictureType::Icon => 0x01u8,
            PictureType::OtherIcon => 0x02u8,
            PictureType::CoverFront => 0x03u8,
            PictureType::CoverBack => 0x04u8,
            PictureType::Leaflet => 0x05u8,
            PictureType::Media => 0x06u8,
            PictureType::LeadArtist => 0x07u8,
            PictureType::Artist => 0x08u8,
            PictureType::Conductor => 0x09u8,
            PictureType::Band => 0x0Au8,
            PictureType::Composer => 0x0Bu8,
            PictureType::Lyricist => 0x0Cu8,
            PictureType::RecordingLocation => 0x0Du8,
            PictureType::DuringRecording => 0x0Eu8,
            PictureType::DuringPerformance => 0x0Fu8,
            PictureType::ScreenCapture => 0x10u8,
            PictureType::BrightFish => 0x11u8,
            PictureType::Illustration => 0x12u8,
            PictureType::BandLogo => 0x13u8,
            PictureType::PublisherLogo => 0x14u8,
        }
    }

    /// The role that a byte stands for; bytes above 0x14 stand for none.
    pub open spec fn spec_from_byte(byte: u8) -> Option<PictureType> {
        if byte == 0x00 {
            Some(PictureType::Other)
        } else if byte == 0x01 {
            Some(PictureType::Icon)
        } else if byte == 0x02 {
            Some(PictureType::OtherIcon)
        } else if byte == 0x03 {
            Some(PictureType::CoverFront)
        } else if byte == 0x04 {
            Some(PictureType::CoverBack)
        } else if byte == 0x05 {
            Some(PictureType::Leaflet)
        } else if byte == 0x06 {
            Some(PictureType::Media)
        } else if byte == 0x07 {
            Some(PictureType::LeadArtist)
        } else if byte == 0x08 {
            Some(PictureType::Artist)
        } else if byte == 0x09 {
            Some(PictureType::Conductor)
        } else if byte == 0x0A {
            Some(PictureType::Band)
        } else if byte == 0x0B {
            Some(PictureType::Composer)
        } else if byte == 0x0C {
            Some(PictureType::Lyricist)
        } else if byte == 0x0D {
            Some(PictureType::RecordingLocation)
        } else if byte == 0x0E {
            Some(PictureType::DuringRecording)
        } else if byte == 0x0F {
            Some(PictureType::DuringPerformance)
        } else if byte == 0x10 {
            Some(PictureType::ScreenCapture)
        } else if byte == 0x11 {
            Some(PictureType::BrightFish)
        } else if byte == 0x12 {
            Some(PictureType::Illustration)
        } else if byte == 0x13 {
            Some(PictureType::BandLogo)
        } else if byte == 0x14 {
            Some(PictureType::PublisherLogo)
        } else {
            None
        }
    }

    /// The byte that stands for this role in a picture frame.
    pub fn to_byte(self) -> (byte: u8)
        ensures
            byte == self.spec_byte(),
            byte <= 0x14,
            PictureType::spec_from_byte(byte) == Some(self),
    {
        match self {
            PictureType::Other => 0x00,
            PictureType::Icon => 0x01,
            PictureType::OtherIcon => 0x02,
            PictureType::CoverFront => 0x03,
            PictureType::CoverBack => 0x04,
            PictureType::Leaflet => 0x05,
            PictureType::Media => 0x06,
            PictureType::LeadArtist => 0x07,
            PictureType::Artist => 0x08,
            PictureType::Conductor => 0x09,
            PictureType::Band => 0x0A,
            PictureType::Composer => 0x0B,
            PictureType::Lyricist => 0x0C,
            PictureType::RecordingLocation => 0x0D,
            PictureType::DuringRecording => 0x0E,
            PictureType::DuringPerformance => 0x0F,
            PictureType::ScreenCapture => 0x10,
            PictureType::BrightFish => 0x11,
            PictureType::Illustration => 0x12,
            PictureType::BandLogo => 0x13,
            PictureType::PublisherLogo => 0x14,
        }
    }

    /// The role that a byte stands for, if any.
    pub fn from_byte(byte: u8) -> (picture_type: Option<PictureType>)
        ensures
            picture_type == PictureType::spec_from_byte(byte),
            picture_type is Some <==> byte <= 0x14,
            picture_type matches Some(t) ==> t.spec_byte() == byte,
    {
        if byte == 0x00 {
            Some(PictureType::Other)
        } else if byte == 0x01 {
            Some(PictureType::Icon)
        } else if byte == 0x02 {
            Some(PictureType::OtherIcon)
        } else if byte == 0x03 {
            Some(PictureType::CoverFront)
        } else if byte == 0x04 {
            Some(PictureType::CoverBack)
        } else if byte == 0x05 {
            Some(PictureType::Leaflet)
        } else if byte == 0x06 {
            Some(PictureType::Media)
        } else if byte == 0x07 {
            Some(PictureType::LeadArtist)
        } else if byte == 0x08 {
            Some(PictureType::Artist)
        } else if byte == 0x09 {
            Some(PictureType::Conductor)
        } else if byte == 0x0A {
            Some(PictureType::Band)
        } else if byte == 0x0B {
            Some(PictureType::Composer)
        } else if byte == 0x0C {
            Some(PictureType::Lyricist)
        } else if byte == 0x0D {
            Some(PictureType::RecordingLocation)
        } else if byte == 0x0E {
            Some(PictureType::DuringRecording)
        } else if byte == 0x0F {
            Some(PictureType::DuringPerformance)
        } else if byte == 0x10 {
            Some(PictureType::ScreenCapture)
        } else if byte == 0x11 {
            Some(PictureType::BrightFish)
        } else if byte == 0x12 {
            Some(PictureType::Illustration)
        } else if byte == 0x13 {
            Some(PictureType::BandLogo)
        } else if byte == 0x14 {
            Some(PictureType::PublisherLogo)
        } else {
            None
        }
    }
}

/// A picture attached to a tag.
#[derive(Clone, Debug, PartialEq, Eq)]
pub struct Picture {
    /// The MIME type of the image data.
    pub mime_type: String,
    /// The role of the picture.
    pub picture_type: PictureType,
    /// A free description.
    pub description: String,
    /// The image data.
    pub data: Vec<u8>,
}

/// What a picture holds.
pub struct PictureView {
    pub mime_type: Seq<char>,
    pub picture_type: PictureType,
    pub description: Seq<char>,
    pub data: Seq<u8>,
}

impl View for Picture {
    type V = PictureView;

    open spec fn view(&self) -> PictureView {
        PictureView {
            mime_type: self.mime_type@,
            picture_type: self.picture_type,
            description: self.description@,
            data: self.data@,
        }
    }
}

impl Picture {
    /// A picture of role `Other` with no MIME type, description or data.
    pub fn new() -> (picture: Picture)
        ensures
            picture@ == (PictureView {
                mime_type: Seq::empty(),
                picture_type: PictureType::Other,
                description: Seq::empty(),
                data: Seq::empty(),
            }),
    {
        Picture {
            mime_type: String::new(),
            picture_type: PictureType::Other,
            description: String::new(),
            data: Vec::new(),
        }
    }
}

} // verus!
