use imagesize::ImageError;
use mp4::Error as Mp4Error;
use serde_json::Error as JsonError;
use vstd::prelude::*;
use vstd::std_specs::convert::FromSpecImpl;

verus! {

/// `std::io::Error`, carried as it comes: nothing is known of what it holds.
#[verifier::external_type_specification]
#[verifier::external_body]
pub struct ExIoError(std::io::Error);

/// `serde_json::Error`, carried as it comes: nothing is known of what it
/// holds.
#[verifier::external_type_specification]
#[verifier::external_body]
pub struct ExJsonError(JsonError);

/// `imagesize::ImageError`, carried as it comes: nothing is known of what it
/// holds.
#[verifier::external_type_specification]
#[verifier::external_body]
pub struct ExImageError(ImageError);

/// `mp4::Error`, carried as it comes: nothing is known of what it holds.
#[verifier::external_type_specification]
#[verifier::external_body]
pub struct ExMp4Error(Mp4Error);

/// What can go wrong while a gallery is built or served.
///
/// `Io`, `ImageSize`, `Mp4` and `Serde` carry the failure of the operating
/// system or of the library that reported it. `InvalidPath` carries the part
/// of a tree path that starts at the character which is neither `a` nor `b`.
#[derive(Debug)]
pub enum Error {
    Io(std::io::Error),
    Serde(JsonError),
    Lock(),
    ImageSize(ImageError),
    Mp4(Mp4Error),
    MissingFFProbe,
    InvalidPath(String),
}

impl Error {
    /// Whether the fault lies with what a client asked for, and not with the
    /// gallery: so it is for a tree path that cannot be followed, and for
    /// nothing else.
    pub fn is_client_fault(&self) -> (client: bool)
        ensures
            client == (*self is InvalidPath),
    {
        match self {
            Error::InvalidPath(_) => true,
            _ => false,
        }
    }
}

impl From<std::io::Error> for Error {
    fn from(source: std::io::Error) -> (error: Error) {
        Error::Io(source)
    }
}

impl FromSpecImpl<std::io::Error> for Error {
    open spec fn obeys_from_spec() -> bool {
        true
    }

    open spec fn from_spec(source: std::io::Error) -> Error {
        Error::Io(source)
    }
}

impl From<JsonError> for Error {
    fn from(source: JsonError) -> (error: Error) {
        Error::Serde(source)
    }
}

impl FromSpecImpl<JsonError> for Error {
    open spec fn obeys_from_spec() -> bool {
        true
    }

    open spec fn from_spec(source: JsonError) -> Error {
        Error::Serde(source)
    }
}

impl From<ImageError> for Error {
    fn from(source: ImageError) -> (error: Error) {
        Error::ImageSize(source)
    }
}

impl FromSpecImpl<ImageError> for Error {
    open spec fn obeys_from_spec() -> bool {
        true
    }

    open spec fn from_spec(source: ImageError) -> Error {
        Error::ImageSize(source)
    }
}

impl From<Mp4Error> for Error {
    fn from(source: Mp4Error) -> (error: Error) {
        Error::Mp4(source)
    }
}

impl FromSpecImpl<Mp4Error> for Error {
    open spec fn obeys_from_spec() -> bool {
        true
    }

    open spec fn from_spec(source: Mp4Error) -> Error {
        Error::Mp4(source)
    }
}

} // verus!
