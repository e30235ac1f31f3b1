use imagesize::ImageError;
use vstd::prelude::*;

use crate::error::Error;

verus! {

/// The longest file that is handed to the sniffer of still images.
pub const MAX_IMAGE_BYTES: usize = 0xFFFF_FFFF;

/// The pixel width and height that `imagesize::blob_size` finds in the first
/// bytes of a still image, or `None` where it finds none.
pub uninterp spec fn sniffed_size(data: Seq<u8>) -> Option<(usize, usize)>;

/// `imagesize::blob_size`, built to know JPEG, PNG, GIF and WebP.
///
/// The contract names what the sniffer finds and claims two things of it:
/// that it finds the same in the same bytes, and that it finds nothing in
/// fewer than twelve bytes, which is the header that it reads before anything
/// else. The length is bounded because the JPEG sniffer counts nested images
/// in 32 bits, at least two bytes for each.
#[verifier::external_body]
fn blob_size(data: &[u8]) -> (size: Result<(usize, usize), ImageError>)
    requires
        data@.len() <= MAX_IMAGE_BYTES,
    ensures
        size matches Ok(found) ==> sniffed_size(data@) == Some(found),
        size is Err ==> sniffed_size(data@) is None,
        data@.len() < 12 ==> size is Err,
{
    match imagesize::blob_size(data) {
        Ok(found) => Ok((found.width, found.height)),
        Err(failure) => Err(failure),
    }
}

/// What `image_size` gives for each outcome of the sniffer.
pub fn sniffed(size: Result<(usize, usize), ImageError>) -> (size_or_error: Result<
    (u64, u64),
    Error,
>)
    ensures
        size_or_error == match size {
            Ok(found) => Ok::<(u64, u64), Error>((found.0 as u64, found.1 as u64)),
            Err(failure) => Err(Error::ImageSize(failure)),
        },
{
    match size {
        Ok(found) => Ok((found.0 as u64, found.1 as u64)),
        Err(failure) => Err(Error::ImageSize(failure)),
    }
}

/// The pixel width and height of the still image whose file holds `data`.
///
/// A file in which the sniffer finds no size, be it cut short, empty or of
/// a kind that it does not know, is an error.
pub fn image_size(data: &[u8]) -> (size: Result<(u64, u64), Error>)
    requires
        data@.len() <= MAX_IMAGE_BYTES,
    ensures
        match sniffed_size(data@) {
            Some(found) => size == Ok::<(u64, u64), Error>((found.0 as u64, found.1 as u64)),
            None => size matches Err(Error::ImageSize(_)),
        },
        data@.len() < 12 ==> size is Err,
{
    sniffed(blob_size(data))
}

/// `image_size` for a file of any length: `None` for one that is too long
/// for the sniffer.
pub fn image_size_within_limit(data: &[u8]) -> (size: Option<Result<(u64, u64), Error>>)
    ensures
        data@.len() > MAX_IMAGE_BYTES <==> size is None,
        size matches Some(inner) ==> match sniffed_size(data@) {
            Some(found) => inner == Ok::<(u64, u64), Error>((found.0 as u64, found.1 as u64)),
            None => inner matches Err(Error::ImageSize(_)),
        },
{
    if data.len() > MAX_IMAGE_BYTES {
        None
    } else {
        Some(image_size(data))
    }
}

/// The pixel width and height of one track of a video container.
#[derive(Copy, Clone, Debug, PartialEq, Eq, Structural)]
pub struct TrackSize {
    pub width: u16,
    pub height: u16,
}

/// What a probing utility reports of one stream: its pixel width and height,
/// as far as it has them.
#[derive(Copy, Clone, Debug, PartialEq, Eq, Structural)]
pub struct ProbeStream {
    pub width: Option<u64>,
    pub height: Option<u64>,
}

impl ProbeStream {
    /// The stream has a width and a height.
    pub open spec fn sized(self) -> bool {
        self.width is Some && self.height is Some
    }
}

/// `size` is the box round `tracks`: in each axis as wide as the widest
/// track, and `0` where there is no track.
pub open spec fn bounds_tracks(tracks: Seq<TrackSize>, size: (u64, u64)) -> bool {
    &&& forall|i: int| 0 <= i < tracks.len() ==> tracks[i].width <= size.0
    &&& forall|i: int| 0 <= i < tracks.len() ==> tracks[i].height <= size.1
    &&& size.0 == 0 || exists|i: int| 0 <= i < tracks.len() && tracks[i].width == size.0
    &&& size.1 == 0 || exists|i: int| 0 <= i < tracks.len() && tracks[i].height == size.1
}

/// `size` is the box round the streams of `streams` that have both a width
/// and a height, and `0` in both axes where none has.
pub open spec fn bounds_streams(streams: Seq<ProbeStream>, size: (u64, u64)) -> bool {
    &&& forall|i: int|
        0 <= i < streams.len() && streams[i].sized() ==> streams[i].width->0 <= size.0
    &&& forall|i: int|
        0 <= i < streams.len() && streams[i].sized() ==> streams[i].height->0 <= size.1
    &&& size.0 == 0 || exists|i: int|
        0 <= i < streams.len() && streams[i].sized() && streams[i].width->0 == size.0
    &&& size.1 == 0 || exists|i: int|
        0 <= i < streams.len() && streams[i].sized() && streams[i].height->0 == size.1
}

/// The largest width and the largest height among `tracks`, each taken by
/// itself.
pub fn largest_track(tracks: &Vec<TrackSize>) -> (size: (u64, u64))
    ensures
        bounds_tracks(tracks@, size),
{
    let mut width: u16 = 0;
    let mut height: u16 = 0;
    let mut i: usize = 0;
    while i < tracks.len()
        invariant
            0 <= i <= tracks.len(),
            bounds_tracks(tracks@.take(i as int), (width as u64, height as u64)),
        decreases tracks.len() - i,
    {
        let ghost seen = tracks@.take(i as int);
        let ghost next = tracks@.take(i + 1);
        let ghost before = (width as u64, height as u64);
        let track = tracks[i];
        if track.width > width {
            width = track.width;
        }
        if track.height > height {
            height = track.height;
        }
        proof {
            let after = (width as u64, height as u64);
            assert(next[i as int] == track);
            assert forall|j: int| 0 <= j < next.len() implies next[j].width <= after.0
                && next[j].height <= after.1 by {
                if j < i {
                    assert(seen[j] == next[j]);
                }
            }
            if after.0 != 0 && after.0 != track.width {
                let k = choose|k: int| 0 <= k < seen.len() && seen[k].width == before.0;
                assert(next[k] == seen[k]);
            }
            if after.1 != 0 && after.1 != track.height {
                let k = choose|k: int| 0 <= k < seen.len() && seen[k].height == before.1;
                assert(next[k] == seen[k]);
            }
        }
        i += 1;
    }
    proof {
        assert(tracks@.take(i as int) =~= tracks@);
    }
    (width as u64, height as u64)
}

/// The largest width and the largest height among the streams of `streams`
/// that have both, each taken by itself.
pub fn largest_stream(streams: &Vec<ProbeStream>) -> (size: (u64, u64))
    ensures
        bounds_streams(streams@, size),
{
    let mut width: u64 = 0;
    let mut height: u64 = 0;
    let mut i: usize = 0;
    while i < streams.len()
        invariant
            0 <= i <= streams.len(),
            bounds_streams(streams@.take(i as int), (width, height)),
        decreases streams.len() - i,
    {
        let ghost seen = streams@.take(i as int);
        let ghost next = streams@.take(i + 1);
        let ghost before = (width, height);
        let stream = streams[i];
        match (stream.width, stream.height) {
            (Some(w), Some(h)) => {
                if w > width {
                    width = w;
                }
                if h > height {
                    height = h;
                }
            },
            _ => {},
        }
        proof {
            let after = (width, height);
            assert(next[i as int] == stream);
            assert forall|j: int| 0 <= j < next.len() && next[j].sized() implies next[j].width->0
                <= after.0 && next[j].height->0 <= after.1 by {
                if j < i {
                    assert(seen[j] == next[j]);
                }
            }
            if after.0 != 0 && !(stream.sized() && after.0 == stream.width->0) {
                let k = choose|k: int|
                    0 <= k < seen.len() && seen[k].sized() && seen[k].width->0 == before.0;
                assert(next[k] == seen[k]);
            }
            if after.1 != 0 && !(stream.sized() && after.1 == stream.height->0) {
                let k = choose|k: int|
                    0 <= k < seen.len() && seen[k].sized() && seen[k].height->0 == before.1;
                assert(next[k] == seen[k]);
            }
        }
        i += 1;
    }
    proof {
        assert(streams@.take(i as int) =~= streams@);
    }
    (width, height)
}

/// What is to be done next to learn the size of a file, or the size where
/// nothing is left to do.
#[derive(Copy, Clone, Debug, PartialEq, Eq, Structural)]
pub enum Plan {
    /// Read the file and ask `image_size`.
    Sniff,
    /// Read the header of the video container for its tracks.
    ReadHeader,
    /// Ask the probing utility for the streams of the file.
    Probe,
    /// The width and height are settled.
    Done { width: u64, height: u64 },
}

/// How the size of a file is looked for first: a still image is sniffed, an
/// `mp4` video has its header read, and any other video has no size that
/// could be found.
pub open spec fn first_plan(is_video: bool, extension: Seq<char>) -> Plan {
    if !is_video {
        Plan::Sniff
    } else if extension == "mp4"@ {
        Plan::ReadHeader
    } else {
        Plan::Done { width: 0, height: 0 }
    }
}

/// How the size of a file with this extension is looked for first.
pub fn plan(is_video: bool, extension: &str) -> (next: Plan)
    ensures
        next == first_plan(is_video, extension@),
{
    if !is_video {
        Plan::Sniff
    } else if extension.to_owned() == "mp4".to_owned() {
        Plan::ReadHeader
    } else {
        Plan::Done { width: 0, height: 0 }
    }
}

/// What follows the reading of a container's header: with its tracks the
/// size is the box round them, without them the probing utility is asked.
pub fn after_header(tracks: Option<&Vec<TrackSize>>) -> (next: Plan)
    ensures
        match tracks {
            Some(found) => next matches Plan::Done { width, height } && bounds_tracks(
                found@,
                (width, height),
            ),
            None => next == Plan::Probe,
        },
{
    match tracks {
        Some(found) => {
            let size = largest_track(found);
            Plan::Done { width: size.0, height: size.1 }
        },
        None => Plan::Probe,
    }
}

/// The size after the probing utility was asked: the box round the streams
/// that it reported with both a width and a height, or `0` for both where it
/// was not there to be asked, did not run, or gave a report that could not
/// be read.
pub fn after_probe(report: Result<&Vec<ProbeStream>, &Error>) -> (size: (u64, u64))
    ensures
        match report {
            Ok(streams) => bounds_streams(streams@, size),
            Err(_) => size == (0u64, 0u64),
        },
{
    match report {
        Ok(streams) => largest_stream(streams),
        Err(_) => (0, 0),
    }
}

} // verus!
