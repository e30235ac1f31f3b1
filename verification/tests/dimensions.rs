use media_gallery::dimensions::{
    after_header, after_probe, image_size, image_size_within_limit, largest_stream,
    largest_track, plan, Plan, ProbeStream, TrackSize,
};
use media_gallery::error::Error;
use media_gallery::tree::levels;

fn png(width: u32, height: u32) -> Vec<u8> {
    let mut data = vec![0x89, 0x50, 0x4E, 0x47, 0x0D, 0x0A, 0x1A, 0x0A];
    data.extend_from_slice(&[0, 0, 0, 0x0D, 0x49, 0x48, 0x44, 0x52]);
    data.extend_from_slice(&width.to_be_bytes());
    data.extend_from_slice(&height.to_be_bytes());
    data.extend_from_slice(&[0x08, 0x06, 0, 0, 0, 0x9A, 0x38, 0xC4]);
    data
}

fn gif(width: u16, height: u16) -> Vec<u8> {
    let mut data = b"GIF89a".to_vec();
    data.extend_from_slice(&width.to_le_bytes());
    data.extend_from_slice(&height.to_le_bytes());
    data.extend_from_slice(&[0, 0, 0, 0]);
    data
}

fn jpeg(width: u16, height: u16) -> Vec<u8> {
    let mut data = vec![0xFF, 0xD8, 0xFF, 0xE0, 0x00, 0x10];
    data.extend_from_slice(b"JFIF\0\x01\x01\0\0\x01\0\x01\0\0");
    data.extend_from_slice(&[0xFF, 0xC0, 0x00, 0x11, 0x08]);
    data.extend_from_slice(&height.to_be_bytes());
    data.extend_from_slice(&width.to_be_bytes());
    data.extend_from_slice(&[3, 1, 0x22, 0, 2, 0x11, 1, 3, 0x11, 1]);
    data
}

fn webp(width: u32, height: u32) -> Vec<u8> {
    let mut data = b"RIFF".to_vec();
    data.extend_from_slice(&[22, 0, 0, 0]);
    data.extend_from_slice(b"WEBPVP8X");
    data.extend_from_slice(&[10, 0, 0, 0, 0, 0, 0, 0]);
    data.extend_from_slice(&(width - 1).to_le_bytes()[..3]);
    data.extend_from_slice(&(height - 1).to_le_bytes()[..3]);
    data
}

fn track(width: u16, height: u16) -> TrackSize {
    TrackSize { width, height }
}

fn stream(width: Option<u64>, height: Option<u64>) -> ProbeStream {
    ProbeStream { width, height }
}

#[test]
fn well_formed_images_give_their_size() {
    assert_eq!(image_size(&png(123, 321)).unwrap(), (123, 321));
    assert_eq!(image_size(&png(1, 70000)).unwrap(), (1, 70000));
    assert_eq!(image_size(&gif(320, 240)).unwrap(), (320, 240));
    assert_eq!(image_size(&jpeg(1024, 768)).unwrap(), (1024, 768));
    assert_eq!(image_size(&webp(716, 400)).unwrap(), (716, 400));
}

#[test]
fn empty_file_is_an_error() {
    assert!(matches!(image_size(&[]), Err(Error::ImageSize(_))));
}

#[test]
fn truncated_files_are_errors() {
    assert!(matches!(image_size(&png(123, 321)[..11]), Err(Error::ImageSize(_))));
    assert!(matches!(image_size(&png(123, 321)[..18]), Err(Error::ImageSize(_))));
    assert!(matches!(image_size(&jpeg(10, 10)[..22]), Err(Error::ImageSize(_))));
    assert!(matches!(image_size(&webp(10, 10)[..26]), Err(Error::ImageSize(_))));
}

#[test]
fn unknown_kinds_are_errors() {
    assert!(matches!(image_size(b"this is no image at all"), Err(Error::ImageSize(_))));
    assert!(matches!(image_size(&[0u8; 64]), Err(Error::ImageSize(_))));
}

#[test]
fn size_within_limit_is_the_size() {
    assert_eq!(image_size_within_limit(&gif(7, 9)).unwrap().unwrap(), (7, 9));
    assert!(matches!(image_size_within_limit(&[1, 2, 3]), Some(Err(Error::ImageSize(_)))));
}

#[test]
fn plan_goes_by_kind() {
    assert_eq!(plan(false, "png"), Plan::Sniff);
    assert_eq!(plan(false, "mp4"), Plan::Sniff);
    assert_eq!(plan(true, "mp4"), Plan::ReadHeader);
    assert_eq!(plan(true, "webm"), Plan::Done { width: 0, height: 0 });
    assert_eq!(plan(true, "MP4"), Plan::Done { width: 0, height: 0 });
}

#[test]
fn largest_track_takes_each_axis_by_itself() {
    assert_eq!(largest_track(&vec![]), (0, 0));
    assert_eq!(largest_track(&vec![track(640, 480)]), (640, 480));
    assert_eq!(largest_track(&vec![track(160, 1080), track(1920, 90), track(0, 0)]), (1920, 1080));
    assert_eq!(largest_track(&vec![track(u16::MAX, 1), track(1, u16::MAX)]), (65535, 65535));
}

#[test]
fn largest_stream_skips_streams_without_both() {
    assert_eq!(largest_stream(&vec![]), (0, 0));
    assert_eq!(largest_stream(&vec![stream(None, None), stream(Some(9), None)]), (0, 0));
    assert_eq!(
        largest_stream(&vec![
            stream(Some(5000), None),
            stream(Some(640), Some(360)),
            stream(None, Some(9000)),
            stream(Some(320), Some(720)),
        ]),
        (640, 720)
    );
    assert_eq!(largest_stream(&vec![stream(Some(u64::MAX), Some(0))]), (u64::MAX, 0));
}

#[test]
fn header_with_tracks_settles_the_size() {
    let tracks = vec![track(1280, 720), track(160, 90)];
    assert_eq!(after_header(Some(&tracks)), Plan::Done { width: 1280, height: 720 });
    assert_eq!(after_header(Some(&Vec::new())), Plan::Done { width: 0, height: 0 });
}

#[test]
fn unreadable_header_asks_for_the_probe() {
    assert_eq!(after_header(None), Plan::Probe);
}

#[test]
fn probe_report_settles_the_size() {
    let streams = vec![stream(Some(1920), Some(800)), stream(None, None)];
    assert_eq!(after_probe(Ok(&streams)), (1920, 800));
}

#[test]
fn missing_or_failed_probe_gives_no_size() {
    assert_eq!(after_probe(Err(&Error::MissingFFProbe)), (0, 0));
    assert_eq!(after_probe(Err(&Error::Io(std::io::Error::other("spawn")))), (0, 0));
    assert_eq!(after_probe(Err(&Error::Lock())), (0, 0));
}

#[test]
fn unparseable_video_without_probe_has_no_size() {
    let size = match plan(true, "mp4") {
        Plan::ReadHeader => match after_header(None) {
            Plan::Probe => after_probe(Err(&Error::MissingFFProbe)),
            _ => panic!("the probe was expected"),
        },
        _ => panic!("the header was expected"),
    };
    assert_eq!(size, (0, 0));
}

#[test]
fn levels_count_binary_digits() {
    assert_eq!(levels(0), 0);
    assert_eq!(levels(1), 1);
    assert_eq!(levels(2), 2);
    assert_eq!(levels(3), 2);
    assert_eq!(levels(4), 3);
    assert_eq!(levels(10), 4);
    assert_eq!(levels(1023), 10);
    assert_eq!(levels(1024), 11);
    assert_eq!(levels(usize::MAX), usize::BITS);
    for n in 1..2000usize {
        assert_eq!(levels(n), n.ilog2() + 1);
    }
}
