use media_gallery::error::Error;
use media_gallery::identifier::{decimal_text, identifier};
use media_gallery::image_info::ImageInfo;
use media_gallery::tree::TreeNode;

#[test]
fn numbers_are_written_in_decimal() {
    assert_eq!(decimal_text(0), "0");
    assert_eq!(decimal_text(7), "7");
    assert_eq!(decimal_text(10), "10");
    assert_eq!(decimal_text(1234567890), "1234567890");
    assert_eq!(decimal_text(u64::MAX), "18446744073709551615");
    for n in 0..1500u64 {
        assert_eq!(decimal_text(n), n.to_string());
    }
}

#[test]
fn identifier_is_number_dot_extension() {
    assert_eq!(identifier(0, "png"), "0.png");
    assert_eq!(identifier(42, "JPEG"), "42.JPEG");
    assert_eq!(identifier(7, ""), "7.");
    assert_eq!(identifier(12, "tar.gz"), "12.tar.gz");
}

#[test]
fn identifiers_of_different_numbers_differ() {
    let mut seen = std::collections::HashSet::new();
    for n in 0..300u64 {
        for extension in ["png", "0.png", ".png", ""] {
            assert!(seen.insert((n, identifier(n, extension))));
        }
    }
    let names: std::collections::HashSet<String> =
        (0..300u64).map(|n| identifier(n, "png")).collect();
    assert_eq!(names.len(), 300);
    assert_ne!(identifier(1, "0.png"), identifier(10, "png"));
}

#[test]
fn only_an_invalid_path_is_the_clients_fault() {
    assert!(Error::InvalidPath("x".to_string()).is_client_fault());
    assert!(!Error::Lock().is_client_fault());
    assert!(!Error::MissingFFProbe.is_client_fault());
    assert!(!Error::Io(std::io::Error::other("disk")).is_client_fault());
    assert!(!Error::ImageSize(imagesize::ImageError::NotSupported).is_client_fault());
}

#[test]
fn outside_errors_become_their_variant() {
    assert!(matches!(Error::from(std::io::Error::other("disk")), Error::Io(_)));
    assert!(matches!(Error::from(imagesize::ImageError::CorruptedImage), Error::ImageSize(_)));
    assert!(matches!(Error::from(mp4::Error::InvalidData("box")), Error::Mp4(_)));
    let broken: Result<u8, serde_json::Error> = serde_json::from_str("{");
    assert!(matches!(Error::from(broken.unwrap_err()), Error::Serde(_)));
}

#[test]
fn cloned_tree_is_the_same_tree() {
    let images: Vec<ImageInfo> = (1..=5u64)
        .map(|h| ImageInfo::new(format!("{h}.png"), format!("/p/{h}.png"), 0, false, 2, h))
        .collect();
    let tree = TreeNode::tree_from_images(&images).unwrap();
    let copy = tree.clone();
    assert_eq!(copy.height(), tree.height());
    for path in ["", "a", "b", "ba", "bb"] {
        match (tree.path(path).unwrap(), copy.path(path).unwrap()) {
            (TreeNode::Leaf { images: left }, TreeNode::Leaf { images: right }) => {
                assert_eq!(left.len(), right.len());
                for (l, r) in left.iter().zip(right.iter()) {
                    assert_eq!((l.height, &l.url), (r.height, &r.url));
                }
            }
            (TreeNode::Branch { .. }, TreeNode::Branch { .. }) => {}
            _ => panic!("the two trees differ"),
        }
    }
}
