use vstd::prelude::*;

use crate::error::Error;
use crate::FilterParameter;
use crate::IMAGE_OFFSET;

verus! {

/// One discovered media file.
///
/// `width` and `height` are pixels, `0` for both where they are unknown.
/// `height_before` and `height_after` are the layout heights of the entries
/// that stand before and after this one in its list.
#[derive(Debug)]
pub struct ImageInfo {
    pub url: String,
    pub source: String,
    /// Nanoseconds since the Unix epoch, negative before it.
    pub date: i128,
    pub is_video: bool,
    pub width: u64,
    pub height: u64,
    pub height_before: u64,
    pub height_after: u64,
}

impl Clone for ImageInfo {
    fn clone(&self) -> (copy: Self)
        ensures
            copy == *self,
    {
        ImageInfo {
            url: self.url.clone(),
            source: self.source.clone(),
            date: self.date,
            is_video: self.is_video,
            width: self.width,
            height: self.height,
            height_before: self.height_before,
            height_after: self.height_after,
        }
    }
}

impl ImageInfo {
    /// An entry that stands in no list yet.
    pub fn new(
        url: String,
        source: String,
        date: i128,
        is_video: bool,
        width: u64,
        height: u64,
    ) -> (entry: ImageInfo)
        ensures
            entry == (ImageInfo {
                url,
                source,
                date,
                is_video,
                width,
                height,
                height_before: 0,
                height_after: 0,
            }),
    {
        ImageInfo { url, source, date, is_video, width, height, height_before: 0, height_after: 0 }
    }
}

/// The extensions of the still images that a gallery shows.
pub open spec fn image_extensions() -> Seq<Seq<char>> {
    seq!["jpg"@, "jpeg"@, "png"@, "gif"@, "webp"@]
}

/// The extensions of the videos that a gallery shows.
pub open spec fn video_extensions() -> Seq<Seq<char>> {
    seq!["mp4"@, "webm"@]
}

/// The extensions that `filter` lets through, in the order in which they are
/// listed.
pub open spec fn allowed(filter: FilterParameter) -> Seq<Seq<char>> {
    match filter {
        FilterParameter::All => image_extensions() + video_extensions(),
        FilterParameter::Video => video_extensions(),
        FilterParameter::Images => image_extensions(),
        FilterParameter::Gif => seq!["gif"@],
    }
}

/// The texts of a list of names.
pub open spec fn texts(names: Seq<&str>) -> Seq<Seq<char>> {
    Seq::new(names.len(), |i: int| names[i]@)
}

/// The extensions that `filter_value` lets through.
pub fn allowed_extensions(filter_value: FilterParameter) -> (list: Vec<&'static str>)
    ensures
        texts(list@) == allowed(filter_value),
{
    let list = match filter_value {
        FilterParameter::All => vec!["jpg", "jpeg", "png", "gif", "webp", "mp4", "webm"],
        FilterParameter::Video => vec!["mp4", "webm"],
        FilterParameter::Images => vec!["jpg", "jpeg", "png", "gif", "webp"],
        FilterParameter::Gif => vec!["gif"],
    };
    proof {
        assert(texts(list@) =~= allowed(filter_value));
    }
    list
}

/// Whether `name` is one of `names`.
pub fn contains(names: &Vec<&str>, name: &str) -> (found: bool)
    ensures
        found == texts(names@).contains(name@),
{
    let wanted = name.to_owned();
    let mut i: usize = 0;
    while i < names.len()
        invariant
            0 <= i <= names.len(),
            wanted@ == name@,
            forall|j: int| 0 <= j < i ==> texts(names@)[j] != name@,
        decreases names.len() - i,
    {
        let candidate = names[i].to_owned();
        if candidate == wanted {
            proof {
                assert(texts(names@)[i as int] == name@);
            }
            return true;
        }
        i += 1;
    }
    false
}

/// Whether a file with this extension is a video.
pub fn is_video(extension: &str) -> (video: bool)
    ensures
        video == video_extensions().contains(extension@),
{
    let videos = allowed_extensions(FilterParameter::Video);
    contains(&videos, extension)
}

/// `text` in lower case, as `str::to_lowercase` gives it.
pub uninterp spec fn lowercase(text: Seq<char>) -> Seq<char>;

/// `str::to_lowercase` of the standard library. The contract gives the
/// result its name and claims nothing else of it.
#[verifier::external_body]
fn to_lowercase(text: &str) -> (lower: String)
    ensures
        lower@ == lowercase(text@),
{
    text.to_lowercase()
}

/// What a walk through a directory does with one of its entries.
#[derive(Copy, Clone, Debug, PartialEq, Eq, Structural)]
pub enum Visit {
    /// A directory to walk through in turn.
    Descend,
    /// A file that becomes an entry of the gallery.
    Take,
    /// A file whose kind the gallery does not show.
    Refuse,
    /// Neither a file nor a directory to walk through.
    Pass,
}

/// What a walk does with a directory entry, given whether its extension is
/// one that the gallery shows.
pub open spec fn visit_of(is_dir: bool, is_file: bool, recurse: bool, shown: bool) -> Visit {
    if is_dir && recurse {
        Visit::Descend
    } else if is_file {
        if shown {
            Visit::Take
        } else {
            Visit::Refuse
        }
    } else {
        Visit::Pass
    }
}

/// What a walk does with a directory entry whose extension, in lower case,
/// is `extension`.
pub fn visit_lowercase(
    is_dir: bool,
    is_file: bool,
    recurse: bool,
    extension: &str,
    allow_list: &Vec<&str>,
) -> (visit: Visit)
    ensures
        visit == visit_of(is_dir, is_file, recurse, texts(allow_list@).contains(extension@)),
{
    if is_dir && recurse {
        Visit::Descend
    } else if is_file {
        if contains(allow_list, extension) {
            Visit::Take
        } else {
            Visit::Refuse
        }
    } else {
        Visit::Pass
    }
}

/// What a walk does with a directory entry. The extension counts in lower
/// case: `PNG` is shown where `png` is.
pub fn visit(
    is_dir: bool,
    is_file: bool,
    recurse: bool,
    extension: &str,
    allow_list: &Vec<&str>,
) -> (visit: Visit)
    ensures
        visit == visit_of(
            is_dir,
            is_file,
            recurse,
            texts(allow_list@).contains(lowercase(extension@)),
        ),
{
    let lower = to_lowercase(extension);
    visit_lowercase(is_dir, is_file, recurse, lower.as_str(), allow_list)
}

/// The time by which a file is dated: when it was last read, else when it
/// was made, else when it was last written. Where the file system gives none
/// of the three, the failure of the last is the error.
pub fn date(
    accessed: Option<i128>,
    created: Option<i128>,
    modified: Result<i128, std::io::Error>,
) -> (date: Result<i128, Error>)
    ensures
        date == match (accessed, created, modified) {
            (Some(time), _, _) => Ok::<i128, Error>(time),
            (None, Some(time), _) => Ok(time),
            (None, None, Ok(time)) => Ok(time),
            (None, None, Err(failure)) => Err(Error::Io(failure)),
        },
{
    match accessed {
        Some(time) => Ok(time),
        None => match created {
            Some(time) => Ok(time),
            None => match modified {
                Ok(time) => Ok(time),
                Err(failure) => Err(Error::Io(failure)),
            },
        },
    }
}

/// The index of the first entry whose identifier is `url`.
pub fn find_image(entries: &Vec<ImageInfo>, url: &str) -> (found: Option<usize>)
    ensures
        match found {
            Some(index) => {
                &&& index < entries@.len()
                &&& entries@[index as int].url@ == url@
                &&& forall|j: int| 0 <= j < index ==> entries@[j].url@ != url@
            },
            None => forall|j: int| 0 <= j < entries@.len() ==> entries@[j].url@ != url@,
        },
{
    let wanted = url.to_owned();
    let mut i: usize = 0;
    while i < entries.len()
        invariant
            0 <= i <= entries.len(),
            wanted@ == url@,
            forall|j: int| 0 <= j < i ==> entries@[j].url@ != url@,
        decreases entries.len() - i,
    {
        if entries[i].url == wanted {
            return Some(i);
        }
        i += 1;
    }
    None
}

/// The layout height of a list of entries: each entry's height and the
/// spacing that goes with it.
pub open spec fn total_height(entries: Seq<ImageInfo>) -> int
    decreases entries.len(),
{
    if entries.len() == 0 {
        0
    } else {
        total_height(entries.drop_last()) + entries.last().height + IMAGE_OFFSET
    }
}

/// The height of a list is that of its first part plus that of the rest.
pub proof fn lemma_total_height_concat(front: Seq<ImageInfo>, back: Seq<ImageInfo>)
    ensures
        total_height(front + back) == total_height(front) + total_height(back),
    decreases back.len(),
{
    if back.len() == 0 {
        assert(front + back =~= front);
    } else {
        assert((front + back).drop_last() =~= front + back.drop_last());
        lemma_total_height_concat(front, back.drop_last());
    }
}

/// No list has a negative height.
pub proof fn lemma_total_height_nonnegative(entries: Seq<ImageInfo>)
    ensures
        total_height(entries) >= 0,
    decreases entries.len(),
{
    if entries.len() > 0 {
        lemma_total_height_nonnegative(entries.drop_last());
    }
}

/// A part of a list is no higher than the list.
pub proof fn lemma_total_height_subrange(entries: Seq<ImageInfo>, from: int, to: int)
    requires
        0 <= from <= to <= entries.len(),
    ensures
        0 <= total_height(entries.subrange(from, to)) <= total_height(entries),
{
    let front = entries.subrange(0, from);
    let middle = entries.subrange(from, to);
    let back = entries.subrange(to, entries.len() as int);
    assert(entries =~= front + middle + back);
    lemma_total_height_concat(front + middle, back);
    lemma_total_height_concat(front, middle);
    lemma_total_height_nonnegative(front);
    lemma_total_height_nonnegative(middle);
    lemma_total_height_nonnegative(back);
}

/// The layout height of `entries`, where it fits in a `u64`.
pub fn checked_total_height(entries: &Vec<ImageInfo>) -> (sum: Option<u64>)
    ensures
        match sum {
            Some(height) => height == total_height(entries@),
            None => total_height(entries@) > u64::MAX,
        },
{
    let mut sum: u64 = 0;
    let mut i: usize = 0;
    while i < entries.len()
        invariant
            0 <= i <= entries.len(),
            sum == total_height(entries@.take(i as int)),
        decreases entries.len() - i,
    {
        proof {
            assert(entries@.take(i + 1).drop_last() =~= entries@.take(i as int));
            lemma_total_height_subrange(entries@, 0, i + 1);
        }
        let step = match entries[i].height.checked_add(IMAGE_OFFSET) {
            Some(step) => step,
            None => {
                return None;
            },
        };
        sum = match sum.checked_add(step) {
            Some(next) => next,
            None => {
                return None;
            },
        };
        i += 1;
    }
    proof {
        assert(entries@.take(i as int) =~= entries@);
    }
    Some(sum)
}

/// The layout height of `entries`.
pub fn entries_height(entries: &Vec<ImageInfo>) -> (sum: u64)
    requires
        total_height(entries@) <= u64::MAX,
    ensures
        sum == total_height(entries@),
{
    let mut sum: u64 = 0;
    let mut i: usize = 0;
    while i < entries.len()
        invariant
            0 <= i <= entries.len(),
            sum == total_height(entries@.take(i as int)),
            total_height(entries@) <= u64::MAX,
        decreases entries.len() - i,
    {
        proof {
            assert(entries@.take(i + 1).drop_last() =~= entries@.take(i as int));
            lemma_total_height_subrange(entries@, 0, i + 1);
        }
        sum = sum + (entries[i].height + IMAGE_OFFSET);
        i += 1;
    }
    proof {
        assert(entries@.take(i as int) =~= entries@);
    }
    sum
}

/// Copies of the entries of `entries` from index `from` up to `to`.
pub fn clone_range(entries: &Vec<ImageInfo>, from: usize, to: usize) -> (copy: Vec<ImageInfo>)
    requires
        from <= to <= entries.len(),
    ensures
        copy@ == entries@.subrange(from as int, to as int),
{
    let mut copy: Vec<ImageInfo> = Vec::new();
    let mut i: usize = from;
    while i < to
        invariant
            from <= i <= to <= entries.len(),
            copy@ == entries@.subrange(from as int, i as int),
        decreases to - i,
    {
        copy.push(entries[i].clone());
        proof {
            assert(copy@ =~= entries@.subrange(from as int, i + 1));
        }
        i += 1;
    }
    copy
}

impl ImageInfo {
    /// The entry as it is outside of any list: nothing before it, nothing
    /// after it.
    pub open spec fn unplaced(self) -> ImageInfo {
        ImageInfo { height_before: 0, height_after: 0, ..self }
    }
}

/// The entries of a list, each taken out of the list.
pub open spec fn unplaced(entries: Seq<ImageInfo>) -> Seq<ImageInfo> {
    Seq::new(entries.len(), |i: int| entries[i].unplaced())
}

/// Every entry knows the height of what stands before it and of what stands
/// after it in `entries`.
pub open spec fn heights_recorded(entries: Seq<ImageInfo>) -> bool {
    forall|i: int|
        #![trigger entries[i]]
        0 <= i < entries.len() ==> {
            &&& entries[i].height_before == total_height(entries.take(i))
            &&& entries[i].height_after == total_height(entries.skip(i + 1))
        }
}

/// The height of a list depends on the heights of its entries alone.
pub proof fn lemma_total_height_of_same_heights(left: Seq<ImageInfo>, right: Seq<ImageInfo>)
    requires
        left.len() == right.len(),
        forall|i: int| 0 <= i < left.len() ==> left[i].height == right[i].height,
    ensures
        total_height(left) == total_height(right),
    decreases left.len(),
{
    if left.len() > 0 {
        lemma_total_height_of_same_heights(left.drop_last(), right.drop_last());
    }
}

/// Records in every entry the height of the entries before it and of those
/// after it. Nothing else changes.
pub fn refresh_heights(entries: &mut Vec<ImageInfo>)
    requires
        total_height(old(entries)@) <= u64::MAX,
    ensures
        unplaced(final(entries)@) == unplaced(old(entries)@),
        heights_recorded(final(entries)@),
{
    let total = entries_height(entries);
    let ghost given = entries@;
    let mut before: u64 = 0;
    let mut i: usize = 0;
    while i < entries.len()
        invariant
            0 <= i <= entries.len(),
            entries.len() == given.len(),
            unplaced(entries@) == unplaced(given),
            total == total_height(given),
            before == total_height(given.take(i as int)),
            forall|j: int|
                #![trigger entries[j]]
                0 <= j < i ==> {
                    &&& entries[j].height_before == total_height(given.take(j))
                    &&& entries[j].height_after == total_height(given.skip(j + 1))
                },
        decreases entries.len() - i,
    {
        proof {
            assert(unplaced(entries@)[i as int] == unplaced(given)[i as int]);
            assert(given.take(i + 1).drop_last() =~= given.take(i as int));
            assert(given =~= given.take(i + 1) + given.skip(i + 1));
            lemma_total_height_concat(given.take(i + 1), given.skip(i + 1));
            lemma_total_height_nonnegative(given.skip(i + 1));
        }
        let own = entries[i].height + IMAGE_OFFSET;
        let ghost earlier = entries@;
        entries[i].height_before = before;
        entries[i].height_after = total - before - own;
        proof {
            assert(unplaced(entries@) =~= unplaced(earlier));
        }
        before = before + own;
        i += 1;
    }
    proof {
        assert forall|j: int| #![trigger entries[j]] 0 <= j < entries.len() implies {
            &&& entries[j].height_before == total_height(entries@.take(j))
            &&& entries[j].height_after == total_height(entries@.skip(j + 1))
        } by {
            assert forall|k: int| 0 <= k < entries.len() implies entries[k].height
                == given[k].height by {
                assert(unplaced(entries@)[k] == unplaced(given)[k]);
            }
            lemma_total_height_of_same_heights(entries@.take(j), given.take(j));
            lemma_total_height_of_same_heights(entries@.skip(j + 1), given.skip(j + 1));
        }
    }
}

/// In a list whose heights are recorded, what stands before an entry, the
/// entry with its spacing, and what stands after it make up the whole list.
pub proof fn lemma_recorded_heights_add_up(entries: Seq<ImageInfo>, i: int)
    requires
        heights_recorded(entries),
        0 <= i < entries.len(),
    ensures
        entries[i].height_before + entries[i].height + IMAGE_OFFSET + entries[i].height_after
            == total_height(entries),
{
    assert(entries =~= entries.take(i + 1) + entries.skip(i + 1));
    assert(entries.take(i + 1).drop_last() =~= entries.take(i));
    lemma_total_height_concat(entries.take(i + 1), entries.skip(i + 1));
}

/// In a list whose heights are recorded, no entry has more before it than a
/// later one has.
pub proof fn lemma_height_before_never_falls(entries: Seq<ImageInfo>, i: int, j: int)
    requires
        heights_recorded(entries),
        0 <= i <= j < entries.len(),
    ensures
        entries[i].height_before <= entries[j].height_before,
{
    assert(entries.take(j).subrange(0, i) =~= entries.take(i));
    lemma_total_height_subrange(entries.take(j), 0, i);
}

} // verus!
