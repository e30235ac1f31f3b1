use rand::seq::SliceRandom;
use vstd::prelude::*;
use vstd::seq_lib::{to_multiset_build, to_multiset_contains, to_multiset_insert, to_multiset_len, to_multiset_remove};
use vstd::string::StringSliceAdditionalSpecFns;
use vstd::utf8::encode_utf8;

use crate::image_info::{
    checked_total_height, heights_recorded, lemma_height_before_never_falls,
    lemma_recorded_heights_add_up, lemma_total_height_concat,
    lemma_total_height_of_same_heights, refresh_heights, total_height, unplaced, ImageInfo,
};
use crate::IMAGE_OFFSET;

verus! {

/// The order in which a gallery shows its entries.
#[derive(Copy, Clone, Debug, PartialEq, Eq, Structural)]
pub enum SortOrder {
    /// By identifier, as strings are ordered: byte by byte.
    Alphabetical,
    /// By date, the earliest first.
    Date,
    /// In an order left to chance.
    Randomise,
    /// As the entries were found.
    Unsorted,
}

impl SortOrder {
    /// The order that a set of switches asks for: the first that is set of
    /// `alphabetical`, `date` and `randomise`, in that order.
    pub fn from_flags(alphabetical: bool, date: bool, randomise: bool) -> (order: SortOrder)
        ensures
            order == if alphabetical {
                SortOrder::Alphabetical
            } else if date {
                SortOrder::Date
            } else if randomise {
                SortOrder::Randomise
            } else {
                SortOrder::Unsorted
            },
    {
        if alphabetical {
            SortOrder::Alphabetical
        } else if date {
            SortOrder::Date
        } else if randomise {
            SortOrder::Randomise
        } else {
            SortOrder::Unsorted
        }
    }
}

/// `left` and `right` agree before index `at`, and there `left` ends or has
/// the smaller byte.
pub open spec fn precedes_at(left: Seq<u8>, right: Seq<u8>, at: int) -> bool {
    &&& 0 <= at <= left.len()
    &&& at <= right.len()
    &&& forall|i: int| 0 <= i < at ==> left[i] == right[i]
    &&& at == left.len() || (at < right.len() && left[at] < right[at])
}

/// `left` is not after `right` in the order of strings: it is a prefix of
/// `right`, or has the smaller byte where the two first differ.
pub open spec fn bytes_le(left: Seq<u8>, right: Seq<u8>) -> bool {
    exists|at: int| precedes_at(left, right, at)
}

/// Whether `left` is not after `right` in the order of strings.
pub fn bytes_not_after(left: &[u8], right: &[u8]) -> (le: bool)
    ensures
        le == bytes_le(left@, right@),
{
    let mut i: usize = 0;
    while i < left.len() && i < right.len() && left[i] == right[i]
        invariant
            0 <= i <= left.len(),
            i <= right.len(),
            forall|j: int| 0 <= j < i ==> left@[j] == right@[j],
        decreases left.len() - i,
    {
        i += 1;
    }
    let le = i == left.len() || (i < right.len() && left[i] < right[i]);
    proof {
        if le {
            assert(precedes_at(left@, right@, i as int));
        } else {
            assert forall|at: int| !precedes_at(left@, right@, at) by {
                if precedes_at(left@, right@, at) {
                    if at > i {
                        assert(left@[i as int] == right@[i as int]);
                    }
                }
            }
        }
    }
    le
}

/// Of two strings one is not after the other.
pub proof fn lemma_bytes_le_total(left: Seq<u8>, right: Seq<u8>)
    ensures
        bytes_le(left, right) || bytes_le(right, left),
    decreases left.len(),
{
    if left.len() == 0 {
        assert(precedes_at(left, right, 0));
    } else if right.len() == 0 {
        assert(precedes_at(right, left, 0));
    } else if left[0] < right[0] {
        assert(precedes_at(left, right, 0));
    } else if right[0] < left[0] {
        assert(precedes_at(right, left, 0));
    } else {
        lemma_bytes_le_total(left.skip(1), right.skip(1));
        if bytes_le(left.skip(1), right.skip(1)) {
            let at = choose|at: int| precedes_at(left.skip(1), right.skip(1), at);
            assert forall|i: int| 0 <= i < at + 1 implies left[i] == right[i] by {
                if i > 0 {
                    assert(left.skip(1)[i - 1] == right.skip(1)[i - 1]);
                }
            }
            if at < left.skip(1).len() {
                assert(left.skip(1)[at] == left[at + 1]);
                assert(right.skip(1)[at] == right[at + 1]);
            }
            assert(precedes_at(left, right, at + 1));
        } else {
            let at = choose|at: int| precedes_at(right.skip(1), left.skip(1), at);
            assert forall|i: int| 0 <= i < at + 1 implies right[i] == left[i] by {
                if i > 0 {
                    assert(left.skip(1)[i - 1] == right.skip(1)[i - 1]);
                }
            }
            if at < right.skip(1).len() {
                assert(left.skip(1)[at] == left[at + 1]);
                assert(right.skip(1)[at] == right[at + 1]);
            }
            assert(precedes_at(right, left, at + 1));
        }
    }
}

/// A string that is not after a second, which is not after a third, is not
/// after the third.
pub proof fn lemma_bytes_le_transitive(first: Seq<u8>, second: Seq<u8>, third: Seq<u8>)
    requires
        bytes_le(first, second),
        bytes_le(second, third),
    ensures
        bytes_le(first, third),
{
    let one = choose|at: int| precedes_at(first, second, at);
    let two = choose|at: int| precedes_at(second, third, at);
    let at = if one <= two {
        one
    } else {
        two
    };
    assert(precedes_at(first, third, at));
}

/// The bytes of an entry's identifier.
pub open spec fn url_bytes(entry: ImageInfo) -> Seq<u8> {
    encode_utf8(entry.url@)
}

/// `left` is not after `right` in an order that goes by `by_date` or else
/// by identifier.
pub open spec fn entry_le(by_date: bool, left: ImageInfo, right: ImageInfo) -> bool {
    if by_date {
        left.date <= right.date
    } else {
        bytes_le(url_bytes(left), url_bytes(right))
    }
}

/// Whether `left` is not after `right`, by date or else by identifier.
pub fn not_after(by_date: bool, left: &ImageInfo, right: &ImageInfo) -> (le: bool)
    ensures
        le == entry_le(by_date, *left, *right),
{
    if by_date {
        left.date <= right.date
    } else {
        bytes_not_after(left.url.as_str().as_bytes(), right.url.as_str().as_bytes())
    }
}

/// `output` is `input` sorted, and `origin` says where each of its entries
/// stood: `output[i]` is `input[origin[i]]`, no place of `input` is taken
/// twice, no entry is after a later one, and entries of which neither is
/// after the other keep the order that they had.
pub open spec fn sorted_from(
    by_date: bool,
    input: Seq<ImageInfo>,
    output: Seq<ImageInfo>,
    origin: Seq<int>,
) -> bool {
    &&& output.len() == input.len()
    &&& origin.len() == input.len()
    &&& forall|i: int|
        0 <= i < output.len() ==> 0 <= #[trigger] origin[i] < input.len() && output[i]
            == input[origin[i]]
    &&& forall|i: int, j: int|
        0 <= i < j < output.len() ==> #[trigger] origin[i] != #[trigger] origin[j]
    &&& forall|i: int, j: int|
        0 <= i < j < output.len() ==> entry_le(by_date, #[trigger] output[i], #[trigger] output[j])
    &&& forall|i: int, j: int|
        0 <= i < j < output.len() && entry_le(by_date, #[trigger] output[j], #[trigger] output[i])
            ==> origin[i] < origin[j]
}

/// `output` is the stable sort of `input`, by date or else by identifier.
pub open spec fn stably_sorted(by_date: bool, input: Seq<ImageInfo>, output: Seq<ImageInfo>) -> bool {
    exists|origin: Seq<int>| sorted_from(by_date, input, output, origin)
}

/// Of two entries one is not after the other.
pub proof fn lemma_entry_le_total(by_date: bool, left: ImageInfo, right: ImageInfo)
    ensures
        entry_le(by_date, left, right) || entry_le(by_date, right, left),
{
    if !by_date {
        lemma_bytes_le_total(url_bytes(left), url_bytes(right));
    }
}

/// An entry that is not after a second, which is not after a third, is not
/// after the third.
pub proof fn lemma_entry_le_transitive(
    by_date: bool,
    first: ImageInfo,
    second: ImageInfo,
    third: ImageInfo,
)
    requires
        entry_le(by_date, first, second),
        entry_le(by_date, second, third),
    ensures
        entry_le(by_date, first, third),
{
    if !by_date {
        lemma_bytes_le_transitive(url_bytes(first), url_bytes(second), url_bytes(third));
    }
}

/// Copies of the entries of `input`, sorted by date or else by identifier.
/// Entries with the same key keep their order.
pub fn stable_sort(by_date: bool, input: &Vec<ImageInfo>) -> (output: Vec<ImageInfo>)
    ensures
        stably_sorted(by_date, input@, output@),
        output@.to_multiset() == input@.to_multiset(),
{
    let mut output: Vec<ImageInfo> = Vec::new();
    let ghost mut origin: Seq<int> = Seq::empty();
    let mut i: usize = 0;
    proof {
        assert(output@ =~= input@.take(0));
    }
    while i < input.len()
        invariant
            0 <= i <= input.len(),
            sorted_from(by_date, input@.take(i as int), output@, origin),
            output@.to_multiset() == input@.take(i as int).to_multiset(),
        decreases input.len() - i,
    {
        let entry = input[i].clone();
        let mut at: usize = 0;
        while at < output.len() && not_after(by_date, &output[at], &entry)
            invariant
                0 <= at <= output.len(),
                forall|j: int| 0 <= j < at ==> entry_le(by_date, output@[j], entry),
            decreases output.len() - at,
        {
            at += 1;
        }
        let ghost before = output@;
        let ghost places = origin;
        proof {
            assert forall|j: int| at <= j < before.len() implies !entry_le(
                by_date,
                before[j],
                entry,
            ) && entry_le(by_date, entry, before[j]) by {
                if j > at {
                    assert(entry_le(by_date, before[at as int], before[j]));
                }
                if entry_le(by_date, before[j], entry) {
                    lemma_entry_le_transitive(by_date, before[at as int], before[j], entry);
                }
                lemma_entry_le_total(by_date, before[j], entry);
            }
        }
        output.insert(at, entry);
        proof {
            origin = places.insert(at as int, i as int);
            let next = input@.take(i + 1);
            assert(next =~= input@.take(i as int).push(entry));
            to_multiset_build(input@.take(i as int), entry);
            to_multiset_insert(before, at as int, entry);
            assert forall|j: int| 0 <= j < output@.len() implies 0 <= #[trigger] origin[j]
                < next.len() && output@[j] == next[origin[j]] by {
                if j < at {
                    assert(origin[j] == places[j]);
                    assert(output@[j] == before[j]);
                } else if j > at {
                    assert(origin[j] == places[j - 1]);
                    assert(output@[j] == before[j - 1]);
                }
            }
            assert forall|j: int, k: int| 0 <= j < k < output@.len() implies #[trigger] origin[j]
                != #[trigger] origin[k] by {
                let pj = if j < at { j } else { j - 1 };
                let pk = if k < at { k } else { k - 1 };
                if j != at && k != at {
                    assert(origin[j] == places[pj] && origin[k] == places[pk]);
                } else if j == at {
                    assert(origin[k] == places[pk]);
                } else {
                    assert(origin[j] == places[pj]);
                }
            }
            assert forall|j: int, k: int| 0 <= j < k < output@.len() implies entry_le(
                by_date,
                #[trigger] output@[j],
                #[trigger] output@[k],
            ) by {
                let pj = if j < at { j } else { j - 1 };
                let pk = if k < at { k } else { k - 1 };
                if j != at && k != at {
                    assert(output@[j] == before[pj] && output@[k] == before[pk]);
                } else if j == at {
                    assert(output@[k] == before[pk]);
                } else {
                    assert(output@[j] == before[pj]);
                }
            }
            assert forall|j: int, k: int|
                0 <= j < k < output@.len() && entry_le(
                    by_date,
                    #[trigger] output@[k],
                    #[trigger] output@[j],
                ) implies origin[j] < origin[k] by {
                let pj = if j < at { j } else { j - 1 };
                let pk = if k < at { k } else { k - 1 };
                if j != at && k != at {
                    assert(output@[j] == before[pj] && output@[k] == before[pk]);
                    assert(origin[j] == places[pj] && origin[k] == places[pk]);
                } else if j == at {
                    assert(output@[k] == before[pk]);
                } else {
                    assert(output@[j] == before[pj]);
                    assert(origin[j] == places[pj]);
                }
            }
        }
        i += 1;
    }
    proof {
        assert(input@.take(i as int) =~= input@);
    }
    output
}

/// The height of a list does not depend on the order of its entries.
pub proof fn lemma_total_height_of_permutation(left: Seq<ImageInfo>, right: Seq<ImageInfo>)
    requires
        left.to_multiset() == right.to_multiset(),
    ensures
        total_height(left) == total_height(right),
    decreases left.len(),
{
    to_multiset_len(left);
    to_multiset_len(right);
    if left.len() > 0 {
        let last = left.last();
        assert(left.contains(last)) by {
            assert(left[left.len() - 1] == last);
        }
        to_multiset_contains(left, last);
        to_multiset_contains(right, last);
        let at = choose|at: int| 0 <= at < right.len() && right[at] == last;
        assert(left.remove(left.len() - 1) =~= left.drop_last());
        to_multiset_remove(left, left.len() - 1);
        to_multiset_remove(right, at);
        lemma_total_height_of_permutation(left.drop_last(), right.remove(at));
        let front = right.subrange(0, at);
        let back = right.subrange(at + 1, right.len() as int);
        assert(right =~= front.push(last) + back);
        assert(front.push(last).drop_last() =~= front);
        lemma_total_height_concat(front.push(last), back);
        lemma_total_height_concat(front, back);
    }
}

/// `rand`'s `SliceRandom::shuffle` with the generator of the running thread,
/// `rand::rng`. The order that comes out is left to chance: the contract
/// claims only that the entries are those that went in, each as often.
#[verifier::external_body]
fn shuffle(entries: &mut Vec<ImageInfo>)
    ensures
        final(entries)@.to_multiset() == old(entries)@.to_multiset(),
{
    entries.shuffle(&mut rand::rng());
}

/// Copies of the entries of `entries`, each taken out of the list: with
/// nothing before it and nothing after it.
pub fn take_out(entries: &Vec<ImageInfo>) -> (loose: Vec<ImageInfo>)
    ensures
        loose@ == unplaced(entries@),
{
    let mut loose: Vec<ImageInfo> = Vec::new();
    let mut i: usize = 0;
    while i < entries.len()
        invariant
            0 <= i <= entries.len(),
            loose@ == unplaced(entries@.take(i as int)),
        decreases entries.len() - i,
    {
        let mut entry = entries[i].clone();
        entry.height_before = 0;
        entry.height_after = 0;
        loose.push(entry);
        proof {
            assert(loose@ =~= unplaced(entries@.take(i + 1)));
        }
        i += 1;
    }
    proof {
        assert(entries@.take(i as int) =~= entries@);
    }
    loose
}

/// What `sort` gives for a list, whatever order `Randomise` came to: `sorted`
/// holds the entries of `input` in the order asked for. Entries are compared
/// as they are outside of a list, since their place in it is what changes.
pub open spec fn in_order(order: SortOrder, input: Seq<ImageInfo>, sorted: Seq<ImageInfo>) -> bool {
    match order {
        SortOrder::Alphabetical => stably_sorted(false, unplaced(input), unplaced(sorted)),
        SortOrder::Date => stably_sorted(true, unplaced(input), unplaced(sorted)),
        SortOrder::Randomise => unplaced(sorted).to_multiset() == unplaced(input).to_multiset(),
        SortOrder::Unsorted => unplaced(sorted) == unplaced(input),
    }
}

/// A list of loose entries, put in the order asked for.
pub fn reorder(order: SortOrder, loose: Vec<ImageInfo>) -> (ordered: Vec<ImageInfo>)
    ensures
        ordered@.to_multiset() == loose@.to_multiset(),
        match order {
            SortOrder::Alphabetical => stably_sorted(false, loose@, ordered@),
            SortOrder::Date => stably_sorted(true, loose@, ordered@),
            SortOrder::Randomise => true,
            SortOrder::Unsorted => ordered@ == loose@,
        },
{
    match order {
        SortOrder::Alphabetical => stable_sort(false, &loose),
        SortOrder::Date => stable_sort(true, &loose),
        SortOrder::Randomise => {
            let mut ordered = loose;
            shuffle(&mut ordered);
            ordered
        },
        SortOrder::Unsorted => loose,
    }
}

/// The entries of `input` in the order asked for, each with the height of
/// what now stands before it and after it.
pub fn sort(order: SortOrder, input: Vec<ImageInfo>) -> (sorted: Vec<ImageInfo>)
    requires
        total_height(input@) <= u64::MAX,
    ensures
        in_order(order, input@, sorted@),
        unplaced(sorted@).to_multiset() == unplaced(input@).to_multiset(),
        heights_recorded(sorted@),
        total_height(sorted@) == total_height(input@),
        forall|i: int|
            0 <= i < sorted@.len() ==> (#[trigger] sorted@[i]).height_before + sorted@[i].height
                + IMAGE_OFFSET + sorted@[i].height_after == total_height(sorted@),
        forall|i: int, j: int|
            0 <= i <= j < sorted@.len() ==> (#[trigger] sorted@[i]).height_before <= (
            #[trigger] sorted@[j]).height_before,
{
    let loose = take_out(&input);
    let mut sorted = reorder(order, loose);
    let ghost ordered = sorted@;
    proof {
        lemma_total_height_of_permutation(ordered, loose@);
        lemma_total_height_of_same_heights(loose@, input@);
        assert forall|i: int| 0 <= i < ordered.len() implies #[trigger] ordered[i].unplaced()
            == ordered[i] by {
            assert(ordered.contains(ordered[i]));
            to_multiset_contains(ordered, ordered[i]);
            to_multiset_contains(loose@, ordered[i]);
            let at = choose|at: int| 0 <= at < loose@.len() && loose@[at] == ordered[i];
            assert(loose@[at] == input@[at].unplaced());
        }
        assert(unplaced(ordered) =~= ordered);
    }
    refresh_heights(&mut sorted);
    proof {
        assert forall|i: int| 0 <= i < sorted@.len() implies sorted@[i].height
            == ordered[i].height by {
            assert(unplaced(sorted@)[i] == unplaced(ordered)[i]);
        }
        lemma_total_height_of_same_heights(sorted@, ordered);
        assert forall|i: int| 0 <= i < sorted@.len() implies (#[trigger] sorted@[i]).height_before
            + sorted@[i].height + IMAGE_OFFSET + sorted@[i].height_after == total_height(
            sorted@,
        ) by {
            lemma_recorded_heights_add_up(sorted@, i);
        }
        assert forall|i: int, j: int| 0 <= i <= j < sorted@.len() implies (
        #[trigger] sorted@[i]).height_before <= (#[trigger] sorted@[j]).height_before by {
            lemma_height_before_never_falls(sorted@, i, j);
        }
    }
    sorted
}

/// `sort` for a list of any height: `None` for one whose height does not fit
/// in a `u64`, so that no entry could say what stands before it.
pub fn try_sort(order: SortOrder, input: Vec<ImageInfo>) -> (sorted: Option<Vec<ImageInfo>>)
    ensures
        total_height(input@) > u64::MAX <==> sorted is None,
        sorted matches Some(list) ==> {
            &&& in_order(order, input@, list@)
            &&& unplaced(list@).to_multiset() == unplaced(input@).to_multiset()
            &&& heights_recorded(list@)
            &&& total_height(list@) == total_height(input@)
        },
{
    match checked_total_height(&input) {
        Some(_) => Some(sort(order, input)),
        None => None,
    }
}

} // verus!
