use vstd::prelude::*;

use crate::error::Error;
use crate::image_info::{
    checked_total_height, clone_range, entries_height, lemma_total_height_concat,
    lemma_total_height_nonnegative, total_height, ImageInfo,
};

verus! {

/// A binary partition of a list of entries. A branch owns two subtrees, a
/// leaf owns entries. In a tree built from a list, a leaf has one or two.
#[derive(Debug)]
pub enum TreeNode {
    Branch { a: Box<TreeNode>, b: Box<TreeNode> },
    Leaf { images: Vec<ImageInfo> },
}

/// What a `TreeNode` is to the contracts: the same tree over sequences.
pub ghost enum Layout {
    Branch { a: Box<Layout>, b: Box<Layout> },
    Leaf { images: Seq<ImageInfo> },
}

impl Layout {
    /// The entries of the leaves, from the leftmost leaf to the rightmost.
    pub open spec fn entries(self) -> Seq<ImageInfo>
        decreases self,
    {
        match self {
            Layout::Branch { a, b } => a.entries() + b.entries(),
            Layout::Leaf { images } => images,
        }
    }

    /// The layout height: for a branch that of its two subtrees, for a leaf
    /// that of its entries.
    pub open spec fn height(self) -> int
        decreases self,
    {
        match self {
            Layout::Branch { a, b } => a.height() + b.height(),
            Layout::Leaf { images } => total_height(images),
        }
    }

    /// Every leaf holds one or two entries.
    pub open spec fn well_formed(self) -> bool
        decreases self,
    {
        match self {
            Layout::Branch { a, b } => a.well_formed() && b.well_formed(),
            Layout::Leaf { images } => 1 <= images.len() <= 2,
        }
    }

    /// The tree over `images`: a leaf for up to two entries, else a branch
    /// whose `a` is the tree over the first `len / 2` entries and whose `b`
    /// is the tree over the rest.
    pub open spec fn bisect(images: Seq<ImageInfo>) -> Layout
        decreases images.len(),
    {
        if images.len() <= 2 {
            Layout::Leaf { images }
        } else {
            let mid = images.len() as int / 2;
            Layout::Branch {
                a: Box::new(Layout::bisect(images.subrange(0, mid))),
                b: Box::new(Layout::bisect(images.subrange(mid, images.len() as int))),
            }
        }
    }

    /// Where `path` leads from this node: each `a` or `b` goes into that
    /// subtree of a branch, the end of the path or a leaf ends the descent,
    /// and any other character at a branch fails with what was left of the
    /// path, that character first.
    pub open spec fn path(self, path: Seq<char>) -> Result<Layout, Seq<char>>
        decreases path.len(),
    {
        if path.len() == 0 {
            Ok(self)
        } else {
            match self {
                Layout::Leaf { .. } => Ok(self),
                Layout::Branch { a, b } => if path[0] == 'a' {
                    a.path(path.skip(1))
                } else if path[0] == 'b' {
                    b.path(path.skip(1))
                } else {
                    Err(path)
                },
            }
        }
    }

    /// The same tree with every leaf replaced by the tree over its entries.
    pub open spec fn split(self) -> Layout
        decreases self,
    {
        match self {
            Layout::Branch { a, b } => Layout::Branch {
                a: Box::new(a.split()),
                b: Box::new(b.split()),
            },
            Layout::Leaf { images } => Layout::bisect(images),
        }
    }
}

impl TreeNode {
    /// The tree as the contracts see it: each leaf by the sequence of its
    /// entries.
    pub open spec fn layout(&self) -> Layout
        decreases self,
    {
        match self {
            TreeNode::Branch { a, b } => Layout::Branch {
                a: Box::new(a.layout()),
                b: Box::new(b.layout()),
            },
            TreeNode::Leaf { images } => Layout::Leaf { images: images@ },
        }
    }
}

impl Clone for TreeNode {
    fn clone(&self) -> (copy: Self)
        ensures
            copy@ == self@,
        decreases self,
    {
        match self {
            TreeNode::Branch { a, b } => TreeNode::Branch {
                a: Box::new((&**a).clone()),
                b: Box::new((&**b).clone()),
            },
            TreeNode::Leaf { images } => {
                let copy = clone_range(images, 0, images.len());
                proof {
                    assert(images@.subrange(0, images@.len() as int) =~= images@);
                }
                TreeNode::Leaf { images: copy }
            },
        }
    }
}

impl View for TreeNode {
    type V = Layout;

    open spec fn view(&self) -> Layout {
        self.layout()
    }
}

/// What a client is told of one node: of a branch the heights of its two
/// subtrees, of a leaf the height, width and identifier of two entries, `a`
/// and `b`.
#[derive(Debug)]
pub enum TreeNodeLayer {
    Branch { a_height: u64, b_height: u64 },
    Images {
        a_height: u64,
        a_width: u64,
        b_height: u64,
        b_width: u64,
        a_url: String,
        b_url: String,
    },
}

/// The entry that fills slot `b` of a leaf: its second entry, or its only
/// entry once more where it has no second.
pub open spec fn second_slot(images: Seq<ImageInfo>) -> ImageInfo {
    if images.len() >= 2 {
        images[1]
    } else {
        images[0]
    }
}

impl TreeNodeLayer {
    /// What a client is told of `value`.
    ///
    /// Of a leaf, slot `a` is its first entry and slot `b` its second. A leaf
    /// of a single entry shows that entry in both slots.
    pub fn from(value: &TreeNode) -> (layer: TreeNodeLayer)
        requires
            value@ matches Layout::Branch { a, b } ==> a.height() <= u64::MAX && b.height()
                <= u64::MAX,
            value@ matches Layout::Leaf { images } ==> images.len() >= 1,
        ensures
            match value@ {
                Layout::Branch { a, b } => {
                    &&& layer matches TreeNodeLayer::Branch { a_height, b_height }
                    &&& a_height == a.height()
                    &&& b_height == b.height()
                },
                Layout::Leaf { images } => {
                    &&& layer matches TreeNodeLayer::Images {
                        a_height,
                        a_width,
                        b_height,
                        b_width,
                        a_url,
                        b_url,
                    }
                    &&& a_height == images[0].height
                    &&& a_width == images[0].width
                    &&& a_url@ == images[0].url@
                    &&& b_height == second_slot(images).height
                    &&& b_width == second_slot(images).width
                    &&& b_url@ == second_slot(images).url@
                },
            },
    {
        match value {
            TreeNode::Branch { a, b } => TreeNodeLayer::Branch {
                a_height: a.height(),
                b_height: b.height(),
            },
            TreeNode::Leaf { images } => {
                let first = &images[0];
                let second = if images.len() >= 2 {
                    &images[1]
                } else {
                    &images[0]
                };
                TreeNodeLayer::Images {
                    a_height: first.height,
                    a_width: first.width,
                    b_height: second.height,
                    b_width: second.width,
                    a_url: first.url.clone(),
                    b_url: second.url.clone(),
                }
            },
        }
    }
}

/// How often a number can be halved until nothing is left: the number of its
/// binary digits.
pub open spec fn halvings(count: nat) -> nat
    decreases count,
{
    if count == 0 {
        0
    } else {
        1 + halvings(count / 2)
    }
}

/// The number of levels that a gallery of `count` entries is said to have:
/// the number of binary digits of `count`.
pub fn levels(count: usize) -> (levels: u32)
    ensures
        levels == halvings(count as nat),
{
    let mut levels: u32 = 0;
    let mut rest: usize = count;
    proof {
        lemma_halvings_of_u64(count as nat);
    }
    while rest > 0
        invariant
            levels + halvings(rest as nat) == halvings(count as nat),
            halvings(count as nat) <= 64,
        decreases rest,
    {
        rest = rest / 2;
        levels = levels + 1;
    }
    levels
}

/// A number below two to the power of `bits` has at most `bits` binary
/// digits.
proof fn lemma_halvings_bounded(count: nat, bits: nat, bound: nat)
    requires
        bound == vstd::arithmetic::power2::pow2(bits),
        count < bound,
    ensures
        halvings(count) <= bits,
    decreases bits,
{
    vstd::arithmetic::power2::lemma_pow2(bits);
    vstd::arithmetic::power::lemma_pow0(2);
    if count > 0 {
        assert(bits > 0) by {
            if bits == 0 {
                assert(vstd::arithmetic::power2::pow2(0) == 1) by {
                    vstd::arithmetic::power2::lemma2_to64();
                }
            }
        }
        vstd::arithmetic::power2::lemma_pow2_unfold(bits);
        lemma_halvings_bounded(count / 2, (bits - 1) as nat, bound / 2);
    }
}

proof fn lemma_halvings_of_u64(count: nat)
    requires
        count <= u64::MAX,
    ensures
        halvings(count) <= 64,
{
    vstd::arithmetic::power2::lemma2_to64();
    lemma_halvings_bounded(count, 64, 0x1_0000_0000_0000_0000);
}

/// The tree over the entries of `images` from index `from` up to `to`.
fn bisect_range(images: &Vec<ImageInfo>, from: usize, to: usize) -> (tree: TreeNode)
    requires
        from <= to <= images.len(),
    ensures
        tree@ == Layout::bisect(images@.subrange(from as int, to as int)),
    decreases to - from,
{
    let len = to - from;
    if len <= 2 {
        TreeNode::Leaf { images: clone_range(images, from, to) }
    } else {
        let mid = from + len / 2;
        let a = bisect_range(images, from, mid);
        let b = bisect_range(images, mid, to);
        proof {
            let part = images@.subrange(from as int, to as int);
            assert(part.subrange(0, len as int / 2) =~= images@.subrange(from as int, mid as int));
            assert(part.subrange(len as int / 2, part.len() as int) =~= images@.subrange(
                mid as int,
                to as int,
            ));
        }
        TreeNode::Branch { a: Box::new(a), b: Box::new(b) }
    }
}

impl TreeNode {
    /// The tree over `images`, or `None` where there are none.
    pub fn tree_from_images(images: &Vec<ImageInfo>) -> (tree: Option<TreeNode>)
        ensures
            images@.len() == 0 <==> tree is None,
            tree matches Some(root) ==> {
                &&& root@ == Layout::bisect(images@)
                &&& root@.entries() == images@
                &&& root@.height() == total_height(images@)
                &&& root@.well_formed()
            },
    {
        if images.len() == 0 {
            return None;
        }
        let root = bisect_range(images, 0, images.len());
        proof {
            assert(images@.subrange(0, images@.len() as int) =~= images@);
            lemma_bisect_keeps_entries(images@);
            lemma_bisect_height(images@);
            lemma_bisect_well_formed(images@);
        }
        Some(root)
    }

    /// The layout height of the tree.
    pub fn height(&self) -> (height: u64)
        requires
            self@.height() <= u64::MAX,
        ensures
            height == self@.height(),
        decreases self,
    {
        match self {
            TreeNode::Branch { a, b } => {
                proof {
                    lemma_height_is_total(a@);
                    lemma_height_is_total(b@);
                    lemma_total_height_nonnegative(a@.entries());
                    lemma_total_height_nonnegative(b@.entries());
                }
                a.height() + b.height()
            },
            TreeNode::Leaf { images } => entries_height(images),
        }
    }

    /// The layout height of the tree, where it fits in a `u64`.
    pub fn checked_height(&self) -> (height: Option<u64>)
        ensures
            match height {
                Some(sum) => sum == self@.height(),
                None => self@.height() > u64::MAX,
            },
        decreases self,
    {
        match self {
            TreeNode::Branch { a, b } => {
                proof {
                    lemma_height_is_total(a@);
                    lemma_height_is_total(b@);
                    lemma_total_height_nonnegative(a@.entries());
                    lemma_total_height_nonnegative(b@.entries());
                }
                match (a.checked_height(), b.checked_height()) {
                    (Some(left), Some(right)) => left.checked_add(right),
                    _ => None,
                }
            },
            TreeNode::Leaf { images } => checked_total_height(images),
        }
    }

    /// The node that `path` leads to from this one.
    ///
    /// An empty path is this node. A path that goes on where a leaf is
    /// reached gives that leaf. A character that is neither `a` nor `b`, met
    /// at a branch, gives `InvalidPath` with the path from that character on.
    pub fn path(&self, path: &str) -> (found: Result<&Self, Error>)
        ensures
            match self@.path(path@) {
                Ok(node) => found matches Ok(reached) && reached@ == node,
                Err(rest) => found matches Err(Error::InvalidPath(text)) && text@ == rest,
            },
    {
        let len = path.unicode_len();
        let mut node: &TreeNode = self;
        let mut i: usize = 0;
        proof {
            assert(path@.skip(0) =~= path@);
        }
        while i < len
            invariant
                0 <= i <= len,
                len == path@.len(),
                self@.path(path@) == node@.path(path@.skip(i as int)),
            decreases len - i,
        {
            match node {
                TreeNode::Leaf { .. } => {
                    return Ok(node);
                },
                TreeNode::Branch { a, b } => {
                    let next = path.get_char(i);
                    proof {
                        assert(path@.skip(i as int).skip(1) =~= path@.skip(i + 1));
                    }
                    if next == 'a' {
                        node = &**a;
                    } else if next == 'b' {
                        node = &**b;
                    } else {
                        let rest = path.substring_char(i, len);
                        proof {
                            assert(path@.subrange(i as int, len as int) =~= path@.skip(i as int));
                        }
                        return Err(Error::InvalidPath(rest.to_owned()));
                    }
                },
            }
            i += 1;
        }
        Ok(node)
    }

    /// A copy of `node` in which every leaf of more than two entries has
    /// become the tree over those entries.
    pub fn split(node: &TreeNode) -> (tree: TreeNode)
        ensures
            tree@ == node@.split(),
            tree@.entries() == node@.entries(),
        decreases node,
    {
        proof {
            lemma_split_keeps_entries(node@);
        }
        match node {
            TreeNode::Branch { a, b } => TreeNode::Branch {
                a: Box::new(TreeNode::split(a)),
                b: Box::new(TreeNode::split(b)),
            },
            TreeNode::Leaf { images } => {
                let tree = bisect_range(images, 0, images.len());
                proof {
                    assert(images@.subrange(0, images@.len() as int) =~= images@);
                }
                tree
            },
        }
    }
}

/// The height of a tree is the height of the list of its entries.
pub proof fn lemma_height_is_total(tree: Layout)
    ensures
        tree.height() == total_height(tree.entries()),
    decreases tree,
{
    match tree {
        Layout::Branch { a, b } => {
            lemma_height_is_total(*a);
            lemma_height_is_total(*b);
            lemma_total_height_concat(a.entries(), b.entries());
        },
        Layout::Leaf { .. } => {},
    }
}

/// Bisection keeps the list: the leaves of the tree over `images` hold
/// exactly `images`, in order, so the tree has as many entries as the list.
pub proof fn lemma_bisect_keeps_entries(images: Seq<ImageInfo>)
    ensures
        Layout::bisect(images).entries() == images,
        Layout::bisect(images).entries().len() == images.len(),
    decreases images.len(),
{
    if images.len() > 2 {
        let mid = images.len() as int / 2;
        lemma_bisect_keeps_entries(images.subrange(0, mid));
        lemma_bisect_keeps_entries(images.subrange(mid, images.len() as int));
        assert(images.subrange(0, mid) + images.subrange(mid, images.len() as int) =~= images);
    }
}

/// The tree over a list of at most two entries is one leaf that holds the
/// list.
pub proof fn lemma_bisect_of_short_list(images: Seq<ImageInfo>)
    requires
        images.len() <= 2,
    ensures
        Layout::bisect(images) == (Layout::Leaf { images }),
{
}

/// The tree over a list that is not empty has one or two entries in every
/// leaf.
pub proof fn lemma_bisect_well_formed(images: Seq<ImageInfo>)
    requires
        images.len() > 0,
    ensures
        Layout::bisect(images).well_formed(),
    decreases images.len(),
{
    if images.len() > 2 {
        let mid = images.len() as int / 2;
        lemma_bisect_well_formed(images.subrange(0, mid));
        lemma_bisect_well_formed(images.subrange(mid, images.len() as int));
    }
}

/// The tree over a list is as high as the list.
pub proof fn lemma_bisect_height(images: Seq<ImageInfo>)
    ensures
        Layout::bisect(images).height() == total_height(images),
{
    lemma_bisect_keeps_entries(images);
    lemma_height_is_total(Layout::bisect(images));
}

/// Splitting a tree keeps its entries in their order, and so its height.
pub proof fn lemma_split_keeps_entries(tree: Layout)
    ensures
        tree.split().entries() == tree.entries(),
        tree.split().height() == tree.height(),
    decreases tree,
{
    match tree {
        Layout::Branch { a, b } => {
            lemma_split_keeps_entries(*a);
            lemma_split_keeps_entries(*b);
        },
        Layout::Leaf { images } => {
            lemma_bisect_keeps_entries(images);
            lemma_bisect_height(images);
        },
    }
}

/// A path of `a` and `b` alone leads to a node, from any tree.
pub proof fn lemma_path_of_turns_is_found(tree: Layout, path: Seq<char>)
    requires
        forall|i: int| 0 <= i < path.len() ==> path[i] == 'a' || path[i] == 'b',
    ensures
        tree.path(path) is Ok,
    decreases path.len(),
{
    if path.len() > 0 {
        match tree {
            Layout::Branch { a, b } => {
                let rest = path.skip(1);
                assert forall|i: int| 0 <= i < rest.len() implies rest[i] == 'a' || rest[i]
                    == 'b' by {
                    assert(rest[i] == path[i + 1]);
                }
                lemma_path_of_turns_is_found(*a, rest);
                lemma_path_of_turns_is_found(*b, rest);
            },
            Layout::Leaf { .. } => {},
        }
    }
}

/// A path whose first `at` characters lead to a branch, and whose next
/// character is neither `a` nor `b`, fails with the path from that character
/// on.
pub proof fn lemma_path_fails_at_stray_character(tree: Layout, path: Seq<char>, at: int)
    requires
        0 <= at < path.len(),
        forall|i: int| 0 <= i < at ==> path[i] == 'a' || path[i] == 'b',
        path[at] != 'a' && path[at] != 'b',
        tree.path(path.take(at)) matches Ok(node) && node is Branch,
    ensures
        tree.path(path) == Err::<Layout, Seq<char>>(path.skip(at)),
    decreases at,
{
    if at == 0 {
        assert(path.skip(0) =~= path);
    } else {
        assert(path.take(at)[0] == path[0]);
        match tree {
            Layout::Branch { a, b } => {
                let rest = path.skip(1);
                assert(path.take(at).skip(1) =~= rest.take(at - 1));
                assert(rest.skip(at - 1) =~= path.skip(at));
                assert forall|i: int| 0 <= i < at - 1 implies rest[i] == 'a' || rest[i]
                    == 'b' by {
                    assert(rest[i] == path[i + 1]);
                }
                if path[0] == 'a' {
                    lemma_path_fails_at_stray_character(*a, rest, at - 1);
                } else {
                    lemma_path_fails_at_stray_character(*b, rest, at - 1);
                }
            },
            Layout::Leaf { .. } => {},
        }
    }
}

} // verus!
