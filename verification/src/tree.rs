//! The subtree that is to be archived, and the order in which its objects
//! are written.
//!
//! The objects are discovered depth first, every object before what lies
//! below it, and the members of a directory in the order in which the
//! directory lists them. An archive holds all directories first and
//! everything else after them, either group in the order of discovery.

use vstd::prelude::*;

verus! {

/// A filesystem object with everything that an archive keeps of it.
#[derive(Debug, PartialEq, Eq)]
pub enum FsObject {
    /// A regular file.
    File {
        /// The path, as raw bytes.
        path: Vec<u8>,
        /// Time of the last modification, in seconds since the Unix epoch.
        modified_at: u64,
        /// The whole content of the file.
        body: Vec<u8>,
    },
    /// A directory.
    Directory {
        /// The path, as raw bytes.
        path: Vec<u8>,
        /// Time of the last modification, in seconds since the Unix epoch.
        modified_at: u64,
        /// The objects directly below, in the order of the listing.
        children: Vec<FsObject>,
    },
}

impl FsObject {
    /// The path of the object.
    pub open spec fn path_bytes(self) -> Seq<u8> {
        match self {
            FsObject::File { path, .. } => path@,
            FsObject::Directory { path, .. } => path@,
        }
    }

    /// The time of the last modification.
    pub open spec fn mtime(self) -> u64 {
        match self {
            FsObject::File { modified_at, .. } => modified_at,
            FsObject::Directory { modified_at, .. } => modified_at,
        }
    }

    /// The content of a file; empty for a directory.
    pub open spec fn body_bytes(self) -> Seq<u8> {
        match self {
            FsObject::File { body, .. } => body@,
            FsObject::Directory { .. } => Seq::empty(),
        }
    }

    /// The objects directly below a directory; none for a file.
    pub open spec fn members(self) -> Seq<FsObject> {
        match self {
            FsObject::File { .. } => Seq::empty(),
            FsObject::Directory { children, .. } => children@,
        }
    }

    /// Whether the object is a directory.
    #[verifier::when_used_as_spec(spec_is_dir)]
    pub fn is_dir(&self) -> (dir: bool)
        ensures
            dir == self.spec_is_dir(),
    {
        match self {
            FsObject::File { .. } => false,
            FsObject::Directory { .. } => true,
        }
    }

    /// Whether the object is a directory.
    pub open spec fn spec_is_dir(&self) -> bool {
        self is Directory
    }
}

/// The objects of a row of subtrees in the order of discovery: the first
/// subtree's root, all that lies below it, then the remaining subtrees.
pub open spec fn forest_preorder(nodes: Seq<FsObject>) -> Seq<FsObject>
    decreases nodes,
{
    if nodes.len() == 0 {
        Seq::empty()
    } else {
        let below = match nodes[0] {
            FsObject::Directory { children, .. } => forest_preorder(children@),
            FsObject::File { .. } => Seq::empty(),
        };
        seq![nodes[0]] + below + forest_preorder(nodes.skip(1))
    }
}

/// The objects of the subtree below `root`, `root` included, in the order
/// of discovery.
pub open spec fn preorder(root: FsObject) -> Seq<FsObject> {
    forest_preorder(seq![root])
}

/// The directories among `objects`, in their order.
pub open spec fn directories(objects: Seq<FsObject>) -> Seq<FsObject> {
    objects.filter(|o: FsObject| o.is_dir())
}

/// What is no directory among `objects`, in their order.
pub open spec fn others(objects: Seq<FsObject>) -> Seq<FsObject> {
    objects.filter(|o: FsObject| !o.is_dir())
}

/// The order in which the objects below `root` are written: the directories
/// in the order of discovery, then everything else in the order of
/// discovery.
pub open spec fn write_order(root: FsObject) -> Seq<FsObject> {
    directories(preorder(root)) + others(preorder(root))
}

/// The objects that a list of references points to.
pub open spec fn targets(refs: Seq<&FsObject>) -> Seq<FsObject> {
    refs.map_values(|r: &FsObject| *r)
}

/// The order of discovery of a row of subtrees is that of its front part
/// followed by that of the rest.
pub proof fn lemma_forest_preorder_concat(front: Seq<FsObject>, rest: Seq<FsObject>)
    ensures
        forest_preorder(front + rest) == forest_preorder(front) + forest_preorder(rest),
    decreases front.len(),
{
    if front.len() == 0 {
        assert(front + rest =~= rest);
    } else {
        assert((front + rest).skip(1) =~= front.skip(1) + rest);
        lemma_forest_preorder_concat(front.skip(1), rest);
    }
}

/// A subtree is discovered root first, then all that lies below the root.
pub proof fn lemma_preorder_unfold(root: FsObject)
    ensures
        preorder(root) == seq![root] + forest_preorder(root.members()),
{
    let none = Seq::<FsObject>::empty();
    assert(seq![root].skip(1) =~= none);
    assert(forest_preorder(none) =~= none);
    assert(preorder(root) =~= seq![root] + forest_preorder(root.members()));
}

/// An empty directory is written as itself and nothing else: one directory
/// and no other object.
pub proof fn lemma_empty_directory(root: FsObject)
    requires
        root.is_dir(),
        root.members().len() == 0,
    ensures
        preorder(root) == seq![root],
        directories(preorder(root)) == seq![root],
        others(preorder(root)) == Seq::<FsObject>::empty(),
        write_order(root) == seq![root],
{
    lemma_preorder_unfold(root);
    assert(preorder(root) =~= seq![root]);
    let none = Seq::<FsObject>::empty();
    assert(seq![root] =~= none.push(root));
    reveal(Seq::filter);
    assert(none.filter(|o: FsObject| o.is_dir()) =~= none);
    assert(none.filter(|o: FsObject| !o.is_dir()) =~= none);
    none.lemma_filter_push(root, |o: FsObject| o.is_dir());
    none.lemma_filter_push(root, |o: FsObject| !o.is_dir());
    assert(write_order(root) =~= seq![root]);
}

/// Visiting the object on top of the waiting list: it is the next to be
/// discovered, and after it comes whatever the list then holds, which is
/// the list without it, with its members on top in reverse.
proof fn lemma_visit_top(waiting: Seq<FsObject>)
    requires
        waiting.len() > 0,
    ensures
        forest_preorder(waiting.reverse()) == seq![waiting.last()] + forest_preorder(
            (waiting.drop_last() + waiting.last().members().reverse()).reverse(),
        ),
{
    let top = waiting.last();
    let rest = waiting.drop_last().reverse();
    let row = waiting.reverse();
    assert(row[0] == top);
    assert(row.skip(1) =~= rest);
    let below = forest_preorder(top.members());
    assert(forest_preorder(row) == seq![top] + below + forest_preorder(rest)) by {
        if top is File {
            assert(below =~= Seq::<FsObject>::empty());
        }
    }
    assert((waiting.drop_last() + top.members().reverse()).reverse() =~= top.members() + rest);
    lemma_forest_preorder_concat(top.members(), rest);
    assert(seq![top] + below + forest_preorder(rest) =~= seq![top] + (below + forest_preorder(
        rest,
    )));
}

/// Puts the members of a directory onto the waiting list, the first member
/// on top.
fn push_members<'a>(pending: &mut Vec<&'a FsObject>, children: &'a Vec<FsObject>)
    ensures
        targets(final(pending)@) == targets(old(pending)@) + children@.reverse(),
{
    let mut i: usize = children.len();
    assert(children@.subrange(i as int, children.len() as int).reverse() =~= Seq::<
        FsObject,
    >::empty());
    while i > 0
        invariant
            i <= children.len(),
            targets(pending@) == targets(old(pending)@) + children@.subrange(
                i as int,
                children.len() as int,
            ).reverse(),
        decreases i,
    {
        i = i - 1;
        let ghost stacked = targets(pending@);
        pending.push(&children[i]);
        assert(targets(pending@) =~= stacked.push(children@[i as int]));
        assert(children@.subrange(i as int, children.len() as int).reverse() =~= children@.subrange(
            i + 1,
            children.len() as int,
        ).reverse().push(children@[i as int]));
    }
    assert(children@.subrange(0, children.len() as int) =~= children@);
}

/// Appends to `files` every object of the subtree below `root`, `root`
/// included, in the order of discovery. The objects that wait for their
/// turn are kept in a list, so the depth of the subtree costs no stack.
pub fn find<'a>(root: &'a FsObject, files: &mut Vec<&'a FsObject>)
    ensures
        targets(final(files)@) == targets(old(files)@) + preorder(*root),
{
    let mut pending: Vec<&'a FsObject> = Vec::new();
    pending.push(root);
    assert(targets(pending@).reverse() =~= seq![*root]);
    while pending.len() > 0
        invariant
            targets(files@) + forest_preorder(targets(pending@).reverse()) == targets(old(files)@)
                + preorder(*root),
        decreases forest_preorder(targets(pending@).reverse()).len(),
    {
        let ghost waiting = targets(pending@);
        let ghost found = targets(files@);
        let node = pending.pop().unwrap();
        files.push(node);
        assert(targets(pending@) =~= waiting.drop_last());
        assert(targets(files@) =~= found.push(*node));
        match node {
            FsObject::Directory { children, .. } => {
                push_members(&mut pending, children);
            },
            FsObject::File { .. } => {
                assert(targets(pending@) =~= waiting.drop_last() + node.members().reverse());
            },
        }
        proof {
            lemma_visit_top(waiting);
            let after = forest_preorder(targets(pending@).reverse());
            assert(found.push(*node) + after =~= found + (seq![*node] + after));
        }
    }
    assert(forest_preorder(targets(pending@).reverse()) =~= Seq::<FsObject>::empty());
}

} // verus!
