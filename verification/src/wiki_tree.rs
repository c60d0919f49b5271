//! A wiki tree: its files, each path once, in the order of the paths.

use crate::text;
use crate::text::{same_text, text_before};
use vstd::prelude::*;

verus! {

/// One file of a wiki tree.
#[derive(Debug, PartialEq, Eq)]
pub struct WikiFile {
    pub path: String,
    pub content: String,
}

/// The model of [`WikiFile`].
pub struct FileV {
    pub path: Seq<char>,
    pub content: Seq<char>,
}

impl DeepView for WikiFile {
    type V = FileV;

    open spec fn deep_view(&self) -> FileV {
        FileV {
            path: self.path@,
            content: self.content@,
        }
    }
}

impl Clone for WikiFile {
    fn clone(&self) -> (r: Self)
        ensures
            r.deep_view() == self.deep_view(),
    {
        WikiFile {
            path: self.path.clone(),
            content: self.content.clone(),
        }
    }
}

/// The files of a wiki. Whatever is put into it, no path occurs twice and the
/// paths ascend.
#[derive(Debug, PartialEq, Eq)]
pub struct WikiTree {
    files: Vec<WikiFile>,
}

impl DeepView for WikiTree {
    type V = Seq<FileV>;

    closed spec fn deep_view(&self) -> Seq<FileV> {
        self.files.deep_view()
    }
}

/// Do the paths ascend? Then none occurs twice.
pub open spec fn paths_ascend(tree: Seq<FileV>) -> bool {
    forall|i: int, j: int|
        0 <= i < j < tree.len() ==> text::before(
            (#[trigger] tree[i]).path,
            (#[trigger] tree[j]).path,
        )
}

/// The content of a file.
pub open spec fn content_of(tree: Seq<FileV>, path: Seq<char>) -> Option<Seq<char>>
    decreases tree.len(),
{
    if tree.len() == 0 {
        None
    } else if tree[0].path == path {
        Some(tree[0].content)
    } else {
        content_of(tree.skip(1), path)
    }
}

/// The tree with that file, in its place.
pub open spec fn filed(tree: Seq<FileV>, file: FileV) -> Seq<FileV>
    decreases tree.len(),
{
    if tree.len() == 0 {
        seq![file]
    } else if tree[0].path == file.path {
        seq![file] + tree.skip(1)
    } else if text::before(file.path, tree[0].path) {
        seq![file] + tree
    } else {
        seq![tree[0]] + filed(tree.skip(1), file)
    }
}

/// The rest of a tree is one.
proof fn lemma_rest_ascends(tree: Seq<FileV>)
    requires
        paths_ascend(tree),
        tree.len() > 0,
    ensures
        paths_ascend(tree.skip(1)),
        forall|i: int|
            0 <= i < tree.skip(1).len() ==> text::before(
                tree[0].path,
                (#[trigger] tree.skip(1)[i]).path,
            ),
{
    let rest = tree.skip(1);
    assert forall|i: int, j: int| 0 <= i < j < rest.len() implies text::before(
        (#[trigger] rest[i]).path,
        (#[trigger] rest[j]).path,
    ) by {
        assert(text::before(tree[i + 1].path, tree[j + 1].path));
    }
    assert forall|i: int| 0 <= i < rest.len() implies text::before(
        tree[0].path,
        (#[trigger] rest[i]).path,
    ) by {
        assert(text::before(tree[0].path, tree[i + 1].path));
    }
}

/// A tree whose paths all come after `first` is one with it in front.
proof fn lemma_ascends_with(first: FileV, rest: Seq<FileV>)
    requires
        paths_ascend(rest),
        forall|i: int| 0 <= i < rest.len() ==> text::before(first.path, (#[trigger] rest[i]).path),
    ensures
        paths_ascend(seq![first] + rest),
{
    let tree = seq![first] + rest;
    assert forall|i: int, j: int| 0 <= i < j < tree.len() implies text::before(
        (#[trigger] tree[i]).path,
        (#[trigger] tree[j]).path,
    ) by {
        assert(tree[j] == rest[j - 1]);
        if i > 0 {
            assert(tree[i] == rest[i - 1]);
        }
    }
}

/// Putting a file in keeps the paths ascending, and brings no path but its own.
pub proof fn filing_keeps_the_order(tree: Seq<FileV>, file: FileV)
    requires
        paths_ascend(tree),
    ensures
        paths_ascend(filed(tree, file)),
        forall|i: int|
            0 <= i < filed(tree, file).len() ==> (#[trigger] filed(tree, file)[i]).path == file.path
                || exists|j: int|
                0 <= j < tree.len() && (#[trigger] tree[j]).path == filed(tree, file)[i].path,
    decreases tree.len(),
{
    let out = filed(tree, file);
    if tree.len() == 0 {
    } else {
        let rest = tree.skip(1);
        lemma_rest_ascends(tree);
        if tree[0].path == file.path {
            lemma_ascends_with(file, rest);
            assert forall|i: int| 0 <= i < out.len() implies (#[trigger] out[i]).path == file.path
                || exists|j: int|
                0 <= j < tree.len() && (#[trigger] tree[j]).path == out[i].path by {
                if i > 0 {
                    assert(tree[i].path == out[i].path);
                }
            }
        } else if text::before(file.path, tree[0].path) {
            assert forall|i: int| 0 <= i < tree.len() implies text::before(
                file.path,
                (#[trigger] tree[i]).path,
            ) by {
                if i > 0 {
                    assert(text::before(tree[0].path, tree[i].path));
                    text::lemma_before_transitive(file.path, tree[0].path, tree[i].path);
                }
            }
            lemma_ascends_with(file, tree);
            assert forall|i: int| 0 <= i < out.len() implies (#[trigger] out[i]).path == file.path
                || exists|j: int|
                0 <= j < tree.len() && (#[trigger] tree[j]).path == out[i].path by {
                if i > 0 {
                    assert(tree[i - 1].path == out[i].path);
                }
            }
        } else {
            let inner = filed(rest, file);
            filing_keeps_the_order(rest, file);
            text::lemma_before_total(file.path, tree[0].path);
            assert forall|i: int| 0 <= i < inner.len() implies text::before(
                tree[0].path,
                (#[trigger] inner[i]).path,
            ) by {
                if inner[i].path != file.path {
                    let j = choose|j: int|
                        0 <= j < rest.len() && (#[trigger] rest[j]).path == inner[i].path;
                    assert(text::before(tree[0].path, rest[j].path));
                }
            }
            lemma_ascends_with(tree[0], inner);
            assert forall|i: int| 0 <= i < out.len() implies (#[trigger] out[i]).path == file.path
                || exists|j: int|
                0 <= j < tree.len() && (#[trigger] tree[j]).path == out[i].path by {
                if i == 0 {
                    assert(tree[0].path == out[0].path);
                } else {
                    assert(out[i] == inner[i - 1]);
                    if inner[i - 1].path != file.path {
                        let j = choose|j: int|
                            0 <= j < rest.len() && (#[trigger] rest[j]).path == inner[i - 1].path;
                        assert(tree[j + 1].path == out[i].path);
                    }
                }
            }
        }
    }
}

/// What is put into a tree is read from it, and every other file reads as
/// before.
pub proof fn a_filed_content_is_read(tree: Seq<FileV>, file: FileV, path: Seq<char>)
    ensures
        content_of(filed(tree, file), path) == (if path == file.path {
            Some(file.content)
        } else {
            content_of(tree, path)
        }),
    decreases tree.len(),
{
    let out = filed(tree, file);
    if tree.len() == 0 {
        assert(out.skip(1) =~= Seq::empty());
        assert(content_of(out.skip(1), path) is None);
    } else if tree[0].path == file.path {
        assert(out.skip(1) =~= tree.skip(1));
    } else if text::before(file.path, tree[0].path) {
        assert(out.skip(1) =~= tree);
    } else {
        a_filed_content_is_read(tree.skip(1), file, path);
        assert(out.skip(1) =~= filed(tree.skip(1), file));
    }
}

/// A file in front of all others is the only one of its path.
proof fn lemma_absent(tree: Seq<FileV>, path: Seq<char>)
    requires
        forall|i: int| 0 <= i < tree.len() ==> text::before(path, (#[trigger] tree[i]).path),
    ensures
        content_of(tree, path) is None,
    decreases tree.len(),
{
    if tree.len() > 0 {
        assert(text::before(path, tree[0].path));
        text::lemma_before_irreflexive(path);
        let rest = tree.skip(1);
        assert forall|i: int| 0 <= i < rest.len() implies text::before(
            path,
            (#[trigger] rest[i]).path,
        ) by {
            assert(text::before(path, tree[i + 1].path));
        }
        lemma_absent(rest, path);
    }
}

/// A file that comes before the first of a tree is not in it.
proof fn lemma_before_first(tree: Seq<FileV>, path: Seq<char>)
    requires
        paths_ascend(tree),
        tree.len() > 0,
        text::before(path, tree[0].path),
    ensures
        content_of(tree, path) is None,
{
    assert forall|i: int| 0 <= i < tree.len() implies text::before(
        path,
        (#[trigger] tree[i]).path,
    ) by {
        if i > 0 {
            assert(text::before(tree[0].path, tree[i].path));
            text::lemma_before_transitive(path, tree[0].path, tree[i].path);
        }
    }
    lemma_absent(tree, path);
}

/// Two trees that read alike are the same.
pub proof fn trees_that_read_alike_are_the_same(a: Seq<FileV>, b: Seq<FileV>)
    requires
        paths_ascend(a),
        paths_ascend(b),
        forall|path: Seq<char>| #[trigger] content_of(a, path) == content_of(b, path),
    ensures
        a == b,
    decreases a.len(),
{
    if a.len() == 0 {
        if b.len() > 0 {
            assert(content_of(b, b[0].path) is Some);
            assert(content_of(a, b[0].path) is None);
        }
        assert(a =~= b);
    } else {
        assert(content_of(a, a[0].path) == Some(a[0].content));
        assert(b.len() > 0);
        assert(content_of(b, b[0].path) == Some(b[0].content));
        assert(content_of(a, b[0].path) == content_of(b, b[0].path));
        text::lemma_before_total(a[0].path, b[0].path);
        if text::before(a[0].path, b[0].path) {
            lemma_before_first(b, a[0].path);
        } else if text::before(b[0].path, a[0].path) {
            lemma_before_first(a, b[0].path);
        }
        assert(a[0] == b[0]);
        lemma_rest_ascends(a);
        lemma_rest_ascends(b);
        lemma_absent(a.skip(1), a[0].path);
        lemma_absent(b.skip(1), a[0].path);
        assert forall|path: Seq<char>| #[trigger] content_of(a.skip(1), path) == content_of(
            b.skip(1),
            path,
        ) by {
            assert(content_of(a, path) == content_of(b, path));
        }
        trees_that_read_alike_are_the_same(a.skip(1), b.skip(1));
        assert(a =~= seq![a[0]] + a.skip(1));
        assert(b =~= seq![b[0]] + b.skip(1));
    }
}

impl WikiTree {
    #[verifier::type_invariant]
    spec fn ordered(self) -> bool {
        paths_ascend(self.files.deep_view())
    }

    /// A tree without files.
    pub fn new() -> (r: Self)
        ensures
            r.deep_view() == Seq::<FileV>::empty(),
    {
        let files: Vec<WikiFile> = Vec::new();
        assert(files.deep_view() =~= Seq::empty());
        WikiTree { files }
    }

    /// The files, in the order of their paths.
    pub fn files(&self) -> (r: &Vec<WikiFile>)
        ensures
            r.deep_view() == self.deep_view(),
            paths_ascend(self.deep_view()),
    {
        proof {
            use_type_invariant(self);
        }
        &self.files
    }

    /// The number of files.
    pub fn len(&self) -> (r: usize)
        ensures
            r == self.deep_view().len(),
    {
        self.files.len()
    }

    /// The tree with that file; it takes the place of one with its path.
    pub fn with(self, file: WikiFile) -> (r: Self)
        ensures
            r.deep_view() == filed(self.deep_view(), file.deep_view()),
    {
        proof {
            use_type_invariant(&self);
        }
        let mut files = self.files;
        let ghost all = files.deep_view();
        let ghost new = file.deep_view();
        let mut at: usize = 0;
        proof {
            assert(all.skip(0) =~= all);
            assert(all.take(0) + filed(all, new) =~= filed(all, new));
            filing_keeps_the_order(all, new);
        }
        while at < files.len() && text_before(files[at].path.as_str(), file.path.as_str())
            invariant
                at <= files.len(),
                all == files.deep_view(),
                new == file.deep_view(),
                filed(all, new) == all.take(at as int) + filed(all.skip(at as int), new),
            decreases files.len() - at,
        {
            proof {
                let rest = all.skip(at as int);
                assert(rest[0] == files@[at as int].deep_view());
                text::lemma_before_irreflexive(new.path);
                if text::before(new.path, rest[0].path) {
                    text::lemma_before_transitive(new.path, rest[0].path, new.path);
                }
                assert(rest.skip(1) =~= all.skip(at + 1));
                assert(all.take(at as int) + (seq![rest[0]] + filed(all.skip(at + 1), new))
                    =~= all.take(at + 1) + filed(all.skip(at + 1), new));
            }
            at = at + 1;
        }
        if at < files.len() && same_text(files[at].path.as_str(), file.path.as_str()) {
            proof {
                let rest = all.skip(at as int);
                assert(rest[0] == files@[at as int].deep_view());
                assert(rest.skip(1) =~= all.skip(at + 1));
            }
            files[at] = file;
            assert(files.deep_view() =~= all.take(at as int) + (seq![new] + all.skip(at + 1)));
        } else {
            proof {
                let rest = all.skip(at as int);
                if at < files.len() {
                    assert(rest[0] == files@[at as int].deep_view());
                    text::lemma_before_total(new.path, rest[0].path);
                    assert(filed(rest, new) == seq![new] + rest);
                } else {
                    assert(filed(rest, new) =~= seq![new] + rest);
                }
            }
            files.insert(at, file);
            assert(files.deep_view() =~= all.take(at as int) + (seq![new] + all.skip(at as int)));
        }
        WikiTree { files }
    }

    /// The content of a file.
    pub fn content(&self, path: &str) -> (r: Option<&String>)
        ensures
            match r {
                Some(t) => content_of(self.deep_view(), path@) == Some(t@),
                None => content_of(self.deep_view(), path@) is None,
            },
    {
        let ghost all = self.deep_view();
        let mut i: usize = 0;
        assert(all.skip(0) =~= all);
        while i < self.files.len()
            invariant
                i <= self.files.len(),
                all == self.files.deep_view(),
                content_of(all, path@) == content_of(all.skip(i as int), path@),
            decreases self.files.len() - i,
        {
            assert(all.skip(i as int)[0] == self.files@[i as int].deep_view());
            if same_text(self.files[i].path.as_str(), path) {
                return Some(&self.files[i].content);
            }
            assert(all.skip(i as int).skip(1) =~= all.skip(i + 1));
            i = i + 1;
        }
        None
    }
}

} // verus!
