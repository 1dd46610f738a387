//! An explicit model of the directory tree under the root.
//!
//! The tree is a flat table of entries, one per node below the root, each
//! holding the node's path (segments relative to the root) and the node
//! itself: a directory, or a file with its bytes. The root directory is
//! implicit — it always exists and is never stored. Contracts see the tree
//! as a map from segment paths to nodes.
//!
//! Well-formedness ties the table to a real tree: paths are distinct and
//! plain, and every stored node's parent is a stored directory (or the
//! root). Every operation preserves it.

use vstd::prelude::*;
use vstd::slice::slice_to_vec;

use crate::errors::FsError;
use crate::mime::{guess_mime, mime_of};
use crate::paths::{clone_segments, segs_are_plain, ResolvedPath};
use crate::transfer::{chunk_bytes, concat_bytes, concat_chunks, DownloadStream, UploadBody};
use crate::types::FileInfo;

verus! {

/// A tree node as contracts see it.
pub enum FsNodeView {
    Dir,
    File(Seq<u8>),
}

/// A tree node: a directory, or a file with its bytes.
pub enum FsNode {
    Dir,
    File(Vec<u8>),
}

impl View for FsNode {
    type V = FsNodeView;

    open spec fn view(&self) -> FsNodeView {
        match self {
            FsNode::Dir => FsNodeView::Dir,
            FsNode::File(bytes) => FsNodeView::File(bytes@),
        }
    }
}

/// One stored node: its path relative to the root, and the node.
pub struct FsEntry {
    pub path: Vec<String>,
    pub node: FsNode,
}

/// The map a table of entries denotes; a later entry for the same path
/// would win, but well-formed tables hold each path once.
pub open spec fn map_of(s: Seq<FsEntry>) -> Map<Seq<Seq<char>>, FsNodeView>
    decreases s.len(),
{
    if s.len() == 0 {
        Map::empty()
    } else {
        map_of(s.drop_last()).insert(s.last().path.deep_view(), s.last().node@)
    }
}

/// Two entries that denote the same node at the same path.
pub open spec fn entry_matches(a: FsEntry, b: FsEntry) -> bool {
    a.path.deep_view() == b.path.deep_view() && a.node@ == b.node@
}

/// Where a path moves when the subtree at `from` is re-rooted at `to`:
/// paths below `from` get `to` in its place, all others stay.
pub open spec fn rekeyed_path(k: Seq<Seq<char>>, from: Seq<Seq<char>>, to: Seq<Seq<char>>) -> Seq<
    Seq<char>,
> {
    if from.is_prefix_of(k) {
        to + k.skip(from.len() as int)
    } else {
        k
    }
}

/// `new` is `old_table` with every path under `from` re-rooted at `to`,
/// entry for entry.
pub open spec fn rekeyed_entries(
    new: Seq<FsEntry>,
    old_table: Seq<FsEntry>,
    from: Seq<Seq<char>>,
    to: Seq<Seq<char>>,
) -> bool {
    &&& new.len() == old_table.len()
    &&& forall|j: int| #![trigger new[j]]
        0 <= j < new.len() ==> new[j].node@ == old_table[j].node@ && new[j].path.deep_view()
            == rekeyed_path(old_table[j].path.deep_view(), from, to)
}

/// An entry recreating one missing proper ancestor of a tree-copy
/// destination as a directory.
spec fn anc_addition(e: FsEntry, pre: FsModel, to: Seq<Seq<char>>) -> bool {
    &&& e.node@ == FsNodeView::Dir
    &&& !pre@.dom().contains(e.path.deep_view())
    &&& exists|j2: int| 1 <= j2 < to.len() && e.path.deep_view() == #[trigger] to.take(j2)
}

/// An entry copying one source node to its place under the destination.
spec fn image_addition(e: FsEntry, pre: FsModel, from: Seq<Seq<char>>, to: Seq<Seq<char>>) -> bool {
    exists|i: int|
        0 <= i < pre.entries@.len() && from.is_prefix_of(
            (#[trigger] pre.entries@[i]).path.deep_view(),
        ) && e.path.deep_view() == to + pre.entries@[i].path.deep_view().skip(from.len() as int)
            && e.node@ == pre.entries@[i].node@
}

/// No two entries share a path.
pub open spec fn keys_distinct(s: Seq<FsEntry>) -> bool {
    forall|i: int, j: int|
        0 <= i < j < s.len()
            ==> (#[trigger] s[i].path.deep_view()) != (#[trigger] s[j].path.deep_view())
}

/// The denoted map holds exactly the entries' paths.
pub proof fn lemma_map_of_dom(s: Seq<FsEntry>)
    ensures
        forall|k: Seq<Seq<char>>| #[trigger]
            map_of(s).dom().contains(k) <==> exists|i: int|
                0 <= i < s.len() && (#[trigger] s[i].path.deep_view()) == k,
    decreases s.len(),
{
    if s.len() > 0 {
        lemma_map_of_dom(s.drop_last());
        assert forall|k: Seq<Seq<char>>| #[trigger] map_of(s).dom().contains(k) implies exists|i: int|
            0 <= i < s.len() && (#[trigger] s[i].path.deep_view()) == k by {
            if k == s.last().path.deep_view() {
                assert(s[s.len() - 1].path.deep_view() == k);
            } else {
                assert(map_of(s.drop_last()).dom().contains(k));
                let i = choose|i: int|
                    0 <= i < s.drop_last().len() && (#[trigger] s.drop_last()[i].path.deep_view())
                        == k;
                assert(s.drop_last()[i] == s[i]);
                assert(s[i].path.deep_view() == k);
            }
        }
        assert forall|k: Seq<Seq<char>>|
            (exists|i: int| 0 <= i < s.len() && (#[trigger] s[i].path.deep_view()) == k) implies #[trigger]
            map_of(s).dom().contains(k) by {
            let i = choose|i: int| 0 <= i < s.len() && (#[trigger] s[i].path.deep_view()) == k;
            if i < s.len() - 1 {
                assert(s.drop_last()[i].path.deep_view() == k);
                assert(map_of(s.drop_last()).dom().contains(k));
            }
        }
    }
}

/// With distinct paths, each entry's node is the denoted map's value at
/// that entry's path.
pub proof fn lemma_map_of_index(s: Seq<FsEntry>, i: int)
    requires
        keys_distinct(s),
        0 <= i < s.len(),
    ensures
        map_of(s).dom().contains(s[i].path.deep_view()),
        map_of(s)[s[i].path.deep_view()] == s[i].node@,
    decreases s.len(),
{
    if i < s.len() - 1 {
        assert(keys_distinct(s.drop_last()));
        lemma_map_of_index(s.drop_last(), i);
        assert(s.drop_last()[i].path.deep_view() == s[i].path.deep_view());
        assert(s[s.len() - 1].path.deep_view() != s[i].path.deep_view());
    }
}

/// What probing a path finds there. The model tree never answers `Other`;
/// a caller probing a real filesystem may, for a node that is neither a
/// regular file nor a directory.
#[derive(Clone, Copy, Debug, PartialEq, Eq, Structural)]
pub enum NodeKind {
    Missing,
    Directory,
    RegularFile,
    Other,
}

/// The directory tree under the root.
pub struct FsModel {
    entries: Vec<FsEntry>,
}

impl View for FsModel {
    type V = Map<Seq<Seq<char>>, FsNodeView>;

    closed spec fn view(&self) -> Map<Seq<Seq<char>>, FsNodeView> {
        map_of(self.entries@)
    }
}

impl FsModel {
    /// The table behind the map: paths distinct, nonempty, plain.
    pub closed spec fn table_wf(self) -> bool {
        &&& keys_distinct(self.entries@)
        &&& forall|i: int|
            0 <= i < self.entries@.len() ==> {
                let p = (#[trigger] self.entries@[i]).path.deep_view();
                p.len() >= 1 && segs_are_plain(p)
            }
    }

    /// Every stored node hangs off a stored directory or off the root.
    pub open spec fn parents_present(self) -> bool {
        forall|k: Seq<Seq<char>>|
            #[trigger] self@.dom().contains(k) && k.len() > 1 ==> self@.dom().contains(
                k.drop_last(),
            ) && self@[k.drop_last()] == FsNodeView::Dir
    }

    /// The table denotes a real tree.
    pub open spec fn wf(self) -> bool {
        &&& self.table_wf()
        &&& self.parents_present()
    }

    /// Something exists at `k` (the root always does).
    pub open spec fn present(self, k: Seq<Seq<char>>) -> bool {
        k.len() == 0 || self@.dom().contains(k)
    }

    /// A directory exists at `k`.
    pub open spec fn dir_at(self, k: Seq<Seq<char>>) -> bool {
        k.len() == 0 || (self@.dom().contains(k) && self@[k] == FsNodeView::Dir)
    }

    /// A file exists at `k`.
    pub open spec fn file_at(self, k: Seq<Seq<char>>) -> bool {
        k.len() >= 1 && self@.dom().contains(k) && self@[k] is File
    }

    /// No proper ancestor of `to` is a file, so the missing ones can all
    /// be created as directories.
    pub open spec fn ancestors_ok(self, to: Seq<Seq<char>>) -> bool {
        forall|j: int|
            1 <= j < to.len() ==> !(self@.dom().contains(#[trigger] to.take(j)) && self@[to.take(
                j,
            )] is File)
    }

    /// The bytes of the file at `k`.
    pub open spec fn file_content(self, k: Seq<Seq<char>>) -> Seq<u8> {
        match self@[k] {
            FsNodeView::File(bytes) => bytes,
            FsNodeView::Dir => Seq::empty(),
        }
    }

    /// An empty tree: just the root.
    pub fn new() -> (r: FsModel)
        ensures
            r.wf(),
            r@ == Map::<Seq<Seq<char>>, FsNodeView>::empty(),
    {
        let entries: Vec<FsEntry> = Vec::new();
        proof {
            assert(entries@ =~= Seq::<FsEntry>::empty());
        }
        FsModel { entries }
    }

    /// Every nonempty proper prefix of a stored path is a stored directory.
    pub proof fn lemma_ancestor_present(self, k: Seq<Seq<char>>, n: int)
        requires
            self.parents_present(),
            self@.dom().contains(k),
            1 <= n <= k.len(),
        ensures
            self@.dom().contains(k.take(n)),
            n < k.len() ==> self@[k.take(n)] == FsNodeView::Dir,
        decreases k.len() - n,
    {
        if n == k.len() {
            assert(k.take(n) =~= k);
        } else {
            self.lemma_ancestor_present(k, n + 1);
            assert(k.take(n) =~= k.take(n + 1).drop_last());
        }
    }

    /// The index of the entry at `p`, if one is stored there.
    fn lookup_idx(&self, p: &Vec<String>) -> (r: Option<usize>)
        requires
            self.wf(),
        ensures
            r matches Some(i) ==> i < self.entries@.len() && self.entries@[i as int].path.deep_view()
                == p.deep_view() && self@.dom().contains(p.deep_view()) && self@[p.deep_view()]
                == self.entries@[i as int].node@,
            r is None ==> !self@.dom().contains(p.deep_view()),
    {
        let mut i: usize = 0;
        while i < self.entries.len()
            invariant
                i <= self.entries@.len(),
                self.wf(),
                forall|j: int|
                    0 <= j < i ==> (#[trigger] self.entries@[j].path.deep_view())
                        != p.deep_view(),
            decreases self.entries@.len() - i,
        {
            if path_eq(&self.entries[i].path, p) {
                proof {
                    lemma_map_of_index(self.entries@, i as int);
                }
                return Some(i);
            }
            i = i + 1;
        }
        proof {
            lemma_map_of_dom(self.entries@);
        }
        None
    }

    /// What kind of node sits at `p`.
    pub fn node_kind(&self, p: &ResolvedPath) -> (r: NodeKind)
        requires
            self.wf(),
        ensures
            (r == NodeKind::Directory) <==> self.dir_at(p@),
            (r == NodeKind::RegularFile) <==> self.file_at(p@),
            (r == NodeKind::Missing) <==> !self.present(p@),
            r != NodeKind::Other,
    {
        self.node_kind_segs(&p.segments)
    }

    /// What kind of node sits at the path the segments name.
    fn node_kind_segs(&self, segs: &Vec<String>) -> (r: NodeKind)
        requires
            self.wf(),
        ensures
            (r == NodeKind::Directory) <==> self.dir_at(segs.deep_view()),
            (r == NodeKind::RegularFile) <==> self.file_at(segs.deep_view()),
            (r == NodeKind::Missing) <==> !self.present(segs.deep_view()),
            r != NodeKind::Other,
    {
        if segs.len() == 0 {
            return NodeKind::Directory;
        }
        match self.lookup_idx(segs) {
            None => NodeKind::Missing,
            Some(i) => match &self.entries[i].node {
                FsNode::Dir => NodeKind::Directory,
                FsNode::File(_) => NodeKind::RegularFile,
            },
        }
    }
}

/// A path one level below `p`: a direct child.
pub open spec fn is_child_of(k: Seq<Seq<char>>, p: Seq<Seq<char>>) -> bool {
    k.len() == p.len() + 1 && p.is_prefix_of(k)
}

/// A child path is its parent plus its final segment.
pub proof fn lemma_child_key(k: Seq<Seq<char>>, p: Seq<Seq<char>>)
    requires
        is_child_of(k, p),
    ensures
        k == p.push(k.last()),
{
    assert(k =~= p.push(k.last()));
}

/// A listing record that faithfully describes the child of `p` it names:
/// the node exists, the kind matches, a file's size is its byte count and
/// its media type is guessed from the name, a directory has size zero and
/// no media type.
pub open spec fn child_info_ok(m: FsModel, p: Seq<Seq<char>>, info: FileInfo) -> bool {
    let k = p.push(info.name@);
    &&& m@.dom().contains(k)
    &&& info.is_dir == (m@[k] is Dir)
    &&& (m@[k] is File ==> info.size as nat == m.file_content(k).len())
    &&& (m@[k] is Dir ==> info.size == 0u64)
    &&& (m@[k] is Dir ==> info.mime is None)
    &&& (m@[k] is File ==> (info.mime matches Some(mm) && mm@ == mime_of(info.name@)))
}

impl FsModel {
    /// Writes an uploaded body to a new file at `p`, exclusively: anything
    /// already there is `AlreadyExists`. A body whose stream broke off
    /// leaves the tree exactly as it was — the partial file is removed
    /// before the failure is reported, never presented as complete.
    pub fn upload(&mut self, p: &ResolvedPath, body: &UploadBody) -> (r: Result<(), FsError>)
        requires
            old(self).wf(),
            p.wf(),
            p@.len() >= 1,
        ensures
            final(self).wf(),
            r is Ok <==> !old(self).present(p@) && old(self).dir_at(p@.drop_last())
                && !body.truncated,
            r matches Err(e) ==> final(self)@ == old(self)@ && e == (
            if old(self).present(p@) {
                FsError::AlreadyExists
            } else {
                FsError::InternalIo
            }),
            r is Ok ==> final(self)@ == old(self)@.insert(
                p@,
                FsNodeView::File(concat_chunks(body.chunks.deep_view())),
            ),
    {
        let target = self.node_kind(p);
        let par = p.parent();
        let parent_kind = self.node_kind(&par);
        match crate::plan::upload_plan(target, parent_kind) {
            Err(e) => Err(e),
            Ok(()) => {
                if body.truncated {
                    return Err(FsError::InternalIo);
                }
                let content = concat_bytes(&body.chunks);
                let ghost pre = *self;
                self.entries.push(
                    FsEntry { path: clone_segments(&p.segments), node: FsNode::File(content) },
                );
                proof {
                    self.lemma_insert_entry(
                        pre,
                        p@,
                        FsNodeView::File(concat_chunks(body.chunks.deep_view())),
                    );
                }
                Ok(())
            },
        }
    }

    /// Reads the file at `p` as a finite stream of bounded chunks whose
    /// concatenation is exactly the stored bytes. Anything else there is
    /// `NotFound`.
    pub fn download(&self, p: &ResolvedPath) -> (r: Result<DownloadStream, FsError>)
        requires
            self.wf(),
        ensures
            r is Ok <==> self.file_at(p@),
            r matches Err(e) ==> e == FsError::NotFound,
            r matches Ok(d) ==> concat_chunks(d.chunks.deep_view()) == self.file_content(p@)
                && forall|i: int|
                0 <= i < d.chunks.deep_view().len() ==> 0 < (
                #[trigger] d.chunks.deep_view()[i]).len() <= crate::transfer::CHUNK_SIZE,
    {
        let target = self.node_kind(p);
        match crate::plan::download_plan(target) {
            Err(e) => Err(e),
            Ok(()) => {
                let idx = match self.lookup_idx(&p.segments) {
                    Some(idx) => idx,
                    None => {
                        proof {
                            assert(false);
                        }
                        return Err(FsError::NotFound);
                    },
                };
                match &self.entries[idx].node {
                    FsNode::File(bytes) => Ok(DownloadStream { chunks: chunk_bytes(bytes) }),
                    FsNode::Dir => {
                        proof {
                            assert(false);
                        }
                        Err(FsError::NotFound)
                    },
                }
            },
        }
    }

    /// Lists the direct children of the directory at `p`: one record per
    /// child with its name, size, kind, and — for files — the media type
    /// guessed from the name. The order is the tree's own and carries no
    /// meaning. A missing target is `NotFound`; a file is `NotADirectory`.
    /// Directories are listed with size zero.
    pub fn list(&self, p: &ResolvedPath) -> (r: Result<Vec<FileInfo>, FsError>)
        requires
            self.wf(),
        ensures
            r is Ok <==> self.dir_at(p@),
            r matches Err(e) ==> e == (
            if !self.present(p@) {
                FsError::NotFound
            } else {
                FsError::NotADirectory
            }),
            r matches Ok(files) ==> {
                &&& forall|i: int|
                    0 <= i < files@.len() ==> child_info_ok(*self, p@, #[trigger] files@[i])
                &&& forall|k: Seq<Seq<char>>|
                    #[trigger] self@.dom().contains(k) && is_child_of(k, p@) ==> exists|i: int|
                        0 <= i < files@.len() && (#[trigger] files@[i].name@) == k.last()
                &&& forall|i: int, j: int|
                    0 <= i < j < files@.len() ==> (#[trigger] files@[i].name@) != (
                    #[trigger] files@[j].name@)
            },
    {
        let target = self.node_kind(p);
        match crate::plan::ls_plan(target) {
            Err(e) => Err(e),
            Ok(()) => Ok(self.list_children(p)),
        }
    }

    /// One record per direct child of the directory at `p`.
    #[verifier::rlimit(100)]
    #[verifier::spinoff_prover]
    fn list_children(&self, p: &ResolvedPath) -> (files: Vec<FileInfo>)
        requires
            self.wf(),
        ensures
            forall|i: int| 0 <= i < files@.len() ==> child_info_ok(*self, p@, #[trigger] files@[i]),
            forall|k: Seq<Seq<char>>|
                #[trigger] self@.dom().contains(k) && is_child_of(k, p@) ==> exists|i: int|
                    0 <= i < files@.len() && (#[trigger] files@[i].name@) == k.last(),
            forall|i: int, j: int|
                0 <= i < j < files@.len() ==> (#[trigger] files@[i].name@) != (#[trigger] files@[
                    j
                ].name@),
    {
        let mut files: Vec<FileInfo> = Vec::new();
        let mut i: usize = 0;
        while i < self.entries.len()
            invariant
                i <= self.entries@.len(),
                self.wf(),
                p@ == p.segments.deep_view(),
                forall|a: int|
                    0 <= a < files@.len() ==> child_info_ok(*self, p@, #[trigger] files@[a]),
                forall|a: int|
                    #![trigger files@[a]]
                    0 <= a < files@.len() ==> exists|j2: int|
                        0 <= j2 < i && is_child_of(
                            (#[trigger] self.entries@[j2]).path.deep_view(),
                            p@,
                        ) && files@[a].name@ == self.entries@[j2].path.deep_view().last(),
                forall|j2: int|
                    0 <= j2 < i && is_child_of(
                        (#[trigger] self.entries@[j2]).path.deep_view(),
                        p@,
                    ) ==> exists|a: int|
                        0 <= a < files@.len() && (#[trigger] files@[a].name@) == self.entries@[
                            j2
                        ].path.deep_view().last(),
                forall|a: int, b: int|
                    0 <= a < b < files@.len() ==> (#[trigger] files@[a].name@) != (
                    #[trigger] files@[b].name@),
            decreases self.entries@.len() - i,
        {
            let e = &self.entries[i];
            if p.segments.len() < e.path.len() && e.path.len() - p.segments.len() == 1
                && is_path_prefix(&p.segments, &e.path) {
                let info = self.child_info(i, p);
                let ghost prev = files@;
                files.push(info);
                proof {
                    assert(forall|a: int| 0 <= a < prev.len() ==> files@[a] == prev[a]);
                    self.lemma_child_push_distinct(p@, files@, i as int);
                }
            }
            i = i + 1;
        }
        proof {
            lemma_map_of_dom(self.entries@);
            assert forall|k: Seq<Seq<char>>|
                #[trigger] self@.dom().contains(k) && is_child_of(k, p@) implies exists|a: int|
                0 <= a < files@.len() && (#[trigger] files@[a].name@) == k.last() by {
                let j2 = choose|j2: int|
                    0 <= j2 < self.entries@.len() && (#[trigger] self.entries@[j2].path.deep_view())
                        == k;
                let a = choose|a: int|
                    0 <= a < files@.len() && (#[trigger] files@[a].name@) == self.entries@[
                        j2
                    ].path.deep_view().last();
                assert(files@[a].name@ == k.last());
            }
        }
        files
    }

    /// The listing record for the child stored at table index `i`.
    #[verifier::rlimit(60)]
    #[verifier::spinoff_prover]
    fn child_info(&self, i: usize, p: &ResolvedPath) -> (info: FileInfo)
        requires
            self.wf(),
            i < self.entries@.len(),
            is_child_of(self.entries@[i as int].path.deep_view(), p@),
        ensures
            child_info_ok(*self, p@, info),
            info.name@ == self.entries@[i as int].path.deep_view().last(),
    {
        let e = &self.entries[i];
        proof {
            lemma_map_of_index(self.entries@, i as int);
        }
        let name = e.path[e.path.len() - 1].clone();
        proof {
            assert(name@ == self.entries@[i as int].path.deep_view().last());
            assert(p@.push(name@) =~= self.entries@[i as int].path.deep_view());
        }
        match &e.node {
            FsNode::Dir => FileInfo { name, size: 0, is_dir: true, mime: None },
            FsNode::File(bytes) => {
                let mime = guess_mime(name.as_str());
                FileInfo { name, size: bytes.len() as u64, is_dir: false, mime: Some(mime) }
            },
        }
    }

    /// A record for a not-yet-listed child keeps the listed names distinct:
    /// equal names would mean one stored path listed twice.
    #[verifier::rlimit(60)]
    #[verifier::spinoff_prover]
    proof fn lemma_child_push_distinct(self, p: Seq<Seq<char>>, files: Seq<FileInfo>, i: int)
        requires
            self.wf(),
            0 <= i < self.entries@.len(),
            is_child_of(self.entries@[i].path.deep_view(), p),
            files.len() >= 1,
            files.last().name@ == self.entries@[i].path.deep_view().last(),
            forall|a: int|
                #![trigger files[a]]
                0 <= a < files.len() - 1 ==> exists|j2: int|
                    0 <= j2 < i && is_child_of(
                        (#[trigger] self.entries@[j2]).path.deep_view(),
                        p,
                    ) && files[a].name@ == self.entries@[j2].path.deep_view().last(),
            forall|a: int, b: int|
                0 <= a < b < files.len() - 1 ==> (#[trigger] files[a].name@) != (#[trigger] files[
                    b
                ].name@),
        ensures
            forall|a: int, b: int|
                0 <= a < b < files.len() ==> (#[trigger] files[a].name@) != (#[trigger] files[
                    b
                ].name@),
    {
        let ki = self.entries@[i].path.deep_view();
        assert forall|a: int, b: int|
            0 <= a < b < files.len() implies (#[trigger] files[a].name@) != (#[trigger] files[
            b
        ].name@) by {
            if b == files.len() - 1 {
                let j2 = choose|j2: int|
                    0 <= j2 < i && is_child_of(
                        (#[trigger] self.entries@[j2]).path.deep_view(),
                        p,
                    ) && files[a].name@ == self.entries@[j2].path.deep_view().last();
                let kj = self.entries@[j2].path.deep_view();
                if files[a].name@ == files[b].name@ {
                    lemma_child_key(kj, p);
                    lemma_child_key(ki, p);
                    assert(kj == ki);
                }
            }
        }
    }
}

/// Removing an entry removes exactly its path from the denoted map.
pub proof fn lemma_map_of_remove(s: Seq<FsEntry>, i: int)
    requires
        keys_distinct(s),
        0 <= i < s.len(),
    ensures
        map_of(s.remove(i)) == map_of(s).remove(s[i].path.deep_view()),
    decreases s.len(),
{
    if i == s.len() - 1 {
        assert(s.remove(i) =~= s.drop_last());
        lemma_map_of_dom(s.drop_last());
        assert forall|j: int| 0 <= j < s.drop_last().len() implies (#[trigger] s.drop_last()[
            j
        ].path.deep_view()) != s[i].path.deep_view() by {
            assert(s.drop_last()[j] == s[j]);
        }
        assert(!map_of(s.drop_last()).dom().contains(s[i].path.deep_view()));
        assert(map_of(s.remove(i)) =~= map_of(s).remove(s[i].path.deep_view()));
    } else {
        assert(keys_distinct(s.drop_last()));
        lemma_map_of_remove(s.drop_last(), i);
        assert(s.remove(i).drop_last() =~= s.drop_last().remove(i));
        assert(s.remove(i).last() == s.last());
        assert(s.drop_last()[i] == s[i]);
        assert(s[i].path.deep_view() != s.last().path.deep_view());
        assert(map_of(s.remove(i)) =~= map_of(s).remove(s[i].path.deep_view()));
    }
}

impl FsModel {
    /// Creates a directory at `p`. Anything already there — file or
    /// directory — is `AlreadyExists`. Exactly one level is created: a
    /// missing parent is not made on the way, but reported as the create
    /// primitive's own failure.
    pub fn mkdir(&mut self, p: &ResolvedPath) -> (r: Result<(), FsError>)
        requires
            old(self).wf(),
            p.wf(),
            p@.len() >= 1,
        ensures
            final(self).wf(),
            r is Ok <==> !old(self).present(p@) && old(self).dir_at(p@.drop_last()),
            r matches Err(e) ==> final(self)@ == old(self)@ && e == (
            if old(self).present(p@) {
                FsError::AlreadyExists
            } else {
                FsError::InternalIo
            }),
            r is Ok ==> final(self)@ == old(self)@.insert(p@, FsNodeView::Dir),
    {
        let target = self.node_kind(p);
        let par = p.parent();
        let parent_kind = self.node_kind(&par);
        match crate::plan::mkdir_plan(target, parent_kind) {
            Err(e) => Err(e),
            Ok(()) => {
                proof {
                    lemma_map_of_dom(self.entries@);
                }
                let ghost pre = *self;
                self.entries.push(
                    FsEntry { path: crate::paths::clone_segments(&p.segments), node: FsNode::Dir },
                );
                proof {
                    self.lemma_insert_entry(pre, p@, FsNodeView::Dir);
                }
                Ok(())
            },
        }
    }

    /// After pushing one entry for an absent, plain, nonempty path whose
    /// parent is a directory, the table still denotes a well-formed tree,
    /// now with that node inserted.
    proof fn lemma_insert_entry(self, pre: FsModel, k: Seq<Seq<char>>, node: FsNodeView)
        requires
            pre.wf(),
            !pre.present(k),
            k.len() >= 1,
            segs_are_plain(k),
            pre.dir_at(k.drop_last()),
            self.entries@.len() == pre.entries@.len() + 1,
            forall|i: int| 0 <= i < pre.entries@.len() ==> self.entries@[i] == pre.entries@[i],
            self.entries@.last().path.deep_view() == k,
            self.entries@.last().node@ == node,
        ensures
            self.wf(),
            self@ == pre@.insert(k, node),
    {
        lemma_map_of_dom(pre.entries@);
        assert(self.entries@.drop_last() =~= pre.entries@);
        assert(self@ == pre@.insert(k, node));
        assert forall|i: int, j: int| 0 <= i < j < self.entries@.len() implies (
        #[trigger] self.entries@[i].path.deep_view()) != (#[trigger] self.entries@[
            j
        ].path.deep_view()) by {
            if j == self.entries@.len() - 1 {
                assert(self.entries@[i] == pre.entries@[i]);
                assert(pre@.dom().contains(pre.entries@[i].path.deep_view()))
                    by {
                    lemma_map_of_index(pre.entries@, i);
                }
            }
        }
        assert forall|q: Seq<Seq<char>>|
            #[trigger] self@.dom().contains(q) && q.len() > 1 implies self@.dom().contains(
            q.drop_last(),
        ) && self@[q.drop_last()] == FsNodeView::Dir by {
            if q == k {
                assert(pre@.dom().contains(k.drop_last()) && pre@[k.drop_last()]
                    == FsNodeView::Dir);
                assert(k.drop_last() != k);
                assert(self@[q.drop_last()] == pre@[k.drop_last()]);
            } else {
                assert(pre@.dom().contains(q));
                assert(q.drop_last() != k) by {
                    if q.drop_last() == k {
                        assert(pre@.dom().contains(k));
                    }
                }
            }
        }
    }

    /// Removes the file at `p`. Anything else there — nothing, or a
    /// directory — is `NotFound`.
    pub fn remove_file(&mut self, p: &ResolvedPath) -> (r: Result<(), FsError>)
        requires
            old(self).wf(),
            p@.len() >= 1,
        ensures
            final(self).wf(),
            r is Ok <==> old(self).file_at(p@),
            r matches Err(e) ==> final(self)@ == old(self)@ && e == FsError::NotFound,
            r is Ok ==> final(self)@ == old(self)@.remove(p@),
    {
        let target = self.node_kind(p);
        match crate::plan::rm_file_plan(target) {
            Err(e) => Err(e),
            Ok(()) => {
                let idx = match self.lookup_idx(&p.segments) {
                    Some(idx) => idx,
                    None => {
                        proof {
                            assert(false);
                        }
                        return Err(FsError::NotFound);
                    },
                };
                let ghost pre = *self;
                let _removed = self.entries.remove(idx);
                proof {
                    lemma_map_of_remove(pre.entries@, idx as int);
                    assert forall|i: int, j: int| 0 <= i < j < self.entries@.len() implies (
                    #[trigger] self.entries@[i].path.deep_view()) != (#[trigger] self.entries@[
                        j
                    ].path.deep_view()) by {
                        assert(self.entries@[i] == pre.entries@.remove(idx as int)[i]);
                    }
                    assert forall|q: Seq<Seq<char>>|
                        #[trigger] self@.dom().contains(q) && q.len() > 1 implies self@.dom()
                        .contains(q.drop_last()) && self@[q.drop_last()] == FsNodeView::Dir by {
                        assert(pre@.dom().contains(q));
                        assert(q.drop_last() != p@) by {
                            if q.drop_last() == p@ {
                                assert(pre@[p@] == FsNodeView::Dir);
                            }
                        }
                    }
                    assert forall|i: int| 0 <= i < self.entries@.len() implies {
                        let q = (#[trigger] self.entries@[i]).path.deep_view();
                        q.len() >= 1 && segs_are_plain(q)
                    } by {
                        assert(self.entries@[i] == pre.entries@.remove(idx as int)[i]);
                    }
                }
                Ok(())
            },
        }
    }

    /// Copies the node at `from` to `to`: a file byte for byte, a
    /// directory as a whole recreated tree. The source must exist and the
    /// destination must not; the source stays untouched. A directory is
    /// never copied into its own subtree. Missing ancestors of a tree
    /// destination are created as directories; an ancestor that is a file
    /// fails as the create primitive would. A failure partway through a
    /// real tree copy can leave a partial destination behind; the model
    /// only answers for copies that were not interrupted.
    pub fn copy(&mut self, from: &ResolvedPath, to: &ResolvedPath) -> (r: Result<(), FsError>)
        requires
            old(self).wf(),
            from.wf(),
            to.wf(),
            from@.len() >= 1,
            to@.len() >= 1,
        ensures
            final(self).wf(),
            r is Ok <==> old(self).present(from@) && !old(self).present(to@) && ((old(self).dir_at(
                from@,
            ) && !from@.is_prefix_of(to@) && old(self).ancestors_ok(to@)) || (old(self).file_at(
                from@,
            ) && old(self).dir_at(to@.drop_last()))),
            r matches Err(e) ==> final(self)@ == old(self)@ && e == (
            if !old(self).present(from@) {
                FsError::NotFound
            } else if old(self).present(to@) {
                FsError::AlreadyExists
            } else if old(self).dir_at(from@) && from@.is_prefix_of(to@) {
                FsError::InvalidPath
            } else {
                FsError::InternalIo
            }),
            r is Ok && old(self).file_at(from@) ==> final(self)@ == old(self)@.insert(
                to@,
                FsNodeView::File(old(self).file_content(from@)),
            ),
            r is Ok ==> forall|k: Seq<Seq<char>>| #[trigger]
                old(self)@.dom().contains(k) ==> final(self)@.dom().contains(k) && final(self)@[k]
                    == old(self)@[k],
            r is Ok && old(self).dir_at(from@) ==> forall|s: Seq<Seq<char>>|
                #[trigger] old(self)@.dom().contains(from@ + s) ==> final(self)@.dom().contains(
                    to@ + s,
                ) && final(self)@[to@ + s] == old(self)@[from@ + s],
            r is Ok && old(self).dir_at(from@) ==> forall|j: int|
                1 <= j <= to@.len() ==> final(self).dir_at(#[trigger] to@.take(j)),
            r is Ok && old(self).dir_at(from@) ==> forall|k: Seq<Seq<char>>| #[trigger]
                final(self)@.dom().contains(k) ==> old(self)@.dom().contains(k) || (
                to@.is_prefix_of(k) && old(self)@.dom().contains(from@ + k.skip(to@.len() as int)))
                    || (exists|j: int| 1 <= j < to@.len() && k == #[trigger] to@.take(j)),
    {
        let from_kind = self.node_kind(from);
        let to_kind = self.node_kind(to);
        let to_par = to.parent();
        let to_par_kind = self.node_kind(&to_par);
        let from_contains_to = is_path_prefix(&from.segments, &to.segments);
        match crate::plan::copy_plan(from_kind, to_kind, to_par_kind, from_contains_to) {
            Err(e) => Err(e),
            Ok(crate::plan::CopyKind::OneFile) => self.copy_file(from, to),
            Ok(crate::plan::CopyKind::Tree) => self.copy_tree(from, to),
        }
    }

    /// Copies one file byte for byte.
    fn copy_file(&mut self, from: &ResolvedPath, to: &ResolvedPath) -> (r: Result<(), FsError>)
        requires
            old(self).wf(),
            to.wf(),
            from@.len() >= 1,
            to@.len() >= 1,
            old(self).file_at(from@),
            !old(self).present(to@),
            old(self).dir_at(to@.drop_last()),
        ensures
            final(self).wf(),
            r is Ok,
            final(self)@ == old(self)@.insert(
                to@,
                FsNodeView::File(old(self).file_content(from@)),
            ),
    {
        let idx = match self.lookup_idx(&from.segments) {
            Some(idx) => idx,
            None => {
                proof {
                    assert(false);
                }
                return Err(FsError::NotFound);
            },
        };
        let content = match &self.entries[idx].node {
            FsNode::File(bytes) => clone_bytes(bytes),
            FsNode::Dir => {
                proof {
                    assert(false);
                }
                Vec::new()
            },
        };
        let ghost pre = *self;
        self.entries.push(
            FsEntry { path: clone_segments(&to.segments), node: FsNode::File(content) },
        );
        proof {
            self.lemma_insert_entry(pre, to@, FsNodeView::File(pre.file_content(from@)));
        }
        Ok(())
    }

    /// Recreates the directory tree at `from` under `to`, making missing
    /// ancestors of `to` on the way.
    fn copy_tree(&mut self, from: &ResolvedPath, to: &ResolvedPath) -> (r: Result<(), FsError>)
        requires
            old(self).wf(),
            from.wf(),
            to.wf(),
            from@.len() >= 1,
            to@.len() >= 1,
            old(self).dir_at(from@),
            !old(self).present(to@),
            !from@.is_prefix_of(to@),
        ensures
            final(self).wf(),
            r is Ok <==> old(self).ancestors_ok(to@),
            r matches Err(e) ==> final(self)@ == old(self)@ && e == FsError::InternalIo,
            r is Ok ==> forall|k: Seq<Seq<char>>| #[trigger]
                old(self)@.dom().contains(k) ==> final(self)@.dom().contains(k) && final(self)@[k]
                    == old(self)@[k],
            r is Ok ==> forall|s: Seq<Seq<char>>|
                #[trigger] old(self)@.dom().contains(from@ + s) ==> final(self)@.dom().contains(
                    to@ + s,
                ) && final(self)@[to@ + s] == old(self)@[from@ + s],
            r is Ok ==> forall|j: int|
                1 <= j <= to@.len() ==> final(self).dir_at(#[trigger] to@.take(j)),
            r is Ok ==> forall|k: Seq<Seq<char>>| #[trigger]
                final(self)@.dom().contains(k) ==> old(self)@.dom().contains(k) || (
                to@.is_prefix_of(k) && old(self)@.dom().contains(from@ + k.skip(to@.len() as int)))
                    || (exists|j: int| 1 <= j < to@.len() && k == #[trigger] to@.take(j)),
    {
        let ghost pre = *self;
        let mut additions = match self.ancestor_additions(to) {
            Ok(additions) => additions,
            Err(e) => {
                return Err(e);
            },
        };
        let mut images = self.subtree_images(from, to);
        let ghost ancs = additions@;
        let ghost imgs = images@;
        additions.append(&mut images);
        proof {
            assert(additions@ == ancs + imgs);
            lemma_anc_img_distinct(ancs, imgs, pre, from@, to@);
            assert forall|a: int| 0 <= a < additions@.len() implies anc_addition(
                #[trigger] additions@[a],
                pre,
                to@,
            ) || image_addition(additions@[a], pre, from@, to@) by {
                if a < ancs.len() {
                    assert(additions@[a] == ancs[a]);
                } else {
                    assert(additions@[a] == imgs[a - ancs.len()]);
                }
            }
            assert forall|j2: int|
                1 <= j2 < to@.len() && !pre.dir_at(#[trigger] to@.take(j2)) implies exists|a: int|
                0 <= a < additions@.len() && (#[trigger] additions@[a].path.deep_view())
                    == to@.take(j2) by {
                let a = choose|a: int|
                    0 <= a < ancs.len() && (#[trigger] ancs[a].path.deep_view()) == to@.take(j2);
                assert(additions@[a].path.deep_view() == to@.take(j2));
            }
            assert forall|i2: int|
                0 <= i2 < pre.entries@.len() && from@.is_prefix_of(
                    (#[trigger] pre.entries@[i2]).path.deep_view(),
                ) implies exists|a: int|
                0 <= a < additions@.len() && (#[trigger] additions@[a].path.deep_view()) == to@
                    + pre.entries@[i2].path.deep_view().skip(from@.len() as int) && additions@[
                    a
                ].node@ == pre.entries@[i2].node@ by {
                let b = choose|b: int|
                    0 <= b < imgs.len() && (#[trigger] imgs[b].path.deep_view()) == to@
                        + pre.entries@[i2].path.deep_view().skip(from@.len() as int) && imgs[
                        b
                    ].node@ == pre.entries@[i2].node@;
                assert(additions@[ancs.len() + b].path.deep_view() == to@ + pre.entries@[
                    i2
                ].path.deep_view().skip(from@.len() as int));
                assert(additions@[ancs.len() + b].node@ == pre.entries@[i2].node@);
            }
        }
        self.entries.append(&mut additions);
        proof {
            self.lemma_copy_tree(pre, from@, to@, ancs + imgs);
        }
        Ok(())
    }

    /// One directory entry for each missing proper ancestor of `to`, or
    /// the create primitive's failure if a file stands in the way.
    fn ancestor_additions(&self, to: &ResolvedPath) -> (r: Result<Vec<FsEntry>, FsError>)
        requires
            self.wf(),
            to.wf(),
            to@.len() >= 1,
        ensures
            r is Ok <==> self.ancestors_ok(to@),
            r matches Err(e) ==> e == FsError::InternalIo,
            r matches Ok(additions) ==> {
                &&& keys_distinct(additions@)
                &&& forall|a: int| #![trigger additions@[a]]
                    0 <= a < additions@.len() ==> anc_addition(additions@[a], *self, to@)
                &&& forall|j2: int|
                    1 <= j2 < to@.len() && !self.dir_at(#[trigger] to@.take(j2)) ==> exists|a: int|
                        0 <= a < additions@.len() && (#[trigger] additions@[a].path.deep_view())
                            == to@.take(j2)
            },
    {
        let mut additions: Vec<FsEntry> = Vec::new();
        let mut acc: Vec<String> = Vec::new();
        proof {
            assert(acc.deep_view() =~= to@.take(0));
        }
        let mut j: usize = 1;
        while j < to.segments.len()
            invariant
                1 <= j <= to@.len(),
                self.wf(),
                to.wf(),
                to@ == to.segments.deep_view(),
                acc.deep_view() == to@.take(j - 1),
                forall|j2: int|
                    1 <= j2 < j ==> !(self@.dom().contains(#[trigger] to@.take(j2)) && self@[
                        to@.take(j2)
                    ] is File),
                keys_distinct(additions@),
                forall|a: int| #![trigger additions@[a]]
                    0 <= a < additions@.len() ==> additions@[a].node@ == FsNodeView::Dir
                        && !self@.dom().contains(additions@[a].path.deep_view()) && exists|j2: int|
                        1 <= j2 < j && additions@[a].path.deep_view() == #[trigger] to@.take(j2),
                forall|j2: int|
                    1 <= j2 < j && !self.dir_at(#[trigger] to@.take(j2)) ==> exists|a: int|
                        0 <= a < additions@.len() && (#[trigger] additions@[a].path.deep_view())
                            == to@.take(j2),
            decreases to@.len() - j,
        {
            let ghost prev_acc = acc.deep_view();
            acc.push(to.segments[j - 1].clone());
            proof {
                assert(acc.deep_view() =~~= prev_acc.push(to@[j - 1]));
                assert(to@.take(j as int) =~= to@.take(j - 1).push(to@[j - 1]));
            }
            match self.node_kind_segs(&acc) {
                NodeKind::RegularFile => {
                    return Err(FsError::InternalIo);
                },
                NodeKind::Missing => {
                    let ghost prev = additions@;
                    additions.push(FsEntry { path: clone_segments(&acc), node: FsNode::Dir });
                    proof {
                        let last = additions@.len() - 1;
                        assert(forall|a: int| 0 <= a < prev.len() ==> additions@[a] == prev[a]);
                        assert(additions@[last].path.deep_view() == to@.take(j as int));
                        assert forall|a: int, b: int|
                            0 <= a < b < additions@.len() implies (#[trigger] additions@[
                            a
                        ].path.deep_view()) != (#[trigger] additions@[b].path.deep_view()) by {
                            if b == last {
                                let j2 = choose|j2: int|
                                    1 <= j2 < j && additions@[a].path.deep_view() == (
                                    #[trigger] to@.take(j2));
                                assert(additions@[a].path.deep_view().len() == j2);
                                assert(additions@[b].path.deep_view().len() == j as int);
                            }
                        }
                    }
                },
                NodeKind::Directory => {
                },
                NodeKind::Other => {
                    proof {
                        assert(false);
                    }
                    return Err(FsError::InternalIo);
                },
            }
            j = j + 1;
        }
        proof {
            assert(self.ancestors_ok(to@));
            assert forall|a: int| 0 <= a < additions@.len() implies anc_addition(
                #[trigger] additions@[a],
                *self,
                to@,
            ) by {
                let j2 = choose|j2: int|
                    1 <= j2 < j && additions@[a].path.deep_view() == #[trigger] to@.take(j2);
                assert(1 <= j2 < to@.len() && additions@[a].path.deep_view() == to@.take(j2));
            }
        }
        Ok(additions)
    }

    /// The image of every node at or below `from`, re-rooted at `to`.
    fn subtree_images(&self, from: &ResolvedPath, to: &ResolvedPath) -> (imgs: Vec<FsEntry>)
        requires
            self.wf(),
            from@.len() >= 1,
            to@.len() >= 1,
        ensures
            keys_distinct(imgs@),
            forall|a: int| #![trigger imgs@[a]]
                0 <= a < imgs@.len() ==> image_addition(imgs@[a], *self, from@, to@),
            forall|i2: int|
                0 <= i2 < self.entries@.len() && from@.is_prefix_of(
                    (#[trigger] self.entries@[i2]).path.deep_view(),
                ) ==> exists|a: int|
                    0 <= a < imgs@.len() && (#[trigger] imgs@[a].path.deep_view()) == to@
                        + self.entries@[i2].path.deep_view().skip(from@.len() as int) && imgs@[
                        a
                    ].node@ == self.entries@[i2].node@,
    {
        let mut imgs: Vec<FsEntry> = Vec::new();
        let mut i: usize = 0;
        while i < self.entries.len()
            invariant
                i <= self.entries@.len(),
                self.wf(),
                from@ == from.segments.deep_view(),
                to@ == to.segments.deep_view(),
                from@.len() >= 1,
                to@.len() >= 1,
                keys_distinct(imgs@),
                forall|a: int| #![trigger imgs@[a]]
                    0 <= a < imgs@.len() ==> exists|i2: int|
                        0 <= i2 < i && from@.is_prefix_of(
                            (#[trigger] self.entries@[i2]).path.deep_view(),
                        ) && imgs@[a].path.deep_view() == to@ + self.entries@[
                            i2
                        ].path.deep_view().skip(from@.len() as int) && imgs@[a].node@
                            == self.entries@[i2].node@,
                forall|i2: int|
                    0 <= i2 < i && from@.is_prefix_of(
                        (#[trigger] self.entries@[i2]).path.deep_view(),
                    ) ==> exists|a: int|
                        0 <= a < imgs@.len() && (#[trigger] imgs@[a].path.deep_view()) == to@
                            + self.entries@[i2].path.deep_view().skip(from@.len() as int)
                            && imgs@[a].node@ == self.entries@[i2].node@,
            decreases self.entries@.len() - i,
        {
            let e = &self.entries[i];
            if is_path_prefix(&from.segments, &e.path) {
                let ghost prev = imgs@;
                imgs.push(
                    FsEntry {
                        path: rekey_path(&to.segments, from.segments.len(), &e.path),
                        node: clone_node(&e.node),
                    },
                );
                proof {
                    let last = imgs@.len() - 1;
                    let ki = self.entries@[i as int].path.deep_view();
                    assert(forall|a: int| 0 <= a < prev.len() ==> imgs@[a] == prev[a]);
                    assert(imgs@[last].path.deep_view() == to@ + ki.skip(from@.len() as int));
                    assert(imgs@[last].node@ == self.entries@[i as int].node@);
                    assert forall|a: int, b: int|
                        0 <= a < b < imgs@.len() implies (#[trigger] imgs@[a].path.deep_view())
                        != (#[trigger] imgs@[b].path.deep_view()) by {
                        if b == last {
                            let i2 = choose|i2: int|
                                0 <= i2 < i && from@.is_prefix_of(
                                    (#[trigger] self.entries@[i2]).path.deep_view(),
                                ) && prev[a].path.deep_view() == to@ + self.entries@[
                                    i2
                                ].path.deep_view().skip(from@.len() as int) && prev[a].node@
                                    == self.entries@[i2].node@;
                            let ko = self.entries@[i2].path.deep_view();
                            if prev[a].path.deep_view() == imgs@[last].path.deep_view() {
                                assert(ko.skip(from@.len() as int) =~= (to@ + ko.skip(
                                    from@.len() as int,
                                )).skip(to@.len() as int));
                                assert(ki.skip(from@.len() as int) =~= (to@ + ki.skip(
                                    from@.len() as int,
                                )).skip(to@.len() as int));
                                assert(ko =~= from@ + ko.skip(from@.len() as int));
                                assert(ki =~= from@ + ki.skip(from@.len() as int));
                                assert(false);
                            }
                        }
                    }
                }
            }
            i = i + 1;
        }
        proof {
            assert forall|a: int| 0 <= a < imgs@.len() implies image_addition(
                #[trigger] imgs@[a],
                *self,
                from@,
                to@,
            ) by {
                let i2 = choose|i2: int|
                    0 <= i2 < self.entries@.len() && from@.is_prefix_of(
                        (#[trigger] self.entries@[i2]).path.deep_view(),
                    ) && imgs@[a].path.deep_view() == to@ + self.entries@[
                        i2
                    ].path.deep_view().skip(from@.len() as int) && imgs@[a].node@ == self.entries@[
                        i2
                    ].node@;
            }
        }
        imgs
    }

    /// What holds of the table after a tree copy appended its additions:
    /// the old entries, then recreated ancestors and subtree images, with
    /// nothing at or below the destination beforehand.
    spec fn copy_tree_pre(
        self,
        pre: FsModel,
        from: Seq<Seq<char>>,
        to: Seq<Seq<char>>,
        adds: Seq<FsEntry>,
    ) -> bool {
        &&& pre.wf()
        &&& from.len() >= 1
        &&& to.len() >= 1
        &&& segs_are_plain(to)
        &&& pre.dir_at(from)
        &&& !pre.present(to)
        &&& !from.is_prefix_of(to)
        &&& pre.ancestors_ok(to)
        &&& self.entries@ == pre.entries@ + adds
        &&& keys_distinct(adds)
        &&& forall|a: int| #![trigger adds[a]]
            0 <= a < adds.len() ==> anc_addition(adds[a], pre, to) || image_addition(
                adds[a],
                pre,
                from,
                to,
            )
        &&& (forall|j2: int|
            1 <= j2 < to.len() && !pre.dir_at(#[trigger] to.take(j2)) ==> exists|a: int|
                0 <= a < adds.len() && (#[trigger] adds[a].path.deep_view()) == to.take(j2))
        &&& (forall|i2: int|
            0 <= i2 < pre.entries@.len() && from.is_prefix_of(
                (#[trigger] pre.entries@[i2]).path.deep_view(),
            ) ==> exists|a: int|
                0 <= a < adds.len() && (#[trigger] adds[a].path.deep_view()) == to + pre.entries@[
                    i2
                ].path.deep_view().skip(from.len() as int) && adds[a].node@ == pre.entries@[
                    i2
                ].node@)
    }

    /// What a finished tree copy means at the map level.
    spec fn copy_tree_post(
        self,
        pre: FsModel,
        from: Seq<Seq<char>>,
        to: Seq<Seq<char>>,
    ) -> bool {
        &&& forall|k: Seq<Seq<char>>| #[trigger]
            pre@.dom().contains(k) ==> self@.dom().contains(k) && self@[k] == pre@[k]
        &&& forall|s: Seq<Seq<char>>| #[trigger]
            pre@.dom().contains(from + s) ==> self@.dom().contains(to + s) && self@[to + s]
                == pre@[from + s]
        &&& (forall|j: int| 1 <= j <= to.len() ==> self.dir_at(#[trigger] to.take(j)))
        &&& forall|k: Seq<Seq<char>>| #[trigger]
            self@.dom().contains(k) ==> pre@.dom().contains(k) || (to.is_prefix_of(k)
                && pre@.dom().contains(from + k.skip(to.len() as int))) || (exists|j: int|
                1 <= j < to.len() && k == #[trigger] to.take(j))
    }

    /// A table extended with recreated ancestors and a re-rooted image of
    /// the source subtree denotes the copied tree and stays well-formed.
    proof fn lemma_copy_tree(
        self,
        pre: FsModel,
        from: Seq<Seq<char>>,
        to: Seq<Seq<char>>,
        adds: Seq<FsEntry>,
    )
        requires
            self.copy_tree_pre(pre, from, to, adds),
        ensures
            self.wf(),
            self.copy_tree_post(pre, from, to),
    {
        self.lemma_copy_tree_wf(pre, from, to, adds);
        self.lemma_copy_tree_maps(pre, from, to, adds);
        self.lemma_copy_tree_parents(pre, from, to, adds);
    }

    /// The extended table keeps its paths distinct, nonempty and plain.
    #[verifier::rlimit(60)]
    proof fn lemma_copy_tree_wf(
        self,
        pre: FsModel,
        from: Seq<Seq<char>>,
        to: Seq<Seq<char>>,
        adds: Seq<FsEntry>,
    )
        requires
            self.copy_tree_pre(pre, from, to, adds),
        ensures
            self.table_wf(),
    {
        let pn = pre.entries@.len() as int;
        pre.lemma_dest_clear(to);
        lemma_map_of_dom(pre.entries@);
        assert forall|a: int| 0 <= a < adds.len() implies !pre@.dom().contains(
            (#[trigger] adds[a]).path.deep_view(),
        ) by {
            if !anc_addition(adds[a], pre, to) {
                let i2 = choose|i2: int|
                    0 <= i2 < pre.entries@.len() && from.is_prefix_of(
                        (#[trigger] pre.entries@[i2]).path.deep_view(),
                    ) && adds[a].path.deep_view() == to + pre.entries@[i2].path.deep_view().skip(
                        from.len() as int,
                    ) && adds[a].node@ == pre.entries@[i2].node@;
                let key = adds[a].path.deep_view();
                assert(to.is_prefix_of(key)) by {
                    assert(to =~= key.subrange(0, to.len() as int));
                }
            }
        }
        assert forall|i: int, j: int| 0 <= i < j < self.entries@.len() implies (
        #[trigger] self.entries@[i].path.deep_view()) != (#[trigger] self.entries@[
            j
        ].path.deep_view()) by {
            if i < pn && pn <= j {
                lemma_map_of_index(pre.entries@, i);
                assert(self.entries@[j] == adds[j - pn]);
                assert(!pre@.dom().contains(adds[j - pn].path.deep_view()));
            } else if pn <= i {
                assert(self.entries@[i] == adds[i - pn]);
                assert(self.entries@[j] == adds[j - pn]);
            }
        }
        assert forall|j: int| 0 <= j < self.entries@.len() implies {
            let q = (#[trigger] self.entries@[j]).path.deep_view();
            q.len() >= 1 && segs_are_plain(q)
        } by {
            if j >= pn {
                let a = j - pn;
                assert(self.entries@[j] == adds[a]);
                let q = adds[a].path.deep_view();
                if anc_addition(adds[a], pre, to) {
                    let j2 = choose|j2: int|
                        1 <= j2 < to.len() && adds[a].path.deep_view() == #[trigger] to.take(j2);
                    assert forall|x: int| 0 <= x < q.len() implies crate::paths::seg_is_plain(
                        #[trigger] q[x],
                    ) by {
                        assert(q[x] == to[x]);
                    }
                } else {
                    let i2 = choose|i2: int|
                        0 <= i2 < pre.entries@.len() && from.is_prefix_of(
                            (#[trigger] pre.entries@[i2]).path.deep_view(),
                        ) && adds[a].path.deep_view() == to + pre.entries@[
                            i2
                        ].path.deep_view().skip(from.len() as int) && adds[a].node@
                            == pre.entries@[i2].node@;
                    let ko = pre.entries@[i2].path.deep_view();
                    assert forall|x: int| 0 <= x < q.len() implies crate::paths::seg_is_plain(
                        #[trigger] q[x],
                    ) by {
                        if x < to.len() {
                            assert(q[x] == to[x]);
                        } else {
                            assert(q[x] == ko[x - to.len() + from.len()]);
                        }
                    }
                }
            }
        }
    }

    /// The extended table denotes exactly the copied tree.
    proof fn lemma_copy_tree_maps(
        self,
        pre: FsModel,
        from: Seq<Seq<char>>,
        to: Seq<Seq<char>>,
        adds: Seq<FsEntry>,
    )
        requires
            self.copy_tree_pre(pre, from, to, adds),
            self.table_wf(),
        ensures
            self.copy_tree_post(pre, from, to),
    {
        self.lemma_copy_tree_keeps(pre, from, to, adds);
        self.lemma_copy_tree_images(pre, from, to, adds);
        self.lemma_copy_tree_dirs(pre, from, to, adds);
        self.lemma_copy_tree_complete(pre, from, to, adds);
    }

    /// Old nodes keep their place and value.
    #[verifier::rlimit(60)]
    proof fn lemma_copy_tree_keeps(
        self,
        pre: FsModel,
        from: Seq<Seq<char>>,
        to: Seq<Seq<char>>,
        adds: Seq<FsEntry>,
    )
        requires
            self.copy_tree_pre(pre, from, to, adds),
            self.table_wf(),
        ensures
            forall|k: Seq<Seq<char>>| #[trigger]
                pre@.dom().contains(k) ==> self@.dom().contains(k) && self@[k] == pre@[k],
    {
        lemma_map_of_dom(pre.entries@);
        assert forall|k: Seq<Seq<char>>| #[trigger]
            pre@.dom().contains(k) implies self@.dom().contains(k) && self@[k] == pre@[k] by {
            let i2 = choose|i2: int|
                0 <= i2 < pre.entries@.len() && (#[trigger] pre.entries@[i2].path.deep_view())
                    == k;
            assert(self.entries@[i2] == pre.entries@[i2]);
            lemma_map_of_index(self.entries@, i2);
            lemma_map_of_index(pre.entries@, i2);
        }
    }

    /// Every source node has its image, with the same value.
    #[verifier::spinoff_prover]
    proof fn lemma_copy_tree_images(
        self,
        pre: FsModel,
        from: Seq<Seq<char>>,
        to: Seq<Seq<char>>,
        adds: Seq<FsEntry>,
    )
        requires
            self.copy_tree_pre(pre, from, to, adds),
            self.table_wf(),
        ensures
            forall|s: Seq<Seq<char>>| #[trigger]
                pre@.dom().contains(from + s) ==> self@.dom().contains(to + s) && self@[to + s]
                    == pre@[from + s],
    {
        assert forall|s: Seq<Seq<char>>| #[trigger]
            pre@.dom().contains(from + s) implies self@.dom().contains(to + s) && self@[to + s]
            == pre@[from + s] by {
            self.lemma_copy_tree_image_one(pre, from, to, adds, s);
        }
    }

    /// One source node's image, with the same value.
    #[verifier::rlimit(60)]
    #[verifier::spinoff_prover]
    proof fn lemma_copy_tree_image_one(
        self,
        pre: FsModel,
        from: Seq<Seq<char>>,
        to: Seq<Seq<char>>,
        adds: Seq<FsEntry>,
        s: Seq<Seq<char>>,
    )
        requires
            self.copy_tree_pre(pre, from, to, adds),
            self.table_wf(),
            pre@.dom().contains(from + s),
        ensures
            self@.dom().contains(to + s),
            self@[to + s] == pre@[from + s],
    {
        let pn = pre.entries@.len() as int;
        lemma_map_of_dom(pre.entries@);
        let k = from + s;
        assert(from.is_prefix_of(k)) by {
            assert(from =~= k.subrange(0, from.len() as int));
        }
        let i2 = choose|i2: int|
            0 <= i2 < pre.entries@.len() && (#[trigger] pre.entries@[i2].path.deep_view()) == k;
        let a = choose|a: int|
            0 <= a < adds.len() && (#[trigger] adds[a].path.deep_view()) == to + pre.entries@[
                i2
            ].path.deep_view().skip(from.len() as int) && adds[a].node@ == pre.entries@[i2].node@;
        assert(k.skip(from.len() as int) =~= s);
        assert(self.entries@[pn + a] == adds[a]);
        lemma_map_of_index(self.entries@, pn + a);
        lemma_map_of_index(pre.entries@, i2);
    }

    /// Every ancestor of the destination is now a directory.
    #[verifier::rlimit(60)]
    proof fn lemma_copy_tree_dirs(
        self,
        pre: FsModel,
        from: Seq<Seq<char>>,
        to: Seq<Seq<char>>,
        adds: Seq<FsEntry>,
    )
        requires
            self.copy_tree_pre(pre, from, to, adds),
            self.table_wf(),
            forall|k: Seq<Seq<char>>| #[trigger]
                pre@.dom().contains(k) ==> self@.dom().contains(k) && self@[k] == pre@[k],
            forall|s: Seq<Seq<char>>| #[trigger]
                pre@.dom().contains(from + s) ==> self@.dom().contains(to + s) && self@[to + s]
                    == pre@[from + s],
        ensures
            forall|j: int| 1 <= j <= to.len() ==> self.dir_at(#[trigger] to.take(j)),
    {
        let pn = pre.entries@.len() as int;
        lemma_map_of_dom(pre.entries@);
        assert forall|j: int| 1 <= j <= to.len() implies self.dir_at(#[trigger] to.take(j)) by {
            if j == to.len() {
                assert(to.take(j) =~= to);
                assert(from + Seq::<Seq<char>>::empty() =~= from);
                assert(to + Seq::<Seq<char>>::empty() =~= to);
                assert(pre@.dom().contains(from + Seq::<Seq<char>>::empty()));
                assert(self@.dom().contains(to + Seq::<Seq<char>>::empty()));
                assert(self@.dom().contains(to) && self@[to] == pre@[from]);
            } else if pre.dir_at(to.take(j)) {
                assert(self@.dom().contains(to.take(j)) && self@[to.take(j)] == pre@[to.take(j)]);
            } else {
                let a = choose|a: int|
                    0 <= a < adds.len() && (#[trigger] adds[a].path.deep_view()) == to.take(j);
                assert(!image_addition(adds[a], pre, from, to)) by {
                    if image_addition(adds[a], pre, from, to) {
                        let i2 = choose|i2: int|
                            0 <= i2 < pre.entries@.len() && from.is_prefix_of(
                                (#[trigger] pre.entries@[i2]).path.deep_view(),
                            ) && adds[a].path.deep_view() == to + pre.entries@[
                                i2
                            ].path.deep_view().skip(from.len() as int) && adds[a].node@
                                == pre.entries@[i2].node@;
                        assert(adds[a].path.deep_view().len() >= to.len());
                        assert(to.take(j).len() == j);
                    }
                }
                assert(self.entries@[pn + a] == adds[a]);
                lemma_map_of_index(self.entries@, pn + a);
            }
        }
    }

    /// Nothing appeared beyond old nodes, images and recreated ancestors.
    #[verifier::rlimit(60)]
    proof fn lemma_copy_tree_complete(
        self,
        pre: FsModel,
        from: Seq<Seq<char>>,
        to: Seq<Seq<char>>,
        adds: Seq<FsEntry>,
    )
        requires
            self.copy_tree_pre(pre, from, to, adds),
            self.table_wf(),
        ensures
            forall|k: Seq<Seq<char>>| #[trigger]
                self@.dom().contains(k) ==> pre@.dom().contains(k) || (to.is_prefix_of(k)
                    && pre@.dom().contains(from + k.skip(to.len() as int))) || (exists|j: int|
                    1 <= j < to.len() && k == #[trigger] to.take(j)),
    {
        let pn = pre.entries@.len() as int;
        lemma_map_of_dom(self.entries@);
        assert forall|k: Seq<Seq<char>>| #[trigger]
            self@.dom().contains(k) implies pre@.dom().contains(k) || (to.is_prefix_of(k)
            && pre@.dom().contains(from + k.skip(to.len() as int))) || (exists|j: int|
            1 <= j < to.len() && k == #[trigger] to.take(j)) by {
            let j = choose|j: int|
                0 <= j < self.entries@.len() && (#[trigger] self.entries@[j].path.deep_view())
                    == k;
            if j >= pn {
                let a = j - pn;
                assert(self.entries@[j] == adds[a]);
                if !anc_addition(adds[a], pre, to) {
                    let i2 = choose|i2: int|
                        0 <= i2 < pre.entries@.len() && from.is_prefix_of(
                            (#[trigger] pre.entries@[i2]).path.deep_view(),
                        ) && adds[a].path.deep_view() == to + pre.entries@[
                            i2
                        ].path.deep_view().skip(from.len() as int) && adds[a].node@
                            == pre.entries@[i2].node@;
                    let ko = pre.entries@[i2].path.deep_view();
                    assert(to.is_prefix_of(k)) by {
                        assert(to =~= k.subrange(0, to.len() as int));
                    }
                    assert(from + k.skip(to.len() as int) =~= ko);
                    lemma_map_of_index(pre.entries@, i2);
                }
            } else {
                lemma_map_of_index(pre.entries@, j);
            }
        }
    }

    /// Every parent is still a present directory in the copied tree.
    proof fn lemma_copy_tree_parents(
        self,
        pre: FsModel,
        from: Seq<Seq<char>>,
        to: Seq<Seq<char>>,
        adds: Seq<FsEntry>,
    )
        requires
            self.copy_tree_pre(pre, from, to, adds),
            self.table_wf(),
            self.copy_tree_post(pre, from, to),
        ensures
            self.parents_present(),
    {
        assert forall|q: Seq<Seq<char>>|
            #[trigger] self@.dom().contains(q) && q.len() > 1 implies self@.dom().contains(
            q.drop_last(),
        ) && self@[q.drop_last()] == FsNodeView::Dir by {
            self.lemma_copy_tree_parent_one(pre, from, to, adds, q);
        }
    }

    /// One node's parent is a present directory in the copied tree.
    #[verifier::rlimit(60)]
    #[verifier::spinoff_prover]
    proof fn lemma_copy_tree_parent_one(
        self,
        pre: FsModel,
        from: Seq<Seq<char>>,
        to: Seq<Seq<char>>,
        adds: Seq<FsEntry>,
        q: Seq<Seq<char>>,
    )
        requires
            self.copy_tree_pre(pre, from, to, adds),
            self.table_wf(),
            self.copy_tree_post(pre, from, to),
            self@.dom().contains(q),
            q.len() > 1,
        ensures
            self@.dom().contains(q.drop_last()),
            self@[q.drop_last()] == FsNodeView::Dir,
    {
        {
            if pre@.dom().contains(q) {
                assert(pre@.dom().contains(q.drop_last()) && pre@[q.drop_last()]
                    == FsNodeView::Dir);
            } else if exists|j: int| 1 <= j < to.len() && q == #[trigger] to.take(j) {
                let j2 = choose|j2: int| 1 <= j2 < to.len() && q == #[trigger] to.take(j2);
                assert(q.len() == j2);
                assert(q.drop_last() =~= to.take(j2 - 1));
                assert(self.dir_at(to.take(j2 - 1)));
            } else {
                let s = q.skip(to.len() as int);
                assert(q =~= to + s);
                let src = from + s;
                assert(pre@.dom().contains(src));
                if s.len() >= 1 {
                    assert(src.len() > 1);
                    assert(pre@.dom().contains(src.drop_last()) && pre@[src.drop_last()]
                        == FsNodeView::Dir);
                    assert(src.drop_last() =~= from + s.drop_last());
                    assert(pre@.dom().contains(from + s.drop_last()));
                    assert(self@.dom().contains(to + s.drop_last()));
                    assert(to + s.drop_last() =~= q.drop_last());
                    assert(self@.dom().contains(q.drop_last()) && self@[q.drop_last()]
                        == pre@[src.drop_last()]);
                } else {
                    assert(q =~= to);
                    assert(to.len() > 1);
                    assert(q.drop_last() =~= to.take(to.len() - 1));
                    assert(self.dir_at(to.take(to.len() - 1)));
                }
            }
        }
    }

    pub fn rename(&mut self, from: &ResolvedPath, to: &ResolvedPath) -> (r: Result<(), FsError>)
        requires
            old(self).wf(),
            from.wf(),
            to.wf(),
            from@.len() >= 1,
            to@.len() >= 1,
        ensures
            final(self).wf(),
            r is Ok <==> old(self).present(from@) && !old(self).present(to@) && old(self).dir_at(
                to@.drop_last(),
            ) && !from@.is_prefix_of(to@),
            r matches Err(e) ==> final(self)@ == old(self)@ && e == (
            if !old(self).present(from@) {
                FsError::NotFound
            } else if old(self).present(to@) {
                FsError::AlreadyExists
            } else {
                FsError::InternalIo
            }),
            r is Ok ==> forall|k: Seq<Seq<char>>|
                old(self)@.dom().contains(k) && !from@.is_prefix_of(k)
                    ==> #[trigger] final(self)@.dom().contains(k)
                    && final(self)@[k] == old(self)@[k],
            r is Ok ==> forall|s: Seq<Seq<char>>|
                #[trigger] old(self)@.dom().contains(from@ + s) ==> final(self)@.dom().contains(
                    to@ + s,
                ) && final(self)@[to@ + s] == old(self)@[from@ + s],
            r is Ok ==> forall|k: Seq<Seq<char>>| #[trigger]
                final(self)@.dom().contains(k) ==> (old(self)@.dom().contains(k)
                    && !from@.is_prefix_of(k)) || (to@.is_prefix_of(k) && old(self)@.dom().contains(
                    from@ + k.skip(to@.len() as int),
                )),
    {
        let from_kind = self.node_kind(from);
        let to_kind = self.node_kind(to);
        let to_par = to.parent();
        let to_par_kind = self.node_kind(&to_par);
        let from_contains_to = is_path_prefix(&from.segments, &to.segments);
        match crate::plan::move_plan(from_kind, to_kind, to_par_kind, from_contains_to) {
            Err(e) => Err(e),
            Ok(()) => {
                let ghost pre = *self;
                let moved = self.entries_rekeyed(from, to);
                self.entries = moved;
                proof {
                    self.lemma_rebuild_rekeyed(pre, from@, to@);
                    assert forall|s: Seq<Seq<char>>| #[trigger]
                        pre@.dom().contains(from@ + s) implies self@.dom().contains(to@ + s)
                        && self@[to@ + s] == pre@[from@ + s] by {
                        self.lemma_rekeyed_image_one(pre, from@, to@, s);
                    }
                }
                Ok(())
            },
        }
    }

    /// The whole table with every path under `from` re-rooted at `to`,
    /// entry for entry.
    fn entries_rekeyed(&self, from: &ResolvedPath, to: &ResolvedPath) -> (moved: Vec<FsEntry>)
        ensures
            rekeyed_entries(moved@, self.entries@, from@, to@),
    {
        let mut moved: Vec<FsEntry> = Vec::new();
        let mut i: usize = 0;
        while i < self.entries.len()
            invariant
                i <= self.entries@.len(),
                moved@.len() == i,
                forall|j: int| #![trigger moved@[j]]
                    0 <= j < moved@.len() ==> moved@[j].node@ == self.entries@[j].node@ && moved@[
                        j
                    ].path.deep_view() == rekeyed_path(
                        self.entries@[j].path.deep_view(),
                        from@,
                        to@,
                    ),
            decreases self.entries@.len() - i,
        {
            let e = &self.entries[i];
            if is_path_prefix(&from.segments, &e.path) {
                moved.push(
                    FsEntry {
                        path: rekey_path(&to.segments, from.segments.len(), &e.path),
                        node: clone_node(&e.node),
                    },
                );
            } else {
                moved.push(FsEntry { path: clone_segments(&e.path), node: clone_node(&e.node) });
            }
            i = i + 1;
        }
        moved
    }

    /// A table whose paths under `from` were re-rooted at `to`, entry for
    /// entry, denotes the moved tree and is still well-formed.
    proof fn lemma_rebuild_rekeyed(self, pre: FsModel, from: Seq<Seq<char>>, to: Seq<Seq<char>>)
        requires
            pre.wf(),
            from.len() >= 1,
            to.len() >= 1,
            segs_are_plain(to),
            pre.present(from),
            !pre.present(to),
            pre.dir_at(to.drop_last()),
            !from.is_prefix_of(to),
            rekeyed_entries(self.entries@, pre.entries@, from, to),
        ensures
            self.wf(),
            forall|k: Seq<Seq<char>>|
                pre@.dom().contains(k) && !from.is_prefix_of(k) ==> #[trigger] self@.dom().contains(
                    k,
                ) && self@[k] == pre@[k],
            forall|k: Seq<Seq<char>>|
                pre@.dom().contains(k) && from.is_prefix_of(k) ==> #[trigger] self@.dom().contains(
                    to + k.skip(from.len() as int),
                ) && self@[to + k.skip(from.len() as int)] == pre@[k],
            forall|k: Seq<Seq<char>>| #[trigger]
                self@.dom().contains(k) ==> (pre@.dom().contains(k) && !from.is_prefix_of(k)) || (
                to.is_prefix_of(k) && pre@.dom().contains(from + k.skip(to.len() as int))),
    {
        pre.lemma_dest_clear(to);
        self.lemma_rekeyed_distinct(pre, from, to);
        self.lemma_rekeyed_maps(pre, from, to);
        self.lemma_rekeyed_parents(pre, from, to);
    }

    /// Nothing in a tree that lacks `to` sits at or below `to`.
    pub proof fn lemma_dest_clear(self, to: Seq<Seq<char>>)
        requires
            self.wf(),
            to.len() >= 1,
            !self.present(to),
        ensures
            forall|k: Seq<Seq<char>>| #[trigger]
                self@.dom().contains(k) ==> !to.is_prefix_of(k),
    {
        assert forall|k: Seq<Seq<char>>| #[trigger]
            self@.dom().contains(k) implies !to.is_prefix_of(k) by {
            if to.is_prefix_of(k) {
                self.lemma_ancestor_present(k, to.len() as int);
                assert(k.take(to.len() as int) =~= to);
            }
        }
    }

    /// Re-rooting keeps paths distinct and plain.
    #[verifier::rlimit(50)]
    proof fn lemma_rekeyed_distinct(self, pre: FsModel, from: Seq<Seq<char>>, to: Seq<Seq<char>>)
        requires
            pre.wf(),
            from.len() >= 1,
            to.len() >= 1,
            segs_are_plain(to),
            forall|k: Seq<Seq<char>>| #[trigger]
                pre@.dom().contains(k) ==> !to.is_prefix_of(k),
            rekeyed_entries(self.entries@, pre.entries@, from, to),
        ensures
            self.table_wf(),
    {
        assert forall|i: int, j: int| 0 <= i < j < self.entries@.len() implies (
        #[trigger] self.entries@[i].path.deep_view()) != (#[trigger] self.entries@[
            j
        ].path.deep_view()) by {
            let ki = pre.entries@[i].path.deep_view();
            let kj = pre.entries@[j].path.deep_view();
            lemma_map_of_index(pre.entries@, i);
            lemma_map_of_index(pre.entries@, j);
            if from.is_prefix_of(ki) && from.is_prefix_of(kj) {
                assert(ki =~= from + ki.skip(from.len() as int));
                assert(kj =~= from + kj.skip(from.len() as int));
                if to + ki.skip(from.len() as int) == to + kj.skip(from.len() as int) {
                    assert(ki.skip(from.len() as int) =~= (to + ki.skip(from.len() as int)).skip(
                        to.len() as int,
                    ));
                    assert(kj.skip(from.len() as int) =~= (to + kj.skip(from.len() as int)).skip(
                        to.len() as int,
                    ));
                    assert(ki == kj);
                }
            } else if from.is_prefix_of(ki) && !from.is_prefix_of(kj) {
                if kj == to + ki.skip(from.len() as int) {
                    assert(to.is_prefix_of(kj)) by {
                        assert(to =~= kj.subrange(0, to.len() as int));
                    }
                }
            } else if !from.is_prefix_of(ki) && from.is_prefix_of(kj) {
                if ki == to + kj.skip(from.len() as int) {
                    assert(to.is_prefix_of(ki)) by {
                        assert(to =~= ki.subrange(0, to.len() as int));
                    }
                }
            }
        }
        assert forall|j: int| 0 <= j < self.entries@.len() implies {
            let q = (#[trigger] self.entries@[j]).path.deep_view();
            q.len() >= 1 && segs_are_plain(q)
        } by {
            let k = pre.entries@[j].path.deep_view();
            if from.is_prefix_of(k) {
                let q = to + k.skip(from.len() as int);
                assert forall|x: int| 0 <= x < q.len() implies crate::paths::seg_is_plain(
                    #[trigger] q[x],
                ) by {
                    if x < to.len() {
                        assert(q[x] == to[x]);
                    } else {
                        assert(q[x] == k[x - to.len() + from.len()]);
                    }
                }
            }
        }
    }

    /// Re-rooting moves the denoted map exactly: old nodes outside the
    /// subtree stay, nodes below `from` reappear below `to`, and nothing
    /// else appears.
    #[verifier::rlimit(100)]
    #[verifier::spinoff_prover]
    proof fn lemma_rekeyed_maps(self, pre: FsModel, from: Seq<Seq<char>>, to: Seq<Seq<char>>)
        requires
            pre.wf(),
            from.len() >= 1,
            to.len() >= 1,
            self.table_wf(),
            rekeyed_entries(self.entries@, pre.entries@, from, to),
        ensures
            forall|k: Seq<Seq<char>>|
                pre@.dom().contains(k) && !from.is_prefix_of(k) ==> #[trigger] self@.dom().contains(
                    k,
                ) && self@[k] == pre@[k],
            forall|k: Seq<Seq<char>>|
                pre@.dom().contains(k) && from.is_prefix_of(k) ==> #[trigger] self@.dom().contains(
                    to + k.skip(from.len() as int),
                ) && self@[to + k.skip(from.len() as int)] == pre@[k],
            forall|k: Seq<Seq<char>>| #[trigger]
                self@.dom().contains(k) ==> (pre@.dom().contains(k) && !from.is_prefix_of(k)) || (
                to.is_prefix_of(k) && pre@.dom().contains(from + k.skip(to.len() as int))),
    {
        lemma_map_of_dom(self.entries@);
        lemma_map_of_dom(pre.entries@);
        assert forall|k: Seq<Seq<char>>|
            pre@.dom().contains(k) && !from.is_prefix_of(k) implies #[trigger] self@.dom().contains(
            k,
        ) && self@[k] == pre@[k] by {
            let j = choose|j: int|
                0 <= j < pre.entries@.len() && (#[trigger] pre.entries@[j].path.deep_view()) == k;
            assert(self.entries@[j].path.deep_view() == k);
            lemma_map_of_index(self.entries@, j);
            lemma_map_of_index(pre.entries@, j);
        }
        assert forall|k: Seq<Seq<char>>|
            pre@.dom().contains(k) && from.is_prefix_of(k) implies #[trigger] self@.dom().contains(
            to + k.skip(from.len() as int),
        ) && self@[to + k.skip(from.len() as int)] == pre@[k] by {
            let j = choose|j: int|
                0 <= j < pre.entries@.len() && (#[trigger] pre.entries@[j].path.deep_view()) == k;
            assert(self.entries@[j].path.deep_view() == to + k.skip(from.len() as int));
            lemma_map_of_index(self.entries@, j);
            lemma_map_of_index(pre.entries@, j);
        }
        assert forall|k: Seq<Seq<char>>| #[trigger]
            self@.dom().contains(k) implies (pre@.dom().contains(k) && !from.is_prefix_of(k)) || (
        to.is_prefix_of(k) && pre@.dom().contains(from + k.skip(to.len() as int))) by {
            let j = choose|j: int|
                0 <= j < self.entries@.len() && (#[trigger] self.entries@[j].path.deep_view())
                    == k;
            let ko = pre.entries@[j].path.deep_view();
            lemma_map_of_index(pre.entries@, j);
            if from.is_prefix_of(ko) {
                assert(k == to + ko.skip(from.len() as int));
                assert(to.is_prefix_of(k)) by {
                    assert(to =~= k.subrange(0, to.len() as int));
                }
                assert(from + k.skip(to.len() as int) =~= ko);
            }
        }
    }

    /// The image of one source node, reached through the moved map.
    #[verifier::rlimit(60)]
    #[verifier::spinoff_prover]
    proof fn lemma_rekeyed_image_one(
        self,
        pre: FsModel,
        from: Seq<Seq<char>>,
        to: Seq<Seq<char>>,
        s: Seq<Seq<char>>,
    )
        requires
            pre@.dom().contains(from + s),
            forall|k: Seq<Seq<char>>|
                pre@.dom().contains(k) && from.is_prefix_of(k) ==> #[trigger] self@.dom().contains(
                    to + k.skip(from.len() as int),
                ) && self@[to + k.skip(from.len() as int)] == pre@[k],
        ensures
            self@.dom().contains(to + s),
            self@[to + s] == pre@[from + s],
    {
        let k = from + s;
        assert(from.is_prefix_of(k)) by {
            assert(from =~= k.subrange(0, from.len() as int));
        }
        assert(self@.dom().contains(to + k.skip(from.len() as int)) && self@[to + k.skip(
            from.len() as int,
        )] == pre@[k]);
        assert(k.skip(from.len() as int) =~= s);
    }

    /// Re-rooting keeps every parent present: inner nodes move with their
    /// parents, and the subtree root hangs off the destination's parent.
    proof fn lemma_rekeyed_parents(self, pre: FsModel, from: Seq<Seq<char>>, to: Seq<Seq<char>>)
        requires
            pre.wf(),
            from.len() >= 1,
            to.len() >= 1,
            pre.dir_at(to.drop_last()),
            !from.is_prefix_of(to),
            self.table_wf(),
            rekeyed_entries(self.entries@, pre.entries@, from, to),
            forall|k: Seq<Seq<char>>|
                pre@.dom().contains(k) && !from.is_prefix_of(k) ==> #[trigger] self@.dom().contains(
                    k,
                ) && self@[k] == pre@[k],
            forall|k: Seq<Seq<char>>|
                pre@.dom().contains(k) && from.is_prefix_of(k) ==> #[trigger] self@.dom().contains(
                    to + k.skip(from.len() as int),
                ) && self@[to + k.skip(from.len() as int)] == pre@[k],
        ensures
            self.parents_present(),
    {
        assert forall|q: Seq<Seq<char>>|
            #[trigger] self@.dom().contains(q) && q.len() > 1 implies self@.dom().contains(
            q.drop_last(),
        ) && self@[q.drop_last()] == FsNodeView::Dir by {
            self.lemma_rekeyed_parent_one(pre, from, to, q);
        }
    }

    /// One moved node's parent is a present directory.
    #[verifier::rlimit(60)]
    #[verifier::spinoff_prover]
    proof fn lemma_rekeyed_parent_one(
        self,
        pre: FsModel,
        from: Seq<Seq<char>>,
        to: Seq<Seq<char>>,
        q: Seq<Seq<char>>,
    )
        requires
            pre.wf(),
            from.len() >= 1,
            to.len() >= 1,
            pre.dir_at(to.drop_last()),
            !from.is_prefix_of(to),
            self.table_wf(),
            rekeyed_entries(self.entries@, pre.entries@, from, to),
            forall|k: Seq<Seq<char>>|
                pre@.dom().contains(k) && !from.is_prefix_of(k) ==> #[trigger] self@.dom().contains(
                    k,
                ) && self@[k] == pre@[k],
            forall|k: Seq<Seq<char>>|
                pre@.dom().contains(k) && from.is_prefix_of(k) ==> #[trigger] self@.dom().contains(
                    to + k.skip(from.len() as int),
                ) && self@[to + k.skip(from.len() as int)] == pre@[k],
            self@.dom().contains(q),
            q.len() > 1,
        ensures
            self@.dom().contains(q.drop_last()),
            self@[q.drop_last()] == FsNodeView::Dir,
    {
        lemma_map_of_dom(self.entries@);
        {
            let j = choose|j: int|
                0 <= j < self.entries@.len() && (#[trigger] self.entries@[j].path.deep_view())
                    == q;
            let ko = pre.entries@[j].path.deep_view();
            lemma_map_of_index(pre.entries@, j);
            if from.is_prefix_of(ko) {
                assert(q == to + ko.skip(from.len() as int));
                if ko.len() > from.len() {
                    assert(ko.len() > 1);
                    assert(pre@.dom().contains(ko.drop_last()) && pre@[ko.drop_last()]
                        == FsNodeView::Dir);
                    assert(from.is_prefix_of(ko.drop_last())) by {
                        assert(from =~= ko.drop_last().subrange(0, from.len() as int));
                    }
                    assert(to + ko.drop_last().skip(from.len() as int) =~= q.drop_last());
                } else {
                    assert(ko =~= from);
                    assert(q =~= to);
                    assert(to.len() > 1);
                    assert(pre@.dom().contains(to.drop_last()) && pre@[to.drop_last()]
                        == FsNodeView::Dir);
                    assert(!from.is_prefix_of(to.drop_last())) by {
                        if from.is_prefix_of(to.drop_last()) {
                            lemma_prefix_extends(from, to);
                        }
                    }
                }
            } else {
                assert(q == ko);
                assert(pre@.dom().contains(q.drop_last()) && pre@[q.drop_last()]
                    == FsNodeView::Dir);
                assert(!from.is_prefix_of(q.drop_last())) by {
                    if from.is_prefix_of(q.drop_last()) {
                        lemma_prefix_extends(from, q);
                    }
                }
            }
        }
    }

    /// Removes the directory at `p` together with everything below it.
    /// Anything else there — nothing, or a file — is `NotFound`. Deletion
    /// is immediate and irreversible: there are no trash semantics.
    pub fn remove_dir_all(&mut self, p: &ResolvedPath) -> (r: Result<(), FsError>)
        requires
            old(self).wf(),
            p@.len() >= 1,
        ensures
            final(self).wf(),
            r is Ok <==> old(self).dir_at(p@),
            r matches Err(e) ==> final(self)@ == old(self)@ && e == FsError::NotFound,
            r is Ok ==> forall|k: Seq<Seq<char>>|
                old(self)@.dom().contains(k) && !p@.is_prefix_of(k)
                    ==> #[trigger] final(self)@.dom().contains(k) && final(self)@[k] == old(
                    self,
                )@[k],
            r is Ok ==> forall|k: Seq<Seq<char>>| #[trigger]
                final(self)@.dom().contains(k) ==> old(self)@.dom().contains(k)
                    && !p@.is_prefix_of(k),
    {
        let target = self.node_kind(p);
        match crate::plan::rmdir_plan(target) {
            Err(e) => Err(e),
            Ok(()) => {
                let ghost pre = *self;
                let kept = self.entries_outside(p);
                self.entries = kept;
                proof {
                    self.lemma_rebuild_outside(pre, p@);
                }
                Ok(())
            },
        }
    }

    /// Copies of all entries whose path does not extend `p`.
    #[verifier::rlimit(50)]
    fn entries_outside(&self, p: &ResolvedPath) -> (kept: Vec<FsEntry>)
        requires
            self.wf(),
        ensures
            keys_distinct(kept@),
            forall|j: int| #![trigger kept@[j]]
                0 <= j < kept@.len() ==> !p@.is_prefix_of(kept@[j].path.deep_view())
                    && exists|j2: int| #![trigger self.entries@[j2]]
                    0 <= j2 < self.entries@.len() && entry_matches(kept@[j], self.entries@[j2]),
            forall|j2: int| #![trigger self.entries@[j2]]
                0 <= j2 < self.entries@.len() && !p@.is_prefix_of(
                    self.entries@[j2].path.deep_view(),
                ) ==> exists|j: int| #![trigger kept@[j]]
                    0 <= j < kept@.len() && entry_matches(kept@[j], self.entries@[j2]),
    {
        let mut kept: Vec<FsEntry> = Vec::new();
        let mut i: usize = 0;
        while i < self.entries.len()
            invariant
                i <= self.entries@.len(),
                self.wf(),
                keys_distinct(kept@),
                forall|j: int| #![trigger kept@[j]]
                    0 <= j < kept@.len() ==> !p@.is_prefix_of(kept@[j].path.deep_view())
                        && exists|j2: int| #![trigger self.entries@[j2]]
                        0 <= j2 < i && entry_matches(kept@[j], self.entries@[j2]),
                forall|j2: int| #![trigger self.entries@[j2]]
                    0 <= j2 < i && !p@.is_prefix_of(self.entries@[j2].path.deep_view())
                        ==> exists|j: int| #![trigger kept@[j]]
                        0 <= j < kept@.len() && entry_matches(kept@[j], self.entries@[j2]),
            decreases self.entries@.len() - i,
        {
            let e = &self.entries[i];
            if !is_path_prefix(&p.segments, &e.path) {
                let ghost prev = kept@;
                kept.push(FsEntry { path: clone_segments(&e.path), node: clone_node(&e.node) });
                proof {
                    let last = kept@.len() - 1;
                    assert(forall|j: int| 0 <= j < prev.len() ==> kept@[j] == prev[j]);
                    assert(entry_matches(kept@[last], self.entries@[i as int]));
                    assert forall|j: int, j_b: int| 0 <= j < j_b < kept@.len() implies (
                    #[trigger] kept@[j].path.deep_view()) != (#[trigger] kept@[
                        j_b
                    ].path.deep_view()) by {
                        if j_b == last {
                            let j2 = choose|j2: int| #![trigger self.entries@[j2]]
                                0 <= j2 < i && entry_matches(prev[j], self.entries@[j2]);
                            assert(self.entries@[j2].path.deep_view() != self.entries@[
                                i as int
                            ].path.deep_view());
                        }
                    }
                }
            }
            i = i + 1;
        }
        kept
    }

    /// The rebuilt table holds exactly the old nodes outside the removed subtree
    /// and still denotes a well-formed tree.
    #[verifier::rlimit(100)]
    #[verifier::spinoff_prover]
    proof fn lemma_rebuild_outside(self, pre: FsModel, p: Seq<Seq<char>>)
        requires
            pre.wf(),
            p.len() >= 1,
            keys_distinct(self.entries@),
            forall|j: int| #![trigger self.entries@[j]]
                0 <= j < self.entries@.len() ==> !p.is_prefix_of(
                    self.entries@[j].path.deep_view(),
                ) && exists|j2: int| #![trigger pre.entries@[j2]]
                    0 <= j2 < pre.entries@.len() && entry_matches(
                        self.entries@[j],
                        pre.entries@[j2],
                    ),
            forall|j2: int| #![trigger pre.entries@[j2]]
                0 <= j2 < pre.entries@.len() && !p.is_prefix_of(
                    pre.entries@[j2].path.deep_view(),
                ) ==> exists|j: int| #![trigger self.entries@[j]]
                    0 <= j < self.entries@.len() && entry_matches(
                        self.entries@[j],
                        pre.entries@[j2],
                    ),
        ensures
            self.wf(),
            forall|k: Seq<Seq<char>>|
                pre@.dom().contains(k) && !p.is_prefix_of(k) ==> #[trigger] self@.dom().contains(
                    k,
                ) && self@[k] == pre@[k],
            forall|k: Seq<Seq<char>>| #[trigger]
                self@.dom().contains(k) ==> pre@.dom().contains(k) && !p.is_prefix_of(k),
    {
        lemma_map_of_dom(self.entries@);
        lemma_map_of_dom(pre.entries@);
        assert forall|k: Seq<Seq<char>>|
            pre@.dom().contains(k) && !p.is_prefix_of(k) implies #[trigger] self@.dom().contains(
            k,
        ) && self@[k] == pre@[k] by {
            let j2 = choose|j2: int|
                0 <= j2 < pre.entries@.len() && (#[trigger] pre.entries@[j2].path.deep_view())
                    == k;
            assert(0 <= j2 < pre.entries@.len() && !p.is_prefix_of(
                pre.entries@[j2].path.deep_view(),
            ));
            let j = choose|j: int| #![trigger self.entries@[j]]
                0 <= j < self.entries@.len() && entry_matches(self.entries@[j], pre.entries@[j2]);
            lemma_map_of_index(self.entries@, j);
            lemma_map_of_index(pre.entries@, j2);
        }
        assert forall|k: Seq<Seq<char>>| #[trigger]
            self@.dom().contains(k) implies pre@.dom().contains(k) && !p.is_prefix_of(k) by {
            let j = choose|j: int|
                0 <= j < self.entries@.len() && (#[trigger] self.entries@[j].path.deep_view())
                    == k;
            let j2 = choose|j2: int| #![trigger pre.entries@[j2]]
                0 <= j2 < pre.entries@.len() && entry_matches(self.entries@[j], pre.entries@[j2]);
            lemma_map_of_index(self.entries@, j);
            lemma_map_of_index(pre.entries@, j2);
        }
        assert forall|j: int| 0 <= j < self.entries@.len() implies {
            let q = (#[trigger] self.entries@[j]).path.deep_view();
            q.len() >= 1 && segs_are_plain(q)
        } by {
            let j2 = choose|j2: int| #![trigger pre.entries@[j2]]
                0 <= j2 < pre.entries@.len() && entry_matches(self.entries@[j], pre.entries@[j2]);
        }
        assert forall|q: Seq<Seq<char>>|
            #[trigger] self@.dom().contains(q) && q.len() > 1 implies self@.dom().contains(
            q.drop_last(),
        ) && self@[q.drop_last()] == FsNodeView::Dir by {
            self.lemma_outside_parent_one(pre, p, q);
        }
    }

    /// One kept node's parent was kept too, and is still a directory.
    #[verifier::rlimit(60)]
    #[verifier::spinoff_prover]
    proof fn lemma_outside_parent_one(
        self,
        pre: FsModel,
        p: Seq<Seq<char>>,
        q: Seq<Seq<char>>,
    )
        requires
            pre.wf(),
            p.len() >= 1,
            self@.dom().contains(q),
            q.len() > 1,
            forall|k: Seq<Seq<char>>|
                pre@.dom().contains(k) && !p.is_prefix_of(k) ==> #[trigger] self@.dom().contains(
                    k,
                ) && self@[k] == pre@[k],
            forall|k: Seq<Seq<char>>| #[trigger]
                self@.dom().contains(k) ==> pre@.dom().contains(k) && !p.is_prefix_of(k),
        ensures
            self@.dom().contains(q.drop_last()),
            self@[q.drop_last()] == FsNodeView::Dir,
    {
        assert(pre@.dom().contains(q) && !p.is_prefix_of(q));
        assert(pre@.dom().contains(q.drop_last()) && pre@[q.drop_last()] == FsNodeView::Dir);
        assert(!p.is_prefix_of(q.drop_last())) by {
            if p.is_prefix_of(q.drop_last()) {
                lemma_prefix_extends(p, q);
            }
        }
    }
}

/// The destination path of one node of a moved or copied subtree: the
/// destination root followed by the node's path below the source root.
fn rekey_path(to: &Vec<String>, from_len: usize, path: &Vec<String>) -> (r: Vec<String>)
    requires
        from_len <= path@.len(),
    ensures
        r.deep_view() == to.deep_view() + path.deep_view().skip(from_len as int),
{
    let mut r = clone_segments(to);
    let ghost base = to.deep_view();
    proof {
        assert(base + path.deep_view().subrange(from_len as int, from_len as int) =~~= base);
    }
    let mut i: usize = from_len;
    while i < path.len()
        invariant
            from_len <= i <= path@.len(),
            r.deep_view() == base + path.deep_view().subrange(from_len as int, i as int),
            base == to.deep_view(),
        decreases path@.len() - i,
    {
        let ghost prev = r.deep_view();
        r.push(path[i].clone());
        proof {
            assert(r.deep_view() =~~= prev.push(path.deep_view()[i as int]));
            assert(r.deep_view() =~~= base + path.deep_view().subrange(from_len as int, i + 1));
        }
        i = i + 1;
    }
    proof {
        assert(base + path.deep_view().subrange(from_len as int, path@.len() as int) =~~= base
            + path.deep_view().skip(from_len as int));
    }
    r
}

/// A copy of a byte vector.
pub(crate) fn clone_bytes(b: &Vec<u8>) -> (r: Vec<u8>)
    ensures
        r@ == b@,
{
    slice_to_vec(b.as_slice())
}

/// A copy of a node.
fn clone_node(n: &FsNode) -> (r: FsNode)
    ensures
        r@ == n@,
{
    match n {
        FsNode::Dir => FsNode::Dir,
        FsNode::File(bytes) => FsNode::File(clone_bytes(bytes)),
    }
}

/// Recreated-ancestor entries and subtree-image entries never collide:
/// every ancestor path is shorter than the destination, every image path
/// at least as long.
proof fn lemma_anc_img_distinct(
    ancs: Seq<FsEntry>,
    imgs: Seq<FsEntry>,
    pre: FsModel,
    from: Seq<Seq<char>>,
    to: Seq<Seq<char>>,
)
    requires
        keys_distinct(ancs),
        keys_distinct(imgs),
        from.len() >= 1,
        to.len() >= 1,
        forall|a: int| #![trigger ancs[a]]
            0 <= a < ancs.len() ==> anc_addition(ancs[a], pre, to),
        forall|a: int| #![trigger imgs[a]]
            0 <= a < imgs.len() ==> image_addition(imgs[a], pre, from, to),
    ensures
        keys_distinct(ancs + imgs),
{
    let all = ancs + imgs;
    assert forall|i: int, j: int| 0 <= i < j < all.len() implies (#[trigger] all[
        i
    ].path.deep_view()) != (#[trigger] all[j].path.deep_view()) by {
        if j < ancs.len() {
            assert(all[i] == ancs[i]);
            assert(all[j] == ancs[j]);
        } else if i >= ancs.len() {
            assert(all[i] == imgs[i - ancs.len()]);
            assert(all[j] == imgs[j - ancs.len()]);
        } else {
            assert(all[i] == ancs[i]);
            assert(all[j] == imgs[j - ancs.len()]);
            let j2 = choose|j2: int|
                1 <= j2 < to.len() && ancs[i].path.deep_view() == #[trigger] to.take(j2);
            let i2 = choose|i2: int|
                0 <= i2 < pre.entries@.len() && from.is_prefix_of(
                    (#[trigger] pre.entries@[i2]).path.deep_view(),
                ) && imgs[j - ancs.len()].path.deep_view() == to + pre.entries@[
                    i2
                ].path.deep_view().skip(from.len() as int) && imgs[j - ancs.len()].node@
                    == pre.entries@[i2].node@;
            assert(ancs[i].path.deep_view().len() == j2);
            assert(imgs[j - ancs.len()].path.deep_view().len() >= to.len());
        }
    }
}

/// A prefix of a path's parent is a prefix of the path.
pub proof fn lemma_prefix_extends(a: Seq<Seq<char>>, b: Seq<Seq<char>>)
    requires
        b.len() >= 1,
        a.is_prefix_of(b.drop_last()),
    ensures
        a.is_prefix_of(b),
{
    assert(a =~= b.subrange(0, a.len() as int));
}

/// Segment-list equality.
pub fn path_eq(a: &Vec<String>, b: &Vec<String>) -> (r: bool)
    ensures
        r == (a.deep_view() == b.deep_view()),
{
    if a.len() != b.len() {
        proof {
            assert(a.deep_view().len() == a@.len());
            assert(b.deep_view().len() == b@.len());
        }
        return false;
    }
    let mut i: usize = 0;
    while i < a.len()
        invariant
            i <= a.len(),
            a@.len() == b@.len(),
            forall|j: int| 0 <= j < i ==> (#[trigger] a.deep_view()[j]) == b.deep_view()[j],
        decreases a.len() - i,
    {
        if !(a[i] == b[i]) {
            proof {
                assert(a.deep_view()[i as int] == a@[i as int]@);
                assert(b.deep_view()[i as int] == b@[i as int]@);
            }
            return false;
        }
        i = i + 1;
    }
    proof {
        assert(a.deep_view() =~= b.deep_view());
    }
    true
}

/// Is `a` a segment-wise prefix of `b`?
pub fn is_path_prefix(a: &Vec<String>, b: &Vec<String>) -> (r: bool)
    ensures
        r == a.deep_view().is_prefix_of(b.deep_view()),
{
    if b.len() < a.len() {
        return false;
    }
    let mut i: usize = 0;
    while i < a.len()
        invariant
            i <= a.len() <= b.len(),
            a@.len() <= b@.len(),
            forall|j: int| 0 <= j < i ==> (#[trigger] a.deep_view()[j]) == b.deep_view()[j],
        decreases a.len() - i,
    {
        if !(a[i] == b[i]) {
            proof {
                assert(b.deep_view().subrange(0, a.deep_view().len() as int)[i as int]
                    == b.deep_view()[i as int]);
            }
            return false;
        }
        i = i + 1;
    }
    proof {
        assert(a.deep_view() =~= b.deep_view().subrange(0, a.deep_view().len() as int));
    }
    true
}

} // verus!
