//! The crate-level guarantees that tie several operations together,
//! stated once and proved for every tree, path and payload.

use vstd::prelude::*;

use crate::fs_model::{child_info_ok, is_child_of, FsModel, FsNodeView};
use crate::types::FileInfo;
use crate::transfer::{concat_chunks, DownloadStream, UploadBody};

verus! {

/// Law: a body uploaded whole and then downloaded from the same path
/// comes back byte-identical, however differently the two sides cut it
/// into chunks; and any listing record for that file reports exactly its
/// byte count.
pub proof fn lemma_upload_then_download(
    pre: FsModel,
    mid: FsModel,
    p: Seq<Seq<char>>,
    body: UploadBody,
    out: DownloadStream,
)
    requires
        p.len() >= 1,
        !body.truncated,
        mid@ == pre@.insert(p, FsNodeView::File(concat_chunks(body.chunks.deep_view()))),
        concat_chunks(out.chunks.deep_view()) == mid.file_content(p),
    ensures
        concat_chunks(out.chunks.deep_view()) == concat_chunks(body.chunks.deep_view()),
        forall|info: FileInfo|
            child_info_ok(mid, p.drop_last(), info) && info.name@ == p.last()
                ==> #[trigger] info.size as nat == concat_chunks(body.chunks.deep_view()).len(),
{
    assert forall|info: FileInfo|
        child_info_ok(mid, p.drop_last(), info) && info.name@ == p.last() implies #[trigger]
        info.size as nat == concat_chunks(body.chunks.deep_view()).len() by {
        assert(p.drop_last().push(info.name@) =~= p);
    }
}

/// Law: listing a directory that has no children yields the empty
/// listing, not an error record: every listed entry names an existing
/// child, so where there is none, nothing is listed.
pub proof fn lemma_list_empty_dir(m: FsModel, p: Seq<Seq<char>>, files: Seq<FileInfo>)
    requires
        forall|i: int| 0 <= i < files.len() ==> child_info_ok(m, p, #[trigger] files[i]),
        forall|k: Seq<Seq<char>>| !(#[trigger] m@.dom().contains(k) && is_child_of(k, p)),
    ensures
        files.len() == 0,
{
    if files.len() > 0 {
        assert(child_info_ok(m, p, files[0]));
        let k = p.push(files[0].name@);
        assert(m@.dom().contains(k));
        assert(p.is_prefix_of(k)) by {
            assert(p =~= k.subrange(0, p.len() as int));
        }
        assert(is_child_of(k, p));
    }
}

/// Law: a completed directory copy reproduces the source subtree at the
/// destination node for node, bytes for bytes — a node exists below the
/// destination exactly when the same node exists below the source, with
/// the same content — and every node the tree held before, the source
/// subtree included, is still there unchanged.
pub proof fn lemma_copy_reproduces_tree(
    pre: FsModel,
    post: FsModel,
    from: Seq<Seq<char>>,
    to: Seq<Seq<char>>,
)
    requires
        pre.wf(),
        to.len() >= 1,
        !pre.present(to),
        forall|k: Seq<Seq<char>>| #[trigger]
            pre@.dom().contains(k) ==> post@.dom().contains(k) && post@[k] == pre@[k],
        forall|s: Seq<Seq<char>>| #[trigger]
            pre@.dom().contains(from + s) ==> post@.dom().contains(to + s) && post@[to + s]
                == pre@[from + s],
        forall|k: Seq<Seq<char>>| #[trigger]
            post@.dom().contains(k) ==> pre@.dom().contains(k) || (to.is_prefix_of(k)
                && pre@.dom().contains(from + k.skip(to.len() as int))) || (exists|j: int|
                1 <= j < to.len() && k == #[trigger] to.take(j)),
    ensures
        forall|k: Seq<Seq<char>>| #[trigger]
            pre@.dom().contains(k) ==> post@.dom().contains(k) && post@[k] == pre@[k],
        forall|s: Seq<Seq<char>>|
            #[trigger] post@.dom().contains(to + s) <==> pre@.dom().contains(from + s),
        forall|s: Seq<Seq<char>>| #[trigger]
            post@.dom().contains(to + s) ==> post@[to + s] == pre@[from + s],
{
    pre.lemma_dest_clear(to);
    assert forall|s: Seq<Seq<char>>| #[trigger]
        post@.dom().contains(to + s) implies pre@.dom().contains(from + s) by {
        let k = to + s;
        assert(to.is_prefix_of(k)) by {
            assert(to =~= k.subrange(0, to.len() as int));
        }
        assert(!pre@.dom().contains(k));
        assert(!(exists|j: int| 1 <= j < to.len() && k == #[trigger] to.take(j))) by {
            if exists|j: int| 1 <= j < to.len() && k == #[trigger] to.take(j) {
                let j = choose|j: int| 1 <= j < to.len() && k == #[trigger] to.take(j);
                assert(k.len() == j);
            }
        }
        assert(k.skip(to.len() as int) =~= s);
    }
}

} // verus!
