//! Chunked byte transfer: the shape of an upload body and a download
//! stream.
//!
//! A payload crosses the wire as a finite sequence of byte chunks; what it
//! means is their concatenation. An upload that broke off mid-stream is a
//! truncated body: its chunks must not reach the tree. A download hands
//! the file back in bounded chunks, never materializing more than one at
//! a time beyond the stored bytes themselves.

use vstd::prelude::*;
use vstd::slice::{slice_subrange, slice_to_vec};

verus! {

/// The most bytes a single download chunk carries.
pub const CHUNK_SIZE: usize = 65536;

/// The bytes a sequence of chunks carries, in order.
pub open spec fn concat_chunks(chunks: Seq<Seq<u8>>) -> Seq<u8>
    decreases chunks.len(),
{
    if chunks.len() == 0 {
        Seq::empty()
    } else {
        concat_chunks(chunks.drop_last()) + chunks.last()
    }
}

/// An inbound upload payload: the chunks that arrived, and whether the
/// stream broke off before the sender finished.
pub struct UploadBody {
    pub chunks: Vec<Vec<u8>>,
    pub truncated: bool,
}

/// An outbound download payload: the file's bytes in bounded chunks.
pub struct DownloadStream {
    pub chunks: Vec<Vec<u8>>,
}

/// The received chunks, joined in arrival order.
pub fn concat_bytes(chunks: &Vec<Vec<u8>>) -> (r: Vec<u8>)
    ensures
        r@ == concat_chunks(chunks.deep_view()),
{
    let ghost all = chunks.deep_view();
    let mut r: Vec<u8> = Vec::new();
    let mut i: usize = 0;
    proof {
        assert(r@ =~= concat_chunks(all.take(0)));
    }
    while i < chunks.len()
        invariant
            i <= chunks@.len(),
            all == chunks.deep_view(),
            r@ == concat_chunks(all.take(i as int)),
        decreases chunks@.len() - i,
    {
        let chunk = &chunks[i];
        let ghost before = r@;
        let mut b: usize = 0;
        while b < chunk.len()
            invariant
                b <= chunk@.len(),
                chunk@ == chunks@[i as int]@,
                i < chunks@.len(),
                all == chunks.deep_view(),
                r@ == before + chunk@.take(b as int),
                before == concat_chunks(all.take(i as int)),
            decreases chunk@.len() - b,
        {
            r.push(chunk[b]);
            proof {
                assert(r@ =~= before + chunk@.take(b + 1));
            }
            b = b + 1;
        }
        proof {
            assert(all.take(i + 1).drop_last() =~= all.take(i as int));
            assert(all.take(i + 1).last() == all[i as int]);
            assert(chunk@.take(chunk@.len() as int) =~= chunk@);
            assert(all[i as int] == chunk@);
            assert(r@ =~= concat_chunks(all.take(i + 1)));
        }
        i = i + 1;
    }
    proof {
        assert(all.take(chunks@.len() as int) =~= all);
    }
    r
}

/// The stored bytes, cut into chunks of at most `CHUNK_SIZE` each; none is
/// empty, and joined they are exactly the input.
pub fn chunk_bytes(content: &Vec<u8>) -> (chunks: Vec<Vec<u8>>)
    ensures
        concat_chunks(chunks.deep_view()) == content@,
        forall|i: int|
            0 <= i < chunks.deep_view().len() ==> 0 < (#[trigger] chunks.deep_view()[i]).len()
                <= CHUNK_SIZE,
{
    let mut chunks: Vec<Vec<u8>> = Vec::new();
    let mut i: usize = 0;
    proof {
        assert(chunks.deep_view() =~= Seq::<Seq<u8>>::empty());
        assert(concat_chunks(chunks.deep_view()) =~= content@.take(0));
    }
    while i < content.len()
        invariant
            i <= content@.len(),
            concat_chunks(chunks.deep_view()) == content@.take(i as int),
            forall|j: int|
                0 <= j < chunks.deep_view().len() ==> 0 < (#[trigger] chunks.deep_view()[j]).len()
                    <= CHUNK_SIZE,
        decreases content@.len() - i,
    {
        let next = if content.len() - i > CHUNK_SIZE {
            i + CHUNK_SIZE
        } else {
            content.len()
        };
        let piece = slice_to_vec(slice_subrange(content.as_slice(), i, next));
        let ghost prev = chunks.deep_view();
        chunks.push(piece);
        proof {
            assert(chunks.deep_view() =~~= prev.push(content@.subrange(i as int, next as int)));
            assert(chunks.deep_view().drop_last() =~~= prev);
            assert(content@.take(i as int) + content@.subrange(i as int, next as int)
                =~= content@.take(next as int));
        }
        i = next;
    }
    proof {
        assert(content@.take(content@.len() as int) =~= content@);
    }
    chunks
}

} // verus!
