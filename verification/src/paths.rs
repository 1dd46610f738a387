//! Lexical path resolution, confined to a configured root directory.
//!
//! A client-supplied path is split into `/`-separated segments, joined with
//! the root's segments, and normalized purely lexically: empty and `.`
//! segments disappear, and `..` removes the preceding segment (at the
//! filesystem root it removes nothing, as the parent of `/` is `/`).
//! Nothing here consults a real filesystem, so resolution works for paths
//! that do not yet exist.
//!
//! The result is accepted only when the normalized root is a segment-wise
//! prefix of the normalized joined path, which is the containment guarantee
//! every filesystem operation of this crate rests on. String-prefix
//! comparison is never used, so a root `/data` can never be confused with a
//! sibling `/database`.

use vstd::prelude::*;

use crate::errors::FsError;

verus! {

/// The path-segment separator.
pub open spec fn is_sep(c: char) -> bool {
    c == '/'
}

/// A segment that normalization drops: empty (from doubled or trailing
/// separators) or the current-directory marker `.`.
pub open spec fn seg_is_skip(seg: Seq<char>) -> bool {
    seg.len() == 0 || seg == seq!['.']
}

/// The parent-directory marker `..`.
pub open spec fn seg_is_up(seg: Seq<char>) -> bool {
    seg == seq!['.', '.']
}

/// A plain segment: what may appear in a fully resolved path. It names a
/// real tree node, is never empty, never a traversal marker, and holds no
/// separator.
pub open spec fn seg_is_plain(seg: Seq<char>) -> bool {
    &&& !seg_is_skip(seg)
    &&& !seg_is_up(seg)
    &&& forall|i: int| 0 <= i < seg.len() ==> !is_sep(#[trigger] seg[i])
}

/// All segments of a resolved path are plain.
pub open spec fn segs_are_plain(segs: Seq<Seq<char>>) -> bool {
    forall|i: int| 0 <= i < segs.len() ==> seg_is_plain(#[trigger] segs[i])
}

/// The segments of `s`, split at every separator. Splitting keeps empty
/// segments, so the result always holds at least one segment: `""` splits
/// to `[""]`, `"a/"` to `["a", ""]`, `"/a"` to `["", "a"]`.
pub open spec fn spec_split(s: Seq<char>) -> Seq<Seq<char>>
    decreases s.len(),
{
    if s.len() == 0 {
        seq![Seq::empty()]
    } else {
        let init = spec_split(s.drop_last());
        if is_sep(s.last()) {
            init.push(Seq::empty())
        } else {
            init.update(init.len() - 1, init.last().push(s.last()))
        }
    }
}

/// Splitting never yields an empty list of segments.
pub proof fn lemma_split_len(s: Seq<char>)
    ensures
        spec_split(s).len() >= 1,
    decreases s.len(),
{
    if s.len() > 0 {
        lemma_split_len(s.drop_last());
    }
}

/// No segment produced by splitting contains a separator.
pub proof fn lemma_split_no_sep(s: Seq<char>)
    ensures
        forall|i: int, j: int|
            0 <= i < spec_split(s).len() && 0 <= j < spec_split(s)[i].len()
                ==> !is_sep(#[trigger] spec_split(s)[i][j]),
    decreases s.len(),
{
    if s.len() > 0 {
        lemma_split_no_sep(s.drop_last());
        lemma_split_len(s.drop_last());
    }
}

/// One step of lexical normalization: fold the next segment onto the stack
/// of segments resolved so far.
pub open spec fn norm_step(stack: Seq<Seq<char>>, seg: Seq<char>) -> Seq<Seq<char>> {
    if seg_is_skip(seg) {
        stack
    } else if seg_is_up(seg) {
        if stack.len() == 0 {
            stack
        } else {
            stack.drop_last()
        }
    } else {
        stack.push(seg)
    }
}

/// Lexical normalization of `segs`, starting from an already-normalized
/// prefix `stack`.
pub open spec fn spec_norm_from(stack: Seq<Seq<char>>, segs: Seq<Seq<char>>) -> Seq<Seq<char>>
    decreases segs.len(),
{
    if segs.len() == 0 {
        stack
    } else {
        norm_step(spec_norm_from(stack, segs.drop_last()), segs.last())
    }
}

/// Lexical normalization of an absolute path's segments: `.` and empty
/// segments disappear, `..` removes the preceding segment and at the top
/// removes nothing.
pub open spec fn spec_norm(segs: Seq<Seq<char>>) -> Seq<Seq<char>> {
    spec_norm_from(Seq::empty(), segs)
}

/// Normalization processes concatenated input left to right: the second
/// part folds onto the normal form of the first.
pub proof fn lemma_norm_from_concat(stack: Seq<Seq<char>>, a: Seq<Seq<char>>, b: Seq<Seq<char>>)
    ensures
        spec_norm_from(stack, a + b) == spec_norm_from(spec_norm_from(stack, a), b),
    decreases b.len(),
{
    if b.len() == 0 {
        assert(a + b =~= a);
    } else {
        lemma_norm_from_concat(stack, a, b.drop_last());
        assert((a + b).drop_last() =~= a + b.drop_last());
        assert((a + b).last() == b.last());
    }
}

/// Normalization of plain input onto a plain stack yields plain segments:
/// every segment of the output came either from the stack or the input.
pub proof fn lemma_norm_from_plain(stack: Seq<Seq<char>>, segs: Seq<Seq<char>>)
    requires
        forall|i: int, j: int|
            0 <= i < segs.len() && 0 <= j < segs[i].len()
                ==> !is_sep(#[trigger] segs[i][j]),
        segs_are_plain(stack),
    ensures
        segs_are_plain(spec_norm_from(stack, segs)),
    decreases segs.len(),
{
    if segs.len() > 0 {
        assert(forall|i: int, j: int|
            0 <= i < segs.drop_last().len() && 0 <= j < segs.drop_last()[i].len()
                ==> !is_sep(#[trigger] segs.drop_last()[i][j]));
        lemma_norm_from_plain(stack, segs.drop_last());
        let folded = spec_norm_from(stack, segs.drop_last());
        let last = segs.last();
        if !seg_is_skip(last) && !seg_is_up(last) {
            assert(forall|j: int| 0 <= j < last.len() ==> !is_sep(#[trigger] last[j]));
            assert(spec_norm_from(stack, segs) == folded.push(last));
        }
    }
}

/// Splits `s` into its `/`-separated segments, empty segments included.
pub fn split_segments(s: &str) -> (segs: Vec<String>)
    ensures
        segs.deep_view() == spec_split(s@),
{
    let n = s.unicode_len();
    let mut segs: Vec<String> = Vec::new();
    let mut cur = String::new();
    let mut i: usize = 0;
    while i < n
        invariant
            i <= n,
            n == s@.len(),
            segs.deep_view().push(cur@) == spec_split(s@.take(i as int)),
        decreases n - i,
    {
        let c = s.get_char(i);
        proof {
            assert(s@.take(i + 1).drop_last() =~= s@.take(i as int));
            assert(s@.take(i + 1).last() == s@[i as int]);
        }
        if c == '/' {
            let ghost prev = segs.deep_view();
            segs.push(cur);
            cur = String::new();
            proof {
                assert(segs.deep_view() =~~= prev.push(spec_split(s@.take(i as int)).last()));
                assert(segs.deep_view().push(cur@) =~~= spec_split(s@.take(i + 1)));
            }
        } else {
            let piece = s.substring_char(i, i + 1);
            proof {
                assert(piece@ =~= seq![s@[i as int]]);
            }
            cur.append(piece);
            proof {
                let init = spec_split(s@.take(i as int));
                assert(init.len() - 1 == segs.deep_view().len());
                assert(segs.deep_view().push(cur@)
                    =~~= init.update(init.len() - 1, init.last().push(s@[i as int])));
            }
        }
        i = i + 1;
    }
    proof {
        assert(s@.take(n as int) =~= s@);
    }
    let ghost prev = segs.deep_view();
    segs.push(cur);
    proof {
        assert(segs.deep_view() =~~= prev.push(spec_split(s@).last()));
    }
    segs
}

/// True exactly when `seg` is a segment normalization drops.
fn is_skip_seg(seg: &String) -> (r: bool)
    ensures
        r == seg_is_skip(seg@),
{
    let n = seg.as_str().unicode_len();
    if n == 0 {
        true
    } else if n == 1 && seg.as_str().get_char(0) == '.' {
        proof {
            assert(seg@ =~= seq!['.']);
        }
        true
    } else {
        proof {
            assert(seq!['.'].len() == 1);
            assert(seq!['.'][0] == '.');
        }
        false
    }
}

/// True exactly when `seg` is the parent-directory marker.
fn is_up_seg(seg: &String) -> (r: bool)
    ensures
        r == seg_is_up(seg@),
{
    let n = seg.as_str().unicode_len();
    if n == 2 && seg.as_str().get_char(0) == '.' && seg.as_str().get_char(1) == '.' {
        proof {
            assert(seg@ =~= seq!['.', '.']);
        }
        true
    } else {
        proof {
            assert(seq!['.', '.'].len() == 2);
            assert(seq!['.', '.'][0] == '.');
            assert(seq!['.', '.'][1] == '.');
        }
        false
    }
}

/// Folds every segment of `segs` onto `stack`, normalizing as it goes.
fn normalize_onto(stack: &mut Vec<String>, segs: &Vec<String>)
    ensures
        final(stack).deep_view() == spec_norm_from(old(stack).deep_view(), segs.deep_view()),
{
    let ghost stack0 = stack.deep_view();
    let ghost all = segs.deep_view();
    let mut i: usize = 0;
    while i < segs.len()
        invariant
            i <= segs.len(),
            all == segs.deep_view(),
            stack.deep_view() == spec_norm_from(stack0, all.take(i as int)),
        decreases segs.len() - i,
    {
        proof {
            assert(all.take(i + 1).drop_last() =~= all.take(i as int));
            assert(all.take(i + 1).last() == all[i as int]);
        }
        let seg = &segs[i];
        let ghost prev = stack.deep_view();
        if is_skip_seg(seg) {
        } else if is_up_seg(seg) {
            if stack.len() > 0 {
                stack.pop();
                proof {
                    assert(stack.deep_view() =~~= prev.drop_last());
                }
            }
        } else {
            stack.push(seg.clone());
            proof {
                assert(stack.deep_view() =~~= prev.push(all[i as int]));
            }
        }
        i = i + 1;
    }
    proof {
        assert(all.take(segs.len() as int) =~= all);
    }
}

/// A copy of a segment list.
pub(crate) fn clone_segments(p: &Vec<String>) -> (r: Vec<String>)
    ensures
        r.deep_view() == p.deep_view(),
{
    let mut r: Vec<String> = Vec::new();
    let mut i: usize = 0;
    while i < p.len()
        invariant
            i <= p.len(),
            r.deep_view() == p.deep_view().take(i as int),
        decreases p.len() - i,
    {
        let ghost prev = r.deep_view();
        r.push(p[i].clone());
        proof {
            assert(r.deep_view() =~~= prev.push(p.deep_view()[i as int]));
            assert(p.deep_view().take(i + 1) =~~= prev.push(p.deep_view()[i as int]));
        }
        i = i + 1;
    }
    proof {
        assert(p.deep_view().take(p.len() as int) =~= p.deep_view());
    }
    r
}

/// A client path accepted by resolution: the segments of the resolved
/// location, relative to the root directory. An empty list names the root
/// itself.
pub struct ResolvedPath {
    pub segments: Vec<String>,
}

impl View for ResolvedPath {
    type V = Seq<Seq<char>>;

    open spec fn view(&self) -> Seq<Seq<char>> {
        self.segments.deep_view()
    }
}

impl ResolvedPath {
    /// Every segment is plain: nonempty, no traversal marker, no separator.
    pub open spec fn wf(&self) -> bool {
        segs_are_plain(self@)
    }

    /// Does this path name the root directory itself?
    pub fn is_root(&self) -> (r: bool)
        ensures
            r == (self@.len() == 0),
    {
        self.segments.len() == 0
    }

    /// The path one level up: all segments but the last.
    pub fn parent(&self) -> (r: ResolvedPath)
        requires
            self@.len() > 0,
        ensures
            r@ == self@.drop_last(),
            self.wf() ==> r.wf(),
    {
        let mut segments = clone_segments(&self.segments);
        let _last = segments.pop();
        proof {
            assert(segments.deep_view() =~= self@.drop_last());
        }
        ResolvedPath { segments }
    }

    /// A copy of this path.
    pub fn clone_path(&self) -> (r: ResolvedPath)
        ensures
            r@ == self@,
    {
        ResolvedPath { segments: clone_segments(&self.segments) }
    }

    /// The final segment: the file or directory name the path ends in.
    pub fn file_name(&self) -> (r: &String)
        requires
            self@.len() > 0,
        ensures
            r@ == self@.last(),
    {
        &self.segments[self.segments.len() - 1]
    }
}

/// The segments of the root joined with the client path: a client path
/// starting with a separator stands on its own (as with `Path::join`), any
/// other is appended to the root's segments.
pub open spec fn spec_joined(root: Seq<char>, rel: Seq<char>) -> Seq<Seq<char>> {
    if rel.len() > 0 && is_sep(rel[0]) {
        spec_split(rel)
    } else {
        spec_split(root) + spec_split(rel)
    }
}

/// The normalized root.
pub open spec fn spec_root_norm(root: Seq<char>) -> Seq<Seq<char>> {
    spec_norm(spec_split(root))
}

/// The normalized form of the root joined with the client path.
pub open spec fn spec_resolved_full(root: Seq<char>, rel: Seq<char>) -> Seq<Seq<char>> {
    spec_norm(spec_joined(root, rel))
}

/// Containment: the normalized root is a segment-wise prefix of the
/// resolved path, so the resolved location lies inside the root.
pub open spec fn spec_contained(root: Seq<char>, rel: Seq<char>) -> bool {
    spec_root_norm(root).is_prefix_of(spec_resolved_full(root, rel))
}

/// The resolved location, as segments relative to the root; meaningful
/// when containment holds.
pub open spec fn spec_resolve(root: Seq<char>, rel: Seq<char>) -> Seq<Seq<char>> {
    spec_resolved_full(root, rel).skip(spec_root_norm(root).len() as int)
}

/// Law: an accepted path never escapes the root. The full resolved path is
/// exactly the normalized root followed by the accepted relative segments,
/// so the root is a segment-wise prefix of it.
pub proof fn lemma_resolve_confined(root: Seq<char>, rel: Seq<char>)
    requires
        spec_contained(root, rel),
    ensures
        spec_resolved_full(root, rel) == spec_root_norm(root) + spec_resolve(root, rel),
        spec_root_norm(root).is_prefix_of(spec_resolved_full(root, rel)),
{
    assert(spec_resolved_full(root, rel)
        =~~= spec_root_norm(root) + spec_resolve(root, rel));
}

/// A resolved path rendered as one string: the root, then `/` and a
/// segment for each level below it.
pub open spec fn spec_full_path(root: Seq<char>, segs: Seq<Seq<char>>) -> Seq<char>
    decreases segs.len(),
{
    if segs.len() == 0 {
        root
    } else {
        spec_full_path(root, segs.drop_last()) + seq!['/'] + segs.last()
    }
}

/// Renders a resolved location as the real filesystem path under `root`.
pub fn to_full_path(root: &str, p: &ResolvedPath) -> (r: String)
    ensures
        r@ == spec_full_path(root@, p@),
{
    let mut r = String::from_str(root);
    proof {
        reveal_strlit("/");
        assert("/"@ =~= seq!['/']);
    }
    let mut i: usize = 0;
    while i < p.segments.len()
        invariant
            i <= p.segments@.len(),
            "/"@ == seq!['/'],
            r@ == spec_full_path(root@, p@.take(i as int)),
            p@ == p.segments.deep_view(),
        decreases p.segments@.len() - i,
    {
        r.append("/");
        r.append(p.segments[i].as_str());
        proof {
            assert(p@.take(i + 1).drop_last() =~= p@.take(i as int));
            assert(p@.take(i + 1).last() == p@[i as int]);
        }
        i = i + 1;
    }
    proof {
        assert(p@.take(p.segments@.len() as int) =~= p@);
    }
    r
}

/// Resolves a client-supplied path against the root directory.
///
/// Returns the resolved location exactly when the normalized join of root
/// and client path stays inside the root — and, when `forbid_root` is set
/// (every operation that mutates the tree), does not name the root itself.
/// Every rejection is `InvalidPath`.
pub fn resolve(root: &str, rel: &str, forbid_root: bool) -> (r: Result<ResolvedPath, FsError>)
    ensures
        r is Ok <==> spec_contained(root@, rel@)
            && (forbid_root ==> spec_resolve(root@, rel@).len() > 0),
        r matches Ok(p) ==> p@ == spec_resolve(root@, rel@) && p.wf(),
        r matches Err(e) ==> e == FsError::InvalidPath,
{
    let root_segs = split_segments(root);
    let mut root_stack: Vec<String> = Vec::new();
    proof {
        assert(root_stack.deep_view() =~= Seq::<Seq<char>>::empty());
    }
    normalize_onto(&mut root_stack, &root_segs);
    proof {
        lemma_split_no_sep(root@);
        assert(segs_are_plain(Seq::<Seq<char>>::empty()));
        lemma_norm_from_plain(Seq::empty(), root_segs.deep_view());
    }

    let rel_segs = split_segments(rel);
    let rel_abs = rel.unicode_len() > 0 && rel.get_char(0) == '/';
    let mut full: Vec<String>;
    if rel_abs {
        full = Vec::new();
        proof {
            assert(full.deep_view() =~= Seq::<Seq<char>>::empty());
        }
        normalize_onto(&mut full, &rel_segs);
    } else {
        full = clone_segments(&root_stack);
        normalize_onto(&mut full, &rel_segs);
        proof {
            lemma_norm_from_concat(Seq::empty(), root_segs.deep_view(), rel_segs.deep_view());
        }
    }
    proof {
        lemma_split_no_sep(rel@);
        lemma_norm_from_plain(Seq::empty(), spec_joined(root@, rel@));
        assert(full.deep_view() == spec_resolved_full(root@, rel@));
    }

    // The normalized root must be a segment-wise prefix of the resolved path.
    if full.len() < root_stack.len() {
        proof {
            assert(!spec_contained(root@, rel@));
        }
        return Err(FsError::InvalidPath);
    }
    let mut i: usize = 0;
    while i < root_stack.len()
        invariant
            i <= root_stack.len() <= full.len(),
            root_stack.deep_view() == spec_root_norm(root@),
            full.deep_view() == spec_resolved_full(root@, rel@),
            forall|j: int| 0 <= j < i ==> root_stack.deep_view()[j] == full.deep_view()[j],
        decreases root_stack.len() - i,
    {
        if !(root_stack[i] == full[i]) {
            proof {
                assert(root_stack.deep_view()[i as int] != full.deep_view()[i as int]);
                assert(!spec_root_norm(root@).is_prefix_of(spec_resolved_full(root@, rel@)));
            }
            return Err(FsError::InvalidPath);
        }
        i = i + 1;
    }
    proof {
        assert(spec_root_norm(root@)
            =~= spec_resolved_full(root@, rel@).subrange(0, spec_root_norm(root@).len() as int));
        assert(spec_contained(root@, rel@));
    }

    // Extract the segments below the root.
    let mut segments: Vec<String> = Vec::new();
    let mut j: usize = root_stack.len();
    while j < full.len()
        invariant
            root_stack.len() <= j <= full.len(),
            full.deep_view() == spec_resolved_full(root@, rel@),
            segments.deep_view()
                =~= full.deep_view().subrange(root_stack.deep_view().len() as int, j as int),
            root_stack.deep_view() == spec_root_norm(root@),
        decreases full.len() - j,
    {
        let ghost prev = segments.deep_view();
        segments.push(full[j].clone());
        proof {
            assert(segments.deep_view() =~~= prev.push(full.deep_view()[j as int]));
        }
        j = j + 1;
    }
    proof {
        assert(segments.deep_view() =~= spec_resolve(root@, rel@));
    }

    if forbid_root && segments.len() == 0 {
        return Err(FsError::InvalidPath);
    }
    Ok(ResolvedPath { segments })
}

} // verus!
