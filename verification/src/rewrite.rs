//! Rewriting references to store paths inside file contents.

use vstd::prelude::*;
use vstd::utf8::*;
use crate::paths::{RewritePaths, nix_store, tmp_runix};
use crate::store::{StoreIdentity, hash_part, valid_identity};

verus! {

/// The byte sequence `/` as a one-element sequence.
pub open spec fn slash_bytes() -> Seq<u8> {
    seq![0x2fu8]
}

/// The bytes of the full store path of a reference: the prefix, `/` and the hash.
pub open spec fn full_path_bytes(prefix: Seq<u8>, id: Seq<char>) -> Seq<u8> {
    prefix + slash_bytes() + encode_utf8(hash_part(id))
}

/// `buf` with `repl` written over it from position `start` on.
pub open spec fn overwrite(buf: Seq<u8>, start: int, repl: Seq<u8>) -> Seq<u8> {
    buf.take(start) + repl + buf.skip(start + repl.len())
}

/// The store paths of a set of references and how to rewrite them.
pub struct RewriteReferences {
    len: usize,
    common_prefix: Vec<u8>,
    replacement_prefix: Vec<u8>,
    full_paths: Vec<Vec<u8>>,
}

impl RewriteReferences {
    /// The prefix that every full path begins with.
    pub closed spec fn prefix(&self) -> Seq<u8> {
        self.common_prefix@
    }

    /// The bytes written over the prefix of a matching path.
    pub closed spec fn replacement(&self) -> Seq<u8> {
        self.replacement_prefix@
    }

    /// The full store paths, one per reference, in order.
    pub closed spec fn paths(&self) -> Seq<Seq<u8>> {
        self.full_paths@.map_values(|p: Vec<u8>| p@)
    }

    /// The length of the windows that are compared with the full paths.
    pub closed spec fn window_len(&self) -> nat {
        self.len as nat
    }

    /// Prefix and replacement have the same length, there is at least one
    /// path, and the window length is that of the first path, which is longer
    /// than the prefix.
    pub closed spec fn wf(&self) -> bool {
        &&& self.common_prefix@.len() == self.replacement_prefix@.len()
        &&& self.full_paths@.len() > 0
        &&& self.len == self.full_paths@[0]@.len()
        &&& self.common_prefix@.len() < self.len
    }

    /// Whether the window `w` is one of the full paths (and so begins with the prefix).
    pub open spec fn matches(&self, w: Seq<u8>) -> bool {
        &&& self.prefix().is_prefix_of(w)
        &&& self.paths().contains(w)
    }

    /// The window of `buf` that starts at `start`.
    pub open spec fn window(&self, buf: Seq<u8>, start: int) -> Seq<u8> {
        buf.subrange(start, start + self.window_len())
    }

    /// One pass over `buf` from window `start` to the last window that ends by
    /// `end`, left to right: each window that matches (in the buffer as
    /// rewritten so far) has its prefix overwritten by the replacement.
    /// Gives the rewritten buffer and the number of windows rewritten.
    pub open spec fn pass_from(&self, buf: Seq<u8>, start: nat, end: nat) -> (Seq<u8>, nat)
        decreases end - start,
    {
        if start >= end || start + self.window_len() > end {
            (buf, 0)
        } else if self.matches(self.window(buf, start as int)) {
            let (b, c) = self.pass_from(overwrite(buf, start as int, self.replacement()), start + 1, end);
            (b, c + 1)
        } else {
            self.pass_from(buf, start + 1, end)
        }
    }

    /// The result of rewriting all of `buf`.
    pub open spec fn pass(&self, buf: Seq<u8>) -> (Seq<u8>, nat) {
        self.pass_from(buf, 0, buf.len())
    }
}

impl RewriteReferences {
    /// The full store paths of `references`, under the prefix and replacement
    /// of `rewrite_paths`; `None` when there are no references.
    pub fn new(rewrite_paths: &RewritePaths, references: &Vec<StoreIdentity>) -> (r: Option<Self>)
        requires
            encode_utf8(rewrite_paths.src@).len() == encode_utf8(rewrite_paths.tmp_dest@).len(),
            forall|i: int| 0 <= i < references@.len() ==> #[trigger] references@[i].has_pair(),
        ensures
            r is None <==> references@.len() == 0,
            r matches Some(rr) ==> {
                &&& rr.wf()
                &&& rr.prefix() == encode_utf8(rewrite_paths.src@)
                &&& rr.replacement() == encode_utf8(rewrite_paths.tmp_dest@)
                &&& rr.paths().len() == references@.len()
                &&& forall|i: int| 0 <= i < references@.len() ==>
                    #[trigger] rr.paths()[i] == full_path_bytes(rr.prefix(), references@[i]@)
                &&& rr.window_len() == rr.paths()[0].len()
            },
    {
        let common_prefix = bytes_to_vec(rewrite_paths.src.as_bytes());
        let replacement_prefix = bytes_to_vec(rewrite_paths.tmp_dest.as_bytes());
        let mut full_paths: Vec<Vec<u8>> = Vec::new();
        let mut i: usize = 0;
        while i < references.len()
            invariant
                i <= references@.len(),
                common_prefix@ == encode_utf8(rewrite_paths.src@),
                forall|j: int| 0 <= j < references@.len() ==> #[trigger] references@[j].has_pair(),
                full_paths@.len() == i,
                forall|j: int| 0 <= j < i ==>
                    #[trigger] full_paths@[j]@ == full_path_bytes(common_prefix@, references@[j]@),
            decreases references@.len() - i,
        {
            let mut path = bytes_to_vec(common_prefix.as_slice());
            path.push(0x2fu8);
            let hash = references[i].hash().as_bytes();
            let mut k: usize = 0;
            let ghost start = path@;
            while k < hash.len()
                invariant
                    k <= hash@.len(),
                    path@ == start + hash@.take(k as int),
                decreases hash@.len() - k,
            {
                path.push(hash[k]);
                k = k + 1;
                assert(path@ =~= start + hash@.take(k as int));
            }
            assert(hash@.take(hash@.len() as int) =~= hash@);
            assert(path@ =~= full_path_bytes(common_prefix@, references@[i as int]@));
            full_paths.push(path);
            i = i + 1;
        }
        if full_paths.len() == 0 {
            return None;
        }
        let len = full_paths[0].len();
        let rr = RewriteReferences { len, common_prefix, replacement_prefix, full_paths };
        assert(rr.paths().len() == references@.len());
        assert(forall|j: int| 0 <= j < references@.len() ==>
            #[trigger] rr.paths()[j] == full_path_bytes(rr.prefix(), references@[j]@));
        assert(rr.paths()[0] =~= full_path_bytes(rr.prefix(), references@[0]@));
        Some(rr)
    }

    /// Whether `buf[start..end]` is one of the full paths.
    fn range_matches(&self, buf: &[u8], start: usize, end: usize) -> (r: bool)
        requires
            start <= end <= buf@.len(),
        ensures
            r == self.matches(buf@.subrange(start as int, end as int)),
    {
        let w = Ghost(buf@.subrange(start as int, end as int));
        let plen = self.common_prefix.len();
        if end - start < plen {
            return false;
        }
        let mut i: usize = 0;
        while i < plen
            invariant
                plen == self.common_prefix@.len(),
                start + plen <= end <= buf@.len(),
                w@ == buf@.subrange(start as int, end as int),
                i <= plen,
                forall|j: int| 0 <= j < i ==> self.common_prefix@[j] == w@[j],
            decreases plen - i,
        {
            if buf[start + i] != self.common_prefix[i] {
                return false;
            }
            i = i + 1;
        }
        assert(self.prefix().is_prefix_of(w@));
        let mut p: usize = 0;
        while p < self.full_paths.len()
            invariant
                start <= end <= buf@.len(),
                w@ == buf@.subrange(start as int, end as int),
                self.prefix().is_prefix_of(w@),
                p <= self.full_paths@.len(),
                forall|q: int| 0 <= q < p ==> self.paths()[q] != w@,
            decreases self.full_paths@.len() - p,
        {
            let path = &self.full_paths[p];
            if path.len() == end - start && range_equals(buf, start, path.as_slice()) {
                assert(path@ =~= w@);
                assert(self.paths()[p as int] == path@);
                return true;
            }
            assert(self.paths()[p as int] != w@);
            p = p + 1;
        }
        false
    }

    /// Overwrites `buf[start..start + prefix length]` with the replacement.
    fn write_replacement(&self, buf: &mut [u8], start: usize)
        requires
            self.wf(),
            start + self.prefix().len() <= old(buf)@.len(),
        ensures
            final(buf)@ == overwrite(old(buf)@, start as int, self.replacement()),
    {
        let n = self.replacement_prefix.len();
        let blen = buf.len();
        let mut i: usize = 0;
        while i < n
            invariant
                n == self.replacement_prefix@.len(),
                blen == buf@.len(),
                start + n <= buf@.len(),
                buf@.len() == old(buf)@.len(),
                i <= n,
                buf@ == overwrite(old(buf)@, start as int, self.replacement_prefix@.take(i as int)),
            decreases n - i,
        {
            buf[start + i] = self.replacement_prefix[i];
            i = i + 1;
            assert(buf@ =~= overwrite(old(buf)@, start as int, self.replacement_prefix@.take(i as int)));
        }
        assert(self.replacement_prefix@.take(n as int) =~= self.replacement_prefix@);
    }

    /// Rewrites `slice` when it is exactly one of the full paths: its prefix
    /// is overwritten by the replacement. Returns whether it matched.
    pub fn replace_exact(&self, slice: &mut [u8]) -> (r: bool)
        requires
            self.wf(),
        ensures
            r == self.matches(old(slice)@),
            r ==> final(slice)@ == overwrite(old(slice)@, 0, self.replacement()),
            !r ==> final(slice)@ == old(slice)@,
    {
        let n = slice.len();
        let is_match = self.range_matches(slice, 0, n);
        assert(slice@.subrange(0, n as int) =~= slice@);
        if is_match {
            self.write_replacement(slice, 0);
        }
        is_match
    }
}

impl RewriteReferences {
    /// Slides a window of the full-path length over `file`, left to right, and
    /// rewrites each window that is one of the full paths (see `pass`).
    /// Returns how many windows were rewritten.
    pub fn replace_all(&self, file: &mut [u8]) -> (count: usize)
        requires
            self.wf(),
        ensures
            final(file)@ == self.pass(old(file)@).0,
            count == self.pass(old(file)@).1,
    {
        let n = file.len();
        let len = self.len;
        let mut count: usize = 0;
        let mut start: usize = 0;
        while len <= n && start <= n - len
            invariant
                self.wf(),
                len == self.window_len(),
                file@.len() == n,
                start <= n,
                count <= start,
                self.pass_from(file@, start as nat, n as nat).0 == self.pass(old(file)@).0,
                count + self.pass_from(file@, start as nat, n as nat).1 == self.pass(old(file)@).1,
            decreases n - start,
        {
            let ghost before = file@;
            if self.range_matches(file, start, start + len) {
                self.write_replacement(file, start);
                count = count + 1;
            }
            assert(self.pass_from(before, start as nat, n as nat) == if self.matches(self.window(before, start as int)) {
                let (b, c) = self.pass_from(file@, (start + 1) as nat, n as nat);
                (b, c + 1)
            } else {
                self.pass_from(file@, (start + 1) as nat, n as nat)
            });
            start = start + 1;
        }
        count
    }
}

/// Whether `buf[start..start + path.len()]` equals `path`.
fn range_equals(buf: &[u8], start: usize, path: &[u8]) -> (r: bool)
    requires
        start + path@.len() <= buf@.len(),
    ensures
        r == (buf@.subrange(start as int, start + path@.len()) == path@),
{
    let blen = buf.len();
    let mut k: usize = 0;
    while k < path.len()
        invariant
            blen == buf@.len(),
            start + path@.len() <= buf@.len(),
            k <= path@.len(),
            forall|j: int| 0 <= j < k ==> path@[j] == buf@[start + j],
        decreases path@.len() - k,
    {
        if path[k] != buf[start + k] {
            assert(buf@.subrange(start as int, start + path@.len())[k as int] != path@[k as int]);
            return false;
        }
        k = k + 1;
    }
    assert(buf@.subrange(start as int, start + path@.len()) =~= path@);
    true
}

/// A copy of `b` in a new vector.
fn bytes_to_vec(b: &[u8]) -> (v: Vec<u8>)
    ensures
        v@ == b@,
{
    let mut v: Vec<u8> = Vec::new();
    let mut i: usize = 0;
    while i < b.len()
        invariant
            i <= b@.len(),
            v@ == b@.take(i as int),
        decreases b@.len() - i,
    {
        v.push(b[i]);
        i = i + 1;
        assert(v@ =~= b@.take(i as int));
    }
    assert(v@ =~= b@);
    v
}

/// No proper suffix of `p` is also a prefix of `p`, so two occurrences of
/// `p` never overlap.
pub open spec fn no_self_overlap(p: Seq<u8>) -> bool {
    forall|d: int| 0 < d < p.len() ==> #[trigger] p.skip(d) != p.take(p.len() - d)
}

/// No proper suffix of `r` is a prefix of `p`, so a written replacement never
/// begins a new occurrence of `p` that overlaps it.
pub open spec fn no_suffix_starts(r: Seq<u8>, p: Seq<u8>) -> bool {
    forall|d: int| 0 < d < p.len() ==> #[trigger] r.skip(d) != p.take(p.len() - d)
}

/// No proper prefix of `r` is a suffix of `p`, so a written replacement never
/// completes an occurrence of `p` that begins before it.
pub open spec fn no_prefix_ends(r: Seq<u8>, p: Seq<u8>) -> bool {
    forall|d: int| 0 < d < p.len() ==> #[trigger] r.take(p.len() - d) != p.skip(d)
}

impl RewriteReferences {
    /// `q` holds the start of the replacement at `o` (as much of it as fits
    /// before the end of a window).
    pub open spec fn replacement_at(&self, q: Seq<u8>, o: int) -> bool {
        let e = if o + self.replacement().len() < self.window_len() {
            o + self.replacement().len()
        } else {
            self.window_len() as int
        };
        q.subrange(o, e) == self.replacement().take(e - o)
    }

    /// No full path holds the start of the replacement at or after its prefix.
    pub open spec fn replacement_free(&self) -> bool {
        forall|q: Seq<u8>, o: int|
            self.paths().contains(q) && q.len() == self.window_len() && self.prefix().len() <= o < self.window_len()
                ==> !#[trigger] self.replacement_at(q, o)
    }

    /// The window of `buf` at `i` exists and is one of the full paths.
    pub open spec fn matches_at(&self, buf: Seq<u8>, i: int) -> bool {
        &&& 0 <= i
        &&& i + self.window_len() <= buf.len()
        &&& self.matches(self.window(buf, i))
    }

    /// How many windows of `buf`, from `start` on, are full paths.
    pub open spec fn count_matches_from(&self, buf: Seq<u8>, start: nat) -> nat
        decreases buf.len() - start,
    {
        if start >= buf.len() || start + self.window_len() > buf.len() {
            0
        } else {
            (if self.matches_at(buf, start as int) { 1nat } else { 0nat })
                + self.count_matches_from(buf, start + 1)
        }
    }

    /// Position `k` lies within the prefix of a window of `buf` that is a full path.
    pub open spec fn covered(&self, buf: Seq<u8>, k: int) -> bool {
        exists|i: int| #[trigger] self.matches_at(buf, i) && i <= k < i + self.prefix().len()
    }

    /// `covered`, by a window that starts before `s`.
    spec fn covered_before(&self, buf: Seq<u8>, k: int, s: int) -> bool {
        exists|i: int| #[trigger] self.matches_at(buf, i) && i < s && i <= k < i + self.prefix().len()
    }

    /// `cur` is `buf` with the replacement written at each matching window of
    /// `buf` that starts before `s`.
    spec fn agrees_before(&self, buf: Seq<u8>, cur: Seq<u8>, s: int) -> bool {
        &&& cur.len() == buf.len()
        &&& forall|i: int, k: int|
            #![trigger self.matches_at(buf, i), cur[k]]
            self.matches_at(buf, i) && i < s && i <= k < i + self.prefix().len()
                ==> cur[k] == self.replacement()[k - i]
        &&& forall|k: int|
            0 <= k < buf.len() && !self.covered_before(buf, k, s) ==> #[trigger] cur[k] == buf[k]
    }

    proof fn lemma_matches_apart(&self, buf: Seq<u8>, i: int, j: int)
        requires
            self.wf(),
            no_self_overlap(self.prefix()),
            self.matches_at(buf, i),
            self.matches_at(buf, j),
            i < j,
        ensures
            j - i >= self.prefix().len(),
    {
        let p = self.prefix();
        let d = j - i;
        if d < p.len() {
            assert forall|t: int| 0 <= t < p.len() - d implies p.skip(d)[t] == p.take(p.len() - d)[t] by {
                assert(p[d + t] == self.window(buf, i)[d + t]);
                assert(p[t] == self.window(buf, j)[t]);
            }
            assert(p.skip(d) =~= p.take(p.len() - d));
            assert(p.skip(d) != p.take(p.len() - d));
        }
    }

    proof fn lemma_window_same(&self, buf: Seq<u8>, cur: Seq<u8>, s: int)
        requires
            self.wf(),
            no_self_overlap(self.prefix()),
            no_suffix_starts(self.replacement(), self.prefix()),
            self.agrees_before(buf, cur, s),
            0 <= s,
            s + self.window_len() <= buf.len(),
        ensures
            self.matches(self.window(cur, s)) == self.matches(self.window(buf, s)),
    {
        let p = self.prefix();
        let r = self.replacement();
        if exists|i: int| #[trigger] self.matches_at(buf, i) && i < s && i + p.len() > s {
            let i = choose|i: int| #[trigger] self.matches_at(buf, i) && i < s && i + p.len() > s;
            let d = s - i;
            if self.matches(self.window(buf, s)) {
                self.lemma_matches_apart(buf, i, s);
            }
            if p.is_prefix_of(self.window(cur, s)) {
                assert forall|t: int| 0 <= t < p.len() - d implies r.skip(d)[t] == p.take(p.len() - d)[t] by {
                    assert(p[t] == self.window(cur, s)[t]);
                    assert(self.matches_at(buf, i) && i < s && i <= s + t < i + p.len());
                    assert(cur[s + t] == r[s + t - i]);
                }
                assert(r.skip(d) =~= p.take(p.len() - d));
                assert(r.skip(d) != p.take(p.len() - d));
            }
        } else {
            assert forall|t: int| 0 <= t < self.window_len() implies
                self.window(cur, s)[t] == self.window(buf, s)[t] by {
                if self.covered_before(buf, s + t, s) {
                    let i = choose|i: int| #[trigger] self.matches_at(buf, i) && i < s && i <= s + t < i + p.len();
                    assert(self.matches_at(buf, i) && i < s && i + p.len() > s);
                }
                assert(cur[s + t] == buf[s + t]);
            }
            assert(self.window(cur, s) =~= self.window(buf, s));
        }
    }

    proof fn lemma_pass_from(&self, buf: Seq<u8>, cur: Seq<u8>, s: nat)
        requires
            self.wf(),
            no_self_overlap(self.prefix()),
            no_suffix_starts(self.replacement(), self.prefix()),
            self.agrees_before(buf, cur, s as int),
        ensures
            self.pass_from(cur, s, buf.len()).0.len() == buf.len(),
            forall|i: int, k: int|
                #![trigger self.matches_at(buf, i), self.pass_from(cur, s, buf.len()).0[k]]
                self.matches_at(buf, i) && i <= k < i + self.prefix().len()
                    ==> self.pass_from(cur, s, buf.len()).0[k] == self.replacement()[k - i],
            forall|k: int|
                0 <= k < buf.len() && !self.covered(buf, k)
                    ==> #[trigger] self.pass_from(cur, s, buf.len()).0[k] == buf[k],
            self.pass_from(cur, s, buf.len()).1 == self.count_matches_from(buf, s),
        decreases buf.len() - s,
    {
        let n = buf.len();
        let p = self.prefix();
        let r = self.replacement();
        if s >= n || s + self.window_len() > n {
            assert forall|i: int, k: int|
                self.matches_at(buf, i) && i <= k < i + p.len() implies cur[k] == r[k - i] by {
                assert(i < s);
            }
            assert forall|k: int| 0 <= k < n && !self.covered(buf, k) implies cur[k] == buf[k] by {
                if self.covered_before(buf, k, s as int) {
                    let i = choose|i: int| #[trigger] self.matches_at(buf, i) && i < s && i <= k < i + p.len();
                    assert(self.matches_at(buf, i) && i <= k < i + p.len());
                }
            }
        } else {
            self.lemma_window_same(buf, cur, s as int);
            let m = self.matches(self.window(cur, s as int));
            assert(m == self.matches_at(buf, s as int));
            let next = if m { overwrite(cur, s as int, r) } else { cur };
            assert(next.len() == n);
            assert forall|i: int, k: int|
                #![trigger self.matches_at(buf, i), next[k]]
                self.matches_at(buf, i) && i < s + 1 && i <= k < i + p.len() implies next[k] == r[k - i] by {
                if i < s {
                    if m {
                        self.lemma_matches_apart(buf, i, s as int);
                    }
                    assert(cur[k] == r[k - i]);
                }
            }
            assert forall|k: int|
                0 <= k < n && !self.covered_before(buf, k, s + 1int) implies #[trigger] next[k] == buf[k] by {
                if self.covered_before(buf, k, s as int) {
                    let i = choose|i: int| #[trigger] self.matches_at(buf, i) && i < s && i <= k < i + p.len();
                    assert(self.matches_at(buf, i) && i < s + 1 && i <= k < i + p.len());
                }
                if m && s <= k < s + p.len() {
                    assert(self.matches_at(buf, s as int) && s < s + 1 && s <= k < s + p.len());
                }
                assert(cur[k] == buf[k]);
            }
            assert(self.agrees_before(buf, next, s + 1int));
            self.lemma_pass_from(buf, next, (s + 1) as nat);
        }
    }

    /// Rewriting in one left-to-right pass has the same effect as rewriting
    /// every occurrence found in the original contents at once, provided two
    /// occurrences of the prefix cannot overlap and a written replacement
    /// cannot begin a new one: the contents keep their length, the prefix of
    /// every window of the original that is a full path is replaced, every
    /// other byte is kept, and the count is the number of such windows.
    pub proof fn lemma_replace_all_rewrites_original_matches(&self, buf: Seq<u8>)
        requires
            self.wf(),
            no_self_overlap(self.prefix()),
            no_suffix_starts(self.replacement(), self.prefix()),
        ensures
            self.pass(buf).0.len() == buf.len(),
            forall|i: int, k: int|
                #![trigger self.matches_at(buf, i), self.pass(buf).0[k]]
                self.matches_at(buf, i) && i <= k < i + self.prefix().len()
                    ==> self.pass(buf).0[k] == self.replacement()[k - i],
            forall|k: int|
                0 <= k < buf.len() && !self.covered(buf, k) ==> #[trigger] self.pass(buf).0[k] == buf[k],
            self.pass(buf).1 == self.count_matches_from(buf, 0),
    {
        self.lemma_pass_from(buf, buf, 0);
    }
}

impl RewriteReferences {
    /// A pass over a buffer none of whose windows is a full path changes
    /// nothing and counts nothing.
    proof fn lemma_pass_without_matches(&self, buf: Seq<u8>, s: nat)
        requires
            forall|i: int| s <= i ==> !#[trigger] self.matches_at(buf, i),
        ensures
            self.pass_from(buf, s, buf.len()) == (buf, 0nat),
        decreases buf.len() - s,
    {
        if s < buf.len() && s + self.window_len() <= buf.len() {
            assert(!self.matches_at(buf, s as int));
            self.lemma_pass_without_matches(buf, s + 1);
        }
    }

    /// After one pass, no window of the contents is a full path.
    proof fn lemma_no_match_after_pass(&self, buf: Seq<u8>, i: int)
        requires
            self.wf(),
            no_self_overlap(self.prefix()),
            no_suffix_starts(self.replacement(), self.prefix()),
            no_prefix_ends(self.replacement(), self.prefix()),
            self.replacement() != self.prefix(),
            self.replacement_free(),
        ensures
            !self.matches_at(self.pass(buf).0, i),
    {
        let out = self.pass(buf).0;
        let p = self.prefix();
        let r = self.replacement();
        let n = p.len() as int;
        let l = self.window_len() as int;
        self.lemma_replace_all_rewrites_original_matches(buf);
        assert(n > 0) by {
            if n == 0 {
                assert(r =~= p);
            }
        }
        if self.matches_at(out, i) {
            let w = self.window(out, i);
            assert(p.is_prefix_of(w));
            assert forall|t: int| 0 <= t < n implies out[i + t] == #[trigger] p[t] by {
                assert(w[t] == out[i + t]);
            }
            if exists|k: int| i <= k < i + n && #[trigger] self.covered(buf, k) {
                let k = choose|k: int| i <= k < i + n && #[trigger] self.covered(buf, k);
                let m = choose|m: int| #[trigger] self.matches_at(buf, m) && m <= k < m + n;
                if m == i {
                    assert forall|t: int| 0 <= t < n implies #[trigger] r[t] == p[t] by {
                        assert(out[i + t] == r[i + t - m]);
                    }
                    assert(r =~= p);
                } else if m < i {
                    let d = i - m;
                    assert forall|t: int| 0 <= t < n - d implies #[trigger] r.skip(d)[t] == p.take(n - d)[t] by {
                        assert(out[i + t] == r[i + t - m]);
                        assert(out[i + t] == p[t]);
                    }
                    assert(r.skip(d) =~= p.take(n - d));
                } else {
                    let d = m - i;
                    assert forall|t: int| 0 <= t < n - d implies #[trigger] r.take(n - d)[t] == p.skip(d)[t] by {
                        assert(out[m + t] == r[m + t - m]);
                        assert(out[i + (d + t)] == p[d + t]);
                    }
                    assert(r.take(n - d) =~= p.skip(d));
                }
            } else {
                assert forall|t: int| 0 <= t < n implies buf[i + t] == #[trigger] p[t] by {
                    assert(!self.covered(buf, i + t));
                    assert(out[i + t] == buf[i + t]);
                }
                let bw = self.window(buf, i);
                if self.matches_at(buf, i) {
                    assert(self.covered(buf, i));
                }
                assert(p.is_prefix_of(bw)) by {
                    assert(bw.subrange(0, n) =~= p);
                }
                assert(!self.paths().contains(bw));
                assert(bw != w);
                assert(exists|k: int| i <= k < i + l && out[k] != buf[k]) by {
                    if forall|k: int| i <= k < i + l ==> out[k] == buf[k] {
                        assert(bw =~= w);
                    }
                }
                let k = choose|k: int| i <= k < i + l && out[k] != buf[k];
                assert(self.covered(buf, k));
                let m = choose|m: int| #[trigger] self.matches_at(buf, m) && m <= k < m + n;
                if m < i + n {
                    assert(self.covered(buf, m));
                    assert(m > i) by {
                        if m <= i {
                            assert(self.covered(buf, i));
                        }
                    }
                }
                assert(m >= i + n);
                let o = m - i;
                let e = if o + r.len() < l { o + r.len() } else { l };
                assert forall|t: int| 0 <= t < e - o implies #[trigger] w.subrange(o, e)[t] == r.take(e - o)[t] by {
                    assert(out[m + t] == r[m + t - m]);
                    assert(w[o + t] == out[i + o + t]);
                }
                assert(w.subrange(o, e) =~= r.take(e - o));
                assert(self.replacement_at(w, o));
                assert(self.paths().contains(w));
                assert(w.len() == l);
                assert(false);
            }
        }
    }

    /// Rewriting is idempotent: a second pass over rewritten contents finds
    /// no full path and changes nothing. This needs the conditions of
    /// `lemma_replace_all_rewrites_original_matches`, and also that the
    /// replacement differs from the prefix, that no part of it at its start
    /// ends the prefix, and that no full path holds it past its prefix.
    pub proof fn lemma_replace_all_idempotent(&self, buf: Seq<u8>)
        requires
            self.wf(),
            no_self_overlap(self.prefix()),
            no_suffix_starts(self.replacement(), self.prefix()),
            no_prefix_ends(self.replacement(), self.prefix()),
            self.replacement() != self.prefix(),
            self.replacement_free(),
        ensures
            self.pass(self.pass(buf).0).1 == 0,
            self.pass(self.pass(buf).0).0 == self.pass(buf).0,
    {
        let out = self.pass(buf).0;
        assert forall|i: int| 0 <= i implies !#[trigger] self.matches_at(out, i) by {
            self.lemma_no_match_after_pass(buf, i);
        }
        self.lemma_pass_without_matches(out, 0);
    }
}

/// The bytes of `/nix/store`.
pub open spec fn nix_store_bytes() -> Seq<u8> {
    seq![0x2fu8, 0x6eu8, 0x69u8, 0x78u8, 0x2fu8, 0x73u8, 0x74u8, 0x6fu8, 0x72u8, 0x65u8]
}

/// The bytes of `/tmp/runix`.
pub open spec fn tmp_runix_bytes() -> Seq<u8> {
    seq![0x2fu8, 0x74u8, 0x6du8, 0x70u8, 0x2fu8, 0x72u8, 0x75u8, 0x6eu8, 0x69u8, 0x78u8]
}

/// The default rewrite, `/nix/store` to `/tmp/runix`, meets the conditions of
/// `lemma_replace_all_rewrites_original_matches`: two occurrences of
/// `/nix/store` never overlap, and no suffix of `/tmp/runix` begins one.
pub proof fn lemma_default_prefixes_independent()
    ensures
        encode_utf8(nix_store()) == nix_store_bytes(),
        encode_utf8(tmp_runix()) == tmp_runix_bytes(),
        no_self_overlap(nix_store_bytes()),
        no_suffix_starts(tmp_runix_bytes(), nix_store_bytes()),
        no_prefix_ends(tmp_runix_bytes(), nix_store_bytes()),
        tmp_runix_bytes() != nix_store_bytes(),
{
    assert(is_ascii_chars(nix_store()));
    assert(is_ascii_chars(tmp_runix()));
    is_ascii_chars_encode_utf8(nix_store());
    is_ascii_chars_encode_utf8(tmp_runix());
    assert(encode_utf8(nix_store()) =~= nix_store_bytes());
    assert(encode_utf8(tmp_runix()) =~= tmp_runix_bytes());
    let p = nix_store_bytes();
    let r = tmp_runix_bytes();
    assert forall|d: int| 0 < d < p.len() implies #[trigger] p.skip(d) != p.take(p.len() - d) by {
        if d == 4 {
            assert(p.skip(d)[1] != p.take(p.len() - d)[1]);
        } else {
            assert(p.skip(d)[0] != p.take(p.len() - d)[0]);
        }
    }
    assert forall|d: int| 0 < d < p.len() implies #[trigger] r.skip(d) != p.take(p.len() - d) by {
        if d == 4 {
            assert(r.skip(d)[1] != p.take(p.len() - d)[1]);
        } else {
            assert(r.skip(d)[0] != p.take(p.len() - d)[0]);
        }
    }
    assert forall|d: int| 0 < d < p.len() implies #[trigger] r.take(p.len() - d) != p.skip(d) by {
        if d == 4 {
            assert(r.take(p.len() - d)[1] != p.skip(d)[1]);
        } else {
            assert(r.take(p.len() - d)[0] != p.skip(d)[0]);
        }
    }
    assert(r[1] != p[1]);
}

impl RewriteReferences {
    /// With the default rewrite, full paths that are `/nix/store/` followed
    /// by at least four bytes with no `/` among them (as the hash of a valid
    /// store identity is) never hold `/tmp/runix` past their prefix.
    pub proof fn lemma_default_replacement_free(&self)
        requires
            self.prefix() == nix_store_bytes(),
            self.replacement() == tmp_runix_bytes(),
            self.window_len() >= 15,
            forall|q: Seq<u8>| #[trigger] self.paths().contains(q) && q.len() == self.window_len() ==> {
                &&& q[10] == 0x2fu8
                &&& forall|j: int| 10 < j < q.len() ==> #[trigger] q[j] != 0x2fu8
            },
        ensures
            self.replacement_free(),
    {
        let r = tmp_runix_bytes();
        let l = self.window_len() as int;
        assert forall|q: Seq<u8>, o: int|
            self.paths().contains(q) && q.len() == self.window_len() && self.prefix().len() <= o < self.window_len()
                implies !#[trigger] self.replacement_at(q, o) by {
            let e = if o + r.len() < l { o + r.len() } else { l };
            if o == 10 {
                assert(q.subrange(o, e)[4] != r.take(e - o)[4]);
            } else {
                assert(q.subrange(o, e)[0] != r.take(e - o)[0]);
            }
        }
    }
}

/// The UTF-8 encoding of a character other than `/` holds no `/` byte:
/// one-byte encodings are the character itself, and every byte of a longer
/// one has its high bit set.
proof fn lemma_scalar_no_slash(c: char)
    requires
        c != '/',
    ensures
        forall|j: int| 0 <= j < encode_scalar(c as u32).len() ==> #[trigger] encode_scalar(c as u32)[j] != 0x2fu8,
{
    let v = c as u32;
    assert(v != 0x2f);
    assert(v <= 0x7f ==> (v & 0x7f) as u8 != 0x2fu8) by (bit_vector)
        requires v != 0x2f;
    assert((0xC0u8 | ((v >> 6) & 0x1F) as u8) != 0x2fu8) by (bit_vector);
    assert((0xE0u8 | ((v >> 12) & 0x0F) as u8) != 0x2fu8) by (bit_vector);
    assert((0xF0u8 | ((v >> 18) & 0x7) as u8) != 0x2fu8) by (bit_vector);
    assert((0x80u8 | (v & 0x3F) as u8) != 0x2fu8) by (bit_vector);
    assert((0x80u8 | ((v >> 6) & 0x3F) as u8) != 0x2fu8) by (bit_vector);
    assert((0x80u8 | ((v >> 12) & 0x3F) as u8) != 0x2fu8) by (bit_vector);
}

/// The UTF-8 encoding of a text without `/` holds no `/` byte.
proof fn lemma_encode_no_slash(s: Seq<char>)
    requires
        !s.contains('/'),
    ensures
        forall|j: int| 0 <= j < encode_utf8(s).len() ==> #[trigger] encode_utf8(s)[j] != 0x2fu8,
    decreases s.len(),
{
    if s.len() > 0 {
        assert(s[0] != '/');
        assert(!s.drop_first().contains('/')) by {
            if s.drop_first().contains('/') {
                let k = choose|k: int| 0 <= k < s.drop_first().len() && s.drop_first()[k] == '/';
                assert(s[k + 1] == '/');
            }
        }
        lemma_scalar_no_slash(s[0]);
        lemma_encode_no_slash(s.drop_first());
        let a = encode_scalar(s[0] as u32);
        let b = encode_utf8(s.drop_first());
        assert(encode_utf8(s) == a + b);
        assert forall|j: int| 0 <= j < encode_utf8(s).len() implies #[trigger] encode_utf8(s)[j] != 0x2fu8 by {
            if j < a.len() {
                assert((a + b)[j] == a[j]);
            } else {
                assert((a + b)[j] == b[j - a.len()]);
            }
        }
    }
}

impl RewriteReferences {
    /// A second rewrite finds nothing: for the default rewrite of
    /// `/nix/store` to `/tmp/runix` and references that are valid store
    /// identities (what `new` builds from them), a pass over contents that
    /// one pass has rewritten counts nothing and changes nothing.
    pub proof fn lemma_default_replace_all_idempotent(&self, refs: Seq<Seq<char>>, buf: Seq<u8>)
        requires
            self.wf(),
            self.prefix() == encode_utf8(nix_store()),
            self.replacement() == encode_utf8(tmp_runix()),
            self.paths().len() == refs.len(),
            forall|i: int| 0 <= i < refs.len() ==> #[trigger] self.paths()[i] == full_path_bytes(self.prefix(), refs[i]),
            forall|i: int| 0 <= i < refs.len() ==> valid_identity(#[trigger] refs[i]),
        ensures
            self.pass(self.pass(buf).0).1 == 0,
            self.pass(self.pass(buf).0).0 == self.pass(buf).0,
    {
        lemma_default_prefixes_independent();
        let p = nix_store_bytes();
        assert(self.paths()[0] == full_path_bytes(p, refs[0]));
        assert(valid_identity(refs[0]));
        assert(self.window_len() == 43);
        assert forall|q: Seq<u8>| #[trigger] self.paths().contains(q) && q.len() == self.window_len() implies {
            &&& q[10] == 0x2fu8
            &&& forall|j: int| 10 < j < q.len() ==> #[trigger] q[j] != 0x2fu8
        } by {
            let i = choose|i: int| 0 <= i < self.paths().len() && self.paths()[i] == q;
            let id = refs[i];
            assert(valid_identity(id));
            let h = hash_part(id);
            assert(!h.contains('/')) by {
                if h.contains('/') {
                    let k = choose|k: int| 0 <= k < h.len() && h[k] == '/';
                    id.index_of_first_ensures('-');
                    assert(id[k] == '/');
                    assert(id.contains('/'));
                }
            }
            lemma_encode_no_slash(h);
            assert(q == p + slash_bytes() + encode_utf8(h));
            assert forall|j: int| 10 < j < q.len() implies #[trigger] q[j] != 0x2fu8 by {
                assert(q[j] == encode_utf8(h)[j - 11]);
            }
        }
        self.lemma_default_replacement_free();
        self.lemma_replace_all_idempotent(buf);
    }
}

} // verus!
