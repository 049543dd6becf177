//! The walk that caches a store entry: each entry is looked up once, its
//! references are cached before it, and every entry reached is finished.
//!
//! The walk decides; the caller does the work. Each `CacheAction` is carried
//! out by the caller, which answers with a `CacheEvent`.

use vstd::prelude::*;
use crate::store::StoreIdentity;
use crate::cache::identities_view;

verus! {

/// What the caller is to do next.
#[derive(Debug)]
pub enum CacheAction {
    /// Find out whether the entry is already in the store and, if not, fetch
    /// its narinfo. Answer `Fetched` with its references, or `Cached`.
    Lookup(StoreIdentity),
    /// Load the metadata of the cached entry. Answer `MetaLoaded`.
    LoadMeta(StoreIdentity),
    /// Download and unpack the entry whose narinfo was fetched. Answer `Finished`.
    Download(StoreIdentity),
    /// Mark the cached entry as used. Answer `Finished`.
    Touch(StoreIdentity),
    /// The walk is over.
    Done,
}

/// What the caller found out while carrying out an action.
#[derive(Debug)]
pub enum CacheEvent {
    /// The narinfo was fetched; these are the entry's references.
    Fetched(Vec<StoreIdentity>),
    /// The entry is already in the store.
    Cached,
    /// The metadata was loaded; these are the entry's references.
    MetaLoaded(Vec<StoreIdentity>),
    /// The download or touch is done.
    Finished,
}

/// An entry whose references are being walked.
struct Frame {
    entry: StoreIdentity,
    deps: Vec<StoreIdentity>,
    next: usize,
    download: bool,
}

/// What the walk waits for.
enum Awaiting {
    Nothing,
    Lookup(StoreIdentity),
    Meta(StoreIdentity),
    Finish,
}

/// The state of a cache walk.
pub struct CacheWalk {
    check_all: bool,
    checked: Vec<StoreIdentity>,
    stack: Vec<Frame>,
    awaiting: Awaiting,
    finished: Ghost<Seq<Seq<char>>>,
    refs: Ghost<Map<Seq<char>, Seq<Seq<char>>>>,
    fetched: Ghost<Set<Seq<char>>>,
}

impl CacheWalk {
    /// The entries looked up so far, in order.
    pub closed spec fn checked(&self) -> Seq<Seq<char>> {
        identities_view(self.checked@)
    }

    /// The entries downloaded or touched so far, in order.
    pub closed spec fn finished(&self) -> Seq<Seq<char>> {
        self.finished@
    }

    /// The references reported for each entry.
    pub closed spec fn references(&self) -> Map<Seq<char>, Seq<Seq<char>>> {
        self.refs@
    }

    /// The entries whose lookup was answered `Fetched`.
    pub closed spec fn fetched(&self) -> Set<Seq<char>> {
        self.fetched@
    }

    /// Whether the references of entries already cached are walked too.
    pub closed spec fn checks_all(&self) -> bool {
        self.check_all
    }

    /// The entries being walked, the first one first, each with those of
    /// its references that are still to be walked, in order.
    pub closed spec fn frames(&self) -> Seq<(Seq<char>, Seq<Seq<char>>)> {
        self.stack@.map_values(|f: Frame| (f.entry@, identities_view(f.deps@).skip(f.next as int)))
    }

    /// The entry that an answer is awaited for, if any.
    pub closed spec fn awaiting_entry(&self) -> Option<Seq<char>> {
        match self.awaiting {
            Awaiting::Lookup(e) => Some(e@),
            Awaiting::Meta(e) => Some(e@),
            _ => None,
        }
    }

    /// `x` is being walked: looked up but not yet finished.
    pub closed spec fn active(&self, x: Seq<char>) -> bool {
        ||| exists|k: int| 0 <= k < self.stack@.len() && (#[trigger] self.stack@[k]).entry@ == x
        ||| self.awaiting_entry() == Some(x)
    }

    /// The walk is over.
    pub closed spec fn is_done(&self) -> bool {
        self.stack@.len() == 0 && self.awaiting is Nothing
    }

    /// Whether `event` is an answer to the last action.
    pub closed spec fn expects(&self, event: CacheEvent) -> bool {
        match self.awaiting {
            Awaiting::Lookup(_) => event is Fetched || event is Cached,
            Awaiting::Meta(_) => event is MetaLoaded,
            Awaiting::Finish => event is Finished,
            Awaiting::Nothing => false,
        }
    }

    /// The structure of the walk: every entry looked up is finished or
    /// active, and never both; every reference of a finished entry, and of
    /// the entries walked so far of an active one, is finished or active.
    closed spec fn walk_inv(&self) -> bool {
        &&& self.checked().no_duplicates()
        &&& self.finished().no_duplicates()
        &&& forall|x: Seq<char>| #[trigger] self.checked().contains(x)
            <==> (self.finished().contains(x) || self.active(x))
        &&& forall|x: Seq<char>| self.active(x) ==> !(#[trigger] self.finished().contains(x))
        &&& forall|i: int, j: int| 0 <= i < j < self.stack@.len()
            ==> (#[trigger] self.stack@[i]).entry@ != (#[trigger] self.stack@[j]).entry@
        &&& forall|k: int| 0 <= k < self.stack@.len()
            ==> Some((#[trigger] self.stack@[k]).entry@) != self.awaiting_entry()
        &&& forall|k: int| 0 <= k < self.stack@.len() ==> {
            let f = #[trigger] self.stack@[k];
            &&& f.next <= f.deps@.len()
            &&& self.refs@.contains_key(f.entry@)
            &&& self.refs@[f.entry@] == identities_view(f.deps@)
            &&& forall|j: int| 0 <= j < f.next ==>
                self.finished().contains(#[trigger] f.deps@[j]@) || self.active(f.deps@[j]@)
        }
        &&& forall|f: Seq<char>| #[trigger] self.finished().contains(f) ==> {
            &&& self.refs@.contains_key(f)
            &&& forall|d: Seq<char>| #[trigger] self.refs@[f].contains(d)
                ==> self.finished().contains(d) || self.active(d)
        }
    }

    /// An entry is marked for download exactly when its lookup was answered
    /// `Fetched`, and every such entry is being walked or finished.
    closed spec fn download_inv(&self) -> bool {
        &&& forall|k: int| 0 <= k < self.stack@.len() ==> ((#[trigger] self.stack@[k]).download
            <==> self.fetched@.contains(self.stack@[k].entry@))
        &&& forall|x: Seq<char>| #[trigger] self.fetched@.contains(x) ==> self.finished().contains(x)
            || exists|k: int| 0 <= k < self.stack@.len() && (#[trigger] self.stack@[k]).entry@ == x
    }

    /// The walk's invariant.
    /// Each entry being walked is a reference of the one walked before it,
    /// and the entry being looked up is a reference of the last one.
    closed spec fn chain_inv(&self) -> bool {
        &&& forall|k: int| 0 < k < self.stack@.len() ==>
            self.refs@[self.stack@[k - 1].entry@].contains(#[trigger] self.stack@[k].entry@)
        &&& (self.stack@.len() > 0 ==> (self.awaiting_entry() matches Some(a) ==>
            self.refs@[self.stack@.last().entry@].contains(a)))
    }

    /// The walk's invariant.
    pub closed spec fn wf(&self) -> bool {
        self.walk_inv() && self.download_inv() && self.chain_inv()
    }
}

/// Whether `v` holds an identity with the view `x`.
fn contains_identity(v: &Vec<StoreIdentity>, x: &StoreIdentity) -> (r: bool)
    ensures
        r == identities_view(v@).contains(x@),
{
    let mut i: usize = 0;
    while i < v.len()
        invariant
            i <= v@.len(),
            forall|j: int| 0 <= j < i ==> v@[j]@ != x@,
        decreases v@.len() - i,
    {
        if v[i].same_as(x) {
            assert(identities_view(v@)[i as int] == x@);
            return true;
        }
        i = i + 1;
    }
    proof {
        if identities_view(v@).contains(x@) {
            let k = choose|k: int| 0 <= k < identities_view(v@).len() && identities_view(v@)[k] == x@;
            assert(v@[k]@ == x@);
        }
    }
    false
}

impl CacheWalk {
    /// Starts caching `entry`; `check_all` also walks the references of
    /// entries that are already cached. The first action looks `entry` up.
    pub fn new(entry: &StoreIdentity, check_all: bool) -> (r: (CacheWalk, CacheAction))
        ensures
            r.0.wf(),
            r.0.checked() == seq![entry@],
            r.0.finished() == Seq::<Seq<char>>::empty(),
            r.0.fetched() == Set::<Seq<char>>::empty(),
            r.0.awaiting_entry() == Some(entry@),
            r.0.frames() == Seq::<(Seq<char>, Seq<Seq<char>>)>::empty(),
            r.0.checks_all() == check_all,
            r.1 matches CacheAction::Lookup(e) && e@ == entry@,
            forall|ev: CacheEvent| r.0.expects(ev) <==> (ev is Fetched || ev is Cached),
    {
        let mut checked: Vec<StoreIdentity> = Vec::new();
        checked.push(entry.copy_identity());
        let w = CacheWalk {
            check_all,
            checked,
            stack: Vec::new(),
            awaiting: Awaiting::Lookup(entry.copy_identity()),
            finished: Ghost(Seq::empty()),
            refs: Ghost(Map::empty()),
            fetched: Ghost(Set::empty()),
        };
        assert(w.checked() =~= seq![entry@]);
        assert(w.frames() =~= Seq::<(Seq<char>, Seq<Seq<char>>)>::empty());
        assert forall|x: Seq<char>| #[trigger] w.checked().contains(x)
            <==> (w.finished().contains(x) || w.active(x)) by {
            if w.checked().contains(x) {
                assert(w.checked()[0] == x);
            }
            if w.active(x) {
                assert(w.checked()[0] == x);
            }
        }
        (w, CacheAction::Lookup(entry.copy_identity()))
    }
}

/// `p` is a path along references: each entry of it is a reference of the
/// one before.
pub open spec fn ref_path(refs: Map<Seq<char>, Seq<Seq<char>>>, p: Seq<Seq<char>>) -> bool {
    &&& p.len() > 0
    &&& forall|i: int| 0 <= i < p.len() - 1 ==> refs.contains_key(#[trigger] p[i]) && refs[p[i]].contains(p[i + 1])
}

/// No path along references leads from an entry back to itself.
pub open spec fn acyclic(refs: Map<Seq<char>, Seq<Seq<char>>>) -> bool {
    forall|p: Seq<Seq<char>>| #[trigger] ref_path(refs, p) && p.len() > 1 ==> p[0] != p.last()
}

/// When entry `e` has just been finished: each reference of `e` that is not
/// finished yet is reached back from a path along references ending at
/// `e`; so, when no path along references returns to where it started, every
/// reference of `e` was finished before `e`.
pub open spec fn finished_after_references(w: CacheWalk, e: Seq<char>) -> bool {
    &&& forall|d: Seq<char>| #[trigger] w.references()[e].contains(d) && !w.finished().contains(d)
        ==> exists|p: Seq<Seq<char>>| ref_path(w.references(), p) && p[0] == d && p.last() == e
    &&& acyclic(w.references()) ==> forall|d: Seq<char>| #[trigger] w.references()[e].contains(d)
        ==> w.finished().drop_last().contains(d)
}

/// Deriving the acyclic reading of `finished_after_references` from the
/// paths.
proof fn lemma_finished_after_references(w: CacheWalk, e: Seq<char>)
    requires
        w.references().contains_key(e),
        w.finished().len() > 0,
        w.finished().last() == e,
        forall|d: Seq<char>| w.references()[e].contains(d) && !w.finished().contains(d)
            ==> exists|p: Seq<Seq<char>>| ref_path(w.references(), p) && p[0] == d && p.last() == e,
    ensures
        finished_after_references(w, e),
{
    let refs = w.references();
    let fin = w.finished();
    if acyclic(refs) {
        assert forall|d: Seq<char>| #[trigger] refs[e].contains(d) implies fin.drop_last().contains(d) by {
            if !fin.contains(d) {
                let p = choose|p: Seq<Seq<char>>| ref_path(refs, p) && p[0] == d && p.last() == e;
                let q = p.push(d);
                assert forall|i: int| 0 <= i < q.len() - 1 implies refs.contains_key(#[trigger] q[i])
                    && refs[q[i]].contains(q[i + 1]) by {
                    if i < p.len() - 1 {
                        assert(q[i] == p[i] && q[i + 1] == p[i + 1]);
                    } else {
                        assert(q[i] == e && q[i + 1] == d);
                    }
                }
                assert(ref_path(refs, q));
                assert(q[0] == q.last());
            } else if d == e {
                let q = seq![e, e];
                assert(ref_path(refs, q));
                assert(q[0] == q.last());
            } else {
                let i = choose|i: int| 0 <= i < fin.len() && fin[i] == d;
                assert(i != fin.len() - 1);
                assert(fin.drop_last()[i] == d);
            }
        }
    }
}

/// The position in `p` of its first entry that `checked` does not hold.
pub open spec fn first_unchecked(checked: Seq<Seq<char>>, p: Seq<Seq<char>>) -> Option<int>
    decreases p.len(),
{
    if p.len() == 0 {
        None
    } else if !checked.contains(p[0]) {
        Some(0)
    } else {
        match first_unchecked(checked, p.drop_first()) {
            Some(j) => Some(j + 1),
            None => None,
        }
    }
}

/// How the walk goes on from the entries being walked, `frames`, having
/// looked up `checked`: with nothing being walked it is done; otherwise the
/// first reference of the last entry that has not been looked up is looked
/// up, and the entry's references after it are left to walk; when there is
/// none, the last entry is downloaded or touched and is no longer walked.
pub open spec fn walks_on(
    frames: Seq<(Seq<char>, Seq<Seq<char>>)>,
    checked: Seq<Seq<char>>,
    action: CacheAction,
    after: Seq<(Seq<char>, Seq<Seq<char>>)>,
) -> bool {
    if frames.len() == 0 {
        action is Done && after == frames
    } else {
        let (t, p) = frames.last();
        match first_unchecked(checked, p) {
            Some(j) => action matches CacheAction::Lookup(e) && e@ == p[j]
                && after == frames.drop_last().push((t, p.skip(j + 1))),
            None => (action is Download || action is Touch) && finished_entry(action)@ == t
                && after == frames.drop_last(),
        }
    }
}

proof fn lemma_first_unchecked_skip(checked: Seq<Seq<char>>, p: Seq<Seq<char>>, k: int)
    requires
        0 <= k <= p.len(),
        forall|i: int| 0 <= i < k ==> checked.contains(#[trigger] p[i]),
    ensures
        first_unchecked(checked, p) == match first_unchecked(checked, p.skip(k)) {
            Some(j) => Some(j + k),
            None => None,
        },
    decreases k,
{
    if k == 0 {
        assert(p.skip(0) =~= p);
    } else {
        assert(checked.contains(p[0]));
        assert forall|i: int| 0 <= i < k - 1 implies checked.contains(#[trigger] p.drop_first()[i]) by {
            assert(p.drop_first()[i] == p[i + 1]);
        }
        lemma_first_unchecked_skip(checked, p.drop_first(), k - 1);
        assert(p.drop_first().skip(k - 1) =~= p.skip(k));
    }
}

impl CacheWalk {
    /// How many references the top entry has left to walk.
    closed spec fn top_remaining(&self) -> int {
        if self.stack@.len() > 0 {
            self.stack@.last().deps@.len() - self.stack@.last().next
        } else {
            0
        }
    }

    /// Walks on from the top entry: looks up its next reference that has not
    /// been looked up, or finishes it when none is left.
    fn advance(&mut self) -> (action: CacheAction)
        requires
            old(self).wf(),
            old(self).awaiting is Nothing,
        ensures
            final(self).wf(),
            final(self).references() == old(self).references(),
            final(self).check_all == old(self).check_all,
            final(self).fetched() == old(self).fetched(),
            action matches CacheAction::Download(e) ==> final(self).fetched().contains(e@),
            action matches CacheAction::Touch(e) ==> !final(self).fetched().contains(e@),
            action matches CacheAction::Lookup(e) ==> {
                &&& !old(self).checked().contains(e@)
                &&& final(self).checked() == old(self).checked().push(e@)
                &&& final(self).finished() == old(self).finished()
                &&& final(self).awaiting matches Awaiting::Lookup(a) && a@ == e@
            },
            (action is Download || action is Touch) ==> {
                let e = finished_entry(action);
                &&& final(self).checked() == old(self).checked()
                &&& final(self).finished() == old(self).finished().push(e@)
                &&& final(self).references().contains_key(e@)
                &&& forall|d: Seq<char>| #[trigger] final(self).references()[e@].contains(d)
                    ==> final(self).finished().contains(d) || final(self).active(d)
                &&& final(self).awaiting is Finish
            },
            action is Done ==> final(self).is_done() && final(self).checked() == old(self).checked()
                && final(self).finished() == old(self).finished(),
            !(action is LoadMeta),
            walks_on(old(self).frames(), old(self).checked(), action, final(self).frames()),
            (action is Download || action is Touch) ==> finished_after_references(*final(self), finished_entry(action)@),
    {
        let ghost frames0 = self.frames();
        let ghost checked0 = self.checked();
        let ghost p0 = if frames0.len() > 0 { frames0.last().1 } else { Seq::<Seq<char>>::empty() };
        let ghost mut skipped: int = 0;
        assert(frames0.len() > 0 ==> p0.skip(0) =~= p0);
        loop
            invariant
                self.wf(),
                self.awaiting is Nothing,
                self.checked() == old(self).checked(),
                self.finished() == old(self).finished(),
                self.references() == old(self).references(),
                self.check_all == old(self).check_all,
                self.fetched() == old(self).fetched(),
                frames0 == old(self).frames(),
                checked0 == old(self).checked(),
                p0 == (if frames0.len() > 0 { frames0.last().1 } else { Seq::<Seq<char>>::empty() }),
                self.frames().len() == frames0.len(),
                self.frames().len() > 0 ==> {
                    &&& self.frames().drop_last() == frames0.drop_last()
                    &&& self.frames().last().0 == frames0.last().0
                    &&& 0 <= skipped <= p0.len()
                    &&& self.frames().last().1 == p0.skip(skipped)
                    &&& forall|i: int| 0 <= i < skipped ==> checked0.contains(#[trigger] p0[i])
                },
            decreases self.top_remaining(),
        {
            let n = self.stack.len();
            if n == 0 {
                assert(self.frames() =~= frames0);
                return CacheAction::Done;
            }
            let ghost pre = *self;
            let mut f = self.stack.pop().unwrap();
            proof {
                assert(pre.stack@[n - 1] == f);
                assert(pre.frames()[n - 1] == (f.entry@, identities_view(f.deps@).skip(f.next as int)));
                assert(pre.frames().drop_last() =~= self.stack@.map_values(|g: Frame| (g.entry@, identities_view(g.deps@).skip(g.next as int))));
            }
            if f.next < f.deps.len() {
                let d = f.deps[f.next].copy_identity();
                let ghost cur = identities_view(f.deps@).skip(f.next as int);
                f.next = f.next + 1;
                self.stack.push(f);
                assert(self.stack@ == pre.stack@.update(n - 1, f));
                proof {
                    lemma_download_same(pre, *self);
                    assert(cur[0] == d@);
                    assert(p0[skipped] == d@);
                    assert(identities_view(f.deps@).skip(f.next as int) =~= cur.drop_first());
                    assert(cur.drop_first() =~= p0.skip(skipped + 1));
                    assert(self.frames() =~= pre.frames().drop_last().push((f.entry@, p0.skip(skipped + 1))));
                }
                proof {
                    assert(pre.stack@.last() == pre.stack@[n - 1]);
                    assert(identities_view(f.deps@)[f.next - 1] == d@);
                    assert(pre.refs@[pre.stack@[n - 1].entry@] == identities_view(pre.stack@[n - 1].deps@));
                }
                if contains_identity(&self.checked, &d) {
                    proof {
                        lemma_bump(pre, *self, d@);
                        lemma_chain_keep(pre, *self);
                        skipped = skipped + 1;
                    }
                    continue;
                }
                proof {
                    lemma_first_unchecked_skip(checked0, p0, skipped);
                    assert(p0.skip(skipped)[0] == d@);
                }
                let ghost prev_checked = self.checked@;
                self.checked.push(d.copy_identity());
                self.awaiting = Awaiting::Lookup(d.copy_identity());
                proof {
                    assert(identities_view(self.checked@) =~= identities_view(prev_checked).push(d@));
                    lemma_bump(pre, *self, d@);
                    lemma_download_same(pre, *self);
                    assert(self.stack@.last() == f);
                    lemma_chain_keep(pre, *self);
                }
                return CacheAction::Lookup(d);
            } else {
                let e = f.entry.copy_identity();
                self.finished = Ghost(self.finished@.push(e@));
                self.awaiting = Awaiting::Finish;
                let download = f.download;
                proof {
                    lemma_finish_top(pre, *self);
                    lemma_download_finish(pre, *self);
                    lemma_chain_finish(pre, *self);
                    assert(f.entry@ == pre.stack@.last().entry@);
                    assert forall|x: Seq<char>| self.references()[e@].contains(x) && !self.finished().contains(x)
                        implies exists|p: Seq<Seq<char>>| ref_path(self.references(), p) && p[0] == x && p.last() == e@ by {
                        assert(self.finished().contains(x) || self.active(x));
                        lemma_unfinished_reference_path(pre, *self, x);
                    }
                    lemma_finished_after_references(*self, e@);
                    assert(p0.skip(skipped).len() == 0);
                    lemma_first_unchecked_skip(checked0, p0, skipped);
                    assert(self.frames() =~= frames0.drop_last());
                }
                if download {
                    return CacheAction::Download(e);
                } else {
                    return CacheAction::Touch(e);
                }
            }
        }
    }
}

/// Moving the top entry on to its next reference `d`: when `d` was looked
/// up before nothing else changes; otherwise `d` is looked up now.
proof fn lemma_bump(pre: CacheWalk, post: CacheWalk, d: Seq<char>)
    requires
        pre.walk_inv(),
        pre.awaiting is Nothing,
        pre.stack@.len() > 0,
        pre.stack@.last().next < pre.stack@.last().deps@.len(),
        d == pre.stack@.last().deps@[pre.stack@.last().next as int]@,
        post.finished() == pre.finished(),
        post.refs@ == pre.refs@,
        post.stack@.len() == pre.stack@.len(),
        forall|k: int| 0 <= k < pre.stack@.len() - 1 ==> post.stack@[k] == pre.stack@[k],
        post.stack@.last().entry@ == pre.stack@.last().entry@,
        post.stack@.last().deps@ == pre.stack@.last().deps@,
        post.stack@.last().next == pre.stack@.last().next + 1,
        pre.checked().contains(d) ==> post.checked() == pre.checked() && post.awaiting is Nothing,
        !pre.checked().contains(d) ==> post.checked() == pre.checked().push(d)
            && post.awaiting_entry() == Some(d) && post.awaiting is Lookup,
    ensures
        post.walk_inv(),
{
    let top = pre.stack@.len() - 1;
    let fresh = !pre.checked().contains(d);
    assert forall|k: int| 0 <= k < pre.stack@.len() implies
        (#[trigger] post.stack@[k]).entry@ == pre.stack@[k].entry@ by {}
    assert forall|x: Seq<char>| post.active(x) <==> (pre.active(x) || (fresh && x == d)) by {
        if post.active(x) && post.awaiting_entry() != Some(x) {
            let k = choose|k: int| 0 <= k < post.stack@.len() && (#[trigger] post.stack@[k]).entry@ == x;
            assert(pre.stack@[k].entry@ == x);
        }
        if pre.active(x) {
            let k = choose|k: int| 0 <= k < pre.stack@.len() && (#[trigger] pre.stack@[k]).entry@ == x;
            assert(post.stack@[k].entry@ == x);
        }
    }
    assert forall|x: Seq<char>| #[trigger] post.checked().contains(x)
        <==> (post.finished().contains(x) || post.active(x)) by {
        if fresh {
            if pre.checked().push(d).contains(x) && x != d {
                let i = choose|i: int| 0 <= i < pre.checked().push(d).len() && pre.checked().push(d)[i] == x;
                assert(pre.checked()[i] == x);
            }
            if pre.checked().contains(x) {
                let i = choose|i: int| 0 <= i < pre.checked().len() && pre.checked()[i] == x;
                assert(pre.checked().push(d)[i] == x);
            }
            assert(pre.checked().push(d)[pre.checked().len() as int] == d);
        }
    }
    if fresh {
        assert forall|i: int, j: int| 0 <= i < j < post.checked().len() implies
            post.checked()[i] != post.checked()[j] by {
            if j == post.checked().len() - 1 {
                assert(pre.checked()[i] == post.checked()[i]);
            } else {
                assert(pre.checked()[i] == post.checked()[i]);
                assert(pre.checked()[j] == post.checked()[j]);
            }
        }
    }
    assert forall|k: int| 0 <= k < post.stack@.len() implies ({
        let f = #[trigger] post.stack@[k];
        &&& f.next <= f.deps@.len()
        &&& post.refs@.contains_key(f.entry@)
        &&& post.refs@[f.entry@] == identities_view(f.deps@)
        &&& forall|j: int| 0 <= j < f.next ==>
            post.finished().contains(#[trigger] f.deps@[j]@) || post.active(f.deps@[j]@)
    }) by {
        let f = post.stack@[k];
        let g = pre.stack@[k];
        assert forall|j: int| 0 <= j < f.next implies
            post.finished().contains(#[trigger] f.deps@[j]@) || post.active(f.deps@[j]@) by {
            if k == top && j == f.next - 1 {
                assert(f.deps@[j]@ == d);
                if !fresh {
                    assert(pre.checked().contains(d));
                }
            } else {
                assert(g.deps@[j] == f.deps@[j]);
                assert(pre.finished().contains(g.deps@[j]@) || pre.active(g.deps@[j]@));
            }
        }
    }
    assert forall|f: Seq<char>| #[trigger] post.finished().contains(f) implies {
        &&& post.refs@.contains_key(f)
        &&& forall|x: Seq<char>| #[trigger] post.refs@[f].contains(x)
            ==> post.finished().contains(x) || post.active(x)
    } by {
        assert(pre.refs@.contains_key(f));
        assert forall|x: Seq<char>| #[trigger] post.refs@[f].contains(x) implies
            post.finished().contains(x) || post.active(x) by {
            assert(pre.refs@[f].contains(x));
        }
    }
    assert forall|k: int| 0 <= k < post.stack@.len() implies
        Some((#[trigger] post.stack@[k]).entry@) != post.awaiting_entry() by {
        if fresh {
            assert(pre.active(pre.stack@[k].entry@));
        }
    }
    assert forall|i: int, j: int| 0 <= i < j < post.stack@.len() implies
        (#[trigger] post.stack@[i]).entry@ != (#[trigger] post.stack@[j]).entry@ by {
        assert(pre.stack@[i].entry@ != pre.stack@[j].entry@);
    }
}

/// Finishing the top entry once all its references have been walked.
proof fn lemma_finish_top(pre: CacheWalk, post: CacheWalk)
    requires
        pre.walk_inv(),
        pre.awaiting is Nothing,
        pre.stack@.len() > 0,
        pre.stack@.last().next >= pre.stack@.last().deps@.len(),
        post.stack@ == pre.stack@.drop_last(),
        post.checked() == pre.checked(),
        post.refs@ == pre.refs@,
        post.finished() == pre.finished().push(pre.stack@.last().entry@),
        post.awaiting is Finish,
    ensures
        post.walk_inv(),
        post.references().contains_key(pre.stack@.last().entry@),
        forall|d: Seq<char>| #[trigger] post.references()[pre.stack@.last().entry@].contains(d)
            ==> post.finished().contains(d) || post.active(d),
{
    let top = pre.stack@.len() - 1;
    let e = pre.stack@[top].entry@;
    assert(pre.active(e)) by { assert(pre.stack@[top].entry@ == e); }
    assert forall|x: Seq<char>| post.active(x) <==> (pre.active(x) && x != e) by {
        if post.active(x) {
            let k = choose|k: int| 0 <= k < post.stack@.len() && (#[trigger] post.stack@[k]).entry@ == x;
            assert(pre.stack@[k].entry@ == x);
            assert(pre.stack@[k].entry@ != pre.stack@[top].entry@);
        }
        if pre.active(x) && x != e {
            let k = choose|k: int| 0 <= k < pre.stack@.len() && (#[trigger] pre.stack@[k]).entry@ == x;
            assert(k != top);
            assert(post.stack@[k].entry@ == x);
        }
    }
    assert forall|x: Seq<char>| post.finished().contains(x) <==> (pre.finished().contains(x) || x == e) by {
        if post.finished().contains(x) && x != e {
            let i = choose|i: int| 0 <= i < post.finished().len() && post.finished()[i] == x;
            assert(pre.finished()[i] == x);
        }
        if pre.finished().contains(x) {
            let i = choose|i: int| 0 <= i < pre.finished().len() && pre.finished()[i] == x;
            assert(post.finished()[i] == x);
        }
        assert(post.finished()[pre.finished().len() as int] == e);
    }
    assert forall|x: Seq<char>| #[trigger] post.checked().contains(x)
        <==> (post.finished().contains(x) || post.active(x)) by {}
    assert forall|i: int, j: int| 0 <= i < j < post.finished().len() implies
        post.finished()[i] != post.finished()[j] by {
        if j == post.finished().len() - 1 {
            assert(pre.finished()[i] == post.finished()[i]);
            assert(pre.finished().contains(pre.finished()[i]));
        } else {
            assert(pre.finished()[i] == post.finished()[i]);
            assert(pre.finished()[j] == post.finished()[j]);
        }
    }
    let g = pre.stack@[top];
    assert forall|x: Seq<char>| #[trigger] post.references()[e].contains(x) implies
        post.finished().contains(x) || post.active(x) by {
        let j = choose|j: int| 0 <= j < identities_view(g.deps@).len() && identities_view(g.deps@)[j] == x;
        assert(g.deps@[j]@ == x);
        assert(pre.finished().contains(g.deps@[j]@) || pre.active(g.deps@[j]@));
    }
    assert forall|k: int| 0 <= k < post.stack@.len() implies ({
        let f = #[trigger] post.stack@[k];
        &&& f.next <= f.deps@.len()
        &&& post.refs@.contains_key(f.entry@)
        &&& post.refs@[f.entry@] == identities_view(f.deps@)
        &&& forall|j: int| 0 <= j < f.next ==>
            post.finished().contains(#[trigger] f.deps@[j]@) || post.active(f.deps@[j]@)
    }) by {
        let f = post.stack@[k];
        assert(f == pre.stack@[k]);
        assert forall|j: int| 0 <= j < f.next implies
            post.finished().contains(#[trigger] f.deps@[j]@) || post.active(f.deps@[j]@) by {
            assert(pre.finished().contains(f.deps@[j]@) || pre.active(f.deps@[j]@));
        }
    }
    assert forall|f: Seq<char>| #[trigger] post.finished().contains(f) implies {
        &&& post.refs@.contains_key(f)
        &&& forall|x: Seq<char>| #[trigger] post.refs@[f].contains(x)
            ==> post.finished().contains(x) || post.active(x)
    } by {
        if f != e {
            assert(pre.finished().contains(f));
            assert forall|x: Seq<char>| #[trigger] post.refs@[f].contains(x) implies
                post.finished().contains(x) || post.active(x) by {
                assert(pre.finished().contains(x) || pre.active(x));
            }
        }
    }
    assert forall|i: int, j: int| 0 <= i < j < post.stack@.len() implies
        (#[trigger] post.stack@[i]).entry@ != (#[trigger] post.stack@[j]).entry@ by {
        assert(pre.stack@[i].entry@ != pre.stack@[j].entry@);
    }
}

impl CacheWalk {
    /// Takes the answer to the last action and gives the next action. A
    /// fetched or loaded entry has its references walked before it is
    /// downloaded or touched; each reference not looked up before is looked
    /// up, and none is looked up twice. A cached entry is touched at once
    /// unless the walk checks all entries, in which case its metadata is
    /// loaded and its references walked first.
    pub fn step(&mut self, event: CacheEvent) -> (action: CacheAction)
        requires
            old(self).wf(),
            old(self).expects(event),
        ensures
            final(self).wf(),
            final(self).checks_all() == old(self).checks_all(),
            final(self).fetched() == (if event is Fetched {
                old(self).fetched().insert(old(self).awaiting_entry().unwrap())
            } else {
                old(self).fetched()
            }),
            action matches CacheAction::Download(e) ==> final(self).fetched().contains(e@),
            action matches CacheAction::Touch(e) ==> !final(self).fetched().contains(e@),
            action matches CacheAction::Lookup(e) ==> {
                &&& !old(self).checked().contains(e@)
                &&& final(self).checked() == old(self).checked().push(e@)
                &&& final(self).finished() == old(self).finished()
                &&& final(self).awaiting_entry() == Some(e@)
                &&& forall|ev: CacheEvent| final(self).expects(ev) <==> (ev is Fetched || ev is Cached)
            },
            action is LoadMeta ==> {
                &&& final(self).checked() == old(self).checked()
                &&& final(self).finished() == old(self).finished()
                &&& forall|ev: CacheEvent| final(self).expects(ev) <==> ev is MetaLoaded
            },
            (action is Download || action is Touch) ==> {
                let e = finished_entry(action);
                &&& final(self).checked() == old(self).checked()
                &&& final(self).finished() == old(self).finished().push(e@)
                &&& final(self).references().contains_key(e@)
                &&& forall|d: Seq<char>| #[trigger] final(self).references()[e@].contains(d)
                    ==> final(self).finished().contains(d) || final(self).active(d)
                &&& forall|ev: CacheEvent| final(self).expects(ev) <==> ev is Finished
            },
            action is Done ==> final(self).is_done()
                && final(self).checked() == old(self).checked()
                && final(self).finished() == old(self).finished(),
            (action is Download || action is Touch) ==> finished_after_references(*final(self), finished_entry(action)@),
            ({
                let fr = old(self).frames();
                let a = old(self).awaiting_entry().unwrap();
                let c = old(self).checked();
                match event {
                    CacheEvent::Fetched(d) => walks_on(fr.push((a, identities_view(d@))), c, action, final(self).frames()),
                    CacheEvent::MetaLoaded(d) => walks_on(fr.push((a, identities_view(d@))), c, action, final(self).frames()),
                    CacheEvent::Cached => if old(self).checks_all() {
                        action matches CacheAction::LoadMeta(e) && e@ == a && final(self).frames() == fr
                    } else {
                        walks_on(fr.push((a, Seq::empty())), c, action, final(self).frames())
                    },
                    CacheEvent::Finished => walks_on(fr, c, action, final(self).frames()),
                }
            }),
    {
        let ghost pre = *self;
        let mut awaiting = Awaiting::Nothing;
        std::mem::swap(&mut awaiting, &mut self.awaiting);
        match awaiting {
            Awaiting::Lookup(e) => {
                match event {
                    CacheEvent::Fetched(deps) => {
                        let ghost dv = identities_view(deps@);
                        self.refs = Ghost(self.refs@.insert(e@, identities_view(deps@)));
                        self.fetched = Ghost(self.fetched@.insert(e@));
                        self.stack.push(Frame { entry: e, deps, next: 0, download: true });
                        proof {
                            lemma_enter(pre, *self);
                            lemma_download_enter(pre, *self, true);
                            lemma_chain_enter(pre, *self);
                            assert(dv.skip(0) =~= dv);
                            assert(self.frames() =~= pre.frames().push((pre.awaiting_entry().unwrap(), dv)));
                        }
                        self.advance()
                    },
                    CacheEvent::Cached => {
                        if self.check_all {
                            let r = e.copy_identity();
                            self.awaiting = Awaiting::Meta(e);
                            proof {
                                lemma_same_active(pre, *self);
                                lemma_download_same(pre, *self);
                                lemma_chain_keep(pre, *self);
                                assert(self.frames() =~= pre.frames());
                            }
                            CacheAction::LoadMeta(r)
                        } else {
                            let deps: Vec<StoreIdentity> = Vec::new();
                            assert(identities_view(deps@).skip(0) =~= Seq::<Seq<char>>::empty());
                            self.refs = Ghost(self.refs@.insert(e@, identities_view(deps@)));
                            self.stack.push(Frame { entry: e, deps, next: 0, download: false });
                            proof {
                                lemma_enter(pre, *self);
                                lemma_download_enter(pre, *self, false);
                                lemma_chain_enter(pre, *self);
                                assert(self.frames() =~= pre.frames().push((pre.awaiting_entry().unwrap(), Seq::empty())));
                            }
                            self.advance()
                        }
                    },
                    _ => { CacheAction::Done },
                }
            },
            Awaiting::Meta(e) => {
                match event {
                    CacheEvent::MetaLoaded(deps) => {
                        let ghost dv = identities_view(deps@);
                        self.refs = Ghost(self.refs@.insert(e@, identities_view(deps@)));
                        self.stack.push(Frame { entry: e, deps, next: 0, download: false });
                        proof {
                            lemma_enter(pre, *self);
                            lemma_download_enter(pre, *self, false);
                            lemma_chain_enter(pre, *self);
                            assert(dv.skip(0) =~= dv);
                            assert(self.frames() =~= pre.frames().push((pre.awaiting_entry().unwrap(), dv)));
                        }
                        self.advance()
                    },
                    _ => { CacheAction::Done },
                }
            },
            Awaiting::Finish => {
                proof {
                    lemma_same_active(pre, *self);
                    lemma_download_same(pre, *self);
                    lemma_chain_keep(pre, *self);
                    assert(self.frames() =~= pre.frames());
                }
                self.advance()
            },
            Awaiting::Nothing => { CacheAction::Done },
        }
    }
}

/// Waiting for another kind of answer about the same entry keeps the invariant.
proof fn lemma_same_active(pre: CacheWalk, post: CacheWalk)
    requires
        pre.walk_inv(),
        post.checked() == pre.checked(),
        post.finished() == pre.finished(),
        post.refs@ == pre.refs@,
        post.stack@ == pre.stack@,
        post.awaiting_entry() == pre.awaiting_entry(),
    ensures
        post.walk_inv(),
{
    assert forall|x: Seq<char>| post.active(x) <==> pre.active(x) by {
        if post.active(x) && post.awaiting_entry() != Some(x) {
            let k = choose|k: int| 0 <= k < post.stack@.len() && (#[trigger] post.stack@[k]).entry@ == x;
            assert(pre.stack@[k].entry@ == x);
        }
        if pre.active(x) && pre.awaiting_entry() != Some(x) {
            let k = choose|k: int| 0 <= k < pre.stack@.len() && (#[trigger] pre.stack@[k]).entry@ == x;
            assert(post.stack@[k].entry@ == x);
        }
    }
}

/// The awaited entry, with its references now known, starts being walked.
proof fn lemma_enter(pre: CacheWalk, post: CacheWalk)
    requires
        pre.walk_inv(),
        pre.awaiting_entry() is Some,
        post.awaiting is Nothing,
        post.checked() == pre.checked(),
        post.finished() == pre.finished(),
        post.stack@.len() == pre.stack@.len() + 1,
        forall|k: int| 0 <= k < pre.stack@.len() ==> post.stack@[k] == pre.stack@[k],
        post.stack@.last().entry@ == pre.awaiting_entry().unwrap(),
        post.stack@.last().next == 0,
        post.refs@ == pre.refs@.insert(post.stack@.last().entry@, identities_view(post.stack@.last().deps@)),
    ensures
        post.walk_inv(),
{
    let e = pre.awaiting_entry().unwrap();
    let top = pre.stack@.len() as int;
    assert forall|x: Seq<char>| post.active(x) <==> pre.active(x) by {
        if post.active(x) {
            let k = choose|k: int| 0 <= k < post.stack@.len() && (#[trigger] post.stack@[k]).entry@ == x;
            if k < top {
                assert(pre.stack@[k].entry@ == x);
            }
        }
        if pre.active(x) {
            if pre.awaiting_entry() == Some(x) {
                assert(post.stack@[top].entry@ == x);
            } else {
                let k = choose|k: int| 0 <= k < pre.stack@.len() && (#[trigger] pre.stack@[k]).entry@ == x;
                assert(post.stack@[k].entry@ == x);
            }
        }
    }
    assert(!pre.finished().contains(e));
    assert forall|k: int| 0 <= k < post.stack@.len() implies ({
        let f = #[trigger] post.stack@[k];
        &&& f.next <= f.deps@.len()
        &&& post.refs@.contains_key(f.entry@)
        &&& post.refs@[f.entry@] == identities_view(f.deps@)
        &&& forall|j: int| 0 <= j < f.next ==>
            post.finished().contains(#[trigger] f.deps@[j]@) || post.active(f.deps@[j]@)
    }) by {
        let f = post.stack@[k];
        if k < top {
            assert(f == pre.stack@[k]);
            assert(f.entry@ != e) by {
                assert(Some(pre.stack@[k].entry@) != pre.awaiting_entry());
            }
            assert forall|j: int| 0 <= j < f.next implies
                post.finished().contains(#[trigger] f.deps@[j]@) || post.active(f.deps@[j]@) by {
                assert(pre.finished().contains(f.deps@[j]@) || pre.active(f.deps@[j]@));
            }
        }
    }
    assert forall|f: Seq<char>| #[trigger] post.finished().contains(f) implies {
        &&& post.refs@.contains_key(f)
        &&& forall|x: Seq<char>| #[trigger] post.refs@[f].contains(x)
            ==> post.finished().contains(x) || post.active(x)
    } by {
        assert(f != e);
        assert forall|x: Seq<char>| #[trigger] post.refs@[f].contains(x) implies
            post.finished().contains(x) || post.active(x) by {
            assert(pre.refs@[f].contains(x));
            assert(pre.finished().contains(x) || pre.active(x));
        }
    }
    assert forall|i: int, j: int| 0 <= i < j < post.stack@.len() implies
        (#[trigger] post.stack@[i]).entry@ != (#[trigger] post.stack@[j]).entry@ by {
        if j < top {
            assert(pre.stack@[i].entry@ != pre.stack@[j].entry@);
        } else {
            assert(Some(pre.stack@[i].entry@) != pre.awaiting_entry());
        }
    }
}

/// The frames keep their entries and download marks: the download
/// invariant is kept.
proof fn lemma_download_same(pre: CacheWalk, post: CacheWalk)
    requires
        pre.download_inv(),
        post.fetched@ == pre.fetched@,
        post.finished() == pre.finished(),
        post.stack@.len() == pre.stack@.len(),
        forall|k: int| 0 <= k < pre.stack@.len() ==> (#[trigger] post.stack@[k]).entry@ == pre.stack@[k].entry@
            && post.stack@[k].download == pre.stack@[k].download,
    ensures
        post.download_inv(),
{
    assert forall|k: int| 0 <= k < post.stack@.len() implies ((#[trigger] post.stack@[k]).download
        <==> post.fetched@.contains(post.stack@[k].entry@)) by {
        assert(pre.stack@[k].download <==> pre.fetched@.contains(pre.stack@[k].entry@));
    }
    assert forall|x: Seq<char>| #[trigger] post.fetched@.contains(x) implies post.finished().contains(x)
        || exists|k: int| 0 <= k < post.stack@.len() && (#[trigger] post.stack@[k]).entry@ == x by {
        if !pre.finished().contains(x) {
            let k = choose|k: int| 0 <= k < pre.stack@.len() && (#[trigger] pre.stack@[k]).entry@ == x;
            assert(post.stack@[k].entry@ == x);
        }
    }
}

/// Finishing the top entry keeps the download invariant.
proof fn lemma_download_finish(pre: CacheWalk, post: CacheWalk)
    requires
        pre.download_inv(),
        pre.stack@.len() > 0,
        post.stack@ == pre.stack@.drop_last(),
        post.finished() == pre.finished().push(pre.stack@.last().entry@),
        post.fetched@ == pre.fetched@,
    ensures
        post.download_inv(),
{
    let top = pre.stack@.len() - 1;
    assert forall|k: int| 0 <= k < post.stack@.len() implies ((#[trigger] post.stack@[k]).download
        <==> post.fetched@.contains(post.stack@[k].entry@)) by {
        assert(post.stack@[k] == pre.stack@[k]);
        assert(pre.stack@[k].download <==> pre.fetched@.contains(pre.stack@[k].entry@));
    }
    assert forall|x: Seq<char>| #[trigger] post.fetched@.contains(x) implies post.finished().contains(x)
        || exists|k: int| 0 <= k < post.stack@.len() && (#[trigger] post.stack@[k]).entry@ == x by {
        if pre.finished().contains(x) {
            let i = choose|i: int| 0 <= i < pre.finished().len() && pre.finished()[i] == x;
            assert(post.finished()[i] == x);
        } else {
            let k = choose|k: int| 0 <= k < pre.stack@.len() && (#[trigger] pre.stack@[k]).entry@ == x;
            if k == top {
                assert(post.finished()[pre.finished().len() as int] == x);
            } else {
                assert(post.stack@[k].entry@ == x);
            }
        }
    }
}

/// The awaited entry starts being walked, marked for download exactly when
/// its lookup was answered `Fetched`: the download invariant is kept.
proof fn lemma_download_enter(pre: CacheWalk, post: CacheWalk, fetched: bool)
    requires
        pre.wf(),
        pre.awaiting_entry() is Some,
        post.finished() == pre.finished(),
        post.stack@.len() == pre.stack@.len() + 1,
        forall|k: int| 0 <= k < pre.stack@.len() ==> post.stack@[k] == pre.stack@[k],
        post.stack@.last().entry@ == pre.awaiting_entry().unwrap(),
        post.stack@.last().download == fetched,
        post.fetched@ == (if fetched { pre.fetched@.insert(pre.awaiting_entry().unwrap()) } else { pre.fetched@ }),
    ensures
        post.download_inv(),
{
    let e = pre.awaiting_entry().unwrap();
    let top = pre.stack@.len() as int;
    assert(pre.active(e));
    assert(!pre.fetched@.contains(e)) by {
        if pre.fetched@.contains(e) {
            assert(!pre.finished().contains(e));
            let k = choose|k: int| 0 <= k < pre.stack@.len() && (#[trigger] pre.stack@[k]).entry@ == e;
            assert(Some(pre.stack@[k].entry@) != pre.awaiting_entry());
        }
    }
    assert forall|k: int| 0 <= k < post.stack@.len() implies ((#[trigger] post.stack@[k]).download
        <==> post.fetched@.contains(post.stack@[k].entry@)) by {
        if k < top {
            assert(post.stack@[k] == pre.stack@[k]);
            assert(Some(pre.stack@[k].entry@) != pre.awaiting_entry());
            assert(pre.stack@[k].download <==> pre.fetched@.contains(pre.stack@[k].entry@));
        }
    }
    assert forall|x: Seq<char>| #[trigger] post.fetched@.contains(x) implies post.finished().contains(x)
        || exists|k: int| 0 <= k < post.stack@.len() && (#[trigger] post.stack@[k]).entry@ == x by {
        if x == e {
            assert(post.stack@[top].entry@ == x);
        } else if !pre.finished().contains(x) {
            let k = choose|k: int| 0 <= k < pre.stack@.len() && (#[trigger] pre.stack@[k]).entry@ == x;
            assert(post.stack@[k].entry@ == x);
        }
    }
}

/// The frames keep their entries, and the entry looked up, if any, is a
/// reference of the last one: the chain invariant is kept.
proof fn lemma_chain_keep(pre: CacheWalk, post: CacheWalk)
    requires
        pre.chain_inv(),
        post.refs@ == pre.refs@,
        post.stack@.len() == pre.stack@.len(),
        forall|k: int| 0 <= k < pre.stack@.len() ==> (#[trigger] post.stack@[k]).entry@ == pre.stack@[k].entry@,
        post.stack@.len() > 0 ==> (post.awaiting_entry() matches Some(a) ==>
            post.refs@[post.stack@.last().entry@].contains(a)),
    ensures
        post.chain_inv(),
{
    assert forall|k: int| 0 < k < post.stack@.len() implies
        post.refs@[post.stack@[k - 1].entry@].contains(#[trigger] post.stack@[k].entry@) by {
        assert(post.stack@[k - 1].entry@ == pre.stack@[k - 1].entry@);
        assert(pre.refs@[pre.stack@[k - 1].entry@].contains(pre.stack@[k].entry@));
    }
}

/// Finishing the top entry keeps the chain invariant.
proof fn lemma_chain_finish(pre: CacheWalk, post: CacheWalk)
    requires
        pre.chain_inv(),
        pre.stack@.len() > 0,
        post.refs@ == pre.refs@,
        post.stack@ == pre.stack@.drop_last(),
        post.awaiting_entry() is None,
    ensures
        post.chain_inv(),
{
    assert forall|k: int| 0 < k < post.stack@.len() implies
        post.refs@[post.stack@[k - 1].entry@].contains(#[trigger] post.stack@[k].entry@) by {
        assert(pre.refs@[pre.stack@[k - 1].entry@].contains(pre.stack@[k].entry@));
    }
}

/// The awaited entry starts being walked: the chain invariant is kept.
proof fn lemma_chain_enter(pre: CacheWalk, post: CacheWalk)
    requires
        pre.wf(),
        pre.awaiting_entry() is Some,
        post.awaiting_entry() is None,
        post.stack@.len() == pre.stack@.len() + 1,
        forall|k: int| 0 <= k < pre.stack@.len() ==> post.stack@[k] == pre.stack@[k],
        post.stack@.last().entry@ == pre.awaiting_entry().unwrap(),
        post.refs@ == pre.refs@.insert(post.stack@.last().entry@, identities_view(post.stack@.last().deps@)),
    ensures
        post.chain_inv(),
{
    let a = pre.awaiting_entry().unwrap();
    let top = pre.stack@.len() as int;
    assert forall|k: int| 0 < k < post.stack@.len() implies
        post.refs@[post.stack@[k - 1].entry@].contains(#[trigger] post.stack@[k].entry@) by {
        assert(Some(pre.stack@[k - 1].entry@) != pre.awaiting_entry());
        if k < top {
            assert(pre.refs@[pre.stack@[k - 1].entry@].contains(pre.stack@[k].entry@));
        } else {
            assert(pre.stack@[k - 1] == pre.stack@.last());
        }
    }
}

/// When the top entry is finished, each of its references that is not yet
/// finished is an entry still being walked, from which a path along
/// references leads to the finished entry.
proof fn lemma_unfinished_reference_path(pre: CacheWalk, post: CacheWalk, d: Seq<char>)
    requires
        pre.walk_inv(),
        pre.chain_inv(),
        pre.stack@.len() > 0,
        post.refs@ == pre.refs@,
        post.stack@ == pre.stack@.drop_last(),
        post.awaiting_entry() is None,
        post.active(d),
    ensures
        exists|p: Seq<Seq<char>>| ref_path(post.references(), p) && p[0] == d
            && p.last() == pre.stack@.last().entry@,
{
    let top = pre.stack@.len() - 1;
    let k = choose|k: int| 0 <= k < post.stack@.len() && (#[trigger] post.stack@[k]).entry@ == d;
    let p = pre.stack@.subrange(k, top + 1).map_values(|f: Frame| f.entry@);
    assert forall|i: int| 0 <= i < p.len() - 1 implies post.references().contains_key(#[trigger] p[i])
        && post.references()[p[i]].contains(p[i + 1]) by {
        assert(p[i] == pre.stack@[k + i].entry@);
        assert(p[i + 1] == pre.stack@[k + i + 1].entry@);
        assert(pre.refs@[pre.stack@[k + i].entry@].contains(pre.stack@[k + i + 1].entry@));
        assert(pre.refs@.contains_key(pre.stack@[k + i].entry@));
    }
    assert(p[0] == d);
    assert(p.last() == pre.stack@[top].entry@);
    assert(ref_path(post.references(), p));
}

/// When the walk is over, every entry looked up has been finished, and every
/// reference of a finished entry has been finished too: all that the first
/// entry needs is in the store.
pub proof fn lemma_done_is_closed(w: CacheWalk)
    requires
        w.wf(),
        w.is_done(),
    ensures
        forall|x: Seq<char>| #[trigger] w.checked().contains(x) <==> w.finished().contains(x),
        forall|f: Seq<char>, d: Seq<char>|
            w.finished().contains(f) && #[trigger] w.references()[f].contains(d)
                ==> w.finished().contains(d),
        forall|f: Seq<char>| #[trigger] w.finished().contains(f) ==> w.references().contains_key(f),
{
    assert forall|x: Seq<char>| !w.active(x) by {}
    assert forall|f: Seq<char>, d: Seq<char>|
        w.finished().contains(f) && #[trigger] w.references()[f].contains(d)
            implies w.finished().contains(d) by {
        assert(w.finished().contains(d) || w.active(d));
    }
}

/// The entry that a `Download` or `Touch` action finishes.
pub open spec fn finished_entry(action: CacheAction) -> StoreIdentity {
    if let CacheAction::Download(e) = action { e } else if let CacheAction::Touch(e) = action { e } else { arbitrary() }
}

/// No entry is looked up twice, and none is downloaded or touched twice.
pub proof fn lemma_each_entry_once(w: CacheWalk)
    requires
        w.wf(),
    ensures
        w.checked().no_duplicates(),
        w.finished().no_duplicates(),
        forall|x: Seq<char>| #[trigger] w.finished().contains(x) ==> w.checked().contains(x),
{
}

} // verus!
