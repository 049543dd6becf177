//! Where to put the `runix` symlink: the directories of a `PATH`-style value,
//! in `PATH` order.
use vstd::prelude::*;

verus! {

/// The separator of the directories in a `PATH`-style value.
pub const PATH_SEPARATOR: u8 = 0x3a;

/// How many bytes at the start of `s` come before the first `:`.
pub open spec fn dir_end(s: Seq<u8>) -> nat
    decreases s.len(),
{
    if s.len() == 0 || s[0] == PATH_SEPARATOR {
        0
    } else {
        1 + dir_end(s.drop_first())
    }
}

/// The non-empty pieces of `s` between `:` bytes, in order (what splitting
/// on `:` and dropping empty pieces yields).
pub open spec fn path_dirs(s: Seq<u8>) -> Seq<Seq<u8>>
    decreases s.len(),
{
    if s.len() == 0 {
        seq![]
    } else if s[0] == PATH_SEPARATOR {
        path_dirs(s.drop_first())
    } else {
        proof { lemma_dir_end_bound(s); }
        seq![s.take(dir_end(s) as int)] + path_dirs(s.skip(dir_end(s) as int))
    }
}

pub proof fn lemma_dir_end_bound(s: Seq<u8>)
    ensures
        dir_end(s) <= s.len(),
    decreases s.len(),
{
    if s.len() > 0 && s[0] != PATH_SEPARATOR {
        lemma_dir_end_bound(s.drop_first());
    }
}

proof fn lemma_dir_end(s: Seq<u8>, e: int)
    requires
        0 <= e <= s.len(),
        forall|k: int| 0 <= k < e ==> #[trigger] s[k] != PATH_SEPARATOR,
        e == s.len() || s[e] == PATH_SEPARATOR,
    ensures
        dir_end(s) == e,
    decreases e,
{
    if e > 0 {
        lemma_dir_end(s.drop_first(), e - 1);
    }
}

/// The views of a vector of byte vectors.
pub open spec fn bytes_view(v: Seq<Vec<u8>>) -> Seq<Seq<u8>> {
    v.map_values(|b: Vec<u8>| b@)
}

/// The directories of a `PATH`-style value in the order in which the
/// symlink is tried there: its non-empty `:`-separated pieces, in `PATH`
/// order, so that the first writeable one is used.
pub fn install_dirs(path: &[u8]) -> (r: Vec<Vec<u8>>)
    ensures
        bytes_view(r@) == path_dirs(path@),
{
    let mut acc: Vec<Vec<u8>> = Vec::new();
    let mut i: usize = 0;
    let n = path.len();
    assert(path@.skip(0) =~= path@);
    assert(bytes_view(acc@) + path_dirs(path@) =~= path_dirs(path@));
    while i < n
        invariant
            n == path@.len(),
            i <= n,
            bytes_view(acc@) + path_dirs(path@.skip(i as int)) == path_dirs(path@),
        decreases n - i,
    {
        let ghost rest = path@.skip(i as int);
        if path[i] == PATH_SEPARATOR {
            assert(rest.drop_first() =~= path@.skip(i + 1));
            i = i + 1;
        } else {
            let mut j = i;
            let mut dir: Vec<u8> = Vec::new();
            while j < n && path[j] != PATH_SEPARATOR
                invariant
                    n == path@.len(),
                    i <= j <= n,
                    dir@ == path@.subrange(i as int, j as int),
                    forall|k: int| i <= k < j ==> #[trigger] path@[k] != PATH_SEPARATOR,
                decreases n - j,
            {
                dir.push(path[j]);
                j = j + 1;
                assert(dir@ =~= path@.subrange(i as int, j as int));
            }
            proof {
                assert forall|k: int| 0 <= k < j - i implies #[trigger] rest[k] != PATH_SEPARATOR by {
                    assert(rest[k] == path@[i + k]);
                }
                lemma_dir_end(rest, j - i);
                assert(rest.take(j - i) =~= dir@);
                assert(rest.skip(j - i) =~= path@.skip(j as int));
            }
            let ghost before = acc@;
            acc.push(dir);
            assert(bytes_view(acc@) =~= bytes_view(before) + seq![dir@]);
            i = j;
        }
    }
    assert(path_dirs(path@.skip(n as int)) =~= Seq::<Seq<u8>>::empty());
    assert(bytes_view(acc@) + Seq::<Seq<u8>>::empty() =~= bytes_view(acc@));
    acc
}

} // verus!
