//! Where runix keeps its store, metadata and lock, and which prefix it rewrites.

use vstd::prelude::*;
use vstd::string::*;
use crate::error::Error;
use crate::store::StoreIdentity;
use crate::text::{chars_of, push_char};

verus! {

/// The store prefix that packages are built for.
pub open spec fn nix_store() -> Seq<char> {
    seq!['/', 'n', 'i', 'x', '/', 's', 't', 'o', 'r', 'e']
}

/// The prefix of the same length that runix rewrites it to.
pub open spec fn tmp_runix() -> Seq<char> {
    seq!['/', 't', 'm', 'p', '/', 'r', 'u', 'n', 'i', 'x']
}

/// A source prefix and the destination of the same length that replaces it.
#[derive(Clone, Debug)]
pub struct RewritePaths {
    pub src: &'static str,
    pub tmp_dest: &'static str,
}

impl Default for RewritePaths {
    fn default() -> (r: Self)
        ensures
            r.src@ == nix_store(),
            r.tmp_dest@ == tmp_runix(),
    {
        proof {
            reveal_strlit("/nix/store");
            reveal_strlit("/tmp/runix");
        }
        RewritePaths { src: "/nix/store", tmp_dest: "/tmp/runix" }
    }
}

/// What `Path::join` gives: an absolute `b` replaces `a`; otherwise `b` is
/// appended after a `/`, which is left out when `a` is empty or already ends
/// with one.
pub open spec fn path_join(a: Seq<char>, b: Seq<char>) -> Seq<char> {
    if b.len() > 0 && b[0] == '/' {
        b
    } else if a.len() > 0 && a.last() != '/' {
        a + seq!['/'] + b
    } else {
        a + b
    }
}

/// Joins two paths as `Path::join` does.
pub fn join_path(a: &str, b: &str) -> (r: String)
    ensures
        r@ == path_join(a@, b@),
{
    let bv = chars_of(b);
    if bv.len() > 0 && bv[0] == '/' {
        return b.to_owned();
    }
    let av = chars_of(a);
    let mut r = a.to_owned();
    if av.len() > 0 && av[av.len() - 1] != '/' {
        push_char(&mut r, '/');
    }
    r.append(b);
    r
}

/// The directory next to the store that holds the metadata of its entries,
/// for a store at `<root>/nix/store`.
pub open spec fn meta_dir(root: Seq<char>) -> Seq<char> {
    root + seq!['/', 'n', 'i', 'x', '/', 'i', 'n', 'f', 'o']
}

/// The paths that runix uses under its root directory.
#[derive(Clone, Debug)]
pub struct RuntimePaths {
    pub rewrite: RewritePaths,
    pub runix_root: String,
    pub store_path: String,
    pub meta_path: String,
    pub lock_path: String,
}

impl RuntimePaths {
    /// The store directory of `entry`.
    pub fn store_path_for(&self, entry: &StoreIdentity) -> (r: String)
        ensures
            r@ == path_join(self.store_path@, entry@),
    {
        join_path(self.store_path.as_str(), entry.directory())
    }

    /// The symlink to the runix implementation in use.
    pub fn current_symlink(&self) -> (r: String)
        ensures
            r@ == path_join(self.runix_root@, seq!['c', 'u', 'r', 'r', 'e', 'n', 't']),
    {
        proof { reveal_strlit("current"); }
        join_path(self.runix_root.as_str(), "current")
    }

    /// The paths under `runix_root`, which must be absolute: the store at
    /// `<root>/nix/store`, metadata in `<root>/nix/info` and the lock file
    /// `<root>/lock`.
    pub fn for_dest(runix_root: String) -> (r: Result<Self, Error>)
        ensures
            r is Ok <==> runix_root@.len() > 0 && runix_root@[0] == '/',
            r matches Ok(p) ==> {
                &&& p.runix_root@ == runix_root@
                &&& p.rewrite.src@ == nix_store()
                &&& p.rewrite.tmp_dest@ == tmp_runix()
                &&& p.store_path@ == runix_root@ + nix_store()
                &&& p.meta_path@ == meta_dir(runix_root@)
                &&& p.lock_path@ == runix_root@ + seq!['/', 'l', 'o', 'c', 'k']
            },
            r matches Err(e) ==> e matches Error::RootNotAbsolute(m) && m@ == runix_root@,
    {
        let v = chars_of(runix_root.as_str());
        if v.len() == 0 || v[0] != '/' {
            return Err(Error::RootNotAbsolute(runix_root));
        }
        let rewrite = RewritePaths::default();
        let mut store_path = runix_root.clone();
        store_path.append(rewrite.src);
        let mut meta_path = runix_root.clone();
        meta_path.append("/nix/info");
        let mut lock_path = runix_root.clone();
        lock_path.append("/lock");
        proof {
            reveal_strlit("/nix/info");
            reveal_strlit("/lock");
        }
        assert(meta_path@ =~= meta_dir(runix_root@));
        assert(lock_path@ =~= runix_root@ + seq!['/', 'l', 'o', 'c', 'k']);
        Ok(RuntimePaths { rewrite, runix_root, store_path, meta_path, lock_path })
    }
}

} // verus!
