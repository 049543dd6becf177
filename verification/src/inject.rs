//! Remapping `/nix/` paths under the runix root, as the preload hook does.

use vstd::prelude::*;

verus! {

/// The bytes of `/nix/`.
pub open spec fn nix_dir_bytes() -> Seq<u8> {
    seq![0x2fu8, 0x6eu8, 0x69u8, 0x78u8, 0x2fu8]
}

/// Prefixes paths that begin with `/nix/` with the runix root.
#[derive(Debug)]
pub struct Remap {
    src: Vec<u8>,
    dest_prefix: Vec<u8>,
}

impl Remap {
    /// The prefix that selects the paths to remap.
    pub closed spec fn src(&self) -> Seq<u8> {
        self.src@
    }

    /// The root put in front of a remapped path.
    pub closed spec fn dest_prefix(&self) -> Seq<u8> {
        self.dest_prefix@
    }

    /// Remaps `/nix/` paths under `dest_prefix`, which must be absolute.
    pub fn for_dest(dest_prefix: Vec<u8>) -> (r: Remap)
        requires
            dest_prefix@.len() > 0 && dest_prefix@[0] == 0x2fu8,
        ensures
            r.src() == nix_dir_bytes(),
            r.dest_prefix() == dest_prefix@,
    {
        let mut src: Vec<u8> = Vec::new();
        src.push(0x2f);
        src.push(0x6e);
        src.push(0x69);
        src.push(0x78);
        src.push(0x2f);
        assert(src@ =~= nix_dir_bytes());
        Remap { src, dest_prefix }
    }

    /// The path to use for `bytes`: the root followed by the whole path when
    /// it begins with `/nix/`, otherwise the path unchanged.
    pub fn intercept(&self, bytes: &[u8]) -> (r: Vec<u8>)
        ensures
            self.src().is_prefix_of(bytes@) ==> r@ == self.dest_prefix() + bytes@,
            !self.src().is_prefix_of(bytes@) ==> r@ == bytes@,
    {
        let mut is_prefix = self.src.len() <= bytes.len();
        let mut i: usize = 0;
        while is_prefix && i < self.src.len()
            invariant
                is_prefix ==> self.src@.len() <= bytes@.len(),
                i <= self.src@.len(),
                is_prefix ==> forall|j: int| 0 <= j < i ==> self.src@[j] == bytes@[j],
                !is_prefix ==> !self.src@.is_prefix_of(bytes@),
            decreases self.src@.len() - i + (if is_prefix { 1int } else { 0int }),
        {
            if self.src[i] != bytes[i] {
                assert(!self.src@.is_prefix_of(bytes@)) by {
                    if self.src@.is_prefix_of(bytes@) {
                        assert(bytes@.subrange(0, self.src@.len() as int)[i as int] == bytes@[i as int]);
                    }
                }
                is_prefix = false;
            } else {
                i = i + 1;
            }
        }
        if is_prefix {
            assert(self.src@ =~= bytes@.subrange(0, self.src@.len() as int));
            let mut r: Vec<u8> = Vec::new();
            let mut k: usize = 0;
            while k < self.dest_prefix.len()
                invariant
                    k <= self.dest_prefix@.len(),
                    r@ == self.dest_prefix@.take(k as int),
                decreases self.dest_prefix@.len() - k,
            {
                r.push(self.dest_prefix[k]);
                k = k + 1;
                assert(r@ =~= self.dest_prefix@.take(k as int));
            }
            let mut k: usize = 0;
            while k < bytes.len()
                invariant
                    k <= bytes@.len(),
                    r@ == self.dest_prefix@ + bytes@.take(k as int),
                decreases bytes@.len() - k,
            {
                r.push(bytes[k]);
                k = k + 1;
                assert(r@ =~= self.dest_prefix@ + bytes@.take(k as int));
            }
            assert(bytes@.take(bytes@.len() as int) =~= bytes@);
            r
        } else {
            let mut r: Vec<u8> = Vec::new();
            let mut k: usize = 0;
            while k < bytes.len()
                invariant
                    k <= bytes@.len(),
                    r@ == bytes@.take(k as int),
                decreases bytes@.len() - k,
            {
                r.push(bytes[k]);
                k = k + 1;
                assert(r@ =~= bytes@.take(k as int));
            }
            assert(bytes@.take(bytes@.len() as int) =~= bytes@);
            r
        }
    }
}

} // verus!
