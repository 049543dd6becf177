//! Binary caches: servers, narinfo responses and the walk that fetches a
//! store entry together with everything it references.

use vstd::prelude::*;
use vstd::string::*;
use crate::error::{Error, ErrorView};
use crate::store::{StoreIdentity, valid_identity};
use crate::paths::RuntimePaths;
use crate::text::{chars_of, chars_eq, string_of, words, lines, words_in, char_vecs_view, lemma_line_end,
    push_char};

verus! {

/// A binary cache, by the URL of its root, which ends with `/`.
#[derive(Debug)]
pub struct Server {
    pub root: String,
}

/// `root` with a `/` appended unless it already ends with one.
pub open spec fn with_trailing_slash(root: Seq<char>) -> Seq<char> {
    if root.len() > 0 && root.last() == '/' {
        root
    } else {
        root.push('/')
    }
}

impl PartialEq for Server {
    fn eq(&self, other: &Self) -> (r: bool) {
        self.root == other.root
    }
}

impl vstd::std_specs::cmp::PartialEqSpecImpl for Server {
    open spec fn obeys_eq_spec() -> bool {
        true
    }

    open spec fn eq_spec(&self, other: &Self) -> bool {
        self.root@ == other.root@
    }
}

impl Server {
    /// The server rooted at `root`, with a `/` appended when it lacks one.
    pub fn from(root: String) -> (r: Server)
        ensures
            r.root@ == with_trailing_slash(root@),
    {
        let v = chars_of(root.as_str());
        let mut root = root;
        if !(v.len() > 0 && v[v.len() - 1] == '/') {
            push_char(&mut root, '/');
        }
        Server { root }
    }

    /// The server rooted at `root` (see `from`).
    pub fn from_str(root: &str) -> (r: Server)
        ensures
            r.root@ == with_trailing_slash(root@),
    {
        Self::from(root.to_owned())
    }

    /// The root URL.
    pub fn to_string(&self) -> (r: String)
        ensures
            r@ == self.root@,
    {
        self.root.clone()
    }

    /// A copy of this server.
    pub fn copy_server(&self) -> (r: Server)
        ensures
            r.root@ == self.root@,
    {
        Server { root: self.root.clone() }
    }

    /// The URL of the narinfo of `entry`: the root, the hash and `.narinfo`.
    pub fn narinfo_url(&self, entry: &StoreIdentity) -> (r: String)
        requires
            entry.has_pair(),
        ensures
            r@ == self.root@ + crate::store::hash_part(entry@) + narinfo_suffix(),
    {
        let mut r = self.root.clone();
        r.append(entry.hash());
        r.append(".narinfo");
        proof { reveal_strlit(".narinfo"); }
        r
    }

    /// The URL of the archive that `narinfo` describes: the root and its URL.
    pub fn nar_url(&self, narinfo: &NarInfo) -> (r: String)
        ensures
            r@ == self.root@ + narinfo.url(),
    {
        let mut r = self.root.clone();
        r.append(narinfo.url.as_str());
        r
    }
}

pub open spec fn narinfo_suffix() -> Seq<char> {
    seq!['.', 'n', 'a', 'r', 'i', 'n', 'f', 'o']
}

/// How an archive is compressed.
#[derive(Copy, Clone, Debug, PartialEq, Eq, Structural)]
pub enum Compression {
    XZ,
    Zstd,
}

pub open spec fn xz_chars() -> Seq<char> { seq!['x', 'z'] }
pub open spec fn zstd_chars() -> Seq<char> { seq!['z', 's', 't', 'd'] }
pub open spec fn url_key() -> Seq<char> { seq!['U', 'R', 'L', ':'] }
pub open spec fn compression_key() -> Seq<char> {
    seq!['C', 'o', 'm', 'p', 'r', 'e', 's', 's', 'i', 'o', 'n', ':']
}
pub open spec fn references_key() -> Seq<char> {
    seq!['R', 'e', 'f', 'e', 'r', 'e', 'n', 'c', 'e', 's', ':']
}

/// The compression that a narinfo names: `xz` or `zstd`.
pub open spec fn compression_named(s: Seq<char>) -> Option<Compression> {
    if s == xz_chars() {
        Some(Compression::XZ)
    } else if s == zstd_chars() {
        Some(Compression::Zstd)
    } else {
        None
    }
}

impl Compression {
    /// The program that decompresses an archive: `unxz` or `unzstd`.
    pub fn decompressor(&self) -> (r: &'static str)
        ensures
            r@ == (match *self {
                Compression::XZ => "unxz"@,
                Compression::Zstd => "unzstd"@,
            }),
    {
        match self {
            Compression::XZ => "unxz",
            Compression::Zstd => "unzstd",
        }
    }

    /// Parses a compression name, `xz` or `zstd`.
    pub fn parse(s: &[char]) -> (r: Result<Compression, Error>)
        ensures
            r is Ok <==> compression_named(s@) is Some,
            r matches Ok(c) ==> compression_named(s@) == Some(c),
            r matches Err(e) ==> e@ == ErrorView::UnknownCompression(s@),
    {
        let xz = chars_of("xz");
        let zstd = chars_of("zstd");
        proof {
            reveal_strlit("xz");
            reveal_strlit("zstd");
            assert(xz@ =~= xz_chars());
            assert(zstd@ =~= zstd_chars());
        }
        if chars_eq(s, &xz) {
            Ok(Compression::XZ)
        } else if chars_eq(s, &zstd) {
            Ok(Compression::Zstd)
        } else {
            Err(Error::UnknownCompression(string_of(s)))
        }
    }
}

/// What a narinfo response has given so far: its URL, compression and
/// references, each once its line has been read.
pub struct NarInfoFields {
    pub url: Option<Seq<char>>,
    pub compression: Option<Compression>,
    pub references: Option<Seq<Seq<char>>>,
}

/// The first of `ws` that is not a valid store identity.
pub open spec fn first_invalid(ws: Seq<Seq<char>>) -> Option<Seq<char>>
    decreases ws.len(),
{
    if ws.len() == 0 {
        None
    } else if !valid_identity(ws[0]) {
        Some(ws[0])
    } else {
        first_invalid(ws.drop_first())
    }
}

/// Reading one line of a narinfo, given as its words: `URL:` and
/// `Compression:` take the word after them, `References:` takes all the words
/// after it, which must be store identities; other lines are skipped. A later
/// line with the same key replaces what an earlier one gave.
pub open spec fn narinfo_line(st: Result<NarInfoFields, ErrorView>, ws: Seq<Seq<char>>)
    -> Result<NarInfoFields, ErrorView>
{
    match st {
        Err(e) => Err(e),
        Ok(f) => if ws.len() == 0 {
            Ok(f)
        } else if ws[0] == url_key() {
            if ws.len() < 2 {
                Err(ErrorView::MissingValue(ws[0]))
            } else {
                Ok(NarInfoFields { url: Some(ws[1]), compression: f.compression, references: f.references })
            }
        } else if ws[0] == compression_key() {
            if ws.len() < 2 {
                Err(ErrorView::MissingValue(ws[0]))
            } else {
                match compression_named(ws[1]) {
                    Some(c) => Ok(NarInfoFields { url: f.url, compression: Some(c), references: f.references }),
                    None => Err(ErrorView::UnknownCompression(ws[1])),
                }
            }
        } else if ws[0] == references_key() {
            match first_invalid(ws.skip(1)) {
                Some(w) => Err(ErrorView::InvalidStoreIdentity(w)),
                None => Ok(NarInfoFields { url: f.url, compression: f.compression, references: Some(ws.skip(1)) }),
            }
        } else {
            Ok(f)
        }
    }
}

/// Reading the lines `ls` one after the other.
pub open spec fn narinfo_lines(st: Result<NarInfoFields, ErrorView>, ls: Seq<Seq<char>>)
    -> Result<NarInfoFields, ErrorView>
    decreases ls.len(),
{
    if ls.len() == 0 {
        st
    } else {
        narinfo_lines(narinfo_line(st, words(ls[0])), ls.drop_first())
    }
}

/// A narinfo response read line by line; it must give all of URL,
/// Compression and References.
pub open spec fn parse_narinfo(s: Seq<char>) -> Result<NarInfoFields, ErrorView> {
    let empty = NarInfoFields { url: None, compression: None, references: None };
    match narinfo_lines(Ok(empty), lines(s)) {
        Err(e) => Err(e),
        Ok(f) => if f.url is Some && f.compression is Some && f.references is Some {
            Ok(f)
        } else {
            Err(ErrorView::IncompleteNarInfo)
        },
    }
}

proof fn lemma_narinfo_lines_err(e: ErrorView, ls: Seq<Seq<char>>)
    ensures
        narinfo_lines(Err(e), ls) == Err::<NarInfoFields, ErrorView>(e),
    decreases ls.len(),
{
    if ls.len() > 0 {
        lemma_narinfo_lines_err(e, ls.drop_first());
    }
}

/// The views of a vector of store identities.
pub open spec fn identities_view(v: Seq<StoreIdentity>) -> Seq<Seq<char>> {
    v.map_values(|id: StoreIdentity| id@)
}

/// The view of an optional string.
pub open spec fn opt_string_view(o: Option<String>) -> Option<Seq<char>> {
    match o {
        Some(s) => Some(s@),
        None => None,
    }
}

/// The view of optional identities.
pub open spec fn opt_identities_view(o: Option<Vec<StoreIdentity>>) -> Option<Seq<Seq<char>>> {
    match o {
        Some(v) => Some(identities_view(v@)),
        None => None,
    }
}

/// The narinfo of a store entry: where its archive is, how it is compressed
/// and which entries it references.
#[derive(Debug)]
pub struct NarInfo<'a> {
    url: String,
    pub identity: &'a StoreIdentity,
    server: &'a Server,
    compression: Compression,
    pub references: Vec<StoreIdentity>,
}

impl<'a> NarInfo<'a> {
    /// The URL of the archive, relative to the server root.
    pub closed spec fn url(&self) -> Seq<char> {
        self.url@
    }

    /// The server that gave this narinfo.
    pub closed spec fn server(&self) -> &'a Server {
        self.server
    }

    /// The compression of the archive.
    pub closed spec fn compression(&self) -> Compression {
        self.compression
    }

    /// The fields that were read.
    pub open spec fn fields(&self) -> NarInfoFields {
        NarInfoFields {
            url: Some(self.url()),
            compression: Some(self.compression()),
            references: Some(self.references_view()),
        }
    }

    /// The identities that the entry references.
    pub closed spec fn references_view(&self) -> Seq<Seq<char>> {
        identities_view(self.references@)
    }

    /// The entry that this narinfo describes.
    pub closed spec fn identity_of(&self) -> &'a StoreIdentity {
        self.identity
    }

    /// The compression of the archive.
    pub fn compression_of(&self) -> (r: Compression)
        ensures
            r == self.compression(),
    {
        self.compression
    }

    /// The URL of the archive (see `Server::nar_url`).
    pub fn nar_url(&self) -> (r: String)
        ensures
            r@ == self.server().root@ + self.url(),
    {
        self.server.nar_url(self)
    }

    /// Parses the narinfo response `s` for `identity`, received from `server`.
    pub fn parse(server: &'a Server, identity: &'a StoreIdentity, s: &str) -> (r: Result<Self, Error>)
        ensures
            r matches Ok(ni) ==> parse_narinfo(s@) == Ok::<NarInfoFields, ErrorView>(ni.fields())
                && ni.identity_of() == identity && ni.server() == server,
            r matches Err(e) ==> parse_narinfo(s@) == Err::<NarInfoFields, ErrorView>(e@),
    {
        let v = chars_of(s);
        let n = v.len();
        let mut url: Option<String> = None;
        let mut compression: Option<Compression> = None;
        let mut references: Option<Vec<StoreIdentity>> = None;
        let ghost empty = NarInfoFields { url: None, compression: None, references: None };
        let mut pos: usize = 0;
        assert(v@.subrange(0, n as int) =~= v@);
        loop
            invariant_except_break
                pos <= n,
                n == v@.len(),
                v@ == s@,
                empty == (NarInfoFields { url: None, compression: None, references: None }),
                narinfo_lines(
                    Ok(NarInfoFields {
                        url: opt_string_view(url),
                        compression: compression,
                        references: opt_identities_view(references),
                    }),
                    lines(v@.subrange(pos as int, n as int)),
                ) == narinfo_lines(Ok(empty), lines(v@)),
            ensures
                narinfo_lines(Ok(empty), lines(v@)) == Ok::<NarInfoFields, ErrorView>(NarInfoFields {
                    url: opt_string_view(url),
                    compression: compression,
                    references: opt_identities_view(references),
                }),
            decreases n - pos,
        {
            let mut e = pos;
            while e < n && v[e] != '\n'
                invariant
                    pos <= e <= n,
                    n == v@.len(),
                    forall|k: int| pos <= k < e ==> #[trigger] v@[k] != '\n',
                decreases n - e,
            {
                e = e + 1;
            }
            let ghost rest = v@.subrange(pos as int, n as int);
            proof {
                assert forall|k: int| 0 <= k < e - pos implies #[trigger] rest[k] != '\n' by {
                    assert(rest[k] == v@[pos + k]);
                }
                lemma_line_end(rest, e - pos);
                assert(rest.take(e - pos) =~= v@.subrange(pos as int, e as int));
                if e < n {
                    assert(rest.skip(e - pos + 1) =~= v@.subrange(e + 1, n as int));
                    assert(lines(rest) == seq![rest.take(e - pos)] + lines(rest.skip(e - pos + 1)));
                    assert(lines(rest).drop_first() =~= lines(v@.subrange(e + 1, n as int)));
                } else {
                    assert(rest.take(e - pos) =~= rest);
                    assert(lines(rest) == seq![rest]);
                    assert(lines(rest).drop_first() =~= Seq::<Seq<char>>::empty());
                }
                assert(lines(rest)[0] == v@.subrange(pos as int, e as int));
            }
            let ws = words_in(&v, pos, e);
            let ghost before = NarInfoFields {
                url: opt_string_view(url),
                compression: compression,
                references: opt_identities_view(references),
            };
            let res = apply_line(&ws, &mut url, &mut compression, &mut references);
            assert(narinfo_lines(Ok(before), lines(rest))
                == narinfo_lines(narinfo_line(Ok(before), char_vecs_view(ws@)), lines(rest).drop_first()));
            match res {
                Err(err) => {
                    proof {
                        lemma_narinfo_lines_err(err@, lines(rest).drop_first());
                        assert(narinfo_line(Ok(before), char_vecs_view(ws@)) == Err::<NarInfoFields, ErrorView>(err@));
                        assert(narinfo_lines(Ok(before), lines(rest)) == Err::<NarInfoFields, ErrorView>(err@));
                        assert(narinfo_lines(Ok(empty), lines(v@)) == Err::<NarInfoFields, ErrorView>(err@));
                    }
                    return Err(err);
                },
                Ok(()) => {},
            }
            if e >= n {
                break;
            }
            pos = e + 1;
        }
        proof { assert(v@.subrange(0, n as int) =~= v@); }
        match (url, compression, references) {
            (Some(url), Some(compression), Some(references)) => Ok(NarInfo {
                url, identity, server, compression, references,
            }),
            _ => Err(Error::IncompleteNarInfo),
        }
    }
}

/// Applies one narinfo line, given as its words, to the fields read so far.
#[verifier::loop_isolation(false)]
fn apply_line(
    ws: &Vec<Vec<char>>,
    url: &mut Option<String>,
    compression: &mut Option<Compression>,
    references: &mut Option<Vec<StoreIdentity>>,
) -> (r: Result<(), Error>)
    ensures
        ({
            let before = NarInfoFields {
                url: opt_string_view(*old(url)),
                compression: *old(compression),
                references: opt_identities_view(*old(references)),
            };
            let after = NarInfoFields {
                url: opt_string_view(*final(url)),
                compression: *final(compression),
                references: opt_identities_view(*final(references)),
            };
            match r {
                Ok(_) => narinfo_line(Ok(before), char_vecs_view(ws@)) == Ok::<NarInfoFields, ErrorView>(after),
                Err(e) => narinfo_line(Ok(before), char_vecs_view(ws@)) == Err::<NarInfoFields, ErrorView>(e@),
            }
        }),
{
    let ghost w = char_vecs_view(ws@);
    if ws.len() == 0 {
        return Ok(());
    }
    let url_k = chars_of("URL:");
    let comp_k = chars_of("Compression:");
    let refs_k = chars_of("References:");
    proof {
        reveal_strlit("URL:");
        reveal_strlit("Compression:");
        reveal_strlit("References:");
        assert(url_k@ =~= url_key());
        assert(comp_k@ =~= compression_key());
        assert(refs_k@ =~= references_key());
        assert(w[0] == ws@[0]@);
    }
    if chars_eq(&ws[0], &url_k) {
        if ws.len() < 2 {
            return Err(Error::MissingValue(string_of(&ws[0])));
        }
        assert(w[1] == ws@[1]@);
        *url = Some(string_of(&ws[1]));
        Ok(())
    } else if chars_eq(&ws[0], &comp_k) {
        if ws.len() < 2 {
            return Err(Error::MissingValue(string_of(&ws[0])));
        }
        assert(w[1] == ws@[1]@);
        match Compression::parse(&ws[1]) {
            Ok(c) => {
                *compression = Some(c);
                Ok(())
            },
            Err(e) => Err(e),
        }
    } else if chars_eq(&ws[0], &refs_k) {
        let mut refs: Vec<StoreIdentity> = Vec::new();
        let mut k: usize = 1;
        while k < ws.len()
            invariant
                1 <= k <= ws@.len(),
                w == char_vecs_view(ws@),
                identities_view(refs@) == w.subrange(1, k as int),
                first_invalid(w.skip(1)) == first_invalid(w.skip(k as int)),
            decreases ws@.len() - k,
        {
            assert(w[k as int] == ws@[k as int]@);
            assert(w.skip(k as int)[0] == w[k as int]);
            assert(w.skip(k as int).drop_first() =~= w.skip(k + 1));
            let id = match StoreIdentity::new(string_of(&ws[k])) {
                Ok(id) => id,
                Err(e) => {
                    assert(first_invalid(w.skip(k as int)) == Some(w[k as int]));
                    return Err(e);
                },
            };
            let ghost before = refs@;
            refs.push(id);
            assert(identities_view(refs@) =~= identities_view(before).push(id@));
            assert(identities_view(refs@) =~= w.subrange(1, k + 1));
            k = k + 1;
        }
        assert(w.skip(k as int) =~= Seq::<Seq<char>>::empty());
        assert(w.subrange(1, k as int) =~= w.skip(1));
        *references = Some(refs);
        Ok(())
    } else {
        Ok(())
    }
}

/// The servers that store entries are fetched from, and where they are kept.
#[derive(Debug)]
pub struct Client {
    pub servers: Vec<Server>,
    pub paths: RuntimePaths,
}

/// The root URLs of a sequence of servers.
pub open spec fn roots_view(v: Seq<Server>) -> Seq<Seq<char>> {
    v.map_values(|s: Server| s.root@)
}

/// Copies of `servers`, in order.
pub fn copy_servers(servers: &Vec<Server>) -> (r: Vec<Server>)
    ensures
        roots_view(r@) == roots_view(servers@),
{
    let mut r: Vec<Server> = Vec::new();
    let mut i: usize = 0;
    while i < servers.len()
        invariant
            i <= servers@.len(),
            roots_view(r@) == roots_view(servers@).take(i as int),
        decreases servers@.len() - i,
    {
        let c = servers[i].copy_server();
        let ghost before = r@;
        r.push(c);
        assert(r@ == before.push(c));
        assert(roots_view(r@) =~= roots_view(before).push(servers@[i as int].root@));
        assert(roots_view(servers@).take(i + 1) =~= roots_view(servers@).take(i as int).push(servers@[i as int].root@));
        i = i + 1;
    }
    assert(roots_view(servers@).take(i as int) =~= roots_view(servers@));
    r
}

} // verus!
