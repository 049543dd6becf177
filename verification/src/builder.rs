//! Planning the release build: build targets, their dependencies, and the
//! release assets to replace.

use vstd::prelude::*;
use vstd::string::*;
use crate::text::{chars_of, chars_eq, first_index_of, last_index_of, has_substring, contains_chars,
    push_char, starts_with};
use crate::store::last_component;

verus! {

/// A target to build: `platforms/<platform>/<name>`.
#[derive(Debug)]
pub struct Buildable {
    pub platform: String,
    pub name: String,
}

/// The path of the target `name` for `platform`.
pub open spec fn target_path(platform: Seq<char>, name: Seq<char>) -> Seq<char> {
    "platforms/"@ + platform + "/"@ + name
}

impl Buildable {
    /// The path of the target: `platforms/<platform>/<name>`.
    pub fn path(&self) -> (r: String)
        ensures
            r@ == target_path(self.platform@, self.name@),
    {
        let mut r = String::from_str("platforms/");
        r.append(self.platform.as_str());
        r.append("/");
        r.append(self.name.as_str());
        r
    }
}

/// A target that another one depends on, built at most once.
#[derive(Debug)]
pub struct Dependency {
    pub _path: String,
    built: bool,
}

impl Dependency {
    /// The path of the target.
    pub closed spec fn target(&self) -> Seq<char> {
        self._path@
    }

    /// Whether the dependency has been built.
    pub closed spec fn is_built(&self) -> bool {
        self.built
    }

    /// A dependency on the target at `path`, not yet built.
    pub fn new(path: String) -> (r: Dependency)
        ensures
            r.target() == path@,
            !r.is_built(),
    {
        Dependency { _path: path, built: false }
    }

    /// Marks the dependency as built; says whether it still had to be built.
    pub fn start_build(&mut self) -> (needed: bool)
        ensures
            needed == !old(self).is_built(),
            final(self).is_built(),
            final(self).target() == old(self).target(),
    {
        let needed = !self.built;
        self.built = true;
        needed
    }

    /// The path of the target, which is built first: says whether it still
    /// had to be built (the caller then builds it), and marks it built.
    pub fn path(&mut self) -> (r: (bool, String))
        ensures
            r.0 == !old(self).is_built(),
            final(self).is_built(),
            final(self).target() == old(self).target(),
            r.1@ == old(self).target(),
    {
        let needs_build = self.start_build();
        (needs_build, self._path.clone())
    }
}

/// The store path prefix, with the `/` after it.
pub open spec fn store_dir_prefix() -> Seq<char> {
    "/nix/store/"@
}

/// `s` without its leading `/nix/store/`.
pub fn drop_store_prefix(s: &str) -> (r: &str)
    requires
        store_dir_prefix().is_prefix_of(s@),
    ensures
        r@ == s@.skip(store_dir_prefix().len() as int),
{
    proof { reveal_strlit("/nix/store/"); }
    let n = s.unicode_len();
    s.substring_char(11, n)
}

/// The platforms that release artifacts are built for, named
/// `<arch>-<os>`.
pub open spec fn release_platforms() -> Seq<Seq<char>> {
    seq!["x86_64-Linux"@, "x86_64-Darwin"@, "aarch64-Darwin"@]
}

/// The platforms that release artifacts are built for.
pub fn all_platforms() -> (r: Vec<&'static str>)
    ensures
        r@.map_values(|p: &'static str| p@) == release_platforms(),
{
    let mut r: Vec<&'static str> = Vec::new();
    r.push("x86_64-Linux");
    r.push("x86_64-Darwin");
    r.push("aarch64-Darwin");
    assert(r@.map_values(|p: &'static str| p@) =~= release_platforms());
    r
}

/// `s` with every space replaced by `-`.
pub open spec fn spaces_to_dashes(s: Seq<char>) -> Seq<char> {
    s.map_values(|c: char| if c == ' ' { '-' } else { c })
}

/// The platform name that `uname -m -s` printed, words joined by `-`.
pub fn uname_platform(uname: &str) -> (r: String)
    ensures
        r@ == spaces_to_dashes(uname@),
{
    let v = chars_of(uname);
    let mut r = String::new();
    let mut i: usize = 0;
    while i < v.len()
        invariant
            i <= v@.len(),
            r@ == spaces_to_dashes(v@.take(i as int)),
        decreases v@.len() - i,
    {
        let c = v[i];
        if c == ' ' {
            push_char(&mut r, '-');
        } else {
            push_char(&mut r, c);
        }
        i = i + 1;
        assert(r@ =~= spaces_to_dashes(v@.take(i as int)));
    }
    assert(v@.take(v@.len() as int) =~= v@);
    r
}

/// How a command argument is shown in logs: quoted, or masked when it holds
/// a credential header.
pub open spec fn censored_arg(arg: Seq<char>) -> Seq<char> {
    if has_substring(arg, "Bearer"@) || has_substring(arg, "Authorization"@) {
        " '*****'"@
    } else {
        " '"@ + arg + "'"@
    }
}

/// How a whole command line is shown in logs.
pub open spec fn censored_args(argv: Seq<Seq<char>>) -> Seq<char>
    decreases argv.len(),
{
    if argv.len() == 0 {
        seq![]
    } else {
        censored_args(argv.drop_last()) + censored_arg(argv.last())
    }
}

/// The command line `argv` for logs, each argument quoted after a space,
/// and masked when it holds `Bearer` or `Authorization`.
pub fn censor(argv: &Vec<String>) -> (r: String)
    ensures
        r@ == censored_args(argv@.map_values(|a: String| a@)),
{
    let bearer = chars_of("Bearer");
    let authorization = chars_of("Authorization");
    let ghost args = argv@.map_values(|a: String| a@);
    let mut r = String::new();
    let mut i: usize = 0;
    while i < argv.len()
        invariant
            i <= argv@.len(),
            args == argv@.map_values(|a: String| a@),
            bearer@ == "Bearer"@,
            authorization@ == "Authorization"@,
            r@ == censored_args(args.take(i as int)),
        decreases argv@.len() - i,
    {
        let a = chars_of(argv[i].as_str());
        assert(args.take(i + 1).drop_last() =~= args.take(i as int));
        assert(args.take(i + 1).last() == argv@[i as int]@);
        if contains_chars(&a, &bearer) || contains_chars(&a, &authorization) {
            r.append(" '*****'");
        } else {
            r.append(" '");
            r.append(argv[i].as_str());
            r.append("'");
        }
        i = i + 1;
    }
    assert(args.take(argv@.len() as int) =~= args);
    r
}

/// A build target and where its output goes.
#[derive(Debug)]
pub struct Target {
    pub output: String,
    pub buildable: Buildable,
}

/// The target that a path `platforms/<platform>/<name>` names.
pub open spec fn target_named(target: Seq<char>) -> Option<(Seq<char>, Seq<char>)> {
    if !"platforms/"@.is_prefix_of(target) {
        None
    } else {
        let rest = target.skip("platforms/"@.len() as int);
        match rest.index_of_first('/') {
            None => None,
            Some(k) => if rest.skip(k + 1).contains('/') {
                None
            } else {
                Some((rest.take(k), rest.skip(k + 1)))
            },
        }
    }
}

/// What building a target consists of.
#[derive(Debug)]
pub enum BuildPlan {
    /// `platforms/all/all`: build `platforms/all/runscript`.
    AllAlias,
    /// `platforms/all/release`: release every platform, then upload the runscript.
    ReleaseAll,
    /// `platforms/all/runscript`: bootstrap every platform and merge their wrappers.
    Runscript,
    /// `platforms/all/<name>`: build `<name>` for every platform.
    EachPlatform(String),
    /// `platforms/current/<name>`: build `<name>` for the platform of this machine.
    Current(String),
    /// Upload this platform's archive to the release.
    Release,
    /// Build the archive and push the bootstrap derivation to the cache.
    Bootstrap,
    /// Build the archive.
    Archive,
    /// Pack the bootstrap directory into the archive.
    Tarball,
    /// Collect the bootstrap closure and write its wrapper.
    BootstrapDir,
    /// Build the bootstrap derivation.
    BootstrapDrv,
    /// No such target.
    Unknown,
}

/// The name of the archive for `platform`.
pub open spec fn tarball_of(platform: Seq<char>) -> Seq<char> {
    "runix-"@ + platform + ".tgz"@
}

impl Target {
    /// The target named by the path `target` (`platforms/<platform>/<name>`),
    /// writing to `output`; `None` when the path has another shape.
    pub fn from_args(output: String, target: &str) -> (r: Option<Target>)
        ensures
            r is Some <==> target_named(target@) is Some,
            r matches Some(t) ==> t.output@ == output@
                && target_named(target@) == Some((t.buildable.platform@, t.buildable.name@)),
    {
        let v = chars_of(target);
        let prefix = chars_of("platforms/");
        proof { reveal_strlit("platforms/"); }
        if !starts_with(&v, &prefix) {
            return None;
        }
        let n = v.len();
        let rest = target.substring_char(10, n);
        let rv = chars_of(rest);
        let rn = rv.len();
        assert(rest@ =~= target@.skip("platforms/"@.len() as int));
        match first_index_of(&rv, '/') {
            None => None,
            Some(k) => {
                let name = rest.substring_char(k + 1, rn);
                let nv = chars_of(name);
                if first_index_of(&nv, '/').is_some() {
                    return None;
                }
                let platform = rest.substring_char(0, k);
                assert(platform@ == rest@.take(k as int));
                assert(name@ == rest@.skip(k + 1));
                Some(Target {
                    output,
                    buildable: Buildable { platform: platform.to_owned(), name: name.to_owned() },
                })
            },
        }
    }

    /// The archive name for this target's platform: `runix-<platform>.tgz`.
    pub fn tarball_name(&self) -> (r: String)
        ensures
            r@ == tarball_of(self.buildable.platform@),
    {
        let mut r = String::from_str("runix-");
        r.append(self.buildable.platform.as_str());
        r.append(".tgz");
        r
    }

    /// A dependency on the target `name` for `platform`.
    pub fn platform_dependency(&self, platform: &str, name: &str) -> (r: Dependency)
        ensures
            r.target() == target_path(platform@, name@),
            !r.is_built(),
    {
        let b = Buildable { platform: platform.to_owned(), name: name.to_owned() };
        Dependency::new(b.path())
    }

    /// A dependency on the target `name` for this target's platform.
    pub fn dependency(&self, name: &str) -> (r: Dependency)
        ensures
            r.target() == target_path(self.buildable.platform@, name@),
            !r.is_built(),
    {
        self.platform_dependency(self.buildable.platform.as_str(), name)
    }
}

/// Whether `s` is the literal `lit`.
fn is_lit(s: &str, lit: &str) -> (r: bool)
    ensures
        r == (s@ == lit@),
{
    let a = chars_of(s);
    let b = chars_of(lit);
    chars_eq(&a, &b)
}

impl Target {
    /// What building this target consists of.
    pub fn plan(&self) -> (r: BuildPlan)
        ensures
            ({
                let p = self.buildable.platform@;
                let n = self.buildable.name@;
                if p == "all"@ {
                    if n == "all"@ {
                        r is AllAlias
                    } else if n == "release"@ {
                        r is ReleaseAll
                    } else if n == "runscript"@ {
                        r is Runscript
                    } else {
                        r matches BuildPlan::EachPlatform(m) && m@ == n
                    }
                } else if p == "current"@ {
                    r matches BuildPlan::Current(m) && m@ == n
                } else if n == "release"@ {
                    r is Release
                } else if n == "bootstrap"@ {
                    r is Bootstrap
                } else if n == "archive"@ {
                    r is Archive
                } else if n == tarball_of(p) {
                    r is Tarball
                } else if n == "bootstrap.dir"@ {
                    r is BootstrapDir
                } else if n == "bootstrap.drv"@ {
                    r is BootstrapDrv
                } else {
                    r is Unknown
                }
            }),
    {
        let p = self.buildable.platform.as_str();
        let n = self.buildable.name.as_str();
        if is_lit(p, "all") {
            if is_lit(n, "all") {
                BuildPlan::AllAlias
            } else if is_lit(n, "release") {
                BuildPlan::ReleaseAll
            } else if is_lit(n, "runscript") {
                BuildPlan::Runscript
            } else {
                BuildPlan::EachPlatform(n.to_owned())
            }
        } else if is_lit(p, "current") {
            BuildPlan::Current(n.to_owned())
        } else if is_lit(n, "release") {
            BuildPlan::Release
        } else if is_lit(n, "bootstrap") {
            BuildPlan::Bootstrap
        } else if is_lit(n, "archive") {
            BuildPlan::Archive
        } else if self.buildable.name == self.tarball_name() {
            BuildPlan::Tarball
        } else if is_lit(n, "bootstrap.dir") {
            BuildPlan::BootstrapDir
        } else if is_lit(n, "bootstrap.drv") {
            BuildPlan::BootstrapDrv
        } else {
            BuildPlan::Unknown
        }
    }
}

/// The targets of a sequence of dependencies.
pub open spec fn targets_of(v: Seq<Dependency>) -> Seq<Seq<char>> {
    v.map_values(|d: Dependency| d.target())
}

/// The target `name` on every release platform, in order.
pub open spec fn on_each_platform(name: Seq<char>) -> Seq<Seq<char>> {
    release_platforms().map_values(|p: Seq<char>| target_path(p, name))
}

/// The targets that a plan for a target on `platform` builds, in the order
/// they are built. Bootstrapping all platforms builds each bootstrap and
/// then each bootstrap directory, whose wrappers are merged; releasing all
/// platforms releases each, then builds the runscript to upload it.
pub open spec fn plan_steps(platform: Seq<char>, plan: BuildPlan) -> Seq<Seq<char>> {
    match plan {
        BuildPlan::AllAlias => seq![target_path(platform, "runscript"@)],
        BuildPlan::ReleaseAll => on_each_platform("release"@) + seq![target_path(platform, "runscript"@)],
        BuildPlan::Runscript => on_each_platform("bootstrap"@) + on_each_platform("bootstrap.dir"@),
        BuildPlan::EachPlatform(n) => on_each_platform(n@),
        BuildPlan::Bootstrap => seq![
            target_path(platform, tarball_of(platform)),
            target_path(platform, "bootstrap.drv"@),
        ],
        BuildPlan::Archive => seq![target_path(platform, tarball_of(platform))],
        BuildPlan::Tarball => seq![target_path(platform, "bootstrap.dir"@)],
        BuildPlan::BootstrapDir => seq![target_path(platform, "bootstrap.drv"@)],
        _ => seq![],
    }
}

impl Target {
    /// Appends a dependency on `name` for every release platform.
    fn push_each_platform(&self, name: &str, out: &mut Vec<Dependency>)
        ensures
            targets_of(final(out)@) == targets_of(old(out)@) + on_each_platform(name@),
            forall|i: int| 0 <= i < final(out)@.len() && !(0 <= i < old(out)@.len())
                ==> !(#[trigger] final(out)@[i]).is_built(),
            forall|i: int| 0 <= i < old(out)@.len() ==> #[trigger] final(out)@[i] == old(out)@[i],
    {
        let platforms = all_platforms();
        let ghost start = out@;
        let mut i: usize = 0;
        while i < platforms.len()
            invariant
                i <= platforms@.len(),
                platforms@.map_values(|p: &'static str| p@) == release_platforms(),
                out@.len() == start.len() + i,
                targets_of(out@) == targets_of(start) + on_each_platform(name@).take(i as int),
                forall|j: int| start.len() <= j < out@.len() ==> !(#[trigger] out@[j]).is_built(),
                forall|j: int| 0 <= j < start.len() ==> #[trigger] out@[j] == start[j],
            decreases platforms@.len() - i,
        {
            let d = self.platform_dependency(platforms[i], name);
            let ghost before = out@;
            out.push(d);
            proof {
                assert(platforms@.map_values(|p: &'static str| p@)[i as int] == platforms@[i as int]@);
                assert(targets_of(out@) =~= targets_of(before).push(d.target()));
                assert(on_each_platform(name@).take(i + 1) =~= on_each_platform(name@).take(i as int).push(
                    target_path(release_platforms()[i as int], name@)));
            }
            i = i + 1;
        }
        assert(on_each_platform(name@).take(i as int) =~= on_each_platform(name@));
    }

    /// The dependencies that `plan`, the plan of this target, builds, in the
    /// order they are built (see `plan_steps`); none is built yet.
    pub fn steps(&self, plan: &BuildPlan) -> (r: Vec<Dependency>)
        ensures
            targets_of(r@) == plan_steps(self.buildable.platform@, *plan),
            forall|i: int| 0 <= i < r@.len() ==> !(#[trigger] r@[i]).is_built(),
    {
        let mut r: Vec<Dependency> = Vec::new();
        assert(targets_of(r@) =~= Seq::<Seq<char>>::empty());
        proof {
            reveal_strlit("runscript");
            reveal_strlit("release");
            reveal_strlit("bootstrap");
            reveal_strlit("bootstrap.dir");
            reveal_strlit("bootstrap.drv");
        }
        match plan {
            BuildPlan::AllAlias => {
                r.push(self.dependency("runscript"));
            },
            BuildPlan::ReleaseAll => {
                self.push_each_platform("release", &mut r);
                r.push(self.dependency("runscript"));
            },
            BuildPlan::Runscript => {
                self.push_each_platform("bootstrap", &mut r);
                self.push_each_platform("bootstrap.dir", &mut r);
            },
            BuildPlan::EachPlatform(name) => {
                self.push_each_platform(name.as_str(), &mut r);
            },
            BuildPlan::Bootstrap => {
                let t = self.tarball_name();
                r.push(self.dependency(t.as_str()));
                r.push(self.dependency("bootstrap.drv"));
            },
            BuildPlan::Archive => {
                let t = self.tarball_name();
                r.push(self.dependency(t.as_str()));
            },
            BuildPlan::Tarball => {
                r.push(self.dependency("bootstrap.dir"));
            },
            BuildPlan::BootstrapDir => {
                r.push(self.dependency("bootstrap.drv"));
            },
            _ => {},
        }
        assert(targets_of(r@) =~= plan_steps(self.buildable.platform@, *plan));
        r
    }
}

/// An asset attached to a release.
#[derive(Debug)]
pub struct ReleaseAsset {
    pub id: i64,
    pub name: String,
    pub url: String,
}

/// A release and its assets.
#[derive(Debug)]
pub struct Release {
    pub assets_url: String,
    pub upload_url: String,
    pub assets: Vec<ReleaseAsset>,
}

/// The views of a sequence of strings.
pub open spec fn strings_view(v: Seq<String>) -> Seq<Seq<char>> {
    v.map_values(|u: String| u@)
}

/// The URLs of the assets named `name`, in order.
pub open spec fn stale_urls(assets: Seq<ReleaseAsset>, name: Seq<char>) -> Seq<Seq<char>>
    decreases assets.len(),
{
    if assets.len() == 0 {
        seq![]
    } else {
        stale_urls(assets.drop_last(), name) + if assets.last().name@ == name {
            seq![assets.last().url@]
        } else {
            seq![]
        }
    }
}

/// The part of `s` before its first `{`.
pub open spec fn before_brace(s: Seq<char>) -> Seq<char> {
    match s.index_of_first('{') {
        Some(k) => s.take(k),
        None => s,
    }
}

impl Release {
    /// The name under which a file is uploaded: the last component of its path.
    pub fn asset_name(path: &str) -> (r: String)
        ensures
            r@ == last_component(path@),
    {
        let v = chars_of(path);
        let n = v.len();
        let r = match last_index_of(&v, '/') {
            Some(i) => path.substring_char(i + 1, n),
            None => path,
        };
        assert(r@ =~= last_component(path@));
        r.to_owned()
    }

    /// The URLs of the assets named `name`, which are deleted before the new
    /// one is uploaded, in the order of the assets.
    pub fn stale_asset_urls(&self, name: &str) -> (r: Vec<String>)
        ensures
            strings_view(r@) == stale_urls(self.assets@, name@),
    {
        let mut r: Vec<String> = Vec::new();
        let mut i: usize = 0;
        let wanted = String::from_str(name);
        while i < self.assets.len()
            invariant
                i <= self.assets@.len(),
                wanted@ == name@,
                strings_view(r@) == stale_urls(self.assets@.take(i as int), name@),
            decreases self.assets@.len() - i,
        {
            let ghost before = r@;
            assert(self.assets@.take(i + 1).drop_last() =~= self.assets@.take(i as int));
            if self.assets[i].name == wanted {
                r.push(self.assets[i].url.clone());
                assert(strings_view(r@) =~= strings_view(before).push(self.assets@[i as int].url@));
            }
            i = i + 1;
        }
        assert(self.assets@.take(self.assets@.len() as int) =~= self.assets@);
        r
    }

    /// Where a file is uploaded as `name`: the upload URL up to its first
    /// `{`, then `?name=` and the name.
    pub fn upload_target(&self, name: &str) -> (r: String)
        ensures
            r@ == before_brace(self.upload_url@) + "?name="@ + name@,
    {
        let v = chars_of(self.upload_url.as_str());
        let mut r = match first_index_of(&v, '{') {
            Some(k) => self.upload_url.as_str().substring_char(0, k).to_owned(),
            None => self.upload_url.clone(),
        };
        r.append("?name=");
        r.append(name);
        r
    }
}

} // verus!
