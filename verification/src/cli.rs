//! The decisions of the command line: its options, the runscript they
//! describe, and where runix installs itself on `$PATH`.

use vstd::prelude::*;
use vstd::string::*;
use std::collections::VecDeque;
use crate::cache::{Server, with_trailing_slash};
use crate::error::{Error, ErrorView};
use crate::platform::{Platform, platform_named, platform_error};
use crate::runner::{ScriptType, mandatory_next_arg, RunScript, PlatformExec, Entrypoint, exec_view, copy_identities,
    platform_map};
use crate::cache::{roots_view, identities_view};
use crate::store::{StoreIdentity, valid_identity};
use crate::text::{chars_of, chars_eq, starts_with};

verus! {

/// What the options of a command line asked for, as character sequences.
#[verifier::ext_equal]
pub struct OptionsView {
    pub requirements: Seq<Seq<char>>,
    pub caches: Seq<Seq<char>>,
    pub save_to: Option<Seq<char>>,
    pub script_type: ScriptType,
    pub platform: Platform,
    pub entrypoint: Option<(Seq<char>, Seq<char>)>,
    pub multiplatform: bool,
    pub expr: bool,
    pub help: bool,
}

/// No options given yet, on the platform `platform`.
pub open spec fn initial_options(platform: Platform) -> OptionsView {
    OptionsView {
        requirements: seq![],
        caches: seq![],
        save_to: None,
        script_type: ScriptType::Standard,
        platform,
        entrypoint: None,
        multiplatform: false,
        expr: false,
        help: false,
    }
}

/// Reading options from the front of `args`: each known option takes its
/// values; `--help` stops the reading; an unknown `--` option is an error;
/// anything else ends the options. Gives the options and the arguments left.
pub open spec fn parse_opts(st: OptionsView, args: Seq<Seq<char>>)
    -> Result<(OptionsView, Seq<Seq<char>>), ErrorView>
    decreases args.len(),
{
    if args.len() == 0 {
        Ok((st, args))
    } else {
        let a = args[0];
        let rest = args.drop_first();
        if a == "--help"@ {
            Ok((OptionsView { help: true, ..st }, args))
        } else if a == "--require"@ {
            if rest.len() == 0 {
                Err(ErrorView::NotEnoughArguments("--require value"@))
            } else if !valid_identity(rest[0]) {
                Err(ErrorView::InvalidStoreIdentity(rest[0]))
            } else {
                parse_opts(OptionsView { requirements: st.requirements.push(rest[0]), ..st }, rest.drop_first())
            }
        } else if a == "--with-cache"@ {
            if rest.len() == 0 {
                Err(ErrorView::NotEnoughArguments("--add-cache value"@))
            } else {
                parse_opts(OptionsView { caches: st.caches.push(with_trailing_slash(rest[0])), ..st }, rest.drop_first())
            }
        } else if a == "--save"@ {
            if rest.len() == 0 {
                Err(ErrorView::NotEnoughArguments("--save value"@))
            } else {
                parse_opts(OptionsView { save_to: Some(rest[0]), ..st }, rest.drop_first())
            }
        } else if a == "--auto-bootstrap"@ {
            parse_opts(OptionsView { script_type: ScriptType::AutoBootstrap, ..st }, rest)
        } else if a == "--platform"@ {
            if rest.len() == 0 {
                Err(ErrorView::NotEnoughArguments("--platform value"@))
            } else {
                match platform_named(rest[0]) {
                    Some(p) => parse_opts(OptionsView { platform: p, ..st }, rest.drop_first()),
                    None => Err(platform_error(rest[0])),
                }
            }
        } else if a == "--entrypoint"@ {
            if rest.len() == 0 {
                Err(ErrorView::NotEnoughArguments("--entrypoint value"@))
            } else if rest.len() == 1 {
                Err(ErrorView::NotEnoughArguments("--entrypoint relpath"@))
            } else {
                parse_opts(OptionsView { entrypoint: Some((rest[0], rest[1])), ..st }, rest.skip(2))
            }
        } else if a == "--multiplatform"@ {
            parse_opts(OptionsView { multiplatform: true, ..st }, rest)
        } else if a == "--expr"@ {
            parse_opts(OptionsView { expr: true, ..st }, rest)
        } else if "--"@.is_prefix_of(a) {
            Err(ErrorView::UnknownOption(a))
        } else {
            Ok((st, args))
        }
    }
}

/// The views of a sequence of strings.
pub open spec fn args_view(v: Seq<String>) -> Seq<Seq<char>> {
    v.map_values(|a: String| a@)
}

/// The options of a command line.
#[derive(Debug)]
pub struct CliOptions {
    pub requirements: Vec<StoreIdentity>,
    pub caches: Vec<Server>,
    pub save_to: Option<String>,
    pub script_type: ScriptType,
    pub platform: Platform,
    pub entrypoint: Option<(String, String)>,
    pub multiplatform: bool,
    pub expr: bool,
    pub help: bool,
}

impl CliOptions {
    /// The options as character sequences.
    pub open spec fn view_of(&self) -> OptionsView {
        OptionsView {
            requirements: identities_view(self.requirements@),
            caches: self.caches@.map_values(|c: Server| c.root@),
            save_to: match self.save_to { Some(s) => Some(s@), None => None },
            script_type: self.script_type,
            platform: self.platform,
            entrypoint: match self.entrypoint { Some((v, p)) => Some((v@, p@)), None => None },
            multiplatform: self.multiplatform,
            expr: self.expr,
            help: self.help,
        }
    }
}

/// Whether the argument is exactly `lit`.
fn arg_is(a: &String, lit: &str) -> (r: bool)
    ensures
        r == (a@ == lit@),
{
    let x = chars_of(a.as_str());
    let y = chars_of(lit);
    chars_eq(&x, &y)
}

/// Reads the options from the front of `args` (see `parse_opts`), leaving
/// the arguments after them; `platform` is the platform until `--platform`
/// names another.
pub fn parse_options(args: &mut VecDeque<String>, platform: Platform) -> (r: Result<CliOptions, Error>)
    ensures
        match parse_opts(initial_options(platform), args_view(old(args)@)) {
            Ok((o, rest)) => r matches Ok(c) && c.view_of() == o && args_view(final(args)@) == rest,
            Err(e) => r matches Err(x) && x@ == e,
        },
{
    let mut o = CliOptions {
        requirements: Vec::new(),
        caches: Vec::new(),
        save_to: None,
        script_type: ScriptType::Standard,
        platform,
        entrypoint: None,
        multiplatform: false,
        expr: false,
        help: false,
    };
    assert(o.view_of() =~= initial_options(platform));
    let ghost goal = parse_opts(initial_options(platform), args_view(args@));
    loop
        invariant
            parse_opts(o.view_of(), args_view(args@)) == goal,
            goal == parse_opts(initial_options(platform), args_view(old(args)@)),
        decreases args@.len(),
    {
        if args.len() == 0 {
            return Ok(o);
        }
        let ghost av = args_view(args@);
        assert(av[0] == args@[0]@);
        assert(av.drop_first() =~= args_view(args@.drop_first()));
        let ghost before = o.view_of();
        if arg_is(&args[0], "--help") {
            o.help = true;
            assert(o.view_of() =~= OptionsView { help: true, ..before });
            return Ok(o);
        } else if arg_is(&args[0], "--require") {
            args.pop_front();
            let value = mandatory_next_arg("--require value", args)?;
            let id = StoreIdentity::new(value)?;
            o.requirements.push(id);
            assert(o.view_of() =~= OptionsView { requirements: before.requirements.push(id@), ..before });
            assert(args_view(args@) =~= av.drop_first().drop_first());
            assert(parse_opts(before, av) == parse_opts(o.view_of(), args_view(args@)));
        } else if arg_is(&args[0], "--with-cache") {
            args.pop_front();
            let value = mandatory_next_arg("--add-cache value", args)?;
            o.caches.push(Server::from(value));
            assert(o.view_of() =~= OptionsView { caches: before.caches.push(with_trailing_slash(av[1])), ..before });
            assert(args_view(args@) =~= av.drop_first().drop_first());
            assert(parse_opts(before, av) == parse_opts(o.view_of(), args_view(args@)));
        } else if arg_is(&args[0], "--save") {
            args.pop_front();
            let value = mandatory_next_arg("--save value", args)?;
            o.save_to = Some(value);
            assert(o.view_of() =~= OptionsView { save_to: Some(av[1]), ..before });
            assert(args_view(args@) =~= av.drop_first().drop_first());
            assert(parse_opts(before, av) == parse_opts(o.view_of(), args_view(args@)));
        } else if arg_is(&args[0], "--auto-bootstrap") {
            args.pop_front();
            o.script_type = ScriptType::AutoBootstrap;
            assert(o.view_of() =~= OptionsView { script_type: ScriptType::AutoBootstrap, ..before });
            assert(args_view(args@) =~= av.drop_first());
            assert(parse_opts(before, av) == parse_opts(o.view_of(), args_view(args@)));
        } else if arg_is(&args[0], "--platform") {
            args.pop_front();
            let value = mandatory_next_arg("--platform value", args)?;
            o.platform = Platform::from_str(value.as_str())?;
            assert(o.view_of() =~= OptionsView { platform: o.platform, ..before });
            assert(args_view(args@) =~= av.drop_first().drop_first());
            assert(parse_opts(before, av) == parse_opts(o.view_of(), args_view(args@)));
        } else if arg_is(&args[0], "--entrypoint") {
            args.pop_front();
            let value = mandatory_next_arg("--entrypoint value", args)?;
            let relpath = mandatory_next_arg("--entrypoint relpath", args)?;
            assert(av.drop_first().drop_first().drop_first() =~= av.drop_first().skip(2));
            o.entrypoint = Some((value, relpath));
            assert(o.view_of() =~= OptionsView { entrypoint: Some((av[1], av[2])), ..before });
            assert(args_view(args@) =~= av.drop_first().skip(2));
            assert(parse_opts(before, av) == parse_opts(o.view_of(), args_view(args@)));
        } else if arg_is(&args[0], "--multiplatform") {
            args.pop_front();
            o.multiplatform = true;
            assert(o.view_of() =~= OptionsView { multiplatform: true, ..before });
            assert(args_view(args@) =~= av.drop_first());
            assert(parse_opts(before, av) == parse_opts(o.view_of(), args_view(args@)));
        } else if arg_is(&args[0], "--expr") {
            args.pop_front();
            o.expr = true;
            assert(o.view_of() =~= OptionsView { expr: true, ..before });
            assert(args_view(args@) =~= av.drop_first());
            assert(parse_opts(before, av) == parse_opts(o.view_of(), args_view(args@)));
        } else {
            let a = chars_of(args[0].as_str());
            let dashes = chars_of("--");
            if starts_with(&a, &dashes) {
                return Err(Error::UnknownOption(args[0].clone()));
            }
            return Ok(o);
        }
    }
}

/// The implementation for each platform that a command line describes:
/// one per entry, each with the requirements and the entrypoint path.
pub open spec fn entry_impls(entries: Seq<(Platform, Seq<char>)>, relpath: Seq<char>, reqs: Seq<Seq<char>>)
    -> Map<Platform, (Option<(Seq<char>, Seq<char>)>, Seq<Seq<char>>)>
    decreases entries.len(),
{
    if entries.len() == 0 {
        Map::empty()
    } else {
        entry_impls(entries.drop_last(), relpath, reqs).insert(
            entries.last().0,
            (Some((entries.last().1, relpath)), reqs),
        )
    }
}

/// Some platform occurs twice among the entries.
pub open spec fn has_duplicate_platform(entries: Seq<(Platform, Seq<char>)>) -> bool {
    exists|i: int, j: int| 0 <= i < j < entries.len() && entries[i].0 == entries[j].0
}

/// The views of (platform, store identity) pairs.
pub open spec fn entries_view(v: Seq<(Platform, StoreIdentity)>) -> Seq<(Platform, Seq<char>)> {
    v.map_values(|e: (Platform, StoreIdentity)| (e.0, e.1@))
}

impl CliOptions {
    /// The entrypoint given directly as a store identity, for the chosen platform.
    pub fn direct_entrypoint(&self) -> (r: Result<Vec<(Platform, StoreIdentity)>, Error>)
        requires
            self.entrypoint is Some,
        ensures
            ({
                let value = self.entrypoint.unwrap().0@;
                &&& r is Ok <==> valid_identity(value)
                &&& r matches Ok(v) ==> entries_view(v@) == seq![(self.platform, value)]
                &&& r matches Err(e) ==> e@ == ErrorView::InvalidStoreIdentity(value)
            }),
    {
        let value = match &self.entrypoint {
            Some((v, _)) => v.clone(),
            None => String::new(),
        };
        let id = StoreIdentity::new(value)?;
        let mut r: Vec<(Platform, StoreIdentity)> = Vec::new();
        r.push((self.platform, id));
        assert(entries_view(r@) =~= seq![(self.platform, self.entrypoint.unwrap().0@)]);
        Ok(r)
    }

    /// The runscript that the options describe: the default cache and the
    /// added caches, and, without an entrypoint, the requirements for the
    /// chosen platform, or else one implementation for each entry, which
    /// must name distinct platforms.
    pub fn into_runscript(self, entries: Vec<(Platform, StoreIdentity)>) -> (r: Result<RunScript, Error>)
        ensures
            ({
                let o = self.view_of();
                let reqs = o.requirements;
                &&& self.entrypoint is None ==> r is Ok
                &&& self.entrypoint is Some ==> (r is Ok <==> !has_duplicate_platform(entries_view(entries@)))
                &&& r matches Ok(rs) ==> {
                    &&& rs.wf()
                    &&& rs.caches() == seq!["https://cache.nixos.org/"@] + o.caches
                    &&& rs.impls().map_values(|pe: PlatformExec| exec_view(pe)) == match o.entrypoint {
                        None => Map::empty().insert(o.platform, (None, reqs)),
                        Some((_, relpath)) => entry_impls(entries_view(entries@), relpath, reqs),
                    }
                }
                &&& r matches Err(e) ==> exists|k: int| 0 <= k < entries@.len()
                    && !has_duplicate_platform(entries_view(entries@).take(k))
                    && has_duplicate_platform(entries_view(entries@).take(k + 1))
                    && e@ == ErrorView::PlatformAddedTwice(entries@[k].0)
            }),
    {
        let ghost o = self.view_of();
        let mut rs = RunScript::default();
        let mut i: usize = 0;
        while i < self.caches.len()
            invariant
                i <= self.caches@.len(),
                o == self.view_of(),
                rs.wf(),
                rs.impls() == Map::<Platform, PlatformExec>::empty(),
                rs.caches() == seq!["https://cache.nixos.org/"@] + o.caches.take(i as int),
            decreases self.caches@.len() - i,
        {
            rs.add_cache(self.caches[i].copy_server());
            assert(o.caches.take(i + 1) =~= o.caches.take(i as int).push(self.caches@[i as int].root@));
            i = i + 1;
        }
        assert(o.caches.take(i as int) =~= o.caches);
        match &self.entrypoint {
            None => {
                let pe = PlatformExec { entrypoint: None, requirements: copy_identities(&self.requirements) };
                let added = rs.add_platform(self.platform, pe);
                assert(added is Ok);
                assert(rs.impls().map_values(|pe: PlatformExec| exec_view(pe))
                    =~= Map::empty().insert(o.platform, (None, o.requirements)));
                Ok(rs)
            },
            Some((_, relpath)) => {
                let ghost ev = entries_view(entries@);
                let mut k: usize = 0;
                while k < entries.len()
                    invariant
                        k <= entries@.len(),
                        ev == entries_view(entries@),
                        o == self.view_of(),
                        self.entrypoint matches Some((_, rp)) && rp@ == relpath@,
                        rs.wf(),
                        rs.caches() == seq!["https://cache.nixos.org/"@] + o.caches,
                        !has_duplicate_platform(ev.take(k as int)),
                        rs.impls().map_values(|pe: PlatformExec| exec_view(pe))
                            == entry_impls(ev.take(k as int), relpath@, o.requirements),
                        forall|p: Platform| rs.impls().contains_key(p)
                            <==> exists|j: int| 0 <= j < k && ev[j].0 == p,
                    decreases entries@.len() - k,
                {
                    let pe = PlatformExec {
                        entrypoint: Some(Entrypoint {
                            derivation: entries[k].1.copy_identity(),
                            path: relpath.clone(),
                        }),
                        requirements: copy_identities(&self.requirements),
                    };
                    let ghost before = rs.impls();
                    assert(ev.take(k + 1).drop_last() =~= ev.take(k as int));
                    assert(ev[k as int] == (entries@[k as int].0, entries@[k as int].1@));
                    match rs.add_platform(entries[k].0, pe) {
                        Ok(()) => {},
                        Err(e) => {
                            proof {
                                let j = choose|j: int| 0 <= j < k && ev[j].0 == entries@[k as int].0;
                                assert(ev[j].0 == ev[k as int].0);
                                let tk = ev.take(k + 1);
                                assert(tk[j].0 == tk[k as int].0);
                                assert(has_duplicate_platform(tk));
                            }
                            return Err(e);
                        },
                    }
                    proof {
                        let tk = ev.take(k + 1);
                        if has_duplicate_platform(tk) {
                            let (a, b) = choose|a: int, b: int| #![trigger tk[a], tk[b]] 0 <= a < b < tk.len()
                                && tk[a].0 == tk[b].0;
                            if b == k {
                                assert(ev[a].0 == ev[k as int].0);
                                assert(exists|j: int| 0 <= j < k && ev[j].0 == ev[k as int].0);
                                assert(before.contains_key(ev[k as int].0));
                            } else {
                                assert(ev.take(k as int)[a] == ev[a]);
                                assert(ev.take(k as int)[b] == ev[b]);
                                assert(has_duplicate_platform(ev.take(k as int)));
                            }
                        }
                        assert(rs.impls().map_values(|pe: PlatformExec| exec_view(pe))
                            =~= entry_impls(ev.take(k + 1), relpath@, o.requirements));
                        assert forall|p: Platform| rs.impls().contains_key(p)
                            <==> exists|j: int| 0 <= j < k + 1 && ev[j].0 == p by {
                            if p == ev[k as int].0 {
                                assert(0 <= k < k + 1 && ev[k as int].0 == p);
                            }
                            if exists|j: int| 0 <= j < k + 1 && ev[j].0 == p {
                                let j = choose|j: int| 0 <= j < k + 1 && ev[j].0 == p;
                                if j < k {
                                    assert(exists|j2: int| 0 <= j2 < k && ev[j2].0 == p);
                                }
                            }
                        }
                    }
                    k = k + 1;
                }
                assert(ev.take(k as int) =~= ev);
                Ok(rs)
            },
        }
    }
}

/// A parse result with `pre` put before its requirements.
pub open spec fn with_requirements_before(
    r: Result<(OptionsView, Seq<Seq<char>>), ErrorView>,
    pre: Seq<Seq<char>>,
) -> Result<(OptionsView, Seq<Seq<char>>), ErrorView> {
    match r {
        Ok((o, rest)) => Ok((OptionsView { requirements: pre + o.requirements, ..o }, rest)),
        Err(e) => Err(e),
    }
}

/// Requirements only accumulate: reading options with some requirements
/// already gathered gives what reading them from none gives, with the
/// earlier requirements kept in front; nothing else differs.
pub proof fn lemma_requirements_accumulate(st: OptionsView, args: Seq<Seq<char>>)
    ensures
        parse_opts(st, args) == with_requirements_before(
            parse_opts(OptionsView { requirements: seq![], ..st }, args),
            st.requirements,
        ),
    decreases args.len(),
{
    let e = OptionsView { requirements: seq![], ..st };
    if args.len() > 0 {
        let a = args[0];
        let rest = args.drop_first();
        if a == "--help"@ {
            assert(st.requirements + e.requirements =~= st.requirements);
        } else if a == "--require"@ {
            if rest.len() > 0 && valid_identity(rest[0]) {
                let st2 = OptionsView { requirements: st.requirements.push(rest[0]), ..st };
                let e2 = OptionsView { requirements: seq![rest[0]], ..st };
                assert(OptionsView { requirements: e.requirements.push(rest[0]), ..e } =~= e2);
                lemma_requirements_accumulate(st2, rest.drop_first());
                lemma_requirements_accumulate(e2, rest.drop_first());
                let base = parse_opts(OptionsView { requirements: seq![], ..st2 }, rest.drop_first());
                assert(OptionsView { requirements: seq![], ..st2 } == OptionsView { requirements: seq![], ..e2 });
                if let Ok((o, r)) = base {
                    assert(st2.requirements + o.requirements =~= st.requirements + (e2.requirements + o.requirements));
                }
            }
        } else if a == "--with-cache"@ {
            if rest.len() > 0 {
                lemma_requirements_accumulate(
                    OptionsView { caches: st.caches.push(with_trailing_slash(rest[0])), ..st }, rest.drop_first());
            }
        } else if a == "--save"@ {
            if rest.len() > 0 {
                lemma_requirements_accumulate(OptionsView { save_to: Some(rest[0]), ..st }, rest.drop_first());
            }
        } else if a == "--auto-bootstrap"@ {
            lemma_requirements_accumulate(OptionsView { script_type: ScriptType::AutoBootstrap, ..st }, rest);
        } else if a == "--platform"@ {
            if rest.len() > 0 {
                if let Some(p) = platform_named(rest[0]) {
                    lemma_requirements_accumulate(OptionsView { platform: p, ..st }, rest.drop_first());
                }
            }
        } else if a == "--entrypoint"@ {
            if rest.len() > 1 {
                lemma_requirements_accumulate(OptionsView { entrypoint: Some((rest[0], rest[1])), ..st }, rest.skip(2));
            }
        } else if a == "--multiplatform"@ {
            lemma_requirements_accumulate(OptionsView { multiplatform: true, ..st }, rest);
        } else if a == "--expr"@ {
            lemma_requirements_accumulate(OptionsView { expr: true, ..st }, rest);
        } else if "--"@.is_prefix_of(a) {
        } else {
            assert(st.requirements + e.requirements =~= st.requirements);
        }
    } else {
        assert(st.requirements + e.requirements =~= st.requirements);
    }
}

/// Each `--require` adds its value: reading `--require x` and then `args`
/// gives what reading `args` alone gives, with `x` put before its
/// requirements; so the requirements are the values of all the `--require`
/// options, in order, and none is dropped.
pub proof fn lemma_require_adds_one(p: Platform, x: Seq<char>, args: Seq<Seq<char>>)
    requires
        valid_identity(x),
    ensures
        parse_opts(initial_options(p), seq!["--require"@, x] + args)
            == with_requirements_before(parse_opts(initial_options(p), args), seq![x]),
{
    let all = seq!["--require"@, x] + args;
    reveal_strlit("--help");
    reveal_strlit("--require");
    assert("--require"@ != "--help"@) by {
        assert("--require"@[2] != "--help"@[2]);
    }
    assert(all[0] == "--require"@);
    assert(all.drop_first()[0] == x);
    assert(all.drop_first().drop_first() =~= args);
    let st = initial_options(p);
    let st2 = OptionsView { requirements: st.requirements.push(x), ..st };
    lemma_requirements_accumulate(st2, args);
    assert(OptionsView { requirements: seq![], ..st2 } == st);
    assert(st.requirements.push(x) =~= seq![x]);
}

/// A parse result with `pre` put before its caches.
pub open spec fn with_caches_before(
    r: Result<(OptionsView, Seq<Seq<char>>), ErrorView>,
    pre: Seq<Seq<char>>,
) -> Result<(OptionsView, Seq<Seq<char>>), ErrorView> {
    match r {
        Ok((o, rest)) => Ok((OptionsView { caches: pre + o.caches, ..o }, rest)),
        Err(e) => Err(e),
    }
}

/// Caches only accumulate: reading options with some caches already
/// gathered gives what reading them from none gives, with the earlier caches
/// kept in front; nothing else differs.
pub proof fn lemma_caches_accumulate(st: OptionsView, args: Seq<Seq<char>>)
    ensures
        parse_opts(st, args) == with_caches_before(
            parse_opts(OptionsView { caches: seq![], ..st }, args),
            st.caches,
        ),
    decreases args.len(),
{
    let e = OptionsView { caches: seq![], ..st };
    if args.len() > 0 {
        let a = args[0];
        let rest = args.drop_first();
        if a == "--help"@ {
            assert(st.caches + e.caches =~= st.caches);
        } else if a == "--require"@ {
            if rest.len() > 0 && valid_identity(rest[0]) {
                lemma_caches_accumulate(OptionsView { requirements: st.requirements.push(rest[0]), ..st }, rest.drop_first());
            }
        } else if a == "--with-cache"@ {
            if rest.len() > 0 {
                let c = with_trailing_slash(rest[0]);
                let st2 = OptionsView { caches: st.caches.push(c), ..st };
                let e2 = OptionsView { caches: seq![c], ..st };
                assert(OptionsView { caches: e.caches.push(c), ..e } =~= e2);
                lemma_caches_accumulate(st2, rest.drop_first());
                lemma_caches_accumulate(e2, rest.drop_first());
                assert(OptionsView { caches: seq![], ..st2 } == OptionsView { caches: seq![], ..e2 });
                let base = parse_opts(OptionsView { caches: seq![], ..st2 }, rest.drop_first());
                if let Ok((o, r)) = base {
                    assert(st2.caches + o.caches =~= st.caches + (e2.caches + o.caches));
                }
            }
        } else if a == "--save"@ {
            if rest.len() > 0 {
                lemma_caches_accumulate(OptionsView { save_to: Some(rest[0]), ..st }, rest.drop_first());
            }
        } else if a == "--auto-bootstrap"@ {
            lemma_caches_accumulate(OptionsView { script_type: ScriptType::AutoBootstrap, ..st }, rest);
        } else if a == "--platform"@ {
            if rest.len() > 0 {
                if let Some(p) = platform_named(rest[0]) {
                    lemma_caches_accumulate(OptionsView { platform: p, ..st }, rest.drop_first());
                }
            }
        } else if a == "--entrypoint"@ {
            if rest.len() > 1 {
                lemma_caches_accumulate(OptionsView { entrypoint: Some((rest[0], rest[1])), ..st }, rest.skip(2));
            }
        } else if a == "--multiplatform"@ {
            lemma_caches_accumulate(OptionsView { multiplatform: true, ..st }, rest);
        } else if a == "--expr"@ {
            lemma_caches_accumulate(OptionsView { expr: true, ..st }, rest);
        } else if "--"@.is_prefix_of(a) {
        } else {
            assert(st.caches + e.caches =~= st.caches);
        }
    } else {
        assert(st.caches + e.caches =~= st.caches);
    }
}

/// Each `--with-cache` adds its server: reading `--with-cache u` and then
/// `args` gives what reading `args` alone gives, with `u` (ending in `/`)
/// put before its caches.
pub proof fn lemma_with_cache_adds_one(p: Platform, u: Seq<char>, args: Seq<Seq<char>>)
    ensures
        parse_opts(initial_options(p), seq!["--with-cache"@, u] + args)
            == with_caches_before(parse_opts(initial_options(p), args), seq![with_trailing_slash(u)]),
{
    let all = seq!["--with-cache"@, u] + args;
    reveal_strlit("--help");
    reveal_strlit("--require");
    reveal_strlit("--with-cache");
    assert("--with-cache"@ != "--help"@) by {
        assert("--with-cache"@[2] != "--help"@[2]);
    }
    assert("--with-cache"@ != "--require"@) by {
        assert("--with-cache"@[2] != "--require"@[2]);
    }
    assert(all[0] == "--with-cache"@);
    assert(all.drop_first()[0] == u);
    assert(all.drop_first().drop_first() =~= args);
    let st = initial_options(p);
    let c = with_trailing_slash(u);
    let st2 = OptionsView { caches: st.caches.push(c), ..st };
    lemma_caches_accumulate(st2, args);
    assert(OptionsView { caches: seq![], ..st2 } == st);
    assert(st.caches.push(c) =~= seq![c]);
}

/// Options with an entrypoint give each platform among the entries an
/// implementation with exactly the command line's requirements, whatever its
/// position: its entrypoint is the store entry of that platform's entry and
/// the given path. No other platform gets one.
pub proof fn lemma_entry_impls_per_platform(
    entries: Seq<(Platform, Seq<char>)>,
    relpath: Seq<char>,
    reqs: Seq<Seq<char>>,
)
    ensures
        forall|p: Platform| #[trigger] entry_impls(entries, relpath, reqs).contains_key(p)
            <==> exists|i: int| 0 <= i < entries.len() && entries[i].0 == p,
        forall|p: Platform| #[trigger] entry_impls(entries, relpath, reqs).contains_key(p)
            ==> entry_impls(entries, relpath, reqs)[p].1 == reqs,
        !has_duplicate_platform(entries) ==> forall|i: int| 0 <= i < entries.len()
            ==> entry_impls(entries, relpath, reqs)[#[trigger] entries[i].0] == (Some((entries[i].1, relpath)), reqs),
    decreases entries.len(),
{
    if entries.len() > 0 {
        let init = entries.drop_last();
        lemma_entry_impls_per_platform(init, relpath, reqs);
        let m = entry_impls(entries, relpath, reqs);
        assert forall|p: Platform| #[trigger] m.contains_key(p)
            <==> exists|i: int| 0 <= i < entries.len() && entries[i].0 == p by {
            if m.contains_key(p) && p != entries.last().0 {
                assert(entry_impls(init, relpath, reqs).contains_key(p));
                let i = choose|i: int| 0 <= i < init.len() && init[i].0 == p;
                assert(entries[i].0 == p);
            }
            if exists|i: int| 0 <= i < entries.len() && entries[i].0 == p {
                let i = choose|i: int| 0 <= i < entries.len() && entries[i].0 == p;
                if i < init.len() {
                    assert(init[i].0 == p);
                    assert(entry_impls(init, relpath, reqs).contains_key(p));
                }
            }
        }
        assert forall|p: Platform| #[trigger] m.contains_key(p) implies m[p].1 == reqs by {
            if p != entries.last().0 {
                assert(entry_impls(init, relpath, reqs).contains_key(p));
            }
        }
        if !has_duplicate_platform(entries) {
            assert(!has_duplicate_platform(init)) by {
                if has_duplicate_platform(init) {
                    let (i, j) = choose|i: int, j: int| 0 <= i < j < init.len() && init[i].0 == init[j].0;
                    assert(entries[i].0 == entries[j].0);
                }
            }
            assert forall|i: int| 0 <= i < entries.len()
                implies m[#[trigger] entries[i].0] == (Some((entries[i].1, relpath)), reqs) by {
                if i < init.len() {
                    assert(init[i] == entries[i]);
                    assert(entries[i].0 != entries.last().0);
                }
            }
        }
    }
}

} // verus!
