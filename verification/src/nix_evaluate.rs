//! The nix expressions that runix evaluates to find store paths.

use vstd::prelude::*;
use vstd::string::*;
use crate::text::{chars_of, push_char};
use crate::error::{Error, ErrorView};
use crate::platform::{Platform, platform_named, platform_error};
use crate::store::{StoreIdentity, valid_identity, last_component};
use crate::cli::entries_view;

verus! {

/// The text before the user's expression in the multi-platform query.
pub const MULTI_PREFIX: &'static str = "with builtins;\n\tlet\n\t\tdrvs = ";

/// The text after the user's expression in the multi-platform query: a map
/// from each derivation's system to its output path.
pub const MULTI_SUFFIX: &'static str = ";\n\t\tbuildMap = (d: { name = d.system; value = d.outPath; });\n\tin\n\tlistToAttrs (map buildMap (if typeOf drvs == \"list\" then drvs else attrValues drvs))\n";

/// `s` with every tab replaced by four spaces.
pub open spec fn tabs_to_spaces(s: Seq<char>) -> Seq<char>
    decreases s.len(),
{
    if s.len() == 0 {
        seq![]
    } else {
        tabs_to_spaces(s.drop_last()) + if s.last() == '\t' { seq![' ', ' ', ' ', ' '] } else { seq![s.last()] }
    }
}

/// The expression for the output path of the derivation `expr`.
pub fn single_output_expr(expr: &str) -> (r: String)
    ensures
        r@ == seq!['('] + expr@ + seq![')', '.', 'o', 'u', 't', 'P', 'a', 't', 'h'],
{
    let mut r = String::from_str("(");
    r.append(expr);
    r.append(").outPath");
    proof {
        reveal_strlit("(");
        reveal_strlit(").outPath");
    }
    assert(r@ =~= seq!['('] + expr@ + seq![')', '.', 'o', 'u', 't', 'P', 'a', 't', 'h']);
    r
}

/// The expression mapping each system to the output path of the derivation
/// for it, where `expr` is a list or an attribute set of derivations; tabs
/// are written as four spaces.
pub fn multi_output_expr(expr: &str) -> (r: String)
    ensures
        r@ == tabs_to_spaces(MULTI_PREFIX@ + expr@ + MULTI_SUFFIX@),
{
    let mut whole = String::from_str(MULTI_PREFIX);
    whole.append(expr);
    whole.append(MULTI_SUFFIX);
    let v = chars_of(whole.as_str());
    let mut r = String::new();
    let mut i: usize = 0;
    while i < v.len()
        invariant
            i <= v@.len(),
            r@ == tabs_to_spaces(v@.take(i as int)),
        decreases v@.len() - i,
    {
        let c = v[i];
        assert(v@.take(i + 1).drop_last() =~= v@.take(i as int));
        if c == '\t' {
            push_char(&mut r, ' ');
            push_char(&mut r, ' ');
            push_char(&mut r, ' ');
            push_char(&mut r, ' ');
        } else {
            push_char(&mut r, c);
        }
        i = i + 1;
        assert(r@ =~= tabs_to_spaces(v@.take(i as int)));
    }
    assert(v@.take(v@.len() as int) =~= v@);
    r
}

/// The string that a JSON text holds, as serde_json reads it; `None` when
/// the text is not one JSON string.
pub uninterp spec fn json_string(bytes: Seq<u8>) -> Option<Seq<char>>;

/// The object of strings that a JSON text holds, as serde_json reads it into
/// a map; `None` when the text is not one such object.
pub uninterp spec fn json_string_map(bytes: Seq<u8>) -> Option<Map<Seq<char>, Seq<char>>>;

/// Decodes a JSON string with serde_json's `from_slice`. Trusted: the result
/// is the string that `json_string` names for these bytes, and `None` when
/// serde_json refuses them.
#[verifier::external_body]
fn decode_json_string(bytes: &[u8]) -> (r: Option<String>)
    ensures
        r is Some <==> json_string(bytes@) is Some,
        r matches Some(s) ==> Some(s@) == json_string(bytes@),
{
    serde_json::from_slice::<String>(bytes).ok()
}

/// The names of a sequence of (name, value) pairs, each once.
pub open spec fn distinct_names(v: Seq<(String, String)>) -> bool {
    forall|i: int, j: int| 0 <= i < j < v.len() ==> v[i].0@ != v[j].0@
}

/// The map that (name, value) pairs make up.
pub open spec fn pairs_map(v: Seq<(String, String)>) -> Map<Seq<char>, Seq<char>>
    decreases v.len(),
{
    if v.len() == 0 {
        Map::empty()
    } else {
        pairs_map(v.drop_last()).insert(v.last().0@, v.last().1@)
    }
}

/// Decodes a JSON object of strings with serde_json's `from_slice` into a
/// map, and lists its entries. Trusted: the result is `None` exactly when
/// serde_json refuses the bytes; otherwise its names are distinct (those of
/// a map) and the pairs make up the map that `json_string_map` names. The
/// order of the pairs is that of the map's iteration, which is not stated.
#[verifier::external_body]
fn decode_json_string_map(bytes: &[u8]) -> (r: Option<Vec<(String, String)>>)
    ensures
        r is Some <==> json_string_map(bytes@) is Some,
        r matches Some(v) ==> distinct_names(v@) && pairs_map(v@) == json_string_map(bytes@).unwrap(),
{
    match serde_json::from_slice::<std::collections::HashMap<String, String>>(bytes) {
        Ok(m) => Some(m.into_iter().collect()),
        Err(_) => None,
    }
}

/// The output path that an evaluation printed: `None` when the evaluation
/// failed or its output is not one JSON string.
pub fn evaluation_output(success: bool, stdout: &[u8]) -> (r: Option<String>)
    ensures
        !success ==> r is None,
        success ==> (r is Some <==> json_string(stdout@) is Some),
        success && r is Some ==> Some(r.unwrap()@) == json_string(stdout@),
{
    if success {
        decode_json_string(stdout)
    } else {
        None
    }
}

/// The output path for each system that an evaluation printed: `None` when
/// the evaluation failed or its output is not one JSON object of strings.
pub fn evaluation_outputs(success: bool, stdout: &[u8]) -> (r: Option<Vec<(String, String)>>)
    ensures
        !success ==> r is None,
        success ==> (r is Some <==> json_string_map(stdout@) is Some),
        r matches Some(v) ==> distinct_names(v@) && pairs_map(v@) == json_string_map(stdout@).unwrap(),
{
    if success {
        decode_json_string_map(stdout)
    } else {
        None
    }
}

/// The entries that evaluated (system, output path) pairs name, in order:
/// each system read as a platform and each path as the store identity of its
/// last component; the first pair that does not read gives its error, the
/// platform's before the path's.
pub open spec fn entries_from(pairs: Seq<(Seq<char>, Seq<char>)>) -> Result<Seq<(Platform, Seq<char>)>, ErrorView>
    decreases pairs.len(),
{
    if pairs.len() == 0 {
        Ok(seq![])
    } else {
        match entries_from(pairs.drop_last()) {
            Err(e) => Err(e),
            Ok(es) => {
                let (system, path) = pairs.last();
                match platform_named(system) {
                    None => Err(platform_error(system)),
                    Some(p) => if valid_identity(last_component(path)) {
                        Ok(es.push((p, last_component(path))))
                    } else {
                        Err(ErrorView::InvalidStoreIdentity(last_component(path)))
                    },
                }
            },
        }
    }
}

/// The views of (name, value) pairs.
pub open spec fn pairs_view(v: Seq<(String, String)>) -> Seq<(Seq<char>, Seq<char>)> {
    v.map_values(|p: (String, String)| (p.0@, p.1@))
}

/// The entries that evaluated (system, output path) pairs name (see
/// `entries_from`).
pub fn evaluated_entries(pairs: &Vec<(String, String)>) -> (r: Result<Vec<(Platform, StoreIdentity)>, Error>)
    ensures
        entries_from(pairs_view(pairs@)) matches Ok(es) ==> (r matches Ok(v) && entries_view(v@) == es),
        entries_from(pairs_view(pairs@)) matches Err(e) ==> (r matches Err(x) && x@ == e),
{
    let ghost pv = pairs_view(pairs@);
    let mut r: Vec<(Platform, StoreIdentity)> = Vec::new();
    let mut i: usize = 0;
    assert(pv.take(0) =~= Seq::<(Seq<char>, Seq<char>)>::empty());
    assert(entries_view(r@) =~= Seq::<(Platform, Seq<char>)>::empty());
    while i < pairs.len()
        invariant
            i <= pairs@.len(),
            pv == pairs_view(pairs@),
            entries_from(pv.take(i as int)) == Ok::<Seq<(Platform, Seq<char>)>, ErrorView>(entries_view(r@)),
        decreases pairs@.len() - i,
    {
        proof {
            assert(pv.take(i + 1).drop_last() =~= pv.take(i as int));
            assert(pv.take(i + 1).last() == (pairs@[i as int].0@, pairs@[i as int].1@));
        }
        let p = match Platform::from_str(pairs[i].0.as_str()) {
            Ok(p) => p,
            Err(e) => {
                proof { lemma_entries_from_err(pv, i as int + 1, e@); }
                return Err(e);
            },
        };
        let id = match StoreIdentity::from_path(pairs[i].1.as_str()) {
            Ok(id) => id,
            Err(e) => {
                proof { lemma_entries_from_err(pv, i as int + 1, e@); }
                return Err(e);
            },
        };
        let ghost before = r@;
        r.push((p, id));
        assert(entries_view(r@) =~= entries_view(before).push((p, id@)));
        i = i + 1;
    }
    assert(pv.take(i as int) =~= pv);
    Ok(r)
}

/// Once the pairs up to `k` give an error, all of them give that error.
proof fn lemma_entries_from_err(pv: Seq<(Seq<char>, Seq<char>)>, k: int, e: ErrorView)
    requires
        0 <= k <= pv.len(),
        entries_from(pv.take(k)) == Err::<Seq<(Platform, Seq<char>)>, ErrorView>(e),
    ensures
        entries_from(pv) == Err::<Seq<(Platform, Seq<char>)>, ErrorView>(e),
    decreases pv.len() - k,
{
    if k < pv.len() {
        assert(pv.take(k + 1).drop_last() =~= pv.take(k));
        lemma_entries_from_err(pv, k + 1, e);
    } else {
        assert(pv.take(k) =~= pv);
    }
}

/// Evaluated pairs are read one by one, each on its own: they give entries
/// exactly when every system names a platform and every output path ends in
/// a valid store identity, and then there is one entry per pair, entry `k`
/// holding the platform of system `k` and the last component of path `k`.
pub proof fn lemma_entries_pairwise(pairs: Seq<(Seq<char>, Seq<char>)>)
    ensures
        entries_from(pairs) is Ok <==> forall|k: int| 0 <= k < pairs.len() ==>
            platform_named(#[trigger] pairs[k].0) is Some && valid_identity(last_component(pairs[k].1)),
        entries_from(pairs) matches Ok(es) ==> es.len() == pairs.len() && forall|k: int| 0 <= k < pairs.len()
            ==> #[trigger] es[k] == (platform_named(pairs[k].0).unwrap(), last_component(pairs[k].1)),
    decreases pairs.len(),
{
    if pairs.len() > 0 {
        let init = pairs.drop_last();
        lemma_entries_pairwise(init);
        let last = pairs.len() - 1;
        assert(pairs.last() == pairs[last]);
        if entries_from(pairs) is Ok {
            assert forall|k: int| 0 <= k < pairs.len() implies
                platform_named(#[trigger] pairs[k].0) is Some && valid_identity(last_component(pairs[k].1)) by {
                if k < last {
                    assert(init[k] == pairs[k]);
                }
            }
            let es = entries_from(pairs)->Ok_0;
            assert forall|k: int| 0 <= k < pairs.len() implies
                #[trigger] es[k] == (platform_named(pairs[k].0).unwrap(), last_component(pairs[k].1)) by {
                if k < last {
                    assert(init[k] == pairs[k]);
                }
            }
        } else {
            if forall|k: int| 0 <= k < pairs.len() ==>
                platform_named(#[trigger] pairs[k].0) is Some && valid_identity(last_component(pairs[k].1)) {
                assert forall|k: int| 0 <= k < init.len() implies
                    platform_named(#[trigger] init[k].0) is Some && valid_identity(last_component(init[k].1)) by {
                    assert(init[k] == pairs[k]);
                }
                assert(platform_named(pairs[last].0) is Some);
            }
        }
    }
}

} // verus!
