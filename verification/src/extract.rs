//! The claim pass: the first adapter whose claim globs match a path owns the file,
//! unless the path is one its language's own tool never compiles (the adapter's
//! ignores) or one the project excludes, which leaves it unclaimed — still
//! discovered, never extracted.

use vstd::prelude::*;

use globset::{GlobSet, GlobSetBuilder};

use crate::graph::key::DiscoveredFile;
use crate::graph::plugin_round::{decimal, decimal_text};
use crate::text::{owned, str_eq, views};

verus! {

/// `globset::GlobSet`, a compiled set of globs.
#[verifier::external_type_specification]
#[verifier::external_body]
pub struct ExGlobSet(GlobSet);

/// `globset::GlobSetBuilder`, the globs a set will be compiled from.
#[verifier::external_type_specification]
#[verifier::external_body]
pub struct ExGlobSetBuilder(GlobSetBuilder);

/// The globs a builder holds: each pattern, and whether `*` stays inside one path
/// segment.
pub uninterp spec fn builder_patterns(b: GlobSetBuilder) -> Seq<(Seq<char>, bool)>;

/// The globs a compiled set holds, as for a builder.
pub uninterp spec fn glob_set_patterns(s: GlobSet) -> Seq<(Seq<char>, bool)>;

/// Whether globset accepts `pattern` as a glob (with `*` kept inside one segment when
/// `literal_separator`).
pub uninterp spec fn glob_parses(pattern: Seq<char>, literal_separator: bool) -> bool;

/// Whether the glob `pattern` matches `path`.
pub uninterp spec fn glob_matches(pattern: Seq<char>, literal_separator: bool, path: Seq<char>) -> bool;

/// `GlobSetBuilder::new`: a builder holding no glob.
#[verifier::external_body]
fn glob_set_builder() -> (r: GlobSetBuilder)
    ensures
        builder_patterns(r) == Seq::<(Seq<char>, bool)>::empty(),
{
    GlobSetBuilder::new()
}

/// `Glob::new(pattern)` then `GlobSetBuilder::add`: the glob joins the builder when it
/// parses; `r` says whether it did.
#[verifier::external_body]
fn add_glob(b: &mut GlobSetBuilder, pattern: &str) -> (r: bool)
    ensures
        r == glob_parses(pattern@, false),
        builder_patterns(*final(b)) == if r {
            builder_patterns(*old(b)).push((pattern@, false))
        } else {
            builder_patterns(*old(b))
        },
{
    match globset::Glob::new(pattern) {
        Ok(glob) => {
            b.add(glob);
            true
        },
        Err(_) => false,
    }
}

/// `GlobBuilder::new(pattern).literal_separator(true).build()` then
/// `GlobSetBuilder::add`: as [`add_glob`], with `*` kept inside one path segment.
#[verifier::external_body]
fn add_segment_glob(b: &mut GlobSetBuilder, pattern: &str) -> (r: bool)
    ensures
        r == glob_parses(pattern@, true),
        builder_patterns(*final(b)) == if r {
            builder_patterns(*old(b)).push((pattern@, true))
        } else {
            builder_patterns(*old(b))
        },
{
    match globset::GlobBuilder::new(pattern).literal_separator(true).build() {
        Ok(glob) => {
            b.add(glob);
            true
        },
        Err(_) => false,
    }
}

/// Whether globset compiles a set of the globs `pats` (it fails only where the
/// compiled matcher exceeds the regex engine's size limits, a function of the globs).
pub uninterp spec fn glob_set_builds(pats: Seq<(Seq<char>, bool)>) -> bool;

/// `GlobSetBuilder::build`: a set of the builder's globs when they compile, `None`
/// when they do not.
#[verifier::external_body]
fn build_glob_set(b: &GlobSetBuilder) -> (r: Option<GlobSet>)
    ensures
        r is Some <==> glob_set_builds(builder_patterns(*b)),
        r matches Some(s) ==> glob_set_patterns(s) == builder_patterns(*b),
{
    b.build().ok()
}

/// `GlobSet::empty`: a set that matches nothing.
#[verifier::external_body]
fn empty_glob_set() -> (r: GlobSet)
    ensures
        glob_set_patterns(r) == Seq::<(Seq<char>, bool)>::empty(),
{
    GlobSet::empty()
}

/// Some glob of `pats` matches `path`.
pub open spec fn any_matches(pats: Seq<(Seq<char>, bool)>, path: Seq<char>) -> bool {
    exists|i: int| 0 <= i < pats.len() && #[trigger] glob_matches(pats[i].0, pats[i].1, path)
}

/// `GlobSet::is_match`: whether any glob in the set matches the path.
#[verifier::external_body]
fn glob_set_is_match(s: &GlobSet, path: &str) -> (r: bool)
    ensures
        r == (exists|i: int|
            0 <= i < glob_set_patterns(*s).len() && #[trigger] glob_matches(
                glob_set_patterns(*s)[i].0,
                glob_set_patterns(*s)[i].1,
                path@,
            )),
{
    s.is_match(path)
}

/// The globs of `globs` that parse, in order.
pub open spec fn parsed(globs: Seq<Seq<char>>, literal_separator: bool) -> Seq<(Seq<char>, bool)>
    decreases globs.len(),
{
    if globs.len() == 0 {
        Seq::empty()
    } else if glob_parses(globs.last(), literal_separator) {
        parsed(globs.drop_last(), literal_separator).push((globs.last(), literal_separator))
    } else {
        parsed(globs.drop_last(), literal_separator)
    }
}

/// The globs a set compiled from `globs` holds: every glob that parses, or none when
/// those fail to compile together.
pub open spec fn compiled(globs: Seq<Seq<char>>, literal_separator: bool) -> Seq<(Seq<char>, bool)> {
    if glob_set_builds(parsed(globs, literal_separator)) {
        parsed(globs, literal_separator)
    } else {
        Seq::empty()
    }
}

/// The set of every glob that parses: an unparsable one is skipped, never a refusal to
/// run; should the set fail to compile, it is the empty set.
pub fn glob_set(globs: &[String], literal_separator: bool) -> (r: GlobSet)
    ensures
        glob_set_patterns(r) == compiled(views(globs@), literal_separator),
{
    let mut b = glob_set_builder();
    let mut i: usize = 0;
    proof {
        assert(views(globs@).take(0) =~= Seq::<Seq<char>>::empty());
    }
    while i < globs.len()
        invariant
            i <= globs@.len(),
            builder_patterns(b) == parsed(views(globs@).take(i as int), literal_separator),
        decreases globs@.len() - i,
    {
        proof {
            assert(views(globs@).take(i + 1).drop_last() =~= views(globs@).take(i as int));
            assert(views(globs@).take(i + 1).last() == globs@[i as int]@);
        }
        if literal_separator {
            add_segment_glob(&mut b, globs[i].as_str());
        } else {
            add_glob(&mut b, globs[i].as_str());
        }
        i = i + 1;
    }
    proof {
        assert(views(globs@).take(globs@.len() as int) =~= views(globs@));
    }
    match build_glob_set(&b) {
        Some(s) => s,
        None => empty_glob_set(),
    }
}

/// One adapter's ignores as a set: globs over project paths with `*` inside one
/// segment, so `**/_*.go` names a file whose name begins with `_`, never a file under
/// a directory that does.
pub fn ignore_set(globs: &[String]) -> (r: GlobSet)
    ensures
        glob_set_patterns(r) == compiled(views(globs@), true),
{
    glob_set(globs, true)
}

/// A claimed file: which discovered file, and which adapter owns it.
#[derive(Debug, Clone, Copy, PartialEq, Eq, Structural)]
pub struct ClaimedFile {
    pub file_index: usize,
    pub adapter_index: usize,
}

/// The first adapter whose claims match `path` and whose ignores do not.
pub open spec fn claimant(claims: Seq<Seq<(Seq<char>, bool)>>, ignores: Seq<Seq<(Seq<char>, bool)>>, path: Seq<char>) -> Option<int> {
    if exists|a: int|
        0 <= a < claims.len() && any_matches(claims[a], path) && !any_matches(ignores[a], path) {
        Some(
            choose|a: int|
                0 <= a < claims.len() && any_matches(claims[a], path) && !any_matches(ignores[a], path)
                    && forall|b: int|
                    0 <= b < a ==> !(#[trigger] any_matches(claims[b], path) && !any_matches(ignores[b], path)),
        )
    } else {
        None
    }
}

/// The claims over the first `k` files, in file order.
pub open spec fn claims_upto(
    files: Seq<DiscoveredFile>,
    claims: Seq<Seq<(Seq<char>, bool)>>,
    ignores: Seq<Seq<(Seq<char>, bool)>>,
    project: Seq<(Seq<char>, bool)>,
    k: int,
) -> Seq<ClaimedFile>
    decreases k,
{
    if k <= 0 {
        Seq::empty()
    } else {
        let prev = claims_upto(files, claims, ignores, project, k - 1);
        let path = files[k - 1].path.0@;
        if any_matches(project, path) {
            prev
        } else {
            match claimant(claims, ignores, path) {
                Some(a) => prev.push(ClaimedFile { file_index: (k - 1) as usize, adapter_index: a as usize }),
                None => prev,
            }
        }
    }
}

/// The claims over `files` given compiled claim and ignore sets per adapter.
fn claim_with_sets(
    files: &[DiscoveredFile],
    claim_sets: &Vec<GlobSet>,
    ignore_sets: &Vec<GlobSet>,
    project_ignores: &GlobSet,
) -> (r: Vec<ClaimedFile>)
    requires
        claim_sets@.len() == ignore_sets@.len(),
    ensures
        r@ == claims_upto(
            files@,
            claim_sets@.map_values(|s: GlobSet| glob_set_patterns(s)),
            ignore_sets@.map_values(|s: GlobSet| glob_set_patterns(s)),
            glob_set_patterns(*project_ignores),
            files@.len() as int,
        ),
{
    let ghost cp = claim_sets@.map_values(|s: GlobSet| glob_set_patterns(s));
    let ghost ip = ignore_sets@.map_values(|s: GlobSet| glob_set_patterns(s));
    let ghost pp = glob_set_patterns(*project_ignores);
    let mut out: Vec<ClaimedFile> = Vec::new();
    let mut k: usize = 0;
    while k < files.len()
        invariant
            claim_sets@.len() == ignore_sets@.len(),
            cp == claim_sets@.map_values(|s: GlobSet| glob_set_patterns(s)),
            ip == ignore_sets@.map_values(|s: GlobSet| glob_set_patterns(s)),
            pp == glob_set_patterns(*project_ignores),
            k <= files@.len(),
            out@ == claims_upto(files@, cp, ip, pp, k as int),
        decreases files@.len() - k,
    {
        let path = files[k].path.0.as_str();
        if !glob_set_is_match(project_ignores, path) {
            let mut a: usize = 0;
            let mut found: Option<usize> = None;
            while a < claim_sets.len()
                invariant_except_break
                    found is None,
                invariant
                    claim_sets@.len() == ignore_sets@.len(),
                    cp == claim_sets@.map_values(|s: GlobSet| glob_set_patterns(s)),
                    ip == ignore_sets@.map_values(|s: GlobSet| glob_set_patterns(s)),
                    a <= claim_sets@.len(),
                    forall|b: int| 0 <= b < a ==> !(#[trigger] any_matches(cp[b], path@) && !any_matches(ip[b], path@)),
                ensures
                    match found {
                        Some(c) => c < cp.len() && any_matches(cp[c as int], path@) && !any_matches(ip[c as int], path@)
                            && forall|b: int| 0 <= b < c ==> !(#[trigger] any_matches(cp[b], path@) && !any_matches(ip[b], path@)),
                        None => forall|b: int| 0 <= b < cp.len() ==> !(#[trigger] any_matches(cp[b], path@) && !any_matches(ip[b], path@)),
                    },
                decreases claim_sets@.len() - a,
            {
                if glob_set_is_match(&claim_sets[a], path) && !glob_set_is_match(&ignore_sets[a], path) {
                    found = Some(a);
                    break;
                }
                a = a + 1;
            }
            proof {
                match found {
                    Some(c) => {
                        let w = choose|w: int|
                            0 <= w < cp.len() && any_matches(cp[w], path@) && !any_matches(ip[w], path@)
                                && forall|b: int|
                                0 <= b < w ==> !(#[trigger] any_matches(cp[b], path@) && !any_matches(ip[b], path@));
                        assert(w == c) by {
                            if w < c {
                                assert(!(any_matches(cp[w], path@) && !any_matches(ip[w], path@)));
                            }
                            if c < w {
                                assert(!(any_matches(cp[c as int], path@) && !any_matches(ip[c as int], path@)));
                            }
                        }
                    },
                    None => {},
                }
            }
            match found {
                Some(c) => {
                    out.push(ClaimedFile { file_index: k, adapter_index: c });
                },
                None => {},
            }
        }
        k = k + 1;
    }
    out
}

/// Whether `pats` are the globs a set compiled from `globs` holds (none at all for a set
/// that failed to compile).
pub open spec fn compiled_from(pats: Seq<(Seq<char>, bool)>, globs: Seq<Seq<char>>, literal_separator: bool) -> bool {
    pats == compiled(globs, literal_separator)
}

/// The claim pass: each discovered file the project does not exclude goes to the first
/// adapter whose claim globs match it and whose ignores do not; `claims[a]` and
/// `ignores[a]` are adapter `a`'s globs.
pub fn claim(
    files: &[DiscoveredFile],
    claims: &[Vec<String>],
    ignores: &[Vec<String>],
    project_ignores: &GlobSet,
) -> (r: Vec<ClaimedFile>)
    requires
        claims@.len() == ignores@.len(),
    ensures
        exists|cp: Seq<Seq<(Seq<char>, bool)>>, ip: Seq<Seq<(Seq<char>, bool)>>|
            #![trigger claims_upto(files@, cp, ip, glob_set_patterns(*project_ignores), files@.len() as int)]
            cp.len() == claims@.len() && ip.len() == ignores@.len() && (forall|a: int|
                0 <= a < cp.len() ==> compiled_from(#[trigger] cp[a], views(claims@[a]@), false)) && (forall|a: int|
                0 <= a < ip.len() ==> compiled_from(#[trigger] ip[a], views(ignores@[a]@), true)) && r@ == claims_upto(
                files@,
                cp,
                ip,
                glob_set_patterns(*project_ignores),
                files@.len() as int,
            ),
{
    let mut claim_sets: Vec<GlobSet> = Vec::new();
    let mut ignore_sets: Vec<GlobSet> = Vec::new();
    let mut a: usize = 0;
    while a < claims.len()
        invariant
            claims@.len() == ignores@.len(),
            a <= claims@.len(),
            claim_sets@.len() == a,
            ignore_sets@.len() == a,
            forall|b: int|
                0 <= b < a ==> compiled_from(glob_set_patterns(#[trigger] claim_sets@[b]), views(claims@[b]@), false),
            forall|b: int|
                0 <= b < a ==> compiled_from(glob_set_patterns(#[trigger] ignore_sets@[b]), views(ignores@[b]@), true),
        decreases claims@.len() - a,
    {
        claim_sets.push(glob_set(claims[a].as_slice(), false));
        ignore_sets.push(ignore_set(ignores[a].as_slice()));
        a = a + 1;
    }
    let r = claim_with_sets(files, &claim_sets, &ignore_sets, project_ignores);
    proof {
        let cp = claim_sets@.map_values(|s: GlobSet| glob_set_patterns(s));
        let ip = ignore_sets@.map_values(|s: GlobSet| glob_set_patterns(s));
        assert forall|b: int| 0 <= b < cp.len() implies compiled_from(#[trigger] cp[b], views(claims@[b]@), false) by {
            assert(cp[b] == glob_set_patterns(claim_sets@[b]));
        }
        assert forall|b: int| 0 <= b < ip.len() implies compiled_from(#[trigger] ip[b], views(ignores@[b]@), true) by {
            assert(ip[b] == glob_set_patterns(ignore_sets@[b]));
        }
    }
    r
}

/// The adapter that claims files of `suffix` (`suffixes[a]` is adapter `a`'s): the
/// first registered wins, as it does for a file's claim.
pub fn claimant_of_suffix(suffixes: &[Vec<String>], suffix: &str) -> (r: Option<usize>)
    ensures
        match r {
            Some(a) => a < suffixes@.len() && views(suffixes@[a as int]@).contains(suffix@) && forall|b: int|
                0 <= b < a ==> !views(#[trigger] suffixes@[b]@).contains(suffix@),
            None => forall|b: int| 0 <= b < suffixes@.len() ==> !views(#[trigger] suffixes@[b]@).contains(suffix@),
        },
{
    let mut a: usize = 0;
    while a < suffixes.len()
        invariant
            a <= suffixes@.len(),
            forall|b: int| 0 <= b < a ==> !views(#[trigger] suffixes@[b]@).contains(suffix@),
        decreases suffixes@.len() - a,
    {
        let list = &suffixes[a];
        let mut k: usize = 0;
        while k < list.len()
            invariant
                a < suffixes@.len(),
                *list == suffixes@[a as int],
                forall|b: int| 0 <= b < a ==> !views(#[trigger] suffixes@[b]@).contains(suffix@),
                k <= list@.len(),
                forall|j: int| 0 <= j < k ==> (#[trigger] list@[j])@ != suffix@,
            decreases list@.len() - k,
        {
            if str_eq(list[k].as_str(), suffix) {
                proof {
                    assert(views(suffixes@[a as int]@)[k as int] == suffix@);
                }
                return Some(a);
            }
            k = k + 1;
        }
        proof {
            if views(list@).contains(suffix@) {
                let j = choose|j: int| 0 <= j < views(list@).len() && views(list@)[j] == suffix@;
                assert(list@[j]@ == suffix@);
            }
        }
        a = a + 1;
    }
    None
}

/// The warning left on a file for an embedded region whose language no extension
/// claims.
pub open spec fn unread_region_line(language: Seq<char>, start: nat, end: nat) -> Seq<char> {
    "no extension claims `"@ + language + "` files \u{2014} the embedded region at "@ + decimal_text(start)
        + ".."@ + decimal_text(end) + " is left unread"@
}

/// The text of that warning, for the region `start..end` of `language`.
pub fn unread_region_message(language: &str, start: u32, end: u32) -> (r: String)
    ensures
        r@ == unread_region_line(language@, start as nat, end as nat),
{
    let mut message = owned("no extension claims `");
    message.append(language);
    message.append("` files \u{2014} the embedded region at ");
    let from = decimal(start as u64);
    message.append(from.as_str());
    message.append("..");
    let to = decimal(end as u64);
    message.append(to.as_str());
    message.append(" is left unread");
    proof {
        assert(message@ =~= unread_region_line(language@, start as nat, end as nat));
    }
    message
}

/// Per adapter, whether it declares any glob of the kind a pass reads.
pub open spec fn declaring(globs: Seq<Vec<String>>) -> Seq<bool> {
    globs.map_values(|g: Vec<String>| g@.len() > 0)
}

/// Whether adapter `a` takes the file at `path` in a matching pass: it declares globs
/// of the kind the pass reads, one of them matches, and none of its ignores does.
pub open spec fn takes(
    declared: Seq<bool>,
    sets: Seq<Seq<(Seq<char>, bool)>>,
    ignores: Seq<Seq<(Seq<char>, bool)>>,
    path: Seq<char>,
    a: int,
) -> bool {
    declared[a] && any_matches(sets[a], path) && !any_matches(ignores[a], path)
}

/// The pairs `(f, a)` for file `f` and the first `k` adapters that take it, in adapter
/// order.
pub open spec fn pairs_of_file(
    declared: Seq<bool>,
    sets: Seq<Seq<(Seq<char>, bool)>>,
    ignores: Seq<Seq<(Seq<char>, bool)>>,
    path: Seq<char>,
    f: int,
    k: int,
) -> Seq<(usize, usize)>
    decreases k,
{
    if k <= 0 {
        Seq::empty()
    } else if takes(declared, sets, ignores, path, k - 1) {
        pairs_of_file(declared, sets, ignores, path, f, k - 1).push((f as usize, (k - 1) as usize))
    } else {
        pairs_of_file(declared, sets, ignores, path, f, k - 1)
    }
}

/// The pairs over the first `k` files, in file order.
pub open spec fn matching_upto(
    files: Seq<DiscoveredFile>,
    declared: Seq<bool>,
    sets: Seq<Seq<(Seq<char>, bool)>>,
    ignores: Seq<Seq<(Seq<char>, bool)>>,
    k: int,
) -> Seq<(usize, usize)>
    decreases k,
{
    if k <= 0 {
        Seq::empty()
    } else {
        matching_upto(files, declared, sets, ignores, k - 1) + pairs_of_file(
            declared,
            sets,
            ignores,
            files[k - 1].path.0@,
            k - 1,
            sets.len() as int,
        )
    }
}

/// Every (file, adapter) pair for the globs a pass reads of each adapter (`globs[a]`,
/// such as its manifest globs), in file order then adapter order: an adapter that
/// declares none takes nothing, and a file under one of the adapter's ignores
/// (`ignores[a]`) is somebody else's.
pub fn matching_pairs(files: &[DiscoveredFile], globs: &[Vec<String>], ignores: &[Vec<String>]) -> (r: Vec<(usize, usize)>)
    requires
        globs@.len() == ignores@.len(),
    ensures
        exists|sp: Seq<Seq<(Seq<char>, bool)>>, ip: Seq<Seq<(Seq<char>, bool)>>|
            #![trigger matching_upto(files@, declaring(globs@), sp, ip, files@.len() as int)]
            sp.len() == globs@.len() && ip.len() == ignores@.len() && (forall|a: int|
                0 <= a < sp.len() ==> compiled_from(#[trigger] sp[a], views(globs@[a]@), false)) && (forall|a: int|
                0 <= a < ip.len() ==> compiled_from(#[trigger] ip[a], views(ignores@[a]@), true)) && r@ == matching_upto(
                files@,
                declaring(globs@),
                sp,
                ip,
                files@.len() as int,
            ),
{
    let ghost declared = declaring(globs@);
    let mut sets: Vec<GlobSet> = Vec::new();
    let mut ignore_sets: Vec<GlobSet> = Vec::new();
    let mut a: usize = 0;
    while a < globs.len()
        invariant
            globs@.len() == ignores@.len(),
            a <= globs@.len(),
            sets@.len() == a,
            ignore_sets@.len() == a,
            forall|b: int| 0 <= b < a ==> compiled_from(glob_set_patterns(#[trigger] sets@[b]), views(globs@[b]@), false),
            forall|b: int|
                0 <= b < a ==> compiled_from(glob_set_patterns(#[trigger] ignore_sets@[b]), views(ignores@[b]@), true),
        decreases globs@.len() - a,
    {
        sets.push(glob_set(globs[a].as_slice(), false));
        ignore_sets.push(ignore_set(ignores[a].as_slice()));
        a = a + 1;
    }
    let ghost sp = sets@.map_values(|s: GlobSet| glob_set_patterns(s));
    let ghost ip = ignore_sets@.map_values(|s: GlobSet| glob_set_patterns(s));
    let mut out: Vec<(usize, usize)> = Vec::new();
    let mut f: usize = 0;
    while f < files.len()
        invariant
            globs@.len() == ignores@.len() == sets@.len() == ignore_sets@.len(),
            declared == declaring(globs@),
            sp == sets@.map_values(|s: GlobSet| glob_set_patterns(s)),
            ip == ignore_sets@.map_values(|s: GlobSet| glob_set_patterns(s)),
            f <= files@.len(),
            out@ == matching_upto(files@, declared, sp, ip, f as int),
        decreases files@.len() - f,
    {
        let path = files[f].path.0.as_str();
        let mut b: usize = 0;
        while b < sets.len()
            invariant
                globs@.len() == ignores@.len() == sets@.len() == ignore_sets@.len(),
                declared == declaring(globs@),
                sp == sets@.map_values(|s: GlobSet| glob_set_patterns(s)),
                ip == ignore_sets@.map_values(|s: GlobSet| glob_set_patterns(s)),
                f < files@.len(),
                path@ == files@[f as int].path.0@,
                b <= sets@.len(),
                out@ == matching_upto(files@, declared, sp, ip, f as int) + pairs_of_file(
                    declared,
                    sp,
                    ip,
                    path@,
                    f as int,
                    b as int,
                ),
            decreases sets@.len() - b,
        {
            if globs[b].len() > 0 && glob_set_is_match(&sets[b], path) && !glob_set_is_match(&ignore_sets[b], path) {
                out.push((f, b));
            }
            b = b + 1;
        }
        f = f + 1;
    }
    proof {
        assert forall|b: int| 0 <= b < sp.len() implies compiled_from(#[trigger] sp[b], views(globs@[b]@), false) by {
            assert(sp[b] == glob_set_patterns(sets@[b]));
        }
        assert forall|b: int| 0 <= b < ip.len() implies compiled_from(#[trigger] ip[b], views(ignores@[b]@), true) by {
            assert(ip[b] == glob_set_patterns(ignore_sets@[b]));
        }
    }
    out
}

} // verus!
