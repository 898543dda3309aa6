//! Re-export aliasing. A barrel's re-exported bindings (`export {a} from './b'`,
//! `pub use b::a`) become names of the barrel itself, resolved to the symbol they name
//! in their target. Resolution runs in rounds over every unresolved binding, in (file,
//! import, binding) order, until a round makes no progress: chained barrels resolve
//! whatever their order, and a re-export cycle never resolves. A name the barrel
//! already has (its own declaration, or an alias taken earlier) is never replaced.

use vstd::prelude::*;

use rustc_hash::FxHashMap;

use crate::fx::{str_ids, str_ids_get, str_ids_insert, str_ids_new};
use crate::text::owned;

verus! {

/// A pending re-export: the barrel file, the target file, the name in the target and
/// the name in the barrel.
pub open spec fn pending_of(re: Seq<Vec<(String, u32, String)>>, f: int) -> Seq<(u32, u32, Seq<char>, Seq<char>)> {
    re[f]@.map_values(|e: (String, u32, String)| (f as u32, e.1, e.0@, e.2@))
}

/// The pending re-exports of the first `f` files, in (file, binding) order.
pub open spec fn pending_upto(re: Seq<Vec<(String, u32, String)>>, f: int) -> Seq<(u32, u32, Seq<char>, Seq<char>)>
    decreases f,
{
    if f <= 0 {
        Seq::empty()
    } else {
        pending_upto(re, f - 1) + pending_of(re, f - 1)
    }
}

/// Where aliasing stands: each file's aliases, which re-exports are resolved, and
/// whether the round under way has resolved any.
pub struct AliasState {
    pub aliases: Seq<Map<Seq<char>, u32>>,
    pub resolved: Seq<bool>,
    pub progressed: bool,
}

/// `name` in file `f`: its own declaration, else an alias it has taken.
pub open spec fn alias_lookup(
    tables: Seq<FxHashMap<String, u32>>,
    aliases: Seq<Map<Seq<char>, u32>>,
    f: int,
    name: Seq<char>,
) -> Option<u32> {
    let own = str_ids(tables[f]);
    if own.contains_key(name) {
        Some(own[name])
    } else if aliases[f].contains_key(name) {
        Some(aliases[f][name])
    } else {
        None
    }
}

/// Re-export `b` tried once: once its target has the name, it is resolved, and the
/// barrel takes the alias unless it has that name already.
pub open spec fn alias_step(
    tables: Seq<FxHashMap<String, u32>>,
    p: Seq<(u32, u32, Seq<char>, Seq<char>)>,
    s: AliasState,
    b: int,
) -> AliasState {
    if s.resolved[b] {
        s
    } else {
        let (source, target, exported, local) = p[b];
        match alias_lookup(tables, s.aliases, target as int, exported) {
            None => s,
            Some(sym) => AliasState {
                aliases: if alias_lookup(tables, s.aliases, source as int, local) is None {
                    s.aliases.update(source as int, s.aliases[source as int].insert(local, sym))
                } else {
                    s.aliases
                },
                resolved: s.resolved.update(b, true),
                progressed: true,
            },
        }
    }
}

/// A round over the first `k` re-exports.
pub open spec fn alias_round_upto(
    tables: Seq<FxHashMap<String, u32>>,
    p: Seq<(u32, u32, Seq<char>, Seq<char>)>,
    s: AliasState,
    k: int,
) -> AliasState
    decreases k,
{
    if k <= 0 {
        AliasState { progressed: false, ..s }
    } else {
        alias_step(tables, p, alias_round_upto(tables, p, s, k - 1), k - 1)
    }
}

/// Rounds from `s` until one makes no progress, at most `fuel` of them.
pub open spec fn alias_rounds(
    tables: Seq<FxHashMap<String, u32>>,
    p: Seq<(u32, u32, Seq<char>, Seq<char>)>,
    s: AliasState,
    fuel: nat,
) -> AliasState
    decreases fuel,
{
    if fuel == 0 {
        s
    } else {
        let next = alias_round_upto(tables, p, s, p.len() as int);
        if next.progressed {
            alias_rounds(tables, p, next, (fuel - 1) as nat)
        } else {
            s
        }
    }
}

/// No file has an alias and no re-export is resolved.
pub open spec fn alias_start(files: nat, pending: nat) -> AliasState {
    AliasState {
        aliases: Seq::new(files, |f: int| Map::<Seq<char>, u32>::empty()),
        resolved: Seq::new(pending, |b: int| false),
        progressed: false,
    }
}

/// Every file's aliases once the rounds settle: each round but the last resolves a
/// re-export, so one more round than there are re-exports always reaches it.
pub open spec fn alias_fixpoint(tables: Seq<FxHashMap<String, u32>>, re: Seq<Vec<(String, u32, String)>>) -> Seq<
    Map<Seq<char>, u32>,
> {
    let p = pending_upto(re, re.len() as int);
    alias_rounds(tables, p, alias_start(tables.len(), p.len()), (p.len() + 1) as nat).aliases
}

/// Each file's alias table by its contents.
pub open spec fn alias_views(v: Seq<FxHashMap<String, u32>>) -> Seq<Map<Seq<char>, u32>> {
    v.map_values(|m: FxHashMap<String, u32>| str_ids(m))
}

/// A pending re-export by its characters.
pub open spec fn pending_view(v: Seq<(u32, u32, String, String)>) -> Seq<(u32, u32, Seq<char>, Seq<char>)> {
    v.map_values(|e: (u32, u32, String, String)| (e.0, e.1, e.2@, e.3@))
}

proof fn lemma_round_without_progress(
    tables: Seq<FxHashMap<String, u32>>,
    p: Seq<(u32, u32, Seq<char>, Seq<char>)>,
    s: AliasState,
    k: int,
)
    ensures
        !alias_round_upto(tables, p, s, k).progressed ==> alias_round_upto(tables, p, s, k).aliases == s.aliases
            && alias_round_upto(tables, p, s, k).resolved == s.resolved,
    decreases k,
{
    if k > 0 {
        lemma_round_without_progress(tables, p, s, k - 1);
    }
}

/// `name` in file `f`, its own declaration first.
fn lookup(tables: &[FxHashMap<String, u32>], aliases: &Vec<FxHashMap<String, u32>>, f: u32, name: &str) -> (r: Option<u32>)
    requires
        f < tables@.len(),
        aliases@.len() == tables@.len(),
    ensures
        r == alias_lookup(tables@, alias_views(aliases@), f as int, name@),
{
    match str_ids_get(&tables[f as usize], name) {
        Some(s) => Some(s),
        None => str_ids_get(&aliases[f as usize], name),
    }
}

/// One round over every pending re-export; whether it resolved any.
fn alias_round(
    pending: &Vec<(u32, u32, String, String)>,
    tables: &[FxHashMap<String, u32>],
    aliases: &mut Vec<FxHashMap<String, u32>>,
    resolved: &mut Vec<bool>,
    Ghost(s): Ghost<AliasState>,
) -> (progress: bool)
    requires
        old(aliases)@.len() == tables@.len(),
        old(resolved)@.len() == pending@.len(),
        forall|b: int| 0 <= b < pending@.len() ==> (#[trigger] pending@[b]).0 < tables@.len() && pending@[b].1 < tables@.len(),
        alias_views(old(aliases)@) == s.aliases,
        old(resolved)@ == s.resolved,
    ensures
        alias_views(final(aliases)@) == alias_round_upto(tables@, pending_view(pending@), s, pending@.len() as int).aliases,
        final(resolved)@ == alias_round_upto(tables@, pending_view(pending@), s, pending@.len() as int).resolved,
        progress == alias_round_upto(tables@, pending_view(pending@), s, pending@.len() as int).progressed,
        final(aliases)@.len() == tables@.len(),
        final(resolved)@.len() == pending@.len(),
{
    let ghost p = pending_view(pending@);
    let mut progress = false;
    let mut b: usize = 0;
    while b < pending.len()
        invariant
            b <= pending@.len(),
            p == pending_view(pending@),
            aliases@.len() == tables@.len(),
            resolved@.len() == pending@.len(),
            forall|c: int| 0 <= c < pending@.len() ==> (#[trigger] pending@[c]).0 < tables@.len() && pending@[c].1 < tables@.len(),
            alias_views(aliases@) == alias_round_upto(tables@, p, s, b as int).aliases,
            resolved@ == alias_round_upto(tables@, p, s, b as int).resolved,
            progress == alias_round_upto(tables@, p, s, b as int).progressed,
        decreases pending@.len() - b,
    {
        let ghost cur = alias_round_upto(tables@, p, s, b as int);
        if !resolved[b] {
            let source = pending[b].0;
            let target = pending[b].1;
            match lookup(tables, aliases, target, pending[b].2.as_str()) {
                Some(sym) => {
                    resolved.set(b, true);
                    progress = true;
                    if lookup(tables, aliases, source, pending[b].3.as_str()).is_none() {
                        let ghost before = aliases@;
                        let mut table = aliases.remove(source as usize);
                        str_ids_insert(&mut table, pending[b].3.as_str(), sym);
                        aliases.insert(source as usize, table);
                        proof {
                            assert(alias_views(aliases@) =~= alias_views(before).update(
                                source as int,
                                alias_views(before)[source as int].insert(pending@[b as int].3@, sym),
                            ));
                        }
                    }
                },
                None => {},
            }
        }
        b = b + 1;
    }
    progress
}

/// Every file's re-export aliases: `reexports[f]` lists file `f`'s re-exported bindings
/// as (name in the target, target file, name in `f`), and `tables[f]` is file `f`'s own
/// names. Each alias maps a name of the barrel to the symbol it names at the end of
/// its chain.
pub fn reexport_aliases(reexports: &[Vec<(String, u32, String)>], tables: &[FxHashMap<String, u32>]) -> (r: Vec<
    FxHashMap<String, u32>,
>)
    requires
        reexports@.len() == tables@.len(),
        tables@.len() <= u32::MAX,
        forall|f: int, k: int|
            0 <= f < reexports@.len() && 0 <= k < reexports@[f]@.len() ==> (#[trigger] reexports@[f]@[k]).1
                < tables@.len(),
    ensures
        r@.len() == tables@.len(),
        alias_views(r@) == alias_fixpoint(tables@, reexports@),
{
    let n = tables.len();
    let ghost re = reexports@;
    let mut pending: Vec<(u32, u32, String, String)> = Vec::new();
    let mut f: usize = 0;
    while f < n
        invariant
            f <= n == tables@.len() == re.len(),
            n <= u32::MAX,
            re == reexports@,
            pending_view(pending@) == pending_upto(re, f as int),
            forall|c: int| 0 <= c < pending@.len() ==> (#[trigger] pending@[c]).0 < n && pending@[c].1 < n,
            forall|g: int, k: int|
                0 <= g < re.len() && 0 <= k < re[g]@.len() ==> (#[trigger] re[g]@[k]).1 < n,
        decreases n - f,
    {
        let list = &reexports[f];
        let ghost start = pending@;
        let mut k: usize = 0;
        while k < list.len()
            invariant
                k <= list@.len(),
                f < n == tables@.len() == re.len(),
                n <= u32::MAX,
                list@ == re[f as int]@,
                pending@.len() == start.len() + k,
                pending_view(pending@) == pending_view(start) + pending_of(re, f as int).take(k as int),
                forall|c: int| 0 <= c < pending@.len() ==> (#[trigger] pending@[c]).0 < n && pending@[c].1 < n,
                forall|g: int, j: int|
                    0 <= g < re.len() && 0 <= j < re[g]@.len() ==> (#[trigger] re[g]@[j]).1 < n,
            decreases list@.len() - k,
        {
            let ghost before = pending@;
            let e = &list[k];
            proof {
                assert(re[f as int]@[k as int].1 < n);
            }
            pending.push((f as u32, e.1, owned(e.0.as_str()), owned(e.2.as_str())));
            proof {
                assert(pending_of(re, f as int).take(k + 1) =~= pending_of(re, f as int).take(k as int).push(
                    pending_of(re, f as int)[k as int],
                ));
                assert(pending_view(pending@) =~= pending_view(before).push(pending_view(pending@)[before.len() as int]));
            }
            k = k + 1;
        }
        proof {
            assert(pending_of(re, f as int).take(list@.len() as int) =~= pending_of(re, f as int));
        }
        f = f + 1;
    }
    let ghost p = pending_view(pending@);
    let mut aliases: Vec<FxHashMap<String, u32>> = Vec::new();
    let mut g: usize = 0;
    while g < n
        invariant
            g <= n == tables@.len(),
            aliases@.len() == g,
            forall|x: int| 0 <= x < g ==> str_ids(#[trigger] aliases@[x]) == Map::<Seq<char>, u32>::empty(),
        decreases n - g,
    {
        aliases.push(str_ids_new());
        proof {
            assert(str_ids(aliases@[g as int]) =~= Map::<Seq<char>, u32>::empty());
        }
        g = g + 1;
    }
    let mut resolved: Vec<bool> = Vec::new();
    let mut c: usize = 0;
    while c < pending.len()
        invariant
            c <= pending@.len(),
            resolved@.len() == c,
            forall|x: int| 0 <= x < c ==> !(#[trigger] resolved@[x]),
        decreases pending@.len() - c,
    {
        resolved.push(false);
        c = c + 1;
    }
    let ghost init = alias_start(tables@.len(), p.len());
    proof {
        assert(alias_views(aliases@) =~= init.aliases);
        assert(resolved@ =~= init.resolved);
    }
    let ghost mut st = init;
    let ghost mut fuel: nat = (p.len() + 1) as nat;
    proof {
        lemma_unresolved_bound(init.resolved);
    }
    let mut settled = false;
    while !settled
        invariant
            p == pending_view(pending@),
            aliases@.len() == tables@.len(),
            resolved@.len() == pending@.len(),
            st.resolved.len() == p.len(),
            forall|c: int| 0 <= c < pending@.len() ==> (#[trigger] pending@[c]).0 < tables@.len() && pending@[c].1 < tables@.len(),
            alias_views(aliases@) == st.aliases,
            resolved@ == st.resolved,
            settled ==> st.aliases == alias_fixpoint(tables@, reexports@),
            !settled ==> fuel > unresolved(st.resolved) && alias_rounds(tables@, p, init, (p.len() + 1) as nat)
                == alias_rounds(tables@, p, st, fuel),
            p == pending_upto(reexports@, reexports@.len() as int),
            alias_fixpoint(tables@, reexports@) == alias_rounds(tables@, p, init, (p.len() + 1) as nat).aliases,
        decreases unresolved(st.resolved) + if settled {
            0int
        } else {
            1int
        },
    {
        let ghost before = st;
        let progress = alias_round(&pending, tables, &mut aliases, &mut resolved, Ghost(st));
        let ghost next = alias_round_upto(tables@, p, before, p.len() as int);
        proof {
            lemma_round_without_progress(tables@, p, before, p.len() as int);
            lemma_round_resolves(tables@, p, before, p.len() as int);
            st = next;
        }
        if !progress {
            proof {
                assert(alias_rounds(tables@, p, before, fuel) == before);
            }
            settled = true;
        } else {
            proof {
                assert(alias_rounds(tables@, p, before, fuel) == alias_rounds(tables@, p, next, (fuel - 1) as nat));
                fuel = (fuel - 1) as nat;
            }
        }
    }
    aliases
}

/// The number of re-exports still unresolved.
pub open spec fn unresolved(r: Seq<bool>) -> nat
    decreases r.len(),
{
    if r.len() == 0 {
        0
    } else {
        unresolved(r.drop_last()) + if r.last() {
            0nat
        } else {
            1nat
        }
    }
}

proof fn lemma_unresolved_resolve(r: Seq<bool>, b: int)
    requires
        0 <= b < r.len(),
        !r[b],
    ensures
        unresolved(r.update(b, true)) + 1 == unresolved(r),
    decreases r.len(),
{
    let u = r.update(b, true);
    if b < r.len() - 1 {
        assert(u.drop_last() =~= r.drop_last().update(b, true));
        lemma_unresolved_resolve(r.drop_last(), b);
    } else {
        assert(u.drop_last() =~= r.drop_last());
    }
}

proof fn lemma_round_resolves(
    tables: Seq<FxHashMap<String, u32>>,
    p: Seq<(u32, u32, Seq<char>, Seq<char>)>,
    s: AliasState,
    k: int,
)
    requires
        0 <= k <= p.len(),
        s.resolved.len() == p.len(),
    ensures
        alias_round_upto(tables, p, s, k).resolved.len() == p.len(),
        unresolved(alias_round_upto(tables, p, s, k).resolved) + (if alias_round_upto(tables, p, s, k).progressed {
            1int
        } else {
            0int
        }) <= unresolved(s.resolved),
    decreases k,
{
    if k > 0 {
        lemma_round_resolves(tables, p, s, k - 1);
        let prev = alias_round_upto(tables, p, s, k - 1);
        if !prev.resolved[k - 1] {
            match alias_lookup(tables, prev.aliases, p[k - 1].1 as int, p[k - 1].2) {
                Some(sym) => {
                    lemma_unresolved_resolve(prev.resolved, k - 1);
                },
                None => {},
            }
        }
    }
}

proof fn lemma_rounds_settle(
    tables: Seq<FxHashMap<String, u32>>,
    p: Seq<(u32, u32, Seq<char>, Seq<char>)>,
    s: AliasState,
    fuel: nat,
)
    requires
        s.resolved.len() == p.len(),
        fuel > unresolved(s.resolved),
    ensures
        alias_rounds(tables, p, s, fuel).resolved.len() == p.len(),
        !alias_round_upto(tables, p, alias_rounds(tables, p, s, fuel), p.len() as int).progressed,
    decreases fuel,
{
    let next = alias_round_upto(tables, p, s, p.len() as int);
    lemma_round_resolves(tables, p, s, p.len() as int);
    if next.progressed {
        lemma_rounds_settle(tables, p, next, (fuel - 1) as nat);
    }
}

proof fn lemma_unresolved_bound(r: Seq<bool>)
    ensures
        unresolved(r) <= r.len(),
    decreases r.len(),
{
    if r.len() > 0 {
        lemma_unresolved_bound(r.drop_last());
    }
}

/// Re-export aliasing reaches a fixpoint: a further round over the aliases it ends
/// with resolves no re-export and gives no file a new alias.
pub proof fn lemma_aliases_settle(tables: Seq<FxHashMap<String, u32>>, re: Seq<Vec<(String, u32, String)>>)
    ensures
        ({
            let p = pending_upto(re, re.len() as int);
            let end = alias_rounds(tables, p, alias_start(tables.len(), p.len()), (p.len() + 1) as nat);
            let again = alias_round_upto(tables, p, end, p.len() as int);
            &&& !again.progressed
            &&& again.aliases == end.aliases
            &&& again.resolved == end.resolved
            &&& end.aliases == alias_fixpoint(tables, re)
        }),
{
    let p = pending_upto(re, re.len() as int);
    let init = alias_start(tables.len(), p.len());
    lemma_unresolved_bound(init.resolved);
    lemma_rounds_settle(tables, p, init, (p.len() + 1) as nat);
    let end = alias_rounds(tables, p, init, (p.len() + 1) as nat);
    lemma_round_without_progress(tables, p, end, p.len() as int);
}

} // verus!
