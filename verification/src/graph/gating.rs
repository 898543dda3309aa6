//! Test-gated module demotion. A `#[cfg(test)] mod tests;` puts a whole file behind a
//! test gate, which no path convention can see: a file claimed as production becomes a
//! test file when some module link reaches it from inside a test region and none
//! reaches it from production code.

use vstd::prelude::*;

use rustc_hash::FxHashMap;

use crate::fx::{flags_entries, flags_get, flags_insert, flags_new};
use crate::graph::{in_test_region, span_in_test_region, FileNode};
use crate::vocab::{FileClass, FileRole, PackageId, ProjectPath, Span};

verus! {

/// A module-linking import of a file (a side-effect import that binds a module name),
/// with the graph file it resolved to.
#[derive(Debug, Clone, Copy)]
pub struct ModuleLink {
    pub target: u32,
    pub span: Span,
}

/// Link `k2` of file `i2` comes before link `k` of file `i`, in file order, then link
/// order.
pub open spec fn before_pos(i2: int, k2: int, i: int, k: int) -> bool {
    i2 < i || (i2 == i && k2 < k)
}

/// Whether one of the links before link `k` of file `i` reaches file `t`, from inside a
/// test region of its own file (`from_test`) or from outside every one.
pub open spec fn linked_upto(files: Seq<FileNode>, links: Seq<Vec<ModuleLink>>, t: u32, from_test: bool, i: int, k: int) -> bool {
    exists|i2: int, k2: int|
        #![trigger links[i2]@[k2]]
        0 <= i2 < links.len() && 0 <= k2 < links[i2]@.len() && before_pos(i2, k2, i, k) && links[i2]@[k2].target == t
            && in_test_region(files[i2].test_spans@, links[i2]@[k2].span) == from_test
}

/// Whether some link reaches file `t` from inside a test region (`from_test`), or from
/// production code.
pub open spec fn linked(files: Seq<FileNode>, links: Seq<Vec<ModuleLink>>, t: u32, from_test: bool) -> bool {
    linked_upto(files, links, t, from_test, links.len() as int, 0)
}

/// A file's class once test-only module links are weighed: production reached only from tests is a
/// test; anything else stands.
pub open spec fn gated_class(class: Option<FileClass>, from_test: bool, from_production: bool) -> Option<FileClass> {
    match class {
        Some(c) => if from_test && !from_production && c.role == FileRole::Production {
            Some(FileClass { role: FileRole::Test, ..c })
        } else {
            class
        },
        None => None,
    }
}

/// File `t` with its class after demotion.
pub open spec fn gated_file(files: Seq<FileNode>, links: Seq<Vec<ModuleLink>>, t: int) -> FileNode {
    FileNode {
        class: gated_class(files[t].class, linked(files, links, t as u32, true), linked(files, links, t as u32, false)),
        ..files[t]
    }
}

fn placeholder_node() -> (r: FileNode) {
    FileNode {
        path: ProjectPath(String::new()),
        content_hash: [0u8; 32],
        language: None,
        class: None,
        package: PackageId(0),
        unit: None,
        unit_parent: None,
        test_spans: Vec::new(),
    }
}

proof fn lemma_step(files: Seq<FileNode>, links: Seq<Vec<ModuleLink>>, i: int, k: int, t: u32, from_test: bool)
    requires
        0 <= i < links.len(),
        0 <= k < links[i]@.len(),
    ensures
        linked_upto(files, links, t, from_test, i, k + 1) == (linked_upto(files, links, t, from_test, i, k) || (
        links[i]@[k].target == t && in_test_region(files[i].test_spans@, links[i]@[k].span) == from_test)),
{
    if linked_upto(files, links, t, from_test, i, k + 1) {
        let (i2, k2) = choose|i2: int, k2: int|
            #![trigger links[i2]@[k2]]
            0 <= i2 < links.len() && 0 <= k2 < links[i2]@.len() && before_pos(i2, k2, i, k + 1) && links[i2]@[k2].target == t
                && in_test_region(files[i2].test_spans@, links[i2]@[k2].span) == from_test;
        if !(i2 == i && k2 == k) {
            assert(before_pos(i2, k2, i, k));
        }
    }
    if links[i]@[k].target == t && in_test_region(files[i].test_spans@, links[i]@[k].span) == from_test {
        assert(before_pos(i, k, i, k + 1));
    }
    if linked_upto(files, links, t, from_test, i, k) {
        let (i2, k2) = choose|i2: int, k2: int|
            #![trigger links[i2]@[k2]]
            0 <= i2 < links.len() && 0 <= k2 < links[i2]@.len() && before_pos(i2, k2, i, k) && links[i2]@[k2].target == t
                && in_test_region(files[i2].test_spans@, links[i2]@[k2].span) == from_test;
        assert(before_pos(i2, k2, i, k + 1));
    }
}

proof fn lemma_next_file(files: Seq<FileNode>, links: Seq<Vec<ModuleLink>>, i: int, t: u32, from_test: bool)
    requires
        0 <= i < links.len(),
    ensures
        linked_upto(files, links, t, from_test, i + 1, 0) == linked_upto(files, links, t, from_test, i, links[i]@.len() as int),
{
    if linked_upto(files, links, t, from_test, i + 1, 0) {
        let (i2, k2) = choose|i2: int, k2: int|
            #![trigger links[i2]@[k2]]
            0 <= i2 < links.len() && 0 <= k2 < links[i2]@.len() && before_pos(i2, k2, i + 1, 0) && links[i2]@[k2].target == t
                && in_test_region(files[i2].test_spans@, links[i2]@[k2].span) == from_test;
        assert(before_pos(i2, k2, i, links[i]@.len() as int));
    }
    if linked_upto(files, links, t, from_test, i, links[i]@.len() as int) {
        let (i2, k2) = choose|i2: int, k2: int|
            #![trigger links[i2]@[k2]]
            0 <= i2 < links.len() && 0 <= k2 < links[i2]@.len() && before_pos(i2, k2, i, links[i]@.len() as int)
                && links[i2]@[k2].target == t && in_test_region(files[i2].test_spans@, links[i2]@[k2].span) == from_test;
        assert(before_pos(i2, k2, i + 1, 0));
    }
}

/// Demotes every production file that module links reach only from test code: the
/// links of file `i` are `links[i]`, each judged against file `i`'s own test regions.
/// Nothing but those files' classes changes. Where no linking file has a test region,
/// nothing is demoted and the links need not be read.
pub fn demote_test_gated_modules(files: &mut Vec<FileNode>, links: &[Vec<ModuleLink>])
    requires
        links@.len() <= old(files)@.len() <= 0x1_0000_0000,
        forall|i: int, k: int|
            0 <= i < links@.len() && 0 <= k < links@[i]@.len() ==> (#[trigger] links@[i]@[k]).target < old(files)@.len(),
    ensures
        final(files)@.len() == old(files)@.len(),
        forall|t: int| 0 <= t < final(files)@.len() ==> #[trigger] final(files)@[t] == gated_file(old(files)@, links@, t),
{
    let ghost start = files@;
    let mut any_region = false;
    let mut g: usize = 0;
    while g < links.len()
        invariant
            g <= links@.len() <= files@.len(),
            files@ == start,
            any_region == exists|h: int| 0 <= h < g && (#[trigger] start[h]).test_spans@.len() > 0,
        decreases links@.len() - g,
    {
        if files[g].test_spans.len() > 0 {
            any_region = true;
        }
        g = g + 1;
    }
    if !any_region {
        proof {
            assert forall|t: int| 0 <= t < files@.len() implies #[trigger] files@[t] == gated_file(start, links@, t) by {
                if linked(start, links@, t as u32, true) {
                    let (i2, k2) = choose|i2: int, k2: int|
                        #![trigger links@[i2]@[k2]]
                        0 <= i2 < links@.len() && 0 <= k2 < links@[i2]@.len() && before_pos(i2, k2, links@.len() as int, 0)
                            && links@[i2]@[k2].target == t as u32 && in_test_region(start[i2].test_spans@, links@[i2]@[k2].span)
                            == true;
                    assert(start[i2].test_spans@.len() > 0);
                }
            }
        }
        return ;
    }
    let mut flags: FxHashMap<u32, (bool, bool)> = flags_new();
    let mut i: usize = 0;
    while i < links.len()
        invariant
            i <= links@.len() <= files@.len(),
            files@ == start,
            forall|a: int, k: int|
                0 <= a < links@.len() && 0 <= k < links@[a]@.len() ==> (#[trigger] links@[a]@[k]).target < start.len(),
            forall|t: u32|
                #[trigger] flags@.contains_key(t) <==> (linked_upto(start, links@, t, true, i as int, 0) || linked_upto(
                    start,
                    links@,
                    t,
                    false,
                    i as int,
                    0,
                )),
            forall|t: u32|
                #[trigger] flags@.contains_key(t) ==> flags@[t] == (
                    linked_upto(start, links@, t, true, i as int, 0),
                    linked_upto(start, links@, t, false, i as int, 0),
                ),
        decreases links@.len() - i,
    {
        let row = &links[i];
        let mut k: usize = 0;
        while k < row.len()
            invariant
                i < links@.len() <= files@.len(),
                files@ == start,
                row == links@[i as int],
                k <= row@.len(),
                forall|t: u32|
                    #[trigger] flags@.contains_key(t) <==> (linked_upto(start, links@, t, true, i as int, k as int)
                        || linked_upto(start, links@, t, false, i as int, k as int)),
                forall|t: u32|
                    #[trigger] flags@.contains_key(t) ==> flags@[t] == (
                        linked_upto(start, links@, t, true, i as int, k as int),
                        linked_upto(start, links@, t, false, i as int, k as int),
                    ),
            decreases row@.len() - k,
        {
            let link = row[k];
            let in_test = span_in_test_region(files[i].test_spans.as_slice(), link.span);
            let now = match flags_get(&flags, link.target) {
                Some((t, p)) => if in_test {
                    (true, p)
                } else {
                    (t, true)
                },
                None => if in_test {
                    (true, false)
                } else {
                    (false, true)
                },
            };
            let ghost before = flags@;
            flags_insert(&mut flags, link.target, now);
            proof {
                assert forall|t: u32| #[trigger] flags@.contains_key(t) <==> (linked_upto(start, links@, t, true, i as int, k + 1)
                    || linked_upto(start, links@, t, false, i as int, k + 1)) by {
                    lemma_step(start, links@, i as int, k as int, t, true);
                    lemma_step(start, links@, i as int, k as int, t, false);
                }
                assert forall|t: u32| #[trigger] flags@.contains_key(t) implies flags@[t] == (
                    linked_upto(start, links@, t, true, i as int, k + 1),
                    linked_upto(start, links@, t, false, i as int, k + 1),
                ) by {
                    lemma_step(start, links@, i as int, k as int, t, true);
                    lemma_step(start, links@, i as int, k as int, t, false);
                    if t == link.target && !before.contains_key(t) {
                        assert(!linked_upto(start, links@, t, true, i as int, k as int));
                        assert(!linked_upto(start, links@, t, false, i as int, k as int));
                    }
                }
            }
            k = k + 1;
        }
        proof {
            assert forall|t: u32| #[trigger] flags@.contains_key(t) <==> (linked_upto(start, links@, t, true, i + 1, 0)
                || linked_upto(start, links@, t, false, i + 1, 0)) by {
                lemma_next_file(start, links@, i as int, t, true);
                lemma_next_file(start, links@, i as int, t, false);
            }
            assert forall|t: u32| #[trigger] flags@.contains_key(t) implies flags@[t] == (
                linked_upto(start, links@, t, true, i + 1, 0),
                linked_upto(start, links@, t, false, i + 1, 0),
            ) by {
                lemma_next_file(start, links@, i as int, t, true);
                lemma_next_file(start, links@, i as int, t, false);
            }
        }
        i = i + 1;
    }
    let entries = flags_entries(&flags);
    let mut q: usize = 0;
    while q < entries.len()
        invariant
            q <= entries@.len(),
            files@.len() == start.len() <= 0x1_0000_0000,
            links@.len() <= start.len(),
            forall|a: int, k: int|
                0 <= a < links@.len() && 0 <= k < links@[a]@.len() ==> (#[trigger] links@[a]@[k]).target < start.len(),
            forall|t: u32|
                #[trigger] flags@.contains_key(t) <==> (linked(start, links@, t, true) || linked(start, links@, t, false)),
            forall|t: u32|
                #[trigger] flags@.contains_key(t) ==> flags@[t] == (linked(start, links@, t, true), linked(start, links@, t, false)),
            forall|j: int| 0 <= j < entries@.len() ==> flags@.contains_key((#[trigger] entries@[j]).0) && flags@[entries@[j].0] == entries@[j].1,
            forall|x: int|
                0 <= x < start.len() ==> #[trigger] files@[x] == if exists|j: int| 0 <= j < q && (#[trigger] entries@[j]).0 == x {
                    gated_file(start, links@, x)
                } else {
                    start[x]
                },
        decreases entries@.len() - q,
    {
        let (target, (from_test, from_production)) = entries[q];
        proof {
            assert(flags@.contains_key(target));
            if !(linked(start, links@, target, true) || linked(start, links@, target, false)) {
                assert(false);
            }
        }
        let ghost pre = files@;
        proof {
            if linked(start, links@, target, true) {
                let (i2, k2) = choose|i2: int, k2: int|
                    #![trigger links@[i2]@[k2]]
                    0 <= i2 < links@.len() && 0 <= k2 < links@[i2]@.len() && before_pos(i2, k2, links@.len() as int, 0)
                        && links@[i2]@[k2].target == target && in_test_region(start[i2].test_spans@, links@[i2]@[k2].span)
                        == true;
                assert(links@[i2]@[k2].target < start.len());
            } else {
                let (i2, k2) = choose|i2: int, k2: int|
                    #![trigger links@[i2]@[k2]]
                    0 <= i2 < links@.len() && 0 <= k2 < links@[i2]@.len() && before_pos(i2, k2, links@.len() as int, 0)
                        && links@[i2]@[k2].target == target && in_test_region(start[i2].test_spans@, links@[i2]@[k2].span)
                        == false;
                assert(links@[i2]@[k2].target < start.len());
            }
        }
        let t = target as usize;
        if from_test && !from_production {
            let demote = match &files[t].class {
                Some(c) => c.role == FileRole::Production,
                None => false,
            };
            if demote {
                let mut node = placeholder_node();
                files.set_and_swap(t, &mut node);
                node.class = match node.class {
                    Some(c) => Some(FileClass { role: FileRole::Test, ..c }),
                    None => None,
                };
                files.set_and_swap(t, &mut node);
            }
        }
        proof {
            assert forall|x: int|
                0 <= x < start.len() implies #[trigger] files@[x] == if exists|j: int| 0 <= j < q + 1 && (#[trigger] entries@[j]).0 == x {
                gated_file(start, links@, x)
            } else {
                start[x]
            } by {
                if x == t {
                    assert(entries@[q as int].0 == x);
                    if exists|j: int| 0 <= j < q && (#[trigger] entries@[j]).0 == x {
                        assert(pre[x] == gated_file(start, links@, x));
                    } else {
                        assert(pre[x] == start[x]);
                    }
                } else {
                    assert(files@[x] == pre[x]);
                    if exists|j: int| 0 <= j < q + 1 && (#[trigger] entries@[j]).0 == x {
                        let j = choose|j: int| 0 <= j < q + 1 && (#[trigger] entries@[j]).0 == x;
                        assert(j < q);
                    }
                }
            }
        }
        q = q + 1;
    }
    proof {
        assert forall|t: int| 0 <= t < files@.len() implies #[trigger] files@[t] == gated_file(start, links@, t) by {
            if exists|j: int| 0 <= j < entries@.len() && (#[trigger] entries@[j]).0 == t {
            } else {
                if flags@.contains_key(t as u32) {
                    let j = choose|j: int| 0 <= j < entries@.len() && entries@[j].0 == t as u32;
                    assert(entries@[j].0 == t);
                }
                assert(!linked(start, links@, t as u32, true));
                assert(start[t] == gated_file(start, links@, t));
            }
        }
    }
}

} // verus!
