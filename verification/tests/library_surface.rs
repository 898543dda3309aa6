use kndo_core::graph::library::{expand_library_surface, SurfaceReexports};
use kndo_core::vocab::{Confidence, Edge, EdgeKind, NodeRef, Provenance, RootKind, Span};
use rustc_hash::FxHashMap;

fn span(line: u32) -> Span {
    Span {
        start: (line, 1),
        end: (line, 9),
    }
}

fn reexports(targets: &[u32]) -> Option<SurfaceReexports> {
    Some(SurfaceReexports {
        adapter: "rust".to_string(),
        targets: targets.iter().enumerate().map(|(i, t)| (*t, span(i as u32 + 1))).collect(),
    })
}

fn expansion(e: &Edge) -> (u32, u32) {
    match &e.kind {
        EdgeKind::Root {
            kind: RootKind::Production,
            target: NodeRef::File(t),
        } => (e.owner.0, t.0),
        _ => panic!("not a production file root"),
    }
}

#[test]
fn whole_surface_reexports_extend_the_library_to_a_fixpoint() {
    // lib.rs (0) re-exports 1 and 2; 1 re-exports 3; 3 re-exports 1 back; 2 is unclaimed;
    // 4 is reached by nothing.
    let files = vec![reexports(&[1, 2]), reexports(&[3]), None, reexports(&[1]), reexports(&[0])];
    let mut roots: FxHashMap<u32, Confidence> = FxHashMap::default();
    roots.insert(0, Confidence::Certain);
    let mut edges = Vec::new();
    expand_library_surface(&mut roots, &files, &mut edges);
    let mut rooted: Vec<u32> = roots.keys().copied().collect();
    rooted.sort();
    assert_eq!(rooted, vec![0, 1, 2, 3]);
    assert!(roots.values().all(|c| *c == Confidence::Certain));
    let mut expanded: Vec<(u32, u32)> = edges.iter().map(expansion).collect();
    expanded.sort();
    assert_eq!(expanded, vec![(0, 1), (0, 2), (1, 3), (3, 1)]);
    assert!(edges.iter().all(|e| matches!(&e.source, Provenance::Adapter(a) if a == "rust")));
    assert!(edges.iter().all(|e| e.confidence == Confidence::Certain));
}

#[test]
fn a_reexported_file_keeps_the_surer_of_its_confidences() {
    let files = vec![reexports(&[1]), None];
    let mut roots: FxHashMap<u32, Confidence> = FxHashMap::default();
    roots.insert(0, Confidence::Certain);
    roots.insert(1, Confidence::Possible);
    let mut edges = Vec::new();
    expand_library_surface(&mut roots, &files, &mut edges);
    assert_eq!(roots.get(&1), Some(&Confidence::Certain));
    assert_eq!(edges.len(), 1);
    assert_eq!(edges[0].span, Some(span(1)));
}

#[test]
fn a_new_root_takes_the_confidence_of_the_file_that_reexports_it() {
    // 0 (possible) and 2 (certain) both re-export 1; 2 is expanded first.
    let files = vec![reexports(&[1]), None, reexports(&[1])];
    let mut roots: FxHashMap<u32, Confidence> = FxHashMap::default();
    roots.insert(0, Confidence::Possible);
    roots.insert(2, Confidence::Certain);
    let mut edges = Vec::new();
    expand_library_surface(&mut roots, &files, &mut edges);
    assert_eq!(roots.get(&1), Some(&Confidence::Certain));
    let carried: Vec<((u32, u32), Confidence)> = edges.iter().map(|e| (expansion(e), e.confidence)).collect();
    assert_eq!(carried, vec![((2, 1), Confidence::Certain), ((0, 1), Confidence::Possible)]);

    let files = vec![reexports(&[1]), reexports(&[2]), None];
    let mut roots: FxHashMap<u32, Confidence> = FxHashMap::default();
    roots.insert(0, Confidence::Probable);
    let mut edges = Vec::new();
    expand_library_surface(&mut roots, &files, &mut edges);
    assert_eq!(roots.get(&1), Some(&Confidence::Probable));
    assert_eq!(roots.get(&2), Some(&Confidence::Probable));
    assert!(edges.iter().all(|e| e.confidence == Confidence::Probable));
}
