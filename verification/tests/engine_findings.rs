use kndo_core::engine::{apply_confidence_floor, Finding, Group, Location, Severity};
use kndo_core::vocab::Confidence;

fn mk(category: &str, confidence: Confidence) -> Finding {
    Finding {
        advisory: false,
        id: format!("{category}-{confidence:?}"),
        category: category.to_string(),
        group: Group::Waste,
        subject_kind: "function".to_string(),
        severity: Severity::Info,
        confidence,
        message: String::new(),
        location: Location {
            path: None,
            range: None,
            symbol: None,
            package: None,
        },
        related: Vec::new(),
        delta: None,
        delta_origin: None,
    }
}

#[test]
fn the_confidence_floor_drops_lower_tiers_but_never_stale() {
    let findings = vec![
        mk("unused", Confidence::Possible),
        mk("unused", Confidence::Probable),
        mk("stale", Confidence::Possible),
    ];
    // Possible is the identity floor — the report-everything default.
    assert_eq!(
        apply_confidence_floor(findings.clone(), Confidence::Possible).len(),
        3
    );
    let kept = apply_confidence_floor(findings, Confidence::Probable);
    assert_eq!(kept.len(), 2);
    assert!(kept.iter().any(|f| f.category == "stale"));
    assert!(kept
        .iter()
        .any(|f| f.category == "unused" && f.confidence == Confidence::Probable));
}

fn at(severity: Severity, path: Option<&str>, line: u32) -> Finding {
    let mut f = mk("unused", Confidence::Certain);
    f.severity = severity;
    f.location.path = path.map(|p| kndo_core::vocab::ProjectPath(p.to_string()));
    f.location.range = if line > 0 {
        Some(kndo_core::vocab::Span {
            start: (line, 1),
            end: (line, 2),
        })
    } else {
        None
    };
    f
}

#[test]
fn display_sort_orders_by_severity_then_path_then_span() {
    let findings = [
        at(Severity::Info, Some("a.rs"), 5),
        at(Severity::Warning, Some("z.rs"), 1),
        at(Severity::Warning, Some("a.rs"), 9),
        at(Severity::Warning, Some("a.rs"), 2),
        at(Severity::Warning, None, 0), // pathless sorts as "" — first among warnings
    ];
    let mut refs: Vec<&Finding> = findings.iter().collect();
    kndo_core::engine::sort_findings_for_display(&mut refs);
    let order: Vec<(Severity, &str, u32)> = refs
        .iter()
        .map(|f| {
            (
                f.severity,
                f.location.path.as_ref().map(|p| p.0.as_str()).unwrap_or(""),
                f.location.range.map(|r| r.start.0).unwrap_or(0),
            )
        })
        .collect();
    assert_eq!(
        order,
        vec![
            (Severity::Warning, "", 0),
            (Severity::Warning, "a.rs", 2),
            (Severity::Warning, "a.rs", 9),
            (Severity::Warning, "z.rs", 1),
            (Severity::Info, "a.rs", 5),
        ]
    );
}
