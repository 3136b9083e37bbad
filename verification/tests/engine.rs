use patch_sync::codec::{parse, parse_version, serialize};
use patch_sync::collection::PatchCollection;
use patch_sync::pipeline::{android_tag, cros_tag, new_patches, run_show, run_transpose};
use patch_sync::record::{eligible, MetaVal, PatchRecord};
use patch_sync::SyncError;

fn rec(
    path: &str,
    plats: &[&str],
    from: Option<u64>,
    until: Option<u64>,
    meta: Vec<(&str, MetaVal)>,
) -> PatchRecord {
    PatchRecord {
        identity: path.as_bytes().to_vec(),
        platforms: plats.iter().map(|p| p.as_bytes().to_vec()).collect(),
        start_version: from,
        end_version: until,
        metadata: meta
            .into_iter()
            .map(|(k, v)| (k.as_bytes().to_vec(), v))
            .collect(),
    }
}

fn coll(patches: Vec<PatchRecord>) -> PatchCollection {
    PatchCollection { patches }
}

fn text(s: &str) -> Vec<u8> {
    s.as_bytes().to_vec()
}

#[test]
fn serialize_one_record_exactly() {
    let c = coll(vec![rec(
        "a.patch",
        &["chromiumos"],
        Some(5),
        None,
        vec![("tag", MetaVal::Str(b"x".to_vec()))],
    )]);
    let out = serialize(&c);
    assert_eq!(
        out,
        text(r#"[{"path":"a.patch","platforms":["chromiumos"],"from":5,"until":null,"tag":"x"}]"#)
    );
}

#[test]
fn round_trip_reproduces_collection() {
    let c = coll(vec![
        rec(
            "patches/one.patch",
            &["chromiumos", "android"],
            Some(3),
            Some(9),
            vec![
                ("comment", MetaVal::Str(b"needs rebase".to_vec())),
                ("bug", MetaVal::UInt(12345)),
                ("is_critical", MetaVal::Bool(true)),
                ("obsolete", MetaVal::Bool(false)),
                ("note", MetaVal::Null),
            ],
        ),
        rec("patches/two.patch", &["android"], None, Some(7), vec![]),
        rec("patches/three.patch", &["chromiumos"], None, None, vec![]),
    ]);
    let out = serialize(&c);
    let back = parse(&out).expect("canonical text must parse");
    assert_eq!(back.patches.len(), 3);
    assert_eq!(back.patches[0].identity, b"patches/one.patch".to_vec());
    assert_eq!(
        back.patches[0].platforms,
        vec![b"chromiumos".to_vec(), b"android".to_vec()]
    );
    assert_eq!(back.patches[0].start_version, Some(3));
    assert_eq!(back.patches[0].end_version, Some(9));
    assert_eq!(back.patches[0].metadata.len(), 5);
    assert!(matches!(&back.patches[0].metadata[1].1, MetaVal::UInt(12345)));
    assert_eq!(back.patches[1].start_version, None);
    assert_eq!(back.patches[1].end_version, Some(7));
    // Serializing the parse result gives the same bytes again.
    assert_eq!(serialize(&back), out);
}

#[test]
fn parse_empty_manifest() {
    let c = parse(&text("[]")).expect("empty array parses");
    assert!(c.is_empty());
    let c2 = parse(&text("[]\n")).expect("trailing newline is fine");
    assert!(c2.is_empty());
}

#[test]
fn parse_rejects_malformed() {
    assert!(matches!(parse(&text("")), Err(SyncError::ParseError)));
    assert!(matches!(parse(&text("{")), Err(SyncError::ParseError)));
    assert!(matches!(parse(&text("[{")), Err(SyncError::ParseError)));
    assert!(matches!(
        parse(&text(r#"[{"path":"a","platforms":["x"],"from":null}]"#)),
        Err(SyncError::ParseError)
    ));
}

#[test]
fn parse_rejects_duplicate_identity() {
    let s = text(
        r#"[{"path":"a","platforms":["x"],"from":null,"until":null},{"path":"a","platforms":["y"],"from":null,"until":null}]"#,
    );
    assert!(matches!(parse(&s), Err(SyncError::ParseError)));
}

#[test]
fn parse_rejects_empty_version_window() {
    let s = text(r#"[{"path":"a","platforms":["x"],"from":5,"until":5}]"#);
    assert!(matches!(parse(&s), Err(SyncError::ParseError)));
    let s2 = text(r#"[{"path":"a","platforms":["x"],"from":6,"until":5}]"#);
    assert!(matches!(parse(&s2), Err(SyncError::ParseError)));
}

#[test]
fn parse_rejects_empty_platforms() {
    let s = text(r#"[{"path":"a","platforms":[],"from":null,"until":null}]"#);
    assert!(matches!(parse(&s), Err(SyncError::ParseError)));
}

#[test]
fn parse_rejects_reserved_metadata_key() {
    let s = text(r#"[{"path":"a","platforms":["x"],"from":null,"until":null,"path":"b"}]"#);
    assert!(matches!(parse(&s), Err(SyncError::ParseError)));
}

#[test]
fn union_merges_platform_sets() {
    let a = coll(vec![
        rec("x", &["chromiumos"], Some(1), Some(4), vec![]),
        rec("only_a", &["chromiumos"], None, None, vec![]),
    ]);
    let b = coll(vec![
        rec("x", &["android"], Some(2), Some(9), vec![]),
        rec("only_b", &["android"], None, None, vec![]),
    ]);
    let u = a.union(&b);
    assert_eq!(u.patches.len(), 3);
    // Shared identity: platform sets united, other fields from the left side.
    assert_eq!(u.patches[0].identity, b"x".to_vec());
    assert_eq!(
        u.patches[0].platforms,
        vec![b"chromiumos".to_vec(), b"android".to_vec()]
    );
    assert_eq!(u.patches[0].start_version, Some(1));
    assert_eq!(u.patches[0].end_version, Some(4));
    assert_eq!(u.patches[1].identity, b"only_a".to_vec());
    assert_eq!(u.patches[2].identity, b"only_b".to_vec());
    // The identity set does not depend on the argument order.
    let v = b.union(&a);
    let mut ids_u: Vec<Vec<u8>> = u.patches.iter().map(|p| p.identity.clone()).collect();
    let mut ids_v: Vec<Vec<u8>> = v.patches.iter().map(|p| p.identity.clone()).collect();
    ids_u.sort();
    ids_v.sort();
    assert_eq!(ids_u, ids_v);
}

#[test]
fn subtract_self_is_empty() {
    let a = coll(vec![
        rec("x", &["chromiumos"], None, None, vec![]),
        rec("y", &["android"], Some(1), None, vec![]),
    ]);
    assert!(a.subtract(&a).is_empty());
}

#[test]
fn subtract_empty_changes_nothing() {
    let a = coll(vec![
        rec("x", &["chromiumos"], None, None, vec![]),
        rec("y", &["android"], Some(1), None, vec![]),
    ]);
    let d = a.subtract(&coll(vec![]));
    assert_eq!(serialize(&d), serialize(&a));
}

#[test]
fn subtract_drops_shared_identities() {
    let a = coll(vec![
        rec("x", &["chromiumos"], None, None, vec![]),
        rec("y", &["chromiumos"], None, None, vec![]),
    ]);
    let b = coll(vec![rec("x", &["android"], Some(3), None, vec![])]);
    let d = a.subtract(&b);
    assert_eq!(d.patches.len(), 1);
    assert_eq!(d.patches[0].identity, b"y".to_vec());
}

#[test]
fn diff_does_not_report_modified_records() {
    // The baseline knows identity x with an upper bound of 5; the live
    // manifest moved it to 7. The diff reports additions only.
    let current = text(r#"[{"path":"x","platforms":["chromiumos"],"from":null,"until":7}]"#);
    let baseline = text(r#"[{"path":"x","platforms":["chromiumos"],"from":null,"until":5}]"#);
    let (cur, fresh) = new_patches(&current, &baseline).expect("both parse");
    assert_eq!(cur.patches.len(), 1);
    assert!(fresh.is_empty());
}

#[test]
fn diff_reports_additions() {
    let current = text(
        r#"[{"path":"x","platforms":["chromiumos"],"from":null,"until":null},{"path":"y","platforms":["chromiumos"],"from":2,"until":null}]"#,
    );
    let baseline = text(r#"[{"path":"x","platforms":["chromiumos"],"from":null,"until":null}]"#);
    let (_, fresh) = new_patches(&current, &baseline).expect("both parse");
    assert_eq!(fresh.patches.len(), 1);
    assert_eq!(fresh.patches[0].identity, b"y".to_vec());
}

#[test]
fn diff_baseline_error() {
    let current = text("[]");
    let baseline = text("not json");
    assert!(matches!(
        new_patches(&current, &baseline),
        Err(SyncError::BaselineParseError)
    ));
    assert!(matches!(
        new_patches(&baseline, &current),
        Err(SyncError::ParseError)
    ));
}

#[test]
fn eligibility_boundaries() {
    let r = rec("x", &["android"], Some(10), Some(20), vec![]);
    assert!(eligible(&r, 10));
    assert!(eligible(&r, 19));
    assert!(!eligible(&r, 20));
    assert!(!eligible(&r, 9));
    let lower_only = rec("x", &["android"], Some(10), None, vec![]);
    assert!(eligible(&lower_only, 10));
    assert!(!eligible(&lower_only, 9));
    let upper_only = rec("x", &["android"], None, Some(20), vec![]);
    assert!(eligible(&upper_only, 19));
    assert!(!eligible(&upper_only, 20));
    let unbounded = rec("x", &["android"], None, None, vec![]);
    assert!(eligible(&unbounded, 0));
    assert!(eligible(&unbounded, u64::MAX));
}

#[test]
fn transpose_fails_on_existing_destination_path() {
    let fresh = coll(vec![rec("x", &["chromiumos"], None, None, vec![])]);
    let dest = coll(vec![rec("x", &["android"], None, None, vec![])]);
    let tag = cros_tag();
    assert!(matches!(
        fresh.transpose_onto(&tag, &dest),
        Err(SyncError::PathCollisionError)
    ));
}

#[test]
fn transpose_appends_retagged_records() {
    let fresh = coll(vec![rec(
        "new.patch",
        &["chromiumos"],
        Some(2),
        Some(8),
        vec![("bug", MetaVal::UInt(7))],
    )]);
    let dest = coll(vec![rec("old.patch", &["android"], None, None, vec![])]);
    let tag = cros_tag();
    let merged = fresh.transpose_onto(&tag, &dest).expect("no collision");
    assert_eq!(merged.patches.len(), 2);
    assert_eq!(merged.patches[0].identity, b"old.patch".to_vec());
    assert_eq!(merged.patches[1].identity, b"new.patch".to_vec());
    assert_eq!(merged.patches[1].platforms, vec![b"chromiumos".to_vec()]);
    assert_eq!(merged.patches[1].start_version, Some(2));
    assert_eq!(merged.patches[1].end_version, Some(8));
    assert_eq!(merged.patches[1].metadata.len(), 1);
}

#[test]
fn narrow_to_platform_keeps_and_retags() {
    let a = coll(vec![
        rec("x", &["chromiumos", "android"], None, None, vec![]),
        rec("y", &["android"], None, None, vec![]),
    ]);
    let tag = android_tag();
    let n = a.narrow_to_platform(&tag);
    assert_eq!(n.patches.len(), 2);
    assert_eq!(n.patches[0].platforms, vec![b"android".to_vec()]);
    assert_eq!(n.patches[1].platforms, vec![b"android".to_vec()]);
    let ct = cros_tag();
    let m = a.narrow_to_platform(&ct);
    assert_eq!(m.patches.len(), 1);
    assert_eq!(m.patches[0].identity, b"x".to_vec());
    assert_eq!(m.patches[0].platforms, vec![b"chromiumos".to_vec()]);
}

#[test]
fn parse_version_reads_decimals_only() {
    assert_eq!(parse_version(&text("472")), Ok(472));
    assert_eq!(parse_version(&text("0")), Ok(0));
    assert_eq!(
        parse_version(&text("18446744073709551615")),
        Ok(u64::MAX)
    );
    assert_eq!(
        parse_version(&text("18446744073709551616")),
        Err(SyncError::VersionFormatError)
    );
    assert_eq!(parse_version(&text("")), Err(SyncError::VersionFormatError));
    assert_eq!(
        parse_version(&text("47a")),
        Err(SyncError::VersionFormatError)
    );
    assert_eq!(
        parse_version(&text("4 ")),
        Err(SyncError::VersionFormatError)
    );
}

fn scenario_texts() -> (Vec<u8>, Vec<u8>, Vec<u8>, Vec<u8>) {
    let cros = text(
        r#"[{"path":"a.patch","platforms":["chromiumos"],"from":null,"until":null},{"path":"b.patch","platforms":["chromiumos"],"from":5,"until":null}]"#,
    );
    let cros_baseline =
        text(r#"[{"path":"a.patch","platforms":["chromiumos"],"from":null,"until":null}]"#);
    let android = text(r#"[{"path":"c.patch","platforms":["android"],"from":null,"until":null}]"#);
    let android_baseline = android.clone();
    (cros, cros_baseline, android, android_baseline)
}

#[test]
fn end_to_end_version_gate_holds_everything_back() {
    let (cros, cros_baseline, android, android_baseline) = scenario_texts();
    let out = run_transpose(&cros, &cros_baseline, &android, &android_baseline, &text("4"))
        .expect("everything parses");
    // b.patch is new on the toolchain-distribution side, but its window
    // starts at 5 and the mobile-OS toolchain is at 4: nothing moves.
    assert!(out.new_cros.is_empty());
    assert!(out.new_android.is_empty());
    assert!(out.updated_android_text.is_none());
    assert!(out.updated_cros_text.is_none());
    assert!(!out.upload_cros);
    assert!(!out.upload_android);
    // The combined view still shows all three records.
    let shown = run_show(&cros, &android, false).expect("parses");
    assert_eq!(
        shown,
        text(
            r#"[{"path":"a.patch","platforms":["chromiumos"],"from":null,"until":null},{"path":"b.patch","platforms":["chromiumos"],"from":5,"until":null},{"path":"c.patch","platforms":["android"],"from":null,"until":null}]"#
        )
    );
}

#[test]
fn end_to_end_eligible_patch_moves() {
    let (cros, cros_baseline, android, android_baseline) = scenario_texts();
    let out = run_transpose(&cros, &cros_baseline, &android, &android_baseline, &text("5"))
        .expect("everything parses");
    assert_eq!(out.new_cros.patches.len(), 1);
    assert_eq!(out.new_cros.patches[0].identity, b"b.patch".to_vec());
    assert!(out.new_android.is_empty());
    assert!(out.upload_android);
    assert!(!out.upload_cros);
    assert!(out.updated_cros_text.is_none());
    let updated = out.updated_android_text.expect("mobile-OS side changes");
    assert_eq!(
        updated,
        text(
            r#"[{"path":"c.patch","platforms":["android"],"from":null,"until":null},{"path":"b.patch","platforms":["chromiumos"],"from":5,"until":null}]"#
        )
    );
    // The staged manifest is itself a valid manifest.
    let back = parse(&updated).expect("staged text parses");
    assert_eq!(back.patches.len(), 2);
}

#[test]
fn show_keep_unmerged_keeps_platform_sets() {
    let cros = text(
        r#"[{"path":"x","platforms":["chromiumos","android"],"from":null,"until":null}]"#,
    );
    let android = text(r#"[{"path":"y","platforms":["android"],"from":null,"until":null}]"#);
    let shown = run_show(&cros, &android, true).expect("parses");
    assert_eq!(
        shown,
        text(
            r#"[{"path":"x","platforms":["chromiumos","android"],"from":null,"until":null},{"path":"y","platforms":["android"],"from":null,"until":null}]"#
        )
    );
}

#[test]
fn show_fails_fast_on_malformed_manifest() {
    let good = text("[]");
    let bad = text("[oops]");
    assert_eq!(run_show(&good, &bad, false), Err(SyncError::ParseError));
    assert_eq!(run_show(&bad, &good, false), Err(SyncError::ParseError));
}
