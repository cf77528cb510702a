use rpc_tester::json::{
    filter_ignored_fields, verify_missing_or_mismatch, Json, Member, PathKey,
};
use rpc_tester::report::{report, FailureDetail, ReportGroup, TestEntry, TestOutcome};

fn num(n: &str) -> Json {
    Json::Number(n.to_string())
}

fn text(s: &str) -> Json {
    Json::Str(s.to_string())
}

fn obj(members: Vec<(&str, Json)>) -> Json {
    Json::Object(
        members
            .into_iter()
            .map(|(k, v)| Member { key: k.to_string(), value: v })
            .collect(),
    )
}

/// Converts a serde_json value, so that the comparison can be checked against
/// assert_json_diff's own.
fn from_serde(v: &serde_json::Value) -> Json {
    match v {
        serde_json::Value::Null => Json::Null,
        serde_json::Value::Bool(b) => Json::Bool(*b),
        serde_json::Value::Number(n) => Json::Number(n.to_string()),
        serde_json::Value::String(s) => Json::Str(s.clone()),
        serde_json::Value::Array(xs) => Json::Array(xs.iter().map(from_serde).collect()),
        serde_json::Value::Object(m) => Json::Object(
            m.iter()
                .map(|(k, v)| Member { key: k.clone(), value: from_serde(v) })
                .collect(),
        ),
    }
}

#[test]
fn filter_removes_error_at_every_depth() {
    let v = obj(vec![
        ("status", num("1")),
        ("error", text("reverted")),
        (
            "logs",
            Json::Array(vec![obj(vec![("error", Json::Null), ("data", text("0x"))])]),
        ),
    ]);
    let expected = obj(vec![
        ("status", num("1")),
        ("logs", Json::Array(vec![obj(vec![("data", text("0x"))])])),
    ]);
    assert_eq!(filter_ignored_fields(v), expected);
}

#[test]
fn filter_keeps_scalars_and_error_strings() {
    assert_eq!(filter_ignored_fields(text("error")), text("error"));
    assert_eq!(
        filter_ignored_fields(Json::Array(vec![text("error"), num("2")])),
        Json::Array(vec![text("error"), num("2")])
    );
}

#[test]
fn filter_is_idempotent() {
    let v = obj(vec![
        ("error", num("1")),
        ("a", obj(vec![("b", obj(vec![("error", num("2")), ("c", num("3"))]))])),
    ]);
    let once = filter_ignored_fields(v);
    let again = filter_ignored_fields(filter_ignored_fields(obj(vec![
        ("error", num("1")),
        ("a", obj(vec![("b", obj(vec![("error", num("2")), ("c", num("3"))]))])),
    ])));
    assert_eq!(again, once);
}

#[test]
fn extra_field_in_actual_passes() {
    let actual = obj(vec![("a", num("1")), ("extra", text("x"))]);
    let expected = obj(vec![("a", num("1"))]);
    assert!(verify_missing_or_mismatch(actual, expected).is_none());
}

#[test]
fn missing_field_in_actual_fails() {
    let actual = obj(vec![("a", num("1"))]);
    let expected = obj(vec![("a", num("1")), ("b", num("2"))]);
    let d = verify_missing_or_mismatch(actual, expected).unwrap();
    assert_eq!(d.len(), 1);
    assert_eq!(d[0].path, vec![PathKey::Field("b".to_string())]);
    assert_eq!(d[0].actual, None);
    assert_eq!(d[0].expected, num("2"));
}

#[test]
fn changed_field_fails() {
    let actual = obj(vec![("a", obj(vec![("b", num("1"))]))]);
    let expected = obj(vec![("a", obj(vec![("b", num("2"))]))]);
    let d = verify_missing_or_mismatch(actual, expected).unwrap();
    assert_eq!(d.len(), 1);
    assert_eq!(
        d[0].path,
        vec![PathKey::Field("a".to_string()), PathKey::Field("b".to_string())]
    );
    assert_eq!(d[0].actual, Some(num("1")));
    assert_eq!(d[0].expected, num("2"));
}

#[test]
fn arrays_compare_by_index() {
    let longer = Json::Array(vec![num("1"), num("2"), num("3")]);
    let shorter = Json::Array(vec![num("1"), num("2")]);
    assert!(verify_missing_or_mismatch(longer, shorter).is_none());
    let longer = Json::Array(vec![num("1"), num("2"), num("3")]);
    let shorter = Json::Array(vec![num("1"), num("2")]);
    let d = verify_missing_or_mismatch(shorter, longer).unwrap();
    assert_eq!(d.len(), 1);
    assert_eq!(d[0].path, vec![PathKey::Index(2)]);
    assert_eq!(d[0].actual, None);
}

#[test]
fn kinds_that_differ_fail_at_root() {
    let d = verify_missing_or_mismatch(num("1"), text("1")).unwrap();
    assert_eq!(d[0].path, vec![]);
    let d = verify_missing_or_mismatch(Json::Array(vec![]), obj(vec![])).unwrap();
    assert_eq!(d.len(), 1);
    assert!(verify_missing_or_mismatch(Json::Null, Json::Null).is_none());
    assert!(verify_missing_or_mismatch(num("1"), num("1.0")).is_some());
}

#[test]
fn all_differences_are_listed_in_expected_order() {
    let actual = obj(vec![("b", num("9"))]);
    let expected = obj(vec![("a", num("1")), ("b", num("2")), ("c", num("3"))]);
    let d = verify_missing_or_mismatch(actual, expected).unwrap();
    let paths: Vec<Vec<PathKey>> = d.into_iter().map(|x| x.path).collect();
    assert_eq!(
        paths,
        vec![
            vec![PathKey::Field("a".to_string())],
            vec![PathKey::Field("b".to_string())],
            vec![PathKey::Field("c".to_string())],
        ]
    );
}

#[test]
fn inclusion_agrees_with_assert_json_diff() {
    let cases = [
        (r#"{"a":1,"b":[1,2,{"c":true}],"x":null}"#, r#"{"a":1,"b":[1,2,{"c":true}]}"#),
        (r#"{"a":1}"#, r#"{"a":1,"b":2}"#),
        (r#"{"a":[1]}"#, r#"{"a":[1,2]}"#),
        (r#"{"a":"s"}"#, r#"{"a":"t"}"#),
        (r#"[1,{"k":2}]"#, r#"[1,{"k":3}]"#),
        (r#"1"#, r#"1.0"#),
        (r#"{"a":{}}"#, r#"{"a":[]}"#),
    ];
    for (a, e) in cases {
        let a: serde_json::Value = serde_json::from_str(a).unwrap();
        let e: serde_json::Value = serde_json::from_str(e).unwrap();
        let theirs = assert_json_diff::assert_json_matches_no_panic(
            &a,
            &e,
            assert_json_diff::Config::new(assert_json_diff::CompareMode::Inclusive),
        );
        let ours = verify_missing_or_mismatch(from_serde(&a), from_serde(&e));
        assert_eq!(theirs.is_ok(), ours.is_none(), "{} vs {}", a, e);
    }
}

fn entry(name: &str, outcome: TestOutcome) -> TestEntry {
    TestEntry { name: name.to_string(), outcome }
}

#[test]
fn report_flags_group_with_missing_field() {
    let groups = vec![
        ReportGroup {
            title: "block 1".to_string(),
            entries: vec![
                entry("eth_getBlockByNumber", TestOutcome::Success),
                entry("eth_getLogs", TestOutcome::Success),
            ],
        },
        ReportGroup {
            title: "block 2".to_string(),
            entries: vec![entry(
                "eth_getTransactionReceipt",
                TestOutcome::Diff {
                    rpc1: obj(vec![("status", num("1"))]),
                    rpc2: obj(vec![("status", num("1")), ("logsBloom", text("0x00"))]),
                    args: Some("[\"0xabc\"]".to_string()),
                },
            )],
        },
    ];
    let r = report(groups);
    assert!(!r.passed);
    assert_eq!(r.groups.len(), 2);
    assert_eq!(r.groups[0].title, "block 1");
    assert!(r.groups[0].failures.is_empty());
    assert_eq!(r.groups[1].title, "block 2");
    assert_eq!(r.groups[1].failures.len(), 1);
    let f = &r.groups[1].failures[0];
    assert_eq!(f.name, "eth_getTransactionReceipt");
    match &f.detail {
        FailureDetail::Differences { args, differences } => {
            assert_eq!(args.as_deref(), Some("[\"0xabc\"]"));
            assert_eq!(differences.len(), 1);
            assert_eq!(differences[0].path, vec![PathKey::Field("logsBloom".to_string())]);
            assert_eq!(differences[0].actual, None);
        }
        other => panic!("unexpected failure {:?}", other),
    }
}

#[test]
fn report_passes_when_only_ignored_fields_differ() {
    let groups = vec![ReportGroup {
        title: "fixture".to_string(),
        entries: vec![entry(
            "eth_getTransactionReceipt",
            TestOutcome::Diff {
                rpc1: obj(vec![("status", num("0"))]),
                rpc2: obj(vec![("status", num("0")), ("error", text("reverted"))]),
                args: None,
            },
        )],
    }];
    let r = report(groups);
    assert!(r.passed);
    assert!(r.groups[0].failures.is_empty());
}

#[test]
fn report_keeps_every_failure_and_side() {
    let groups = vec![ReportGroup {
        title: "g".to_string(),
        entries: vec![
            entry("a", TestOutcome::Rpc1Err("boom".to_string())),
            entry("b", TestOutcome::Success),
            entry("c", TestOutcome::Rpc2Err("bang".to_string())),
        ],
    }];
    let r = report(groups);
    assert!(!r.passed);
    let fs = &r.groups[0].failures;
    assert_eq!(fs.len(), 2);
    assert_eq!(fs[0].name, "a");
    assert_eq!(fs[0].detail, FailureDetail::Rpc1Err("boom".to_string()));
    assert_eq!(fs[1].name, "c");
    assert_eq!(fs[1].detail, FailureDetail::Rpc2Err("bang".to_string()));
}

#[test]
fn report_of_nothing_passes() {
    let r = report(vec![]);
    assert!(r.passed);
    assert!(r.groups.is_empty());
}
