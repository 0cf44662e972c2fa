//! Findings, their order and their reports, on manifests built by hand.

use std::collections::{BTreeMap, BTreeSet};

use manifestdiff::{
    check_replicas, compare, diff_container, diff_manifests, diff_probe, exit_code, finding,
    json_members, json_report, severity_label, text_report, worst_severity, Container,
    DeploymentSpec, Entry, EnvVar, Finding, Manifest, Metadata, Number, PodSpec, PodTemplate,
    Severity, Value, VolumeMount,
};

fn deployment(replicas: Option<i64>, containers: Vec<Container>) -> Manifest {
    Manifest {
        api_version: "apps/v1".to_string(),
        kind: "Deployment".to_string(),
        metadata: Metadata::default(),
        spec: DeploymentSpec {
            replicas,
            template: PodTemplate { metadata: Metadata::default(), spec: PodSpec { containers } },
        },
    }
}

fn plain(name: &str, image: &str) -> Container {
    Container {
        name: name.to_string(),
        image: image.to_string(),
        env: Vec::new(),
        volume_mounts: Vec::new(),
        liveness_probe: None,
        readiness_probe: None,
    }
}

fn var(name: &str, value: &str) -> EnvVar {
    EnvVar { name: name.to_string(), value: Some(value.to_string()), value_from: None }
}

fn mount(name: &str, path: &str) -> VolumeMount {
    VolumeMount { name: name.to_string(), mount_path: path.to_string() }
}

fn probe(fields: &[(&str, u64)]) -> Option<Value> {
    Some(Value::Mapping(
        fields
            .iter()
            .map(|(k, v)| Entry {
                key: Value::String(k.to_string()),
                value: Value::Number(Number::PosInt(*v)),
            })
            .collect(),
    ))
}

fn found(findings: &[Finding]) -> Vec<(Severity, &str)> {
    findings.iter().map(|f| (f.severity, f.message.as_str())).collect()
}

fn of_containers(before: &Container, after: &Container) -> Vec<Finding> {
    let mut findings = Vec::new();
    diff_container(before, after, &mut findings);
    findings
}

fn of_replicas(before: Option<i64>, after: Option<i64>) -> Vec<Finding> {
    let mut findings = Vec::new();
    check_replicas(&deployment(before, vec![]), &deployment(after, vec![]), &mut findings);
    findings
}

#[test]
fn reduced_replicas_are_worded_exactly() {
    assert_eq!(
        found(&of_replicas(Some(3), Some(2))),
        vec![(Severity::Risky, "replicas reduced from 3 to 2")]
    );
    assert_eq!(
        found(&of_replicas(Some(3), Some(0))),
        vec![(
            Severity::Breaking,
            "replicas reduced from 3 to 0 — this scales the deployment to nothing"
        )]
    );
    assert_eq!(
        found(&of_replicas(Some(i64::MAX), Some(i64::MIN))),
        vec![(
            Severity::Risky,
            format!("replicas reduced from {} to {}", i64::MAX, i64::MIN).as_str()
        )]
    );
    assert_eq!(
        found(&of_replicas(Some(0), Some(-10))),
        vec![(Severity::Risky, "replicas reduced from 0 to -10")]
    );
}

#[test]
fn omitted_replicas_count_as_one() {
    assert!(of_replicas(None, Some(1)).is_empty());
    assert!(of_replicas(Some(1), None).is_empty());
    assert!(of_replicas(Some(0), None).is_empty());
    assert_eq!(
        found(&of_replicas(Some(2), None)),
        vec![(Severity::Risky, "replicas reduced from 2 to 1")]
    );
    assert_eq!(of_replicas(None, Some(0))[0].severity, Severity::Breaking);
}

#[test]
fn stable_or_grown_replicas_are_silent() {
    assert!(of_replicas(Some(2), Some(2)).is_empty());
    assert!(of_replicas(Some(2), Some(200)).is_empty());
    assert!(of_replicas(Some(-1), Some(0)).is_empty());
}

#[test]
fn a_changed_type_comes_first_and_is_breaking() {
    let before = deployment(Some(2), vec![]);
    let mut after = deployment(Some(1), vec![]);
    after.api_version = "apps/v2".to_string();
    assert_eq!(
        found(&diff_manifests(&before, &after)),
        vec![
            (
                Severity::Breaking,
                "resource type changed from apps/v1/Deployment to apps/v2/Deployment"
            ),
            (Severity::Risky, "replicas reduced from 2 to 1"),
        ]
    );
}

#[test]
fn image_changes_are_worded_by_what_changed() {
    let image = |before: &str, after: &str| {
        let findings = of_containers(&plain("app", before), &plain("app", after));
        assert!(findings.iter().all(|f| f.severity == Severity::Risky));
        findings.into_iter().map(|f| f.message).collect::<Vec<_>>()
    };
    assert!(image("r/a:1", "r/a:1").is_empty());
    assert_eq!(image("r/a:1", "r/a:2"), ["container \"app\": image tag changed from 1 to 2"]);
    assert_eq!(image("r/a", "r/a:2"), ["container \"app\": image tag changed from <none> to 2"]);
    assert_eq!(image("r/a:2", "r/a"), ["container \"app\": image tag changed from 2 to <none>"]);
    assert_eq!(
        image("r/a:1", "r/b:1"),
        ["container \"app\": image changed from \"r/a:1\" to \"r/b:1\""]
    );
    assert_eq!(
        image("h:1/a", "h:2/a"),
        ["container \"app\": image changed from \"h:1/a\" to \"h:2/a\""]
    );
}

#[test]
fn another_digest_is_another_image() {
    let before = plain("app", "team/app@sha256:aaaa");
    let after = plain("app", "team/app@sha256:bbbb");
    assert_eq!(
        found(&of_containers(&before, &after)),
        vec![(
            Severity::Risky,
            "container \"app\": image changed from \"team/app@sha256:aaaa\" to \"team/app@sha256:bbbb\""
        )]
    );
}

#[test]
fn variables_are_reported_in_the_order_of_their_names() {
    let mut before = plain("app", "a");
    before.env = vec![var("Z", "1"), var("M", "1"), var("A", "1"), var("K", "1")];
    let mut after = plain("app", "a");
    after.env = vec![var("Y", "1"), var("M", "2"), var("B", "1"), var("K", "1")];
    assert_eq!(
        found(&of_containers(&before, &after)),
        vec![
            (Severity::Breaking, "container \"app\": env var \"A\" was removed"),
            (Severity::Risky, "container \"app\": env var \"M\" value changed"),
            (Severity::Breaking, "container \"app\": env var \"Z\" was removed"),
            (Severity::Info, "container \"app\": env var \"B\" was added"),
            (Severity::Info, "container \"app\": env var \"Y\" was added"),
        ]
    );
}

#[test]
fn names_are_ordered_as_strings_are() {
    let names = [
        "b", "a", "", "ab", "B", "_", "é", "z", "𝄞", "\u{fffd}", "ß", "aa", "a", "10", "9", "é\u{301}",
    ];
    let mut before = plain("app", "a");
    before.env = names.iter().map(|n| var(n, "1")).collect();
    let findings = of_containers(&before, &plain("app", "a"));
    let sorted: BTreeSet<&str> = names.iter().copied().collect();
    let expected: Vec<String> = sorted
        .iter()
        .map(|n| format!("container \"app\": env var \"{n}\" was removed"))
        .collect();
    assert_eq!(findings.into_iter().map(|f| f.message).collect::<Vec<_>>(), expected);
}

#[test]
fn the_last_of_two_variables_counts() {
    let mut before = plain("app", "a");
    before.env = vec![var("A", "1"), var("A", "2")];
    let mut after = plain("app", "a");
    after.env = vec![var("A", "2")];
    assert!(of_containers(&before, &after).is_empty());
    after.env = vec![var("A", "1")];
    assert_eq!(
        found(&of_containers(&before, &after)),
        vec![(Severity::Risky, "container \"app\": env var \"A\" value changed")]
    );
}

#[test]
fn a_variable_changes_with_its_source() {
    let mut before = plain("app", "a");
    before.env = vec![EnvVar { name: "A".to_string(), value: None, value_from: probe(&[("k", 1)]) }];
    let mut after = before.clone();
    assert!(of_containers(&before, &after).is_empty());
    after.env[0].value_from = probe(&[("k", 2)]);
    assert_eq!(of_containers(&before, &after)[0].severity, Severity::Risky);
    after.env[0].value_from = None;
    assert_eq!(of_containers(&before, &after)[0].severity, Severity::Risky);
}

#[test]
fn mounts_are_reported_with_their_paths() {
    let mut before = plain("app", "a");
    before.volume_mounts = vec![mount("tls", "/tls"), mount("cfg", "/etc")];
    let mut after = plain("app", "a");
    after.volume_mounts = vec![mount("new", "/n"), mount("cfg", "/opt")];
    assert_eq!(
        found(&of_containers(&before, &after)),
        vec![
            (
                Severity::Risky,
                "container \"app\": volumeMount \"cfg\" path changed from /etc to /opt"
            ),
            (Severity::Breaking, "container \"app\": volumeMount \"tls\" was removed"),
            (Severity::Info, "container \"app\": volumeMount \"new\" was added"),
        ]
    );
}

#[test]
fn probes_are_compared_as_a_whole() {
    let of = |before: Option<Value>, after: Option<Value>| {
        let mut findings = Vec::new();
        diff_probe("app", "livenessProbe", &before, &after, &mut findings);
        findings.into_iter().map(|f| (f.severity, f.message)).collect::<Vec<_>>()
    };
    let one = |s: Severity, m: &str| vec![(s, format!("container \"app\": livenessProbe {m}"))];
    let a = || probe(&[("port", 1), ("delay", 2)]);
    assert_eq!(of(a(), None), one(Severity::Breaking, "was removed"));
    assert_eq!(of(None, a()), one(Severity::Info, "was added"));
    assert_eq!(of(a(), probe(&[("port", 1)])), one(Severity::Risky, "configuration changed"));
    assert!(of(a(), a()).is_empty());
    assert!(of(a(), probe(&[("delay", 2), ("port", 1)])).is_empty());
    assert!(of(None, None).is_empty());
}

#[test]
fn order_within_a_manifest_is_not_compared() {
    let mut one = plain("one", "a:1");
    one.env = vec![var("A", "1"), var("B", "2")];
    one.volume_mounts = vec![mount("x", "/x"), mount("y", "/y")];
    let two = plain("two", "b:1");
    let mut one_again = one.clone();
    one_again.env.reverse();
    one_again.volume_mounts.reverse();
    let before = deployment(Some(1), vec![one, two.clone()]);
    let after = deployment(Some(1), vec![two, one_again]);
    assert!(diff_manifests(&before, &after).is_empty());
}

#[test]
fn identical_containers_of_one_name_are_silent() {
    let twice = deployment(None, vec![plain("a", "x:1"), plain("a", "x:2")]);
    assert!(diff_manifests(&twice, &twice).is_empty());
    let back = deployment(None, vec![plain("a", "x:2"), plain("a", "x:1")]);
    assert!(diff_manifests(&twice, &back).is_empty());
    let mut labelled = twice.clone();
    labelled.metadata.labels.insert("team".to_string(), "core".to_string());
    assert!(diff_manifests(&twice, &labelled).is_empty());
}

#[test]
fn equal_manifests_are_silent_whatever_they_repeat() {
    let build = || {
        let mut one = plain("a", "x:1");
        one.env = vec![var("A", "1"), var("A", "2"), var("B", "1")];
        one.volume_mounts = vec![mount("v", "/b"), mount("v", "/a"), mount("v", "/b")];
        one.liveness_probe = probe(&[("port", 1), ("delay", 2)]);
        let mut two = plain("a", "x:1");
        two.env = vec![var("A", "2"), var("A", "1"), var("B", "1")];
        deployment(Some(2), vec![one, two, plain("a", "x:2")])
    };
    let before = build();
    let mut after = build();
    assert!(diff_manifests(&before, &after).is_empty());
    after.spec.template.metadata.labels.insert("team".to_string(), "core".to_string());
    assert!(diff_manifests(&before, &after).is_empty());
}

#[test]
fn equal_manifests_compare_alike() {
    let build = |tag: &str, value: &str| {
        let mut c = plain("app", tag);
        c.env = vec![var("A", value), var("A", value)];
        deployment(Some(2), vec![c, plain("app", "x")])
    };
    let findings = diff_manifests(&build("i:1", "1"), &build("i:2", "2"));
    let again = diff_manifests(&build("i:1", "1"), &build("i:2", "2"));
    assert_eq!(found(&findings), found(&again));
    assert_eq!(
        found(&findings),
        vec![
            (Severity::Risky, "container \"app\": image tag changed from 1 to 2"),
            (Severity::Risky, "container \"app\": env var \"A\" value changed"),
        ]
    );
}

#[test]
fn containers_of_one_name_are_paired_off() {
    let before = deployment(None, vec![plain("a", "x:1"), plain("a", "x:2"), plain("a", "x:3")]);
    let after = deployment(None, vec![plain("a", "x:2"), plain("a", "x:4")]);
    assert_eq!(
        found(&diff_manifests(&before, &after)),
        vec![
            (Severity::Risky, "container \"a\": image tag changed from 1 to 4"),
            (Severity::Breaking, "container \"a\" was removed"),
        ]
    );
    assert_eq!(
        found(&diff_manifests(&after, &before)),
        vec![
            (Severity::Risky, "container \"a\": image tag changed from 4 to 1"),
            (Severity::Info, "container \"a\" was added"),
        ]
    );
}

#[test]
fn a_volume_at_two_paths_is_compared_path_by_path() {
    let with = |mounts: Vec<VolumeMount>| {
        let mut c = plain("app", "i");
        c.volume_mounts = mounts;
        c
    };
    let both = with(vec![mount("config", "/a"), mount("config", "/b")]);
    let turned = with(vec![mount("config", "/b"), mount("config", "/a")]);
    let second = with(vec![mount("config", "/b")]);
    let moved = with(vec![mount("config", "/c"), mount("config", "/b")]);
    let none = with(vec![]);
    let removed = (Severity::Breaking, "container \"app\": volumeMount \"config\" was removed");
    let added = (Severity::Info, "container \"app\": volumeMount \"config\" was added");

    assert!(of_containers(&both, &both).is_empty());
    assert!(of_containers(&both, &turned).is_empty());
    assert_eq!(found(&of_containers(&both, &second)), vec![removed]);
    assert_eq!(found(&of_containers(&second, &both)), vec![added]);
    assert_eq!(found(&of_containers(&both, &none)), vec![removed, removed]);
    assert_eq!(found(&of_containers(&none, &both)), vec![added, added]);
    assert_eq!(
        found(&of_containers(&both, &moved)),
        vec![(
            Severity::Risky,
            "container \"app\": volumeMount \"config\" path changed from /a to /c"
        )]
    );
}

#[test]
fn the_order_of_paths_makes_no_difference() {
    let mut before = plain("app", "i");
    before.volume_mounts = vec![mount("v", "/b"), mount("v", "/a")];
    let mut after = plain("app", "i");
    after.volume_mounts = vec![mount("v", "/d"), mount("v", "/c"), mount("v", "/e")];
    let expected = vec![
        (Severity::Risky, "container \"app\": volumeMount \"v\" path changed from /a to /c"),
        (Severity::Risky, "container \"app\": volumeMount \"v\" path changed from /b to /d"),
        (Severity::Info, "container \"app\": volumeMount \"v\" was added"),
    ];
    assert_eq!(found(&of_containers(&before, &after)), expected);
    before.volume_mounts.reverse();
    after.volume_mounts.reverse();
    assert_eq!(found(&of_containers(&before, &after)), expected);
}

#[test]
fn the_last_variable_of_a_name_counts() {
    let mut before = plain("app", "i");
    before.env = vec![var("A", "1"), var("A", "2")];
    let mut after = plain("app", "i");
    after.env = vec![var("A", "2")];
    assert!(of_containers(&before, &after).is_empty());
    after.env = vec![var("A", "2"), var("A", "1")];
    assert_eq!(
        found(&of_containers(&before, &after)),
        vec![(Severity::Risky, "container \"app\": env var \"A\" value changed")]
    );
}

#[test]
fn another_order_gives_the_same_findings() {
    let mut one = plain("one", "a:1");
    one.env = vec![var("A", "1"), var("B", "2")];
    one.volume_mounts = vec![mount("x", "/x"), mount("y", "/y")];
    let mut one_again = one.clone();
    one_again.env.reverse();
    one_again.volume_mounts.reverse();
    let before = deployment(Some(1), vec![plain("one", "a:2"), plain("gone", "g")]);
    let after = deployment(Some(1), vec![one, plain("p", "i"), plain("q", "i")]);
    let other = deployment(Some(1), vec![plain("q", "i"), one_again, plain("p", "i")]);
    let findings = diff_manifests(&before, &after);
    let other_findings = diff_manifests(&before, &other);
    let mut listed = found(&findings);
    let mut other_listed = found(&other_findings);
    assert_eq!(listed.len(), 8);
    assert_ne!(listed, other_listed);
    listed.sort();
    other_listed.sort();
    assert_eq!(listed, other_listed);
}

#[test]
fn comparing_the_other_way_round_mirrors_the_findings() {
    let mut x = plain("app", "i:1");
    x.env = vec![var("A", "1"), var("B", "1"), var("C", "1")];
    x.volume_mounts = vec![mount("v", "/a"), mount("v", "/b"), mount("w", "/w")];
    x.liveness_probe = probe(&[("port", 1)]);
    let mut y = plain("app", "i:2");
    y.env = vec![var("B", "2"), var("C", "1"), var("D", "1")];
    y.volume_mounts = vec![mount("v", "/c")];
    y.readiness_probe = probe(&[("port", 1)]);
    let there = of_containers(&x, &y);
    let back = of_containers(&y, &x);
    let with = |findings: &[Finding], severity: Severity, end: &str| -> Vec<String> {
        let mut r: Vec<String> = findings
            .iter()
            .filter(|f| f.severity == severity)
            .map(|f| f.message.strip_suffix(end).unwrap().to_string())
            .collect();
        r.sort();
        r
    };
    assert_eq!(
        with(&there, Severity::Breaking, " was removed"),
        vec![
            "container \"app\": env var \"A\"",
            "container \"app\": livenessProbe",
            "container \"app\": volumeMount \"v\"",
            "container \"app\": volumeMount \"w\"",
        ]
    );
    assert_eq!(
        with(&there, Severity::Breaking, " was removed"),
        with(&back, Severity::Info, " was added")
    );
    assert_eq!(
        with(&there, Severity::Info, " was added"),
        with(&back, Severity::Breaking, " was removed")
    );
    assert_eq!(with(&there, Severity::Risky, "").len(), 3);
    assert_eq!(with(&back, Severity::Risky, "").len(), 3);
    assert_eq!(there.len(), back.len());
}

#[test]
fn containers_may_be_added_anywhere() {
    let app = plain("app", "i:1");
    let before = deployment(Some(1), vec![app.clone(), plain("b", "i")]);
    let after =
        deployment(Some(1), vec![plain("b", "j"), plain("n", "i"), plain("b", "i"), app]);
    assert_eq!(
        found(&diff_manifests(&before, &after)),
        vec![
            (Severity::Info, "container \"b\" was added"),
            (Severity::Info, "container \"n\" was added"),
        ]
    );
}

#[test]
fn containers_come_in_their_order() {
    let before = deployment(None, vec![plain("z", "i"), plain("m", "i:1"), plain("a", "i")]);
    let after = deployment(None, vec![plain("y", "i"), plain("m", "i:2"), plain("b", "i")]);
    assert_eq!(
        found(&diff_manifests(&before, &after)),
        vec![
            (Severity::Breaking, "container \"z\" was removed"),
            (Severity::Risky, "container \"m\": image tag changed from 1 to 2"),
            (Severity::Breaking, "container \"a\" was removed"),
            (Severity::Info, "container \"y\" was added"),
            (Severity::Info, "container \"b\" was added"),
        ]
    );
}

#[test]
fn added_containers_are_only_noted() {
    let before = deployment(Some(2), vec![plain("app", "i")]);
    let after = deployment(Some(2), vec![plain("app", "i"), plain("x", "i"), plain("y", "i")]);
    let findings = diff_manifests(&before, &after);
    assert_eq!(findings.len(), 2);
    assert_eq!(worst_severity(&findings), Some(Severity::Info));
    assert_eq!(exit_code(&findings), 0);
}

#[test]
fn metadata_makes_no_difference() {
    let before = deployment(Some(2), vec![plain("app", "i:1")]);
    let mut after = deployment(Some(1), vec![plain("app", "i:2")]);
    let plain_findings = diff_manifests(&before, &after);
    after.metadata.name = Some("other".to_string());
    after.metadata.labels.insert("team".to_string(), "core".to_string());
    after.spec.template.metadata.labels.insert("environment".to_string(), "prod".to_string());
    let labelled = diff_manifests(&before, &after);
    assert_eq!(found(&plain_findings), found(&labelled));
}

#[test]
fn default_metadata_is_empty() {
    let m = Metadata::default();
    assert_eq!(m.name, None);
    assert_eq!(m.labels, BTreeMap::new());
}

#[test]
fn exit_codes_follow_the_worst_severity() {
    let of = |severities: &[Severity]| {
        let findings: Vec<Finding> =
            severities.iter().map(|s| finding(*s, "m".to_string())).collect();
        (worst_severity(&findings), exit_code(&findings))
    };
    assert_eq!(of(&[]), (None, 0));
    assert_eq!(of(&[Severity::Info, Severity::Info]), (Some(Severity::Info), 0));
    assert_eq!(of(&[Severity::Info, Severity::Risky, Severity::Info]), (Some(Severity::Risky), 1));
    assert_eq!(of(&[Severity::Breaking, Severity::Risky, Severity::Info]), (Some(Severity::Breaking), 2));
    assert_eq!(of(&[Severity::Risky, Severity::Breaking]), (Some(Severity::Breaking), 2));
    assert!(Severity::Info < Severity::Risky && Severity::Risky < Severity::Breaking);
}

#[test]
fn labels_of_severities() {
    assert_eq!(severity_label(Severity::Info), "info");
    assert_eq!(severity_label(Severity::Risky), "risky");
    assert_eq!(severity_label(Severity::Breaking), "breaking");
}

fn sample() -> Vec<Finding> {
    vec![
        finding(Severity::Risky, "r1".to_string()),
        finding(Severity::Info, "i1".to_string()),
        finding(Severity::Breaking, "b1".to_string()),
        finding(Severity::Risky, "r2".to_string()),
    ]
}

#[test]
fn the_text_report_groups_by_severity() {
    assert_eq!(
        text_report("before.yaml", "after.yaml", &sample()),
        "manifestdiff: before.yaml -> after.yaml\n\n\
         BREAKING CHANGES:\n  - b1\n\n\
         RISKY CHANGES:\n  - r1\n  - r2\n\n\
         INFO:\n  - i1\n\n"
    );
    assert_eq!(
        text_report("a", "b", &sample()[..2]),
        "manifestdiff: a -> b\n\nRISKY CHANGES:\n  - r1\n\nINFO:\n  - i1\n\n"
    );
}

#[test]
fn the_text_report_says_so_when_there_is_nothing() {
    assert_eq!(
        text_report("a", "b", &[]),
        "manifestdiff: a -> b\n\nno risky or breaking changes detected\n"
    );
}

#[test]
fn the_json_report_is_written_out() {
    let findings = vec![
        finding(Severity::Breaking, "container \"c\" was removed".to_string()),
        finding(Severity::Info, "π\n".to_string()),
    ];
    assert_eq!(
        json_report("b.yaml", "a.yaml", &findings).unwrap(),
        r#"{
  "after": "a.yaml",
  "before": "b.yaml",
  "findings": [
    {
      "message": "container \"c\" was removed",
      "severity": "breaking"
    },
    {
      "message": "π\n",
      "severity": "info"
    }
  ],
  "worst_severity": "breaking"
}"#
    );
}

#[test]
fn the_json_report_on_nothing_has_no_worst_severity() {
    assert_eq!(
        json_report("b", "a", &[]).unwrap(),
        r#"{
  "after": "a",
  "before": "b",
  "findings": [],
  "worst_severity": null
}"#
    );
}

#[test]
fn the_json_report_reads_back() {
    let text = json_report("b", "a", &sample()).unwrap();
    let doc: serde_json::Value = serde_json::from_str(&text).unwrap();
    assert_eq!(doc["before"], "b");
    assert_eq!(doc["after"], "a");
    assert_eq!(doc["worst_severity"], "breaking");
    let findings = doc["findings"].as_array().unwrap();
    assert_eq!(findings.len(), 4);
    assert_eq!(findings[0]["severity"], "risky");
    assert_eq!(findings[3]["message"], "r2");
}

#[test]
fn the_json_report_has_four_members() {
    let members = json_members("b", "a", &sample());
    let names: Vec<&str> = members.iter().map(|m| m.name.as_str()).collect();
    assert_eq!(names, ["before", "after", "worst_severity", "findings"]);
}

#[test]
fn a_run_prints_and_ends_by_its_findings() {
    let before = deployment(Some(4), vec![plain("api", "api:1.4.2")]);
    let after = deployment(Some(2), vec![plain("api", "api:1.4.2")]);
    let text = compare("x", &before, "y", &after, false).unwrap();
    assert_eq!(text.code, 1);
    assert_eq!(
        text.output,
        "manifestdiff: x -> y\n\nRISKY CHANGES:\n  - replicas reduced from 4 to 2\n\n"
    );
    let json = compare("x", &before, "y", &after, true).unwrap();
    assert_eq!(json.code, 1);
    let findings = diff_manifests(&before, &after);
    assert_eq!(json.output, json_report("x", "y", &findings).unwrap() + "\n");
    let same = compare("x", &before, "y", &before, false).unwrap();
    assert_eq!(same.code, 0);
}
