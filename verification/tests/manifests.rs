//! Manifests read from YAML and compared.

use std::collections::BTreeMap;

use manifestdiff::{
    diff_manifests, exit_code, finding, parse_image, text_report, worst_severity,
    Container, DeploymentSpec, Entry, EnvVar, Manifest, Metadata, Number, PodSpec, PodTemplate,
    Severity, Value, VolumeMount,
};

// ---------------------------------------------------------------------
// Reading a manifest
// ---------------------------------------------------------------------

fn value(v: &serde_yaml::Value) -> Value {
    match v {
        serde_yaml::Value::Null => Value::Null,
        serde_yaml::Value::Bool(b) => Value::Bool(*b),
        serde_yaml::Value::Number(n) => Value::Number(match (n.as_u64(), n.as_i64()) {
            (Some(u), _) => Number::PosInt(u),
            (None, Some(i)) => Number::NegInt(i),
            (None, None) => Number::Float(n.as_f64().unwrap().to_bits()),
        }),
        serde_yaml::Value::String(s) => Value::String(s.clone()),
        serde_yaml::Value::Sequence(s) => Value::Sequence(s.iter().map(value).collect()),
        serde_yaml::Value::Mapping(m) => Value::Mapping(
            m.iter().map(|(k, v)| Entry { key: value(k), value: value(v) }).collect(),
        ),
        serde_yaml::Value::Tagged(t) => {
            Value::Tagged { tag: t.tag.to_string(), value: Box::new(value(&t.value)) }
        }
    }
}

fn yaml(text: &str) -> serde_yaml::Value {
    serde_yaml::from_str(text).unwrap()
}

fn string(v: &serde_yaml::Value) -> String {
    v.as_str().unwrap().to_string()
}

fn list<'a>(v: Option<&'a serde_yaml::Value>) -> Vec<&'a serde_yaml::Value> {
    match v {
        Some(items) => items.as_sequence().unwrap().iter().collect(),
        None => Vec::new(),
    }
}

fn metadata(v: Option<&serde_yaml::Value>) -> Metadata {
    match v {
        None => Metadata::default(),
        Some(m) => {
            let mut labels = BTreeMap::new();
            if let Some(pairs) = m.get("labels") {
                for (k, l) in pairs.as_mapping().unwrap() {
                    labels.insert(string(k), string(l));
                }
            }
            Metadata { name: m.get("name").map(string), labels }
        }
    }
}

fn container(c: &serde_yaml::Value) -> Container {
    Container {
        name: string(&c["name"]),
        image: string(&c["image"]),
        env: list(c.get("env"))
            .into_iter()
            .map(|e| EnvVar {
                name: string(&e["name"]),
                value: e.get("value").map(string),
                value_from: e.get("valueFrom").map(value),
            })
            .collect(),
        volume_mounts: list(c.get("volumeMounts"))
            .into_iter()
            .map(|m| VolumeMount { name: string(&m["name"]), mount_path: string(&m["mountPath"]) })
            .collect(),
        liveness_probe: c.get("livenessProbe").map(value),
        readiness_probe: c.get("readinessProbe").map(value),
    }
}

fn manifest(text: &str) -> Manifest {
    let doc = yaml(text);
    let spec = &doc["spec"];
    let template = &spec["template"];
    Manifest {
        api_version: string(&doc["apiVersion"]),
        kind: string(&doc["kind"]),
        metadata: metadata(doc.get("metadata")),
        spec: DeploymentSpec {
            replicas: spec.get("replicas").map(|n| n.as_i64().unwrap()),
            template: PodTemplate {
                metadata: metadata(template.get("metadata")),
                spec: PodSpec {
                    containers: list(template["spec"].get("containers"))
                        .into_iter()
                        .map(container)
                        .collect(),
                },
            },
        },
    }
}

fn base_yaml(extra_container_fields: &str, replicas: &str, image_tag: &str) -> String {
    format!(
        r#"
apiVersion: apps/v1
kind: Deployment
metadata:
  name: my-app
  labels:
    app: my-app
spec:
  replicas: {replicas}
  selector:
    matchLabels:
      app: my-app
  template:
    metadata:
      labels:
        app: my-app
    spec:
      containers:
        - name: app
          image: myrepo/my-app:{image_tag}
          env:
            - name: LOG_LEVEL
              value: info
            - name: DATABASE_URL
              valueFrom:
                secretKeyRef:
                  name: db-secret
                  key: url
          volumeMounts:
            - name: config-volume
              mountPath: /etc/config
          livenessProbe:
            httpGet:
              path: /healthz
              port: 8080
            initialDelaySeconds: 10
          readinessProbe:
            httpGet:
              path: /ready
              port: 8080
{extra_container_fields}
"#
    )
}

#[test]
fn parse_image_handles_bare_tag() {
    assert_eq!(
        parse_image("nginx:1.21"),
        ("nginx".to_string(), Some("1.21".to_string()))
    );
}

#[test]
fn parse_image_handles_no_tag() {
    assert_eq!(parse_image("nginx"), ("nginx".to_string(), None));
}

#[test]
fn parse_image_handles_registry_with_port_and_no_tag() {
    assert_eq!(
        parse_image("registry.example.com:5000/team/app"),
        ("registry.example.com:5000/team/app".to_string(), None)
    );
}

#[test]
fn parse_image_handles_registry_with_port_and_tag() {
    assert_eq!(
        parse_image("registry.example.com:5000/team/app:2.0.1"),
        (
            "registry.example.com:5000/team/app".to_string(),
            Some("2.0.1".to_string())
        )
    );
}

#[test]
fn identical_manifests_produce_no_findings() {
    let yaml = base_yaml("", "3", "1.0.0");
    let before = manifest(&yaml);
    let after = manifest(&yaml);
    let findings = diff_manifests(&before, &after);
    assert!(
        findings.is_empty(),
        "expected no findings, got {findings:?}"
    );
}

#[test]
fn label_only_change_is_not_flagged() {
    let before = manifest(&base_yaml("", "3", "1.0.0"));
    let mut after_yaml = base_yaml("", "3", "1.0.0");
    after_yaml = after_yaml.replace("app: my-app", "app: my-app-renamed-label");
    let after = manifest(&after_yaml);
    let findings = diff_manifests(&before, &after);
    assert!(
        findings.is_empty(),
        "label-only changes must not be flagged, got {findings:?}"
    );
}

#[test]
fn detects_removed_env_var() {
    let before = manifest(&base_yaml("", "3", "1.0.0"));
    let after_yaml = base_yaml("", "3", "1.0.0").replace(
        "          env:\n            - name: LOG_LEVEL\n              value: info\n            - name: DATABASE_URL\n              valueFrom:\n                secretKeyRef:\n                  name: db-secret\n                  key: url\n",
        "          env:\n            - name: LOG_LEVEL\n              value: info\n",
    );
    let after = manifest(&after_yaml);
    let findings = diff_manifests(&before, &after);
    assert!(findings.iter().any(|f| f.severity == Severity::Breaking
        && f.message.contains("DATABASE_URL")
        && f.message.contains("removed")));
}

#[test]
fn detects_changed_image_tag() {
    let before = manifest(&base_yaml("", "3", "1.0.0"));
    let after = manifest(&base_yaml("", "3", "2.0.0"));
    let findings = diff_manifests(&before, &after);
    assert!(findings.iter().any(|f| f.severity == Severity::Risky
        && f.message.contains("image tag changed from 1.0.0 to 2.0.0")));
}

#[test]
fn detects_reduced_replicas_as_risky() {
    let before = manifest(&base_yaml("", "3", "1.0.0"));
    let after = manifest(&base_yaml("", "2", "1.0.0"));
    let findings = diff_manifests(&before, &after);
    assert!(findings
        .iter()
        .any(|f| f.severity == Severity::Risky
            && f.message.contains("replicas reduced from 3 to 2")));
}

#[test]
fn detects_replicas_to_zero_as_breaking() {
    let before = manifest(&base_yaml("", "3", "1.0.0"));
    let after = manifest(&base_yaml("", "0", "1.0.0"));
    let findings = diff_manifests(&before, &after);
    assert!(findings.iter().any(|f| f.severity == Severity::Breaking
        && f.message.contains("replicas reduced from 3 to 0")));
}

#[test]
fn increased_replicas_is_not_flagged() {
    let before = manifest(&base_yaml("", "2", "1.0.0"));
    let after = manifest(&base_yaml("", "5", "1.0.0"));
    let findings = diff_manifests(&before, &after);
    assert!(!findings.iter().any(|f| f.message.contains("replicas")));
}

#[test]
fn detects_removed_volume_mount() {
    let before = manifest(&base_yaml("", "3", "1.0.0"));
    let after_yaml = base_yaml("", "3", "1.0.0").replace(
        "          volumeMounts:\n            - name: config-volume\n              mountPath: /etc/config\n",
        "",
    );
    let after = manifest(&after_yaml);
    let findings = diff_manifests(&before, &after);
    assert!(findings.iter().any(|f| f.severity == Severity::Breaking
        && f.message.contains("config-volume")
        && f.message.contains("removed")));
}

#[test]
fn detects_removed_liveness_probe() {
    let before = manifest(&base_yaml("", "3", "1.0.0"));
    let after_yaml = base_yaml("", "3", "1.0.0").replace(
        "          livenessProbe:\n            httpGet:\n              path: /healthz\n              port: 8080\n            initialDelaySeconds: 10\n",
        "",
    );
    let after = manifest(&after_yaml);
    let findings = diff_manifests(&before, &after);
    assert!(findings.iter().any(|f| f.severity == Severity::Breaking
        && f.message.contains("livenessProbe")
        && f.message.contains("removed")));
}

#[test]
fn detects_changed_readiness_probe_as_risky_not_breaking() {
    let before = manifest(&base_yaml("", "3", "1.0.0"));
    let after_yaml = base_yaml("", "3", "1.0.0").replace("path: /ready", "path: /readyz");
    let after = manifest(&after_yaml);
    let findings = diff_manifests(&before, &after);
    assert!(findings.iter().any(|f| f.severity == Severity::Risky
        && f.message.contains("readinessProbe")
        && f.message.contains("changed")));
}

#[test]
fn detects_added_container_as_info_only() {
    let before = manifest(&base_yaml("", "3", "1.0.0"));
    let extra = "        - name: sidecar\n          image: sidecar:1.0\n";
    let after = manifest(&base_yaml(extra, "3", "1.0.0"));
    let findings = diff_manifests(&before, &after);
    let sidecar_finding = findings
        .iter()
        .find(|f| f.message.contains("sidecar"))
        .unwrap();
    assert_eq!(sidecar_finding.severity, Severity::Info);
    assert_eq!(
        worst_severity(&findings),
        Some(Severity::Info),
        "adding a container alone should never raise the overall severity above Info"
    );
}

#[test]
fn detects_removed_container_as_breaking() {
    let extra = "        - name: sidecar\n          image: sidecar:1.0\n";
    let before = manifest(&base_yaml(extra, "3", "1.0.0"));
    let after = manifest(&base_yaml("", "3", "1.0.0"));
    let findings = diff_manifests(&before, &after);
    assert!(findings.iter().any(|f| f.severity == Severity::Breaking
        && f.message.contains("sidecar")
        && f.message.contains("removed")));
}

#[test]
fn worst_severity_picks_breaking_over_risky_and_info() {
    assert_eq!(
        worst_severity(&[
            finding(Severity::Info, "a".to_string()),
            finding(Severity::Risky, "b".to_string()),
            finding(Severity::Breaking, "c".to_string()),
        ]),
        Some(Severity::Breaking)
    );
    assert_eq!(worst_severity(&[]), None);
}

#[test]
fn env_var_value_change_is_risky_not_breaking() {
    let before = manifest(&base_yaml("", "3", "1.0.0"));
    let after_yaml = base_yaml("", "3", "1.0.0").replace("value: info", "value: debug");
    let after = manifest(&after_yaml);
    let findings = diff_manifests(&before, &after);
    assert!(findings.iter().any(|f| f.severity == Severity::Risky
        && f.message.contains("LOG_LEVEL")
        && f.message.contains("changed")));
}

#[test]
fn resource_kind_change_is_flagged_breaking() {
    let before = manifest(&base_yaml("", "3", "1.0.0"));
    let after_yaml =
        base_yaml("", "3", "1.0.0").replace("kind: Deployment", "kind: StatefulSet");
    let after = manifest(&after_yaml);
    let findings = diff_manifests(&before, &after);
    assert!(findings.iter().any(
        |f| f.severity == Severity::Breaking && f.message.contains("resource type changed")
    ));
}

fn checkout_api() -> &'static str {
    r#"
apiVersion: apps/v1
kind: Deployment
metadata:
  name: checkout-api
  labels:
    team: payments
    environment: staging
spec:
  replicas: 4
  template:
    metadata:
      labels:
        team: payments
    spec:
      containers:
        - name: api
          image: registry.example.com:5000/checkout/api:1.4.2
          env:
            - name: LOG_LEVEL
              value: info
            - name: FEATURE_FLAGS_URL
              value: http://flags.internal
          volumeMounts:
            - name: tls-certs
              mountPath: /etc/tls
          livenessProbe:
            httpGet:
              path: /healthz
              port: 8080
          readinessProbe:
            httpGet:
              path: /ready
              port: 8080
        - name: log-shipper
          image: log-shipper:2.0
"#
}

#[test]
fn a_realistic_pair_lands_in_the_expected_buckets() {
    let before = manifest(checkout_api());
    let after = manifest(
        r#"
apiVersion: apps/v1
kind: Deployment
metadata:
  name: checkout-api
spec:
  replicas: 2
  template:
    spec:
      containers:
        - name: metrics-exporter
          image: metrics-exporter:0.1
        - name: api
          image: registry.example.com:5000/checkout/api:1.5.0
          env:
            - name: TRACE_ID_HEADER
              value: x-trace-id
            - name: LOG_LEVEL
              value: debug
          livenessProbe:
            httpGet:
              port: 8080
              path: /healthz
"#,
    );
    let findings = diff_manifests(&before, &after);
    assert_eq!(
        text_report("before.yaml", "after.yaml", &findings),
        r#"manifestdiff: before.yaml -> after.yaml

BREAKING CHANGES:
  - container "api": env var "FEATURE_FLAGS_URL" was removed
  - container "api": volumeMount "tls-certs" was removed
  - container "api": readinessProbe was removed
  - container "log-shipper" was removed

RISKY CHANGES:
  - replicas reduced from 4 to 2
  - container "api": image tag changed from 1.4.2 to 1.5.0
  - container "api": env var "LOG_LEVEL" value changed

INFO:
  - container "api": env var "TRACE_ID_HEADER" was added
  - container "metrics-exporter" was added

"#
    );
    assert_eq!(exit_code(&findings), 2);
}

#[test]
fn an_edit_of_labels_alone_ends_with_success() {
    let before = manifest(checkout_api());
    let after = manifest(
        &checkout_api().replace("payments", "core").replace("staging", "production"),
    );
    let findings = diff_manifests(&before, &after);
    assert!(findings.is_empty());
    assert_eq!(exit_code(&findings), 0);
}
