//! Diffs two Kubernetes Deployment manifests and flags the changes that matter
//! operationally: a removed env var, a swapped image tag, replicas scaled down, a dropped
//! volume mount, a lost or altered probe. All else, such as a label, is passed over in
//! silence.
//!
//! `diff_manifests` compares two manifests; `text_report` and `json_report` write down what
//! it found, and `exit_code` says how the program ends; `compare` does all three. What the
//! findings are is stated in `diff`, what they and the reports tell of the fields of the
//! manifests in `behaviour`, and what holds of them as a whole in `laws`, `order` and `swap`.

use vstd::prelude::*;

pub mod behaviour;
pub mod diff;
pub mod findings;
pub mod image;
pub mod laws;
pub mod manifest;
pub mod names;
pub mod order;
pub mod pairing;
pub mod report;
pub mod swap;
pub mod text;
pub mod yaml;

pub use crate::diff::{check_replicas, diff_container, diff_manifests, diff_probe};
pub use crate::findings::{exit_code, finding, severity_label, worst_severity, Finding, Severity};
pub use crate::image::parse_image;
pub use crate::manifest::{
    Container, DeploymentSpec, EnvVar, Manifest, Metadata, PodSpec, PodTemplate, VolumeMount,
};
pub use crate::report::{compare, json_members, json_report, text_report, Outcome, ReportError};
pub use crate::yaml::{value_equal, Entry, Number, Value};

verus! {

} // verus!
