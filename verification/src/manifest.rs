//! The slice of the Deployment schema that the checks look at.

use std::collections::BTreeMap;

use vstd::prelude::*;
use vstd::std_specs::cmp::PartialEqSpec;

use crate::names::Named;
use crate::text;
use crate::yaml;
use crate::yaml::Value;

verus! {

/// A Deployment manifest. Fields that no check reads are not modelled.
#[derive(Debug, Clone)]
pub struct Manifest {
    pub api_version: String,
    pub kind: String,
    pub metadata: Metadata,
    pub spec: DeploymentSpec,
}

/// The metadata of a manifest or of its pod template. No check reads it.
#[derive(Debug, Clone)]
pub struct Metadata {
    pub name: Option<String>,
    pub labels: BTreeMap<String, String>,
}

impl Default for Metadata {
    fn default() -> (r: Self)
        ensures
            r.name is None,
            r.labels@ == Map::<String, String>::empty(),
    {
        Metadata { name: None, labels: BTreeMap::new() }
    }
}

/// What a Deployment asks for.
#[derive(Debug, Clone)]
pub struct DeploymentSpec {
    /// How many pods to run; Kubernetes takes an omitted number as 1.
    pub replicas: Option<i64>,
    pub template: PodTemplate,
}

/// What the pods of a Deployment are made from.
#[derive(Debug, Clone)]
pub struct PodTemplate {
    pub metadata: Metadata,
    pub spec: PodSpec,
}

/// What a pod runs.
#[derive(Debug, Clone)]
pub struct PodSpec {
    pub containers: Vec<Container>,
}

/// A container of a pod.
#[derive(Debug, Clone)]
pub struct Container {
    pub name: String,
    pub image: String,
    pub env: Vec<EnvVar>,
    pub volume_mounts: Vec<VolumeMount>,
    pub liveness_probe: Option<Value>,
    pub readiness_probe: Option<Value>,
}

/// An environment variable, given its value directly or from a source.
#[derive(Debug, Clone)]
pub struct EnvVar {
    pub name: String,
    pub value: Option<String>,
    pub value_from: Option<Value>,
}

/// A volume mounted into a container.
#[derive(Debug, Clone)]
pub struct VolumeMount {
    pub name: String,
    pub mount_path: String,
}

impl Named for Container {
    open spec fn name_text(&self) -> Seq<char> {
        self.name@
    }

    fn name(&self) -> &String {
        &self.name
    }
}

impl Named for EnvVar {
    open spec fn name_text(&self) -> Seq<char> {
        self.name@
    }

    fn name(&self) -> &String {
        &self.name
    }
}

impl Named for VolumeMount {
    open spec fn name_text(&self) -> Seq<char> {
        self.name@
    }

    fn name(&self) -> &String {
        &self.name
    }
}

/// Equality of optional YAML values: both absent, or both present and equal.
pub open spec fn same_optional_value(a: Option<Value>, b: Option<Value>) -> bool {
    match (a, b) {
        (Some(x), Some(y)) => yaml::same_value(x, y),
        (None, None) => true,
        _ => false,
    }
}

/// Compares two optional YAML values.
pub fn optional_value_equal(a: &Option<Value>, b: &Option<Value>) -> (r: bool)
    ensures
        r == same_optional_value(*a, *b),
{
    match (a, b) {
        (Some(x), Some(y)) => yaml::value_equal(x, y),
        (None, None) => true,
        _ => false,
    }
}

/// Whether two variables are given their value in the same way.
pub open spec fn same_env_value(a: EnvVar, b: EnvVar) -> bool {
    text::optional_text(a.value) == text::optional_text(b.value) && same_optional_value(
        a.value_from,
        b.value_from,
    )
}

impl PartialEq for EnvVar {
    fn eq(&self, other: &Self) -> (r: bool) {
        self.name == other.name && env_value_equal(self, other)
    }
}

impl vstd::std_specs::cmp::PartialEqSpecImpl for EnvVar {
    open spec fn obeys_eq_spec() -> bool {
        true
    }

    open spec fn eq_spec(&self, other: &Self) -> bool {
        self.name@ == other.name@ && same_env_value(*self, *other)
    }
}

impl Eq for EnvVar {

}

/// Whether two variables are given their value in the same way.
pub fn env_value_equal(a: &EnvVar, b: &EnvVar) -> (r: bool)
    ensures
        r == same_env_value(*a, *b),
{
    text::optional_text_equal(&a.value, &b.value) && optional_value_equal(
        &a.value_from,
        &b.value_from,
    )
}

impl PartialEq for VolumeMount {
    fn eq(&self, other: &Self) -> (r: bool) {
        self.name == other.name && self.mount_path == other.mount_path
    }
}

impl vstd::std_specs::cmp::PartialEqSpecImpl for VolumeMount {
    open spec fn obeys_eq_spec() -> bool {
        true
    }

    open spec fn eq_spec(&self, other: &Self) -> bool {
        self.name@ == other.name@ && self.mount_path@ == other.mount_path@
    }
}

impl Eq for VolumeMount {

}

/// Two variables are given their value in the same way exactly where they have the same text as
/// their value, or neither has one, and equal sources, or neither has one.
pub proof fn law_values_are_told_apart(a: EnvVar, b: EnvVar)
    ensures
        same_env_value(a, b) <==> {
            &&& a.value is Some <==> b.value is Some
            &&& a.value is Some ==> a.value->0@ == b.value->0@
            &&& a.value_from is Some <==> b.value_from is Some
            &&& a.value_from is Some ==> yaml::same_value(a.value_from->0, b.value_from->0)
        },
{
}

/// Two variables are equal exactly where they have one name and are given their value in the
/// same way.
pub proof fn law_variables_are_told_apart(a: EnvVar, b: EnvVar)
    ensures
        a.eq_spec(&b) <==> {
            &&& a.name@ == b.name@
            &&& a.value is Some <==> b.value is Some
            &&& a.value is Some ==> a.value->0@ == b.value->0@
            &&& a.value_from is Some <==> b.value_from is Some
            &&& a.value_from is Some ==> yaml::same_value(a.value_from->0, b.value_from->0)
        },
{
}

/// Two volume mounts are equal exactly where they have one name and one path.
pub proof fn law_mounts_are_told_apart(a: VolumeMount, b: VolumeMount)
    ensures
        a.eq_spec(&b) <==> a.name@ == b.name@ && a.mount_path@ == b.mount_path@,
{
}

} // verus!
