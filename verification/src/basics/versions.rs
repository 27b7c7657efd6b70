use vstd::prelude::*;
use crate::basics::error::CoreError;
use crate::basics::grammar::{is_digit, digits_in, all_digits, has_prefix, starts_with};
use crate::basics::ids::last_non_digit;
use crate::text::chars_of;

verus! {

/// Benchmark version, pattern `v[0-9]+\.[0-9]+`.
pub open spec fn is_benchmark_version(s: Seq<char>) -> bool {
    exists|j: int| 2 <= j < s.len() - 1 && #[trigger] s[j] == '.' && s[0] == 'v'
        && digits_in(s, 1, j) && digits_in(s, j + 1, s.len() as int)
}

/// `s` is `prefix` followed by one or more digits.
pub open spec fn is_prefixed_number(s: Seq<char>, prefix: Seq<char>) -> bool {
    &&& s.len() > prefix.len()
    &&& has_prefix(s, prefix)
    &&& digits_in(s, prefix.len() as int, s.len() as int)
}

/// The characters of `schema_v`.
pub open spec fn schema_prefix() -> Seq<char> {
    seq!['s', 'c', 'h', 'e', 'm', 'a', '_', 'v']
}

/// The characters of `metrics_v`.
pub open spec fn metrics_prefix() -> Seq<char> {
    seq!['m', 'e', 't', 'r', 'i', 'c', 's', '_', 'v']
}

/// The characters of `rubric_v`.
pub open spec fn rubric_prefix() -> Seq<char> {
    seq!['r', 'u', 'b', 'r', 'i', 'c', '_', 'v']
}

/// Checks `is_benchmark_version(s)`.
fn benchmark_version_chars(s: &[char]) -> (b: bool)
    ensures
        b == is_benchmark_version(s@),
{
    let n = s.len();
    match last_non_digit(s, 0, n) {
        None => {
            proof {
                if is_benchmark_version(s@) {
                    let j = choose|j: int| 2 <= j < s@.len() - 1 && #[trigger] s@[j] == '.' && s@[0] == 'v'
                        && digits_in(s@, 1, j) && digits_in(s@, j + 1, s@.len() as int);
                    assert(is_digit(s@[j]));
                }
            }
            false
        },
        Some(k) => {
            proof {
                if is_benchmark_version(s@) {
                    let j = choose|j: int| 2 <= j < s@.len() - 1 && #[trigger] s@[j] == '.' && s@[0] == 'v'
                        && digits_in(s@, 1, j) && digits_in(s@, j + 1, s@.len() as int);
                    if k > j {
                        assert(is_digit(s@[k as int]));
                    }
                    if k < j {
                        assert(is_digit(s@[j]));
                    }
                }
            }
            if k >= 2 && k + 1 < n && s[k] == '.' && s[0] == 'v' && all_digits(s, 1, k) {
                true
            } else {
                false
            }
        },
    }
}

/// Checks `is_prefixed_number(s, prefix)`.
fn prefixed_number_chars(s: &[char], prefix: &[char]) -> (b: bool)
    ensures
        b == is_prefixed_number(s@, prefix@),
{
    s.len() > prefix.len() && starts_with(s, prefix) && all_digits(s, prefix.len(), s.len())
}

/// Benchmark version tag, e.g. `v0.1`.
#[derive(Debug, Clone, PartialEq, Eq)]
pub struct BenchmarkVersion {
    value: String,
}

impl View for BenchmarkVersion {
    type V = Seq<char>;

    closed spec fn view(&self) -> Seq<char> {
        self.value@
    }
}

impl BenchmarkVersion {
    /// Validates `value` against the benchmark-version pattern.
    pub fn new(value: &str) -> (res: Result<Self, CoreError>)
        ensures
            match res {
                Ok(v) => is_benchmark_version(value@) && v@ == value@,
                Err(e) => !is_benchmark_version(value@) && e.is_invalid_version_for(value@)
                    && e.message_spec() == "invalid "@ + "benchmark"@ + " version: expected pattern '"@
                        + "v[0-9]+\\.[0-9]+"@ + "', got '"@ + value@ + "'"@,
            },
    {
        let s = chars_of(value);
        if benchmark_version_chars(&s) {
            Ok(BenchmarkVersion { value: value.to_owned() })
        } else {
            Err(CoreError::InvalidVersion { kind: "benchmark", pattern: "v[0-9]+\\.[0-9]+", value: value.to_owned() })
        }
    }

    /// Canonical string view.
    pub fn as_str(&self) -> (s: &str)
        ensures
            s@ == self@,
    {
        self.value.as_str()
    }
}

/// Schema contract version, e.g. `schema_v1`.
#[derive(Debug, Clone, PartialEq, Eq)]
pub struct SchemaVersion {
    value: String,
}

impl View for SchemaVersion {
    type V = Seq<char>;

    closed spec fn view(&self) -> Seq<char> {
        self.value@
    }
}

impl SchemaVersion {
    /// Validates `value` against the schema-version pattern.
    pub fn new(value: &str) -> (res: Result<Self, CoreError>)
        ensures
            match res {
                Ok(v) => is_prefixed_number(value@, schema_prefix()) && v@ == value@,
                Err(e) => !is_prefixed_number(value@, schema_prefix()) && e.is_invalid_version_for(value@),
            },
    {
        let s = chars_of(value);
        let p = vec!['s', 'c', 'h', 'e', 'm', 'a', '_', 'v'];
        assert(p@ == schema_prefix());
        if prefixed_number_chars(&s, &p) {
            Ok(SchemaVersion { value: value.to_owned() })
        } else {
            Err(CoreError::InvalidVersion { kind: "schema", pattern: "schema_v[0-9]+", value: value.to_owned() })
        }
    }

    /// Canonical string view.
    pub fn as_str(&self) -> (s: &str)
        ensures
            s@ == self@,
    {
        self.value.as_str()
    }
}

/// Metrics contract version, e.g. `metrics_v1`.
#[derive(Debug, Clone, PartialEq, Eq)]
pub struct MetricsVersion {
    value: String,
}

impl View for MetricsVersion {
    type V = Seq<char>;

    closed spec fn view(&self) -> Seq<char> {
        self.value@
    }
}

impl MetricsVersion {
    /// Validates `value` against the metrics-version pattern.
    pub fn new(value: &str) -> (res: Result<Self, CoreError>)
        ensures
            match res {
                Ok(v) => is_prefixed_number(value@, metrics_prefix()) && v@ == value@,
                Err(e) => !is_prefixed_number(value@, metrics_prefix()) && e.is_invalid_version_for(value@),
            },
    {
        let s = chars_of(value);
        let p = vec!['m', 'e', 't', 'r', 'i', 'c', 's', '_', 'v'];
        assert(p@ == metrics_prefix());
        if prefixed_number_chars(&s, &p) {
            Ok(MetricsVersion { value: value.to_owned() })
        } else {
            Err(CoreError::InvalidVersion { kind: "metrics", pattern: "metrics_v[0-9]+", value: value.to_owned() })
        }
    }

    /// Canonical string view.
    pub fn as_str(&self) -> (s: &str)
        ensures
            s@ == self@,
    {
        self.value.as_str()
    }
}

/// Annotation rubric version, e.g. `rubric_v1`.
#[derive(Debug, Clone, PartialEq, Eq)]
pub struct RubricVersion {
    value: String,
}

impl View for RubricVersion {
    type V = Seq<char>;

    closed spec fn view(&self) -> Seq<char> {
        self.value@
    }
}

impl RubricVersion {
    /// Validates `value` against the rubric-version pattern.
    pub fn new(value: &str) -> (res: Result<Self, CoreError>)
        ensures
            match res {
                Ok(v) => is_prefixed_number(value@, rubric_prefix()) && v@ == value@,
                Err(e) => !is_prefixed_number(value@, rubric_prefix()) && e.is_invalid_version_for(value@),
            },
    {
        let s = chars_of(value);
        let p = vec!['r', 'u', 'b', 'r', 'i', 'c', '_', 'v'];
        assert(p@ == rubric_prefix());
        if prefixed_number_chars(&s, &p) {
            Ok(RubricVersion { value: value.to_owned() })
        } else {
            Err(CoreError::InvalidVersion { kind: "rubric", pattern: "rubric_v[0-9]+", value: value.to_owned() })
        }
    }

    /// Canonical string view.
    pub fn as_str(&self) -> (s: &str)
        ensures
            s@ == self@,
    {
        self.value.as_str()
    }
}

} // verus!
