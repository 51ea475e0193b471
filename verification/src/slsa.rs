use vstd::prelude::*;
use crate::clock::{now_rfc3339, rfc3339_text};

verus! {

/// A string-to-string entry of a small map (digests, parameters, environment).
#[derive(Debug)]
pub struct KeyValue {
    pub key: String,
    pub value: String,
}

/// The number of distinct keys in `s`.
pub open spec fn distinct_keys(s: Seq<KeyValue>) -> nat
    decreases s.len(),
{
    if s.len() == 0 {
        0
    } else if s.drop_last().map_values(|e: KeyValue| e.key@).contains(s.last().key@) {
        distinct_keys(s.drop_last())
    } else {
        distinct_keys(s.drop_last()) + 1
    }
}

/// The entry list holds exactly the pairs of `expected`, in that order.
pub open spec fn entries_are(s: Seq<KeyValue>, expected: Seq<(Seq<char>, Seq<char>)>) -> bool {
    &&& s.len() == expected.len()
    &&& forall|i: int| 0 <= i < s.len() ==> (#[trigger] s[i]).key@ == expected[i].0 && s[i].value@ == expected[i].1
}

pub struct SlsaSubject {
    pub name: String,
    pub digest: Vec<KeyValue>,
}

pub struct SlsaMaterial {
    pub uri: String,
    pub digest: Vec<KeyValue>,
}

pub struct SlsaBuilder {
    pub id: String,
    pub version: String,
    pub builder_dependencies: Vec<SlsaMaterial>,
}

pub struct SlsaInvocation {
    pub config_source: Vec<KeyValue>,
    pub parameters: Vec<KeyValue>,
    pub environment: Vec<KeyValue>,
}

pub struct BuildStep {
    pub command: Vec<String>,
    pub env: Vec<KeyValue>,
    pub working_dir: String,
}

pub struct BuildConfig {
    pub steps: Vec<BuildStep>,
}

pub struct Completeness {
    pub parameters: bool,
    pub environment: bool,
    pub materials: bool,
}

pub struct ProvenanceMetadata {
    pub build_started_on: String,
    pub build_finished_on: String,
    pub completeness: Completeness,
    pub reproducible: bool,
}

pub struct SlsaPredicate {
    pub builder: SlsaBuilder,
    pub build_type: String,
    pub invocation: SlsaInvocation,
    pub materials: Vec<SlsaMaterial>,
    pub build_config: Option<BuildConfig>,
    pub metadata: Option<ProvenanceMetadata>,
}

/// An in-toto statement carrying SLSA provenance.
pub struct SlsaProvenance {
    pub doc_type: String,
    pub predicate_type: String,
    pub subject: Vec<SlsaSubject>,
    pub predicate: SlsaPredicate,
}

/// The requirements of one SLSA level.
pub struct SlsaLevel {
    pub level: u8,
    pub requirements: Vec<String>,
}

/// The outcome of checking provenance against SLSA level 3.
pub struct SlsaVerificationResult {
    pub compliant_level: u8,
    pub is_slsa_l3_compliant: bool,
    pub issues: Vec<String>,
}

/// The metadata claims completeness of parameters, environment and materials.
pub open spec fn complete(m: ProvenanceMetadata) -> bool {
    m.completeness.parameters && m.completeness.environment && m.completeness.materials
}

/// The issues found checking `p` against SLSA level 3, in check order.
pub open spec fn l3_issues(p: SlsaProvenance) -> Seq<Seq<char>> {
    let a: Seq<Seq<char>> = if p.predicate.builder.id@.len() == 0 {
        seq!["builder.id is required for SLSA L3"@]
    } else {
        Seq::empty()
    };
    let b: Seq<Seq<char>> = if p.predicate.build_config is None {
        seq!["build_config is required for SLSA L3"@]
    } else {
        Seq::empty()
    };
    let c: Seq<Seq<char>> = match p.predicate.metadata {
        Some(m) => if complete(m) {
            Seq::empty()
        } else {
            seq!["completeness must be true for all fields in SLSA L3"@]
        },
        None => seq!["metadata is required for SLSA L3"@],
    };
    let d = subject_issues(p.subject@);
    let e: Seq<Seq<char>> = if p.predicate.materials@.len() == 0 {
        seq!["materials should not be empty for SLSA L3"@]
    } else {
        Seq::empty()
    };
    a + b + c + d + e
}

/// One issue per subject with fewer than two distinct digests, in subject order.
pub open spec fn subject_issues(s: Seq<SlsaSubject>) -> Seq<Seq<char>>
    decreases s.len(),
{
    if s.len() == 0 {
        Seq::empty()
    } else if distinct_keys(s.last().digest@) < 2 {
        subject_issues(s.drop_last()).push(
            "subject "@ + s.last().name@ + " should have at least 2 digests for SLSA L3"@,
        )
    } else {
        subject_issues(s.drop_last())
    }
}

/// All entries of `d` share one key (or there is at most one entry).
pub open spec fn one_digest_kind(d: Seq<KeyValue>) -> bool {
    forall|a: int, b: int| 0 <= a < d.len() && 0 <= b < d.len() ==> (#[trigger] d[a]).key@ == (#[trigger] d[b]).key@
}

/// The issue reported for a subject named `name` with fewer than two digest kinds.
pub open spec fn digest_issue(name: Seq<char>) -> Seq<char> {
    "subject "@ + name + " should have at least 2 digests for SLSA L3"@
}

proof fn lemma_one_digest_kind(d: Seq<KeyValue>)
    requires
        one_digest_kind(d),
    ensures
        distinct_keys(d) <= 1,
    decreases d.len(),
{
    if d.len() > 0 {
        let t = d.drop_last();
        assert forall|a: int, b: int| 0 <= a < t.len() && 0 <= b < t.len() implies (#[trigger] t[a]).key@ == (
        #[trigger] t[b]).key@ by {
            assert(t[a] == d[a] && t[b] == d[b]);
        }
        lemma_one_digest_kind(t);
        if t.len() > 0 {
            assert(t.map_values(|e: KeyValue| e.key@)[0] == d.last().key@) by {
                assert(t[0] == d[0]);
                assert(d[0].key@ == d[d.len() - 1].key@);
            }
            assert(t.map_values(|e: KeyValue| e.key@).contains(d.last().key@));
        }
    }
}

proof fn lemma_subject_issue(s: Seq<SlsaSubject>, i: int)
    requires
        0 <= i < s.len(),
        distinct_keys(s[i].digest@) < 2,
    ensures
        subject_issues(s).contains(digest_issue(s[i].name@)),
    decreases s.len(),
{
    if i < s.len() - 1 {
        let t = s.drop_last();
        assert(t[i] == s[i]);
        lemma_subject_issue(t, i);
        let u = subject_issues(t);
        if distinct_keys(s.last().digest@) < 2 {
            let j = choose|j: int| 0 <= j < u.len() && u[j] == digest_issue(s[i].name@);
            assert(subject_issues(s)[j] == u[j]);
        }
    } else {
        let u = subject_issues(s.drop_last());
        assert(subject_issues(s)[u.len() as int] == digest_issue(s[i].name@));
    }
}

/// Every subject with a single kind of digest gets its issue; with no subject issue every
/// subject has two digests of different kinds.
proof fn lemma_l3_digests(p: SlsaProvenance)
    ensures
        forall|i: int|
            0 <= i < p.subject@.len() && one_digest_kind((#[trigger] p.subject@[i]).digest@) ==> subject_issues(
                p.subject@,
            ).contains(digest_issue(p.subject@[i].name@)) && l3_issues(p).contains(digest_issue(p.subject@[i].name@)),
        subject_issues(p.subject@).len() == 0 ==> forall|i: int|
            0 <= i < p.subject@.len() ==> !one_digest_kind((#[trigger] p.subject@[i]).digest@),
{
    let s = p.subject@;
    assert forall|i: int|
        0 <= i < s.len() && one_digest_kind((#[trigger] s[i]).digest@) implies subject_issues(s).contains(
            digest_issue(s[i].name@),
        ) && l3_issues(p).contains(digest_issue(s[i].name@)) by {
        lemma_one_digest_kind(s[i].digest@);
        lemma_subject_issue(s, i);
        let d = subject_issues(s);
        let j = choose|j: int| 0 <= j < d.len() && d[j] == digest_issue(s[i].name@);
        let a: Seq<Seq<char>> = if p.predicate.builder.id@.len() == 0 {
            seq!["builder.id is required for SLSA L3"@]
        } else {
            Seq::empty()
        };
        let b: Seq<Seq<char>> = if p.predicate.build_config is None {
            seq!["build_config is required for SLSA L3"@]
        } else {
            Seq::empty()
        };
        let c: Seq<Seq<char>> = match p.predicate.metadata {
            Some(m) => if complete(m) {
                Seq::empty()
            } else {
                seq!["completeness must be true for all fields in SLSA L3"@]
            },
            None => seq!["metadata is required for SLSA L3"@],
        };
        let e: Seq<Seq<char>> = if p.predicate.materials@.len() == 0 {
            seq!["materials should not be empty for SLSA L3"@]
        } else {
            Seq::empty()
        };
        assert(l3_issues(p) == a + b + c + d + e);
        assert(l3_issues(p)[a.len() + b.len() + c.len() + j] == d[j]);
    }
    if subject_issues(s).len() == 0 {
        assert forall|i: int| 0 <= i < s.len() implies !one_digest_kind((#[trigger] s[i]).digest@) by {
            if one_digest_kind(s[i].digest@) {
                lemma_one_digest_kind(s[i].digest@);
                lemma_subject_issue(s, i);
            }
        }
    }
}

/// The SLSA level `p` reaches: 3, lowered to 0 without a builder id, to 1 without metadata
/// or materials, to 2 without a build configuration, with incomplete metadata or with a
/// subject of fewer than two distinct digests.
pub open spec fn l3_level(p: SlsaProvenance) -> u8 {
    if p.predicate.builder.id@.len() == 0 {
        0
    } else if p.predicate.metadata is None || p.predicate.materials@.len() == 0 {
        1
    } else if p.predicate.build_config is None || !complete(p.predicate.metadata->0) || subject_issues(
        p.subject@,
    ).len() > 0 {
        2
    } else {
        3
    }
}

fn kv(key: &str, value: &str) -> (r: KeyValue)
    ensures
        r.key@ == key@,
        r.value@ == value@,
{
    KeyValue { key: key.to_string(), value: value.to_string() }
}

/// Counts the distinct keys of `s`.
fn count_distinct_keys(s: &Vec<KeyValue>) -> (r: usize)
    ensures
        r == distinct_keys(s@),
{
    let mut n: usize = 0;
    let mut i: usize = 0;
    while i < s.len()
        invariant
            i <= s@.len(),
            n == distinct_keys(s@.take(i as int)),
            n <= i,
        decreases s@.len() - i,
    {
        let ghost t = s@.take(i + 1);
        proof {
            assert(t.drop_last() =~= s@.take(i as int));
            assert(t.last() == s@[i as int]);
        }
        let mut seen = false;
        let mut j: usize = 0;
        while j < i
            invariant
                j <= i,
                i < s@.len(),
                seen == exists|k: int| 0 <= k < j && (#[trigger] s@[k]).key@ == s@[i as int].key@,
            decreases i - j,
        {
            if s[j].key == s[i].key {
                seen = true;
            }
            j = j + 1;
        }
        proof {
            let keys = s@.take(i as int).map_values(|e: KeyValue| e.key@);
            if seen {
                let k = choose|k: int| 0 <= k < i && (#[trigger] s@[k]).key@ == s@[i as int].key@;
                assert(keys[k] == s@[i as int].key@);
            } else {
                if keys.contains(s@[i as int].key@) {
                    let k = choose|k: int| 0 <= k < keys.len() && keys[k] == s@[i as int].key@;
                    assert(s@[k].key@ == s@[i as int].key@);
                }
            }
        }
        if !seen {
            n = n + 1;
        }
        i = i + 1;
    }
    proof {
        assert(s@.take(i as int) =~= s@);
    }
    n
}


/// The requirements listed for SLSA level `level` (levels other than 1 to 3 are "unknown", level 0).
pub open spec fn slsa_requirements(level: u8) -> (u8, Seq<Seq<char>>) {
    if level == 1 {
        (1, seq!["Build process must be documented"@, "Provenance must exist"@])
    } else if level == 2 {
        (2, seq!["Requirements of L1"@, "Builder must be versioned"@, "Provenance must be authenticated"@])
    } else if level == 3 {
        (
            3,
            seq![
                "Requirements of L2"@,
                "Build must be hermetic"@,
                "Non-falsifiable provenance"@,
                "Completeness: parameters, environment, materials"@,
                "Reproducible builds"@,
            ],
        )
    } else {
        (0, seq!["Unknown level"@])
    }
}

/// The fields every generated statement shares: the in-toto statement and SLSA v1
/// predicate types, the task build type, one subject named `name`, and metadata that
/// claims completeness and reproducibility.
pub open spec fn generated_common(r: SlsaProvenance, name: Seq<char>, version: Seq<char>) -> bool {
    &&& r.doc_type@ == "https://in-toto.io/Statement/v1"@
    &&& r.predicate_type@ == "https://slsa.dev/provenance/v1"@
    &&& r.subject@.len() == 1
    &&& r.subject@[0].name@ == name
    &&& r.predicate.builder.version@ == version
    &&& r.predicate.build_type@ == "https://fish.build/tasks/v1"@
    &&& r.predicate.metadata matches Some(m) && complete(m) && m.reproducible
}

/// `r` is what `generate_v1` returns for these arguments (timestamps aside).
pub open spec fn v1_generated(r: SlsaProvenance, name: Seq<char>, blake3: Seq<char>, version: Seq<char>) -> bool {
    &&& generated_common(r, name, version)
    &&& entries_are(r.subject@[0].digest@, seq![("blake3"@, blake3)])
    &&& r.predicate.builder.id@ == "https://github.com/requla11/fish"@
    &&& r.predicate.builder.builder_dependencies@.len() == 0
    &&& entries_are(r.predicate.invocation.config_source@, seq![("manifest"@, "fish.toml"@)])
    &&& r.predicate.invocation.parameters@.len() == 0
    &&& r.predicate.invocation.environment@.len() == 0
    &&& r.predicate.materials@.len() == 0
    &&& r.predicate.build_config is None
}

/// `r` is what `generate_slsa_l3` returns for these arguments (timestamps aside):
/// `materials` gives (uri, digest algorithm, digest) triples.
pub open spec fn l3_generated(
    r: SlsaProvenance,
    name: Seq<char>,
    blake3: Seq<char>,
    sha256: Seq<char>,
    version: Seq<char>,
    materials: Seq<(String, String, String)>,
    build_steps: Vec<BuildStep>,
    parameters: Vec<KeyValue>,
) -> bool {
    &&& generated_common(r, name, version)
    &&& entries_are(r.subject@[0].digest@, seq![("blake3"@, blake3), ("sha256"@, sha256)])
    &&& r.predicate.builder.id@ == "https://github.com/requla11/fish/builder@v0.4.0"@
    &&& r.predicate.builder.builder_dependencies@.len() == 1
    &&& r.predicate.builder.builder_dependencies@[0].uri@ == "https://github.com/requla11/fish"@
    &&& entries_are(r.predicate.builder.builder_dependencies@[0].digest@, seq![("sha256"@, "builder_dep_hash"@)])
    &&& entries_are(r.predicate.invocation.config_source@, seq![("manifest"@, "fish.toml"@), ("entryPoint"@, name)])
    &&& r.predicate.invocation.parameters == parameters
    &&& entries_are(
        r.predicate.invocation.environment@,
        seq![("FISH_VERSION"@, version), ("BUILDER_ID"@, "https://github.com/requla11/fish"@)],
    )
    &&& r.predicate.materials@.len() == materials.len()
    &&& forall|i: int|
        0 <= i < materials.len() ==> (#[trigger] r.predicate.materials@[i]).uri@ == materials[i].0@
            && entries_are(r.predicate.materials@[i].digest@, seq![(materials[i].1@, materials[i].2@)])
    &&& r.predicate.build_config matches Some(c) && c.steps == build_steps
}

/// Generates SLSA provenance and checks it against level 3.
pub struct SlsaGenerator;

impl SlsaGenerator {
    /// Checks `provenance` against SLSA level 3: the level reached (see `l3_level`), the
    /// issues found (see `l3_issues`), and compliance, which holds exactly when the level
    /// is 3 and nothing was found.
    pub fn verify_slsa_l3_compliance(provenance: &SlsaProvenance) -> (r: SlsaVerificationResult)
        ensures
            r.issues@.map_values(|x: String| x@) == l3_issues(*provenance),
            r.compliant_level == l3_level(*provenance),
            r.is_slsa_l3_compliant == (l3_level(*provenance) >= 3 && l3_issues(*provenance).len() == 0),
            forall|i: int|
                0 <= i < provenance.subject@.len() && one_digest_kind(
                    (#[trigger] provenance.subject@[i]).digest@,
                ) ==> !r.is_slsa_l3_compliant && r.compliant_level <= 2 && r.issues@.map_values(
                    |x: String| x@,
                ).contains(digest_issue(provenance.subject@[i].name@)),
            provenance.predicate.builder.id@.len() == 0 ==> r.compliant_level == 0,
            provenance.predicate.builder.id@.len() > 0 && (provenance.predicate.metadata is None
                || provenance.predicate.materials@.len() == 0) ==> r.compliant_level == 1,
            r.compliant_level <= 3,
            r.is_slsa_l3_compliant ==> {
                &&& r.compliant_level == 3
                &&& r.issues@.len() == 0
                &&& provenance.predicate.builder.id@.len() > 0
                &&& provenance.predicate.build_config is Some
                &&& provenance.predicate.metadata matches Some(m) && m.completeness.parameters
                    && m.completeness.environment && m.completeness.materials
                &&& provenance.predicate.materials@.len() > 0
                &&& forall|i: int|
                    0 <= i < provenance.subject@.len() ==> !one_digest_kind((#[trigger] provenance.subject@[i]).digest@)
            },
    {
        proof {
            lemma_l3_digests(*provenance);
        }
        let ghost p = *provenance;
        let mut issues: Vec<String> = Vec::new();
        let mut level: u8 = 3;
        if provenance.predicate.builder.id.as_str().unicode_len() == 0 {
            issues.push("builder.id is required for SLSA L3".to_string());
            level = 0;
        }
        let ghost va = issues@.map_values(|x: String| x@);
        proof {
            if p.predicate.builder.id@.len() == 0 {
                assert(va =~= seq!["builder.id is required for SLSA L3"@]);
            } else {
                assert(va =~= Seq::<Seq<char>>::empty());
            }
        }
        if provenance.predicate.build_config.is_none() {
            issues.push("build_config is required for SLSA L3".to_string());
            if level > 2 {
                level = 2;
            }
        }
        let ghost vb = issues@.map_values(|x: String| x@);
        proof {
            if p.predicate.build_config is None {
                assert(vb =~= va.push("build_config is required for SLSA L3"@));
            } else {
                assert(vb =~= va);
            }
        }
        match &provenance.predicate.metadata {
            Some(metadata) => {
                if !metadata.completeness.parameters || !metadata.completeness.environment
                    || !metadata.completeness.materials {
                    issues.push("completeness must be true for all fields in SLSA L3".to_string());
                    if level > 2 {
                        level = 2;
                    }
                }
            },
            None => {
                issues.push("metadata is required for SLSA L3".to_string());
                if level > 1 {
                    level = 1;
                }
            },
        }
        proof {
            let vc = issues@.map_values(|x: String| x@);
            match p.predicate.metadata {
                Some(m) => {
                    if complete(m) {
                        assert(vc =~= vb);
                    } else {
                        assert(vc =~= vb.push("completeness must be true for all fields in SLSA L3"@));
                    }
                },
                None => {
                    assert(vc =~= vb.push("metadata is required for SLSA L3"@));
                },
            }
        }
        let ghost before_subjects = issues@.map_values(|x: String| x@);
        let mut i: usize = 0;
        while i < provenance.subject.len()
            invariant
                i <= provenance.subject@.len(),
                issues@.map_values(|x: String| x@) == before_subjects + subject_issues(provenance.subject@.take(i as int)),
                level <= 3,
                subject_issues(provenance.subject@.take(i as int)).len() > 0 ==> level <= 2,
                provenance.predicate.builder.id@.len() == 0 ==> level == 0,
                provenance.predicate.metadata is None ==> level <= 1,
                (provenance.predicate.build_config is None || (provenance.predicate.metadata is Some && !complete(provenance.predicate.metadata->0))) ==> level <= 2,
                level >= 2 || provenance.predicate.builder.id@.len() == 0 || provenance.predicate.metadata is None,
                level >= 1 || provenance.predicate.builder.id@.len() == 0,
                level == 3 || provenance.predicate.builder.id@.len() == 0 || provenance.predicate.metadata is None
                    || provenance.predicate.build_config is None || !complete(provenance.predicate.metadata->0)
                    || subject_issues(provenance.subject@.take(i as int)).len() > 0,
            decreases provenance.subject@.len() - i,
        {
            let subj = &provenance.subject[i];
            proof {
                assert(provenance.subject@.take(i + 1).drop_last() =~= provenance.subject@.take(i as int));
                assert(provenance.subject@.take(i + 1).last() == provenance.subject@[i as int]);
            }
            if count_distinct_keys(&subj.digest) < 2 {
                let ghost prev = issues@.map_values(|x: String| x@);
                let mut msg = "subject ".to_string();
                msg.append(subj.name.as_str());
                msg.append(" should have at least 2 digests for SLSA L3");
                issues.push(msg);
                proof {
                    assert(issues@.map_values(|x: String| x@) =~= prev.push(msg@));
                }
                if level > 2 {
                    level = 2;
                }
            }
            i = i + 1;
        }
        proof {
            assert(provenance.subject@.take(i as int) =~= provenance.subject@);
        }
        let ghost vd = issues@.map_values(|x: String| x@);
        if provenance.predicate.materials.len() == 0 {
            issues.push("materials should not be empty for SLSA L3".to_string());
            proof {
                assert(issues@.map_values(|x: String| x@) =~= vd.push("materials should not be empty for SLSA L3"@));
            }
            if level > 1 {
                level = 1;
            }
        }
        proof {
            assert(issues@.map_values(|x: String| x@) =~= l3_issues(p));
        }
        let compliant = level >= 3 && issues.len() == 0;
        SlsaVerificationResult { compliant_level: level, is_slsa_l3_compliant: compliant, issues }
    }

    /// The requirements of SLSA level `level` (1 to 3; any other level is "unknown").
    pub fn get_slsa_requirements(level: u8) -> (r: SlsaLevel)
        ensures
            r.level == slsa_requirements(level).0,
            r.requirements@.map_values(|x: String| x@) == slsa_requirements(level).1,
    {
        let mut req: Vec<String> = Vec::new();
        let lv: u8;
        if level == 1 {
            lv = 1;
            req.push("Build process must be documented".to_string());
            req.push("Provenance must exist".to_string());
        } else if level == 2 {
            lv = 2;
            req.push("Requirements of L1".to_string());
            req.push("Builder must be versioned".to_string());
            req.push("Provenance must be authenticated".to_string());
        } else if level == 3 {
            lv = 3;
            req.push("Requirements of L2".to_string());
            req.push("Build must be hermetic".to_string());
            req.push("Non-falsifiable provenance".to_string());
            req.push("Completeness: parameters, environment, materials".to_string());
            req.push("Reproducible builds".to_string());
        } else {
            lv = 0;
            req.push("Unknown level".to_string());
        }
        proof {
            assert(req@.map_values(|x: String| x@) =~= slsa_requirements(level).1);
        }
        SlsaLevel { level: lv, requirements: req }
    }

    /// Basic provenance for one artifact identified by its blake3 digest; the build start
    /// and finish times are read from the clock (see `generate_v1_at`).
    pub fn generate_v1(artifact_name: &str, blake3_hash: &str, builder_version: &str) -> (r: SlsaProvenance)
        ensures
            v1_generated(r, artifact_name@, blake3_hash@, builder_version@),
            r.predicate.metadata matches Some(md) && (exists|s: i64, n: u32| md.build_started_on@ == rfc3339_text(s, n))
                && (exists|s: i64, n: u32| md.build_finished_on@ == rfc3339_text(s, n)),
    {
        let started = now_rfc3339();
        let finished = now_rfc3339();
        Self::generate_v1_at(artifact_name, blake3_hash, builder_version, started, finished)
    }

    /// Basic provenance for one artifact identified by its blake3 digest, built between
    /// the instants `started` and `finished` (RFC 3339 text).
    pub fn generate_v1_at(
        artifact_name: &str,
        blake3_hash: &str,
        builder_version: &str,
        started: String,
        finished: String,
    ) -> (r: SlsaProvenance)
        ensures
            v1_generated(r, artifact_name@, blake3_hash@, builder_version@),
            r.predicate.metadata matches Some(md) && md.build_started_on@ == started@
                && md.build_finished_on@ == finished@,
    {
        let mut digest: Vec<KeyValue> = Vec::new();
        digest.push(kv("blake3", blake3_hash));
        let mut subject: Vec<SlsaSubject> = Vec::new();
        subject.push(SlsaSubject { name: artifact_name.to_string(), digest });
        let mut config: Vec<KeyValue> = Vec::new();
        config.push(kv("manifest", "fish.toml"));
        let r = SlsaProvenance {
            doc_type: "https://in-toto.io/Statement/v1".to_string(),
            predicate_type: "https://slsa.dev/provenance/v1".to_string(),
            subject,
            predicate: SlsaPredicate {
                builder: SlsaBuilder {
                    id: "https://github.com/requla11/fish".to_string(),
                    version: builder_version.to_string(),
                    builder_dependencies: Vec::new(),
                },
                build_type: "https://fish.build/tasks/v1".to_string(),
                invocation: SlsaInvocation {
                    config_source: config,
                    parameters: Vec::new(),
                    environment: Vec::new(),
                },
                materials: Vec::new(),
                build_config: None,
                metadata: Some(ProvenanceMetadata {
                    build_started_on: started,
                    build_finished_on: finished,
                    completeness: Completeness { parameters: true, environment: true, materials: true },
                    reproducible: true,
                }),
            },
        };
        r
    }

    /// SLSA level 3 provenance: blake3 and sha256 digests of the artifact, the given
    /// materials (uri, digest algorithm, digest), build steps and parameters, the builder's
    /// version and identity in the environment; start and finish times read from the clock (see
    /// `generate_slsa_l3_at`).
    pub fn generate_slsa_l3(
        artifact_name: &str,
        blake3_hash: &str,
        sha256_hash: &str,
        builder_version: &str,
        materials: Vec<(String, String, String)>,
        build_steps: Vec<BuildStep>,
        parameters: Vec<KeyValue>,
    ) -> (r: SlsaProvenance)
        ensures
            l3_generated(
                r,
                artifact_name@,
                blake3_hash@,
                sha256_hash@,
                builder_version@,
                materials@,
                build_steps,
                parameters,
            ),
            r.predicate.metadata matches Some(md) && (exists|s: i64, n: u32| md.build_started_on@ == rfc3339_text(s, n))
                && (exists|s: i64, n: u32| md.build_finished_on@ == rfc3339_text(s, n)),
    {
        let started = now_rfc3339();
        let finished = now_rfc3339();
        Self::generate_slsa_l3_at(
            artifact_name,
            blake3_hash,
            sha256_hash,
            builder_version,
            materials,
            build_steps,
            parameters,
            started,
            finished,
        )
    }

    /// SLSA level 3 provenance: blake3 and sha256 digests of the artifact, the given
    /// materials (uri, digest algorithm, digest), build steps and parameters, the builder's
    /// version and identity in the environment, built between the instants `started` and
    /// `finished` (RFC 3339 text).
    pub fn generate_slsa_l3_at(
        artifact_name: &str,
        blake3_hash: &str,
        sha256_hash: &str,
        builder_version: &str,
        materials: Vec<(String, String, String)>,
        build_steps: Vec<BuildStep>,
        parameters: Vec<KeyValue>,
        started: String,
        finished: String,
    ) -> (r: SlsaProvenance)
        ensures
            l3_generated(
                r,
                artifact_name@,
                blake3_hash@,
                sha256_hash@,
                builder_version@,
                materials@,
                build_steps,
                parameters,
            ),
            r.predicate.metadata matches Some(md) && md.build_started_on@ == started@
                && md.build_finished_on@ == finished@,
    {
        let mut digest: Vec<KeyValue> = Vec::new();
        digest.push(kv("blake3", blake3_hash));
        digest.push(kv("sha256", sha256_hash));
        let mut subject: Vec<SlsaSubject> = Vec::new();
        subject.push(SlsaSubject { name: artifact_name.to_string(), digest });
        let mut config: Vec<KeyValue> = Vec::new();
        config.push(kv("manifest", "fish.toml"));
        config.push(kv("entryPoint", artifact_name));
        let mut env: Vec<KeyValue> = Vec::new();
        env.push(kv("FISH_VERSION", builder_version));
        env.push(kv("BUILDER_ID", "https://github.com/requla11/fish"));
        let mut slsa_materials: Vec<SlsaMaterial> = Vec::new();
        let mut i: usize = 0;
        while i < materials.len()
            invariant
                i <= materials@.len(),
                slsa_materials@.len() == i,
                forall|j: int|
                    0 <= j < i ==> (#[trigger] slsa_materials@[j]).uri@ == materials@[j].0@
                        && entries_are(slsa_materials@[j].digest@, seq![(materials@[j].1@, materials@[j].2@)]),
            decreases materials@.len() - i,
        {
            let mut d: Vec<KeyValue> = Vec::new();
            d.push(KeyValue { key: materials[i].1.clone(), value: materials[i].2.clone() });
            slsa_materials.push(SlsaMaterial { uri: materials[i].0.clone(), digest: d });
            i = i + 1;
        }
        let mut dep_digest: Vec<KeyValue> = Vec::new();
        dep_digest.push(kv("sha256", "builder_dep_hash"));
        let mut deps: Vec<SlsaMaterial> = Vec::new();
        deps.push(SlsaMaterial { uri: "https://github.com/requla11/fish".to_string(), digest: dep_digest });
        SlsaProvenance {
            doc_type: "https://in-toto.io/Statement/v1".to_string(),
            predicate_type: "https://slsa.dev/provenance/v1".to_string(),
            subject,
            predicate: SlsaPredicate {
                builder: SlsaBuilder {
                    id: "https://github.com/requla11/fish/builder@v0.4.0".to_string(),
                    version: builder_version.to_string(),
                    builder_dependencies: deps,
                },
                build_type: "https://fish.build/tasks/v1".to_string(),
                invocation: SlsaInvocation { config_source: config, parameters, environment: env },
                materials: slsa_materials,
                build_config: Some(BuildConfig { steps: build_steps }),
                metadata: Some(ProvenanceMetadata {
                    build_started_on: started,
                    build_finished_on: finished,
                    completeness: Completeness { parameters: true, environment: true, materials: true },
                    reproducible: true,
                }),
            },
        }
    }
}


} // verus!

verus! {

proof fn lemma_two_distinct_keys(s: Seq<KeyValue>, a: Seq<char>, b: Seq<char>, x: Seq<char>, y: Seq<char>)
    requires
        entries_are(s, seq![(a, x), (b, y)]),
        a != b,
    ensures
        distinct_keys(s) == 2,
{
    let t = s.drop_last();
    assert(t.drop_last().len() == 0);
    assert(distinct_keys(t.drop_last()) == 0);
    assert(t.drop_last().map_values(|e: KeyValue| e.key@) =~= Seq::<Seq<char>>::empty());
    assert(distinct_keys(t) == 1);
    assert(t.map_values(|e: KeyValue| e.key@) =~= seq![a]);
    assert(distinct_keys(s) == 2);
}

/// Level 3 provenance as generated passes the level 3 check exactly when it lists at least
/// one material.
pub proof fn law_generated_l3_compliant_iff_materials(
    r: SlsaProvenance,
    name: Seq<char>,
    blake3: Seq<char>,
    sha256: Seq<char>,
    version: Seq<char>,
    materials: Seq<(String, String, String)>,
    build_steps: Vec<BuildStep>,
    parameters: Vec<KeyValue>,
)
    requires
        l3_generated(r, name, blake3, sha256, version, materials, build_steps, parameters),
    ensures
        (l3_level(r) == 3 && l3_issues(r).len() == 0) <==> materials.len() > 0,
{
    reveal_strlit("https://github.com/requla11/fish/builder@v0.4.0");
    reveal_strlit("blake3");
    reveal_strlit("sha256");
    assert(r.predicate.builder.id@.len() > 0);
    assert("blake3"@ != "sha256"@) by {
        assert("blake3"@[0] != "sha256"@[0]);
    }
    lemma_two_distinct_keys(r.subject@[0].digest@, "blake3"@, "sha256"@, blake3, sha256);
    let s = r.subject@;
    assert(s.drop_last().len() == 0);
    assert(subject_issues(s.drop_last()) =~= Seq::<Seq<char>>::empty());
    assert(subject_issues(s).len() == 0);
}

/// Basic (v1) provenance never passes the level 3 check: it reaches level 1 and reports
/// the missing build configuration and materials.
pub proof fn law_generated_v1_not_l3(r: SlsaProvenance, name: Seq<char>, blake3: Seq<char>, version: Seq<char>)
    requires
        v1_generated(r, name, blake3, version),
    ensures
        l3_level(r) == 1,
        l3_issues(r).len() >= 2,
{
    reveal_strlit("https://github.com/requla11/fish");
    assert(r.predicate.builder.id@.len() > 0);
}

/// Provenance one of whose subjects carries a single kind of digest (or none) is never
/// level 3: it reaches at most level 2 and the check reports that subject.
pub proof fn law_single_digest_kind_not_l3(p: SlsaProvenance, i: int)
    requires
        0 <= i < p.subject@.len(),
        one_digest_kind(p.subject@[i].digest@),
    ensures
        l3_level(p) <= 2,
        l3_issues(p).contains(digest_issue(p.subject@[i].name@)),
{
    lemma_l3_digests(p);
    assert(one_digest_kind(p.subject@[i].digest@));
}

} // verus!
