use fleet_dedup::file_types::FileTypes;
use fleet_dedup::fingerprint::{
    compute_all, compute_fingerprint, hamming_distance, pack_features, Fingerprint, RepoFacts,
};
use fleet_dedup::manifest::Manifests;
use fleet_dedup::walk::WalkEntry;

/// What is read of a repository that holds `files`.
fn repo_facts(name: &str, files: &[(&str, &str)]) -> RepoFacts {
    let entries: Vec<WalkEntry> = files
        .iter()
        .map(|(path, content)| WalkEntry {
            components: path.split('/').map(|part| part.as_bytes().to_vec()).collect(),
            is_file: true,
            content: Some(content.as_bytes().to_vec()),
        })
        .collect();
    let text_of = |wanted: &str| {
        files.iter().find(|(path, _)| *path == wanted).map(|(_, content)| content.to_string())
    };
    RepoFacts {
        name: name.to_string(),
        path: format!("/repos/{}", name),
        entries: Some(entries.clone()),
        manifests: Manifests {
            cargo_toml: text_of("Cargo.toml"),
            package_json: text_of("package.json"),
            requirements_txt: text_of("requirements.txt"),
            pyproject_toml: text_of("pyproject.toml"),
        },
        test_entries: Some(entries),
        readme_md: text_of("README.md").is_some(),
        readme: text_of("README").is_some(),
        readme_md_lower: text_of("readme.md").is_some(),
        commits: None,
    }
}

fn fingerprint_of(name: &str, files: &[(&str, &str)]) -> Fingerprint {
    compute_fingerprint(repo_facts(name, files)).unwrap()
}

fn sample_fingerprint() -> Fingerprint {
    Fingerprint {
        repo_name: "test".to_string(),
        repo_path: "/tmp/test".to_string(),
        content_hash: "abc".to_string(),
        dependencies: vec!["clap".to_string(), "serde".to_string()],
        test_count: 5,
        source_file_count: 10,
        has_readme: true,
        commit_count: 42,
        file_types: FileTypes::new().with("rs".to_string(), 5),
    }
}

#[test]
fn test_content_hash_identical() {
    let files = [("src/main.rs", "fn main() {}"), ("README.md", "# hello")];
    let fp1 = fingerprint_of("repo1", &files);
    let fp2 = fingerprint_of("repo2", &files);
    assert_eq!(fp1.content_hash, fp2.content_hash);
}

#[test]
fn test_content_hash_different() {
    let fp1 = fingerprint_of("repo1", &[("src/main.rs", "fn main() { println!(\"a\"); }")]);
    let fp2 = fingerprint_of("repo2", &[("src/main.rs", "fn main() { println!(\"b\"); }")]);
    assert_ne!(fp1.content_hash, fp2.content_hash);
}

#[test]
fn test_parse_cargo_dependencies() {
    let fp = fingerprint_of(
        "test-repo",
        &[(
            "Cargo.toml",
            "[package]\nname = \"test\"\n\n[dependencies]\nclap = \"4\"\nserde = \"1\"\n",
        )],
    );
    assert!(fp.dependencies.contains(&"clap".to_string()));
    assert!(fp.dependencies.contains(&"serde".to_string()));
    assert_eq!(fp.dependencies, vec!["clap", "serde"]);
}

#[test]
fn test_parse_npm_dependencies() {
    let fp = fingerprint_of(
        "test-repo",
        &[
            ("package.json", "{\n  \"dependencies\": {\n    \"express\": \"^4.0.0\"\n  }\n}\n"),
            ("src/index.js", "console.log('hello');\n"),
        ],
    );
    assert!(fp.dependencies.contains(&"express".to_string()));
    assert_eq!(fp.dependencies, vec!["express"]);
}

#[test]
fn test_count_rust_tests() {
    let fp = fingerprint_of(
        "test-repo",
        &[(
            "src/lib.rs",
            "#[cfg(test)]\nmod tests {\n    #[test]\n    fn test_add() {}\n    #[test]\n    fn test_sub() {}\n}\n",
        )],
    );
    assert!(fp.test_count >= 2);
    assert_eq!(fp.test_count, 2);
}

#[test]
fn test_has_readme() {
    let fp_with = fingerprint_of("with", &[("README.md", "# hi")]);
    let fp_without = fingerprint_of("without", &[]);
    assert!(fp_with.has_readme);
    assert!(!fp_without.has_readme);
}

#[test]
fn test_file_types() {
    let fp = fingerprint_of(
        "test-repo",
        &[
            ("src/main.rs", "fn main() {}"),
            ("src/lib.rs", "// lib"),
            ("src/utils.rs", "// utils"),
        ],
    );
    assert_eq!(fp.file_types.get("rs").unwrap_or(0), 3);
}

#[test]
fn test_hamming_distance_zero() {
    let a = [0u8; 32];
    let b = [0u8; 32];
    assert_eq!(hamming_distance(&a, &b), 0);
}

#[test]
fn test_hamming_distance_nonzero() {
    let a = [0u8; 32];
    let b = [0xFF; 32];
    assert_eq!(hamming_distance(&a, &b), 256);
}

#[test]
fn test_hamming_distance_partial() {
    let a = [0b00000000u8; 32];
    let mut b = [0u8; 32];
    b[0] = 0b00000001;
    assert_eq!(hamming_distance(&a, &b), 1);
}

#[test]
fn test_feature_bits_deterministic() {
    let fp = sample_fingerprint();
    let bits1 = fp.to_feature_bits();
    let bits2 = fp.to_feature_bits();
    assert_eq!(bits1, bits2);
}

#[test]
fn feature_bits_are_packed() {
    let bits = sample_fingerprint().to_feature_bits();
    let deps = blake3::hash(b"clap,serde");
    let types = blake3::hash(b"rs:5");
    assert_eq!(bits[..12], [5, 0, 0, 0, 10, 0, 0, 0, 2, 0, 0, 0]);
    assert_eq!(bits[12..16], deps.as_bytes()[..4]);
    assert_eq!(bits[16..20], types.as_bytes()[..4]);
    assert_eq!(bits[20..], [0xFF, 42, 0, 0, 0, 0, 0, 0, 0, 0, 0, 0]);
}

#[test]
fn feature_bits_of_large_counts() {
    let mut fp = sample_fingerprint();
    fp.test_count = 0x0403_0201;
    fp.source_file_count = 0xFFFE_FDFC;
    fp.commit_count = 0xAABB_CCDD;
    fp.has_readme = false;
    fp.dependencies = (0..0x1_0203).map(|i| format!("{:06}", i)).collect();
    let bits = fp.to_feature_bits();
    assert_eq!(bits[..12], [1, 2, 3, 4, 0xFC, 0xFD, 0xFE, 0xFF, 0x03, 0x02, 0, 0]);
    assert_eq!(bits[20..24], [0, 0xDD, 0xCC, 0xBB]);
}

#[test]
fn features_are_packed_from_given_digests() {
    let mut deps = [7u8; 32];
    deps[0] = 1;
    let bits = pack_features(5, 10, 2, &deps, &[9u8; 32], true, 42);
    assert_eq!(
        bits,
        [
            5, 0, 0, 0, 10, 0, 0, 0, 2, 0, 0, 0, 1, 7, 7, 7, 9, 9, 9, 9, 0xFF, 42, 0, 0, 0, 0, 0,
            0, 0, 0, 0, 0
        ]
    );
}

#[test]
fn feature_bits_without_dependencies_or_files() {
    let mut fp = sample_fingerprint();
    fp.dependencies = vec![];
    fp.file_types = FileTypes::new();
    let bits = fp.to_feature_bits();
    assert_eq!(bits[8..10], [0, 0]);
    assert_eq!(bits[12..16], [0xaf, 0x13, 0x49, 0xb9]);
    assert_eq!(bits[16..20], [0xaf, 0x13, 0x49, 0xb9]);
}

#[test]
fn file_types_enter_the_feature_bits_in_order() {
    let mut a = sample_fingerprint();
    a.file_types = FileTypes::new().with("rs".to_string(), 5).with("md".to_string(), 12);
    let mut b = sample_fingerprint();
    b.file_types = FileTypes::new()
        .with("md".to_string(), 1)
        .with("rs".to_string(), 5)
        .with("md".to_string(), 12);
    assert_eq!(a.to_feature_bits(), b.to_feature_bits());
    assert_eq!(a.to_feature_bits()[16..20], blake3::hash(b"md:12,rs:5").as_bytes()[..4]);
    assert_eq!(a.file_types.entries(), &vec![("md".to_string(), 12), ("rs".to_string(), 5)]);
    assert_eq!(a.file_types.get("toml"), None);
}

#[test]
fn a_whole_fingerprint() {
    let mut facts = repo_facts(
        "tool",
        &[
            ("src/main.rs", "fn main() {}\n"),
            ("src/a/z.py", "def test_z():\n    pass\n"),
            ("src/a.js", "it('works', () => {})\n"),
            ("dist/out.js", "test('built')\n"),
            ("target/debug/x.rs", "#[test]\n"),
            (".hidden/y.rs", "#[test]\n"),
            ("notes.md", "x"),
            ("LICENSE", "MIT"),
            ("readme.md", "hi"),
            ("requirements.txt", "# c\nrequests>=2.0\n-r dev.txt\nflask == 1\nnumpy\n"),
        ],
    );
    facts.commits = Some(b" 17\n".to_vec());
    let fp = compute_fingerprint(facts).unwrap();
    assert_eq!(fp.repo_name, "tool");
    assert_eq!(fp.repo_path, "/repos/tool");
    let mut hasher = blake3::Hasher::new();
    hasher.update(b"src/a/z.py");
    hasher.update(b"def test_z():\n    pass\n");
    hasher.update(b"src/a.js");
    hasher.update(b"it('works', () => {})\n");
    hasher.update(b"src/main.rs");
    hasher.update(b"fn main() {}\n");
    assert_eq!(fp.content_hash, hex::encode(hasher.finalize().as_bytes()));
    assert_eq!(fp.dependencies, vec!["flask", "numpy", "requests"]);
    assert_eq!(fp.test_count, 3);
    assert_eq!(fp.source_file_count, 3);
    assert!(fp.has_readme);
    assert_eq!(fp.commit_count, 17);
    let types: Vec<(&str, u32)> =
        fp.file_types.entries().iter().map(|(ext, n)| (ext.as_str(), *n)).collect();
    assert_eq!(types, vec![("js", 1), ("md", 2), ("py", 1), ("rs", 1), ("txt", 1)]);
}

#[test]
fn a_repo_that_no_walk_enters_has_no_files() {
    let files = [("src/main.rs", "#[test]\nfn a() {}\n")];
    assert_eq!(fingerprint_of("tool", &files).test_count, 1);
    for name in ["target", "node_modules"] {
        let fp = fingerprint_of(name, &files);
        assert_eq!((fp.test_count, fp.source_file_count), (0, 0));
        assert_eq!(fp.file_types.get("rs"), None);
    }
    let fp = fingerprint_of("build", &files);
    assert_eq!((fp.test_count, fp.source_file_count), (1, 0));
}

#[test]
fn failed_walks_count_nothing() {
    let mut facts = repo_facts("broken", &[("a.rs", "#[test]\n")]);
    facts.entries = None;
    facts.test_entries = None;
    let fp = compute_fingerprint(facts).unwrap();
    assert_eq!(fp.test_count, 0);
    assert_eq!(fp.source_file_count, 0);
    assert_eq!(fp.commit_count, 0);
    assert!(fp.file_types.entries().is_empty());
    assert_eq!(
        fp.content_hash,
        "af1349b9f5f9a1a6a0404dea36dcc9499bcb25c9adc112b7cc9a93cae41f3262"
    );
}

#[test]
fn every_name_of_a_readme_counts() {
    assert!(fingerprint_of("a", &[("README", "x")]).has_readme);
    assert!(fingerprint_of("a", &[("readme.md", "x")]).has_readme);
    assert!(!fingerprint_of("a", &[("readme", "x")]).has_readme);
}

#[test]
fn all_fingerprints_in_order() {
    let fps = compute_all(vec![
        repo_facts("b", &[("b.rs", "b")]),
        repo_facts("a", &[("a.rs", "a"), ("README", "")]),
    ])
    .unwrap();
    assert_eq!(fps.len(), 2);
    assert_eq!(fps[0].repo_name, "b");
    assert_eq!(fps[1].repo_name, "a");
    assert_eq!(fps[0].content_hash, fingerprint_of("b", &[("b.rs", "b")]).content_hash);
    assert!(fps[1].has_readme && !fps[0].has_readme);
    assert!(compute_all(vec![]).unwrap().is_empty());
}

#[test]
fn facts_determine_the_fingerprint() {
    let files = [
        ("x.rs", "fn test_x() {}"),
        ("Cargo.toml", "[dependencies]\nserde = 1\nanyhow = 1\n"),
    ];
    let a = fingerprint_of("same", &files);
    let b = fingerprint_of("same", &files);
    assert_eq!(format!("{:?}", a), format!("{:?}", b));
    assert_eq!(a.to_feature_bits(), b.to_feature_bits());
}

#[test]
fn distance_is_a_metric() {
    let a = sample_fingerprint().to_feature_bits();
    let mut other = sample_fingerprint();
    other.test_count = 2;
    other.commit_count = 1_000_000;
    let b = other.to_feature_bits();
    let c = [0x5Au8; 32];
    assert_eq!(hamming_distance(&a, &a), 0);
    assert!(hamming_distance(&a, &b) > 0);
    assert_eq!(hamming_distance(&a, &b), hamming_distance(&b, &a));
    assert!(hamming_distance(&a, &c) <= hamming_distance(&a, &b) + hamming_distance(&b, &c));
    assert!(hamming_distance(&a, &c) <= 256);
}

#[test]
fn distance_of_unequal_lengths_counts_the_common_part() {
    assert_eq!(hamming_distance(&[0xFF, 0xFF], &[0x0F]), 4);
    assert_eq!(hamming_distance(&[], &[1, 2, 3]), 0);
}
