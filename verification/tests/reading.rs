use fleet_dedup::counts::{commits_in, count_commits, count_tests};
use fleet_dedup::manifest::{parse_dependencies, Manifests};
use fleet_dedup::order::sort_stable;
use fleet_dedup::scanner::hidden;
use fleet_dedup::text::{
    contains, cut_before, decimal_of, ends_with, is_word, join, split_lines, starts_with, trim,
    unquote,
};
use fleet_dedup::walk::{
    collect_source_files, compute_content_hash, compute_file_types, enters_source_walk,
    enters_test_walk, extension_of, gather_bytes, reached_by_source_walk, reached_by_test_walk,
    source_extension, text_of_path, WalkEntry, MAX_DEPTH,
};

fn path_parts(path: &str) -> Vec<Vec<u8>> {
    path.split('/').map(|c| c.as_bytes().to_vec()).collect()
}

fn file_at(path: &str, content: Option<&[u8]>) -> WalkEntry {
    WalkEntry {
        components: path_parts(path),
        is_file: true,
        content: content.map(|c| c.to_vec()),
    }
}

fn no_manifests() -> Manifests {
    Manifests { cargo_toml: None, package_json: None, requirements_txt: None, pyproject_toml: None }
}

fn cargo(text: &str) -> Vec<String> {
    parse_dependencies(&Manifests { cargo_toml: Some(text.to_string()), ..no_manifests() })
}

fn npm(text: &str) -> Vec<String> {
    parse_dependencies(&Manifests { package_json: Some(text.to_string()), ..no_manifests() })
}

fn python(text: &str) -> Vec<String> {
    parse_dependencies(&Manifests { requirements_txt: Some(text.to_string()), ..no_manifests() })
}

fn project(text: &str) -> Vec<String> {
    parse_dependencies(&Manifests { pyproject_toml: Some(text.to_string()), ..no_manifests() })
}

fn text_at(path: &str, text: &str) -> WalkEntry {
    file_at(path, Some(text.as_bytes()))
}

fn tests_of(text: &str) -> u32 {
    count_tests("repo", &[text_at("src/x", text)]).unwrap()
}

fn in_chars(s: &str) -> Vec<char> {
    s.chars().collect()
}

#[test]
fn entries_of_cargo_tables() {
    assert_eq!(
        cargo("[package]\nname = \"test\"\n\n[dependencies]\nclap = \"4\"\nserde = \"1\"\n"),
        vec!["clap", "serde"]
    );
    assert_eq!(
        cargo("[dependencies]\n  anyhow  =  \"1\"  \r\n# tokio = 1\n\n[features]\nfull = []\n"),
        vec!["anyhow"]
    );
    assert!(cargo("clap = 1\n[package]\nversion = \"1\"\n[bin]\nname = \"x\"\n").is_empty());
    assert!(cargo("").is_empty());
    // Braces behind the equals sign do no harm, and a dot ends the name.
    assert_eq!(
        cargo("[dependencies]\nserde = { version = \"1\" }\nlog.workspace = true\n"),
        vec!["log", "serde"]
    );
    // Nothing that looks like code.
    assert!(cargo("[dependencies]\nuse a::b\nmy fn x\nsome pub y = 1\nf(x) = 1\ng{ = 2\n")
        .is_empty());
    assert!(cargo("[dependencies]\n9lives = 1\n_x = 1\n= 1\n").is_empty());
}

#[test]
fn cargo_tables_of_every_kind() {
    assert_eq!(
        cargo(
            "[dev-dependencies]\na = 1\n[build-dependencies]\nb = 1\n\
             [target.'cfg(unix)'.dependencies] # here\nc = 1\n\
             [target.x86_64-pc-windows-gnu.dev-dependencies]\nd = 1\n\
             [ workspace.dependencies ]\ne = 1\n[profile.release]\nlto = true\n\
             [package.metadata.x.dependencies]\nf = 1\n[patch.crates-io]\ng = 1\n"
        ),
        vec!["a", "b", "c", "d", "e"]
    );
    // A dependency with a table of its own.
    assert_eq!(
        cargo(
            "[dependencies.serde]\nversion = \"1\"\nfeatures = []\n\
             [target.'cfg(windows)'.dependencies.\"winapi\"]\nversion = \"0.3\"\n"
        ),
        vec!["serde", "winapi"]
    );
}

#[test]
fn names_may_begin_with_any_letter() {
    assert_eq!(
        cargo("[dependencies]\n\u{e9}clair = 1\n\u{4e2d} = 2\n"),
        vec!["\u{e9}clair", "\u{4e2d}"]
    );
    assert!(cargo("[dependencies]\n\u{2603} = 1\n\u{b2} = 2\n").is_empty());
}

#[test]
fn keys_of_npm_objects() {
    assert_eq!(
        npm("{\n  \"dependencies\": {\n    \"express\": \"^4.0.0\"\n  }\n}\n"),
        vec!["express"]
    );
    assert_eq!(
        npm("{\"name\":\"x\",\"scripts\":{\"test\":\"jest\"},\
             \"devDependencies\":{\"jest\":\"1\",\"@scope/pkg\" : \"2\",\"a\":\"3\",\"\":\"4\"},\
             \"peerDependencies\":{\"react\":\">=1\"},\"optionalDependencies\":{\"fsevents\":\"*\"},\
             \"version\":\"1\"}"),
        vec!["@scope/pkg", "fsevents", "jest", "react"]
    );
    // Only what the outermost object holds, and only its keys.
    assert_eq!(
        npm("{\"pnpm\": {\"dependencies\": {\"deep\": \"1\"}}, \"keywords\": [\"dependencies\"],\
             \"dependencies\": {\"left-pad\": \"1:2\", \"obj\": {\"inner\": 1}, \"q\\\"r\": \"{\"}}"),
        vec!["left-pad", "obj", "q\\\"r"]
    );
    // The length is counted in bytes.
    assert_eq!(npm("{\"dependencies\": {\"\u{e9}\": 1}}"), vec!["\u{e9}"]);
    assert!(npm("").is_empty());
    assert!(npm("\"dependencies\": {\"x1\": 1}").is_empty());
    assert!(npm("{\"dependencies\": {\"unended").is_empty());
    assert!(npm("}}{{\"dependencies\": 1").is_empty());
}

#[test]
fn lines_of_requirements() {
    assert_eq!(
        python("requests>=2\nflask==1\n# no\n-r x\n[tool]\n\nnumpy ; x\na~=1\nb!=2\nc<3\n  d  \n"),
        vec!["a", "b", "c", "d", "flask", "numpy", "requests"]
    );
    assert_eq!(
        python("uvicorn[standard]==0.1\npip @ https://x\nx(>=1)\ny\t# c\nz,\n"),
        vec!["pip", "uvicorn", "x", "y", "z"]
    );
    assert!(python("=x\n<y\n").is_empty());
}

#[test]
fn lists_of_pyproject() {
    assert_eq!(
        project(
            "[build-system]\nrequires = [\"hatchling>=1\", 'wheel']\nbuild-backend = \"hatchling\"\n\
             [project]\nname = \"demo\"\nversion = \"1\"\n\
             keywords = [\"not\", \"these\"]\n\
             dependencies = [\n  \"requests[socks]>=2\",  # \"comment\"\n  # \"gone\",\n\
             \n  'flask', \"a ; python_version < '3'\",\n]\n\
             requires-python = \">=3\"\n\
             [project.optional-dependencies]\ndev = [\"pytest\"]\ndocs = [\n\"sphinx\"]\n\
             [dependency-groups]\nlint = [\"ruff\", {include-group = \"dev\"}, \"black\"]\n\
             [tool.ruff]\nselect = [\"E\"]\n"
        ),
        vec!["a", "black", "flask", "hatchling", "pytest", "requests", "ruff", "sphinx", "wheel"]
    );
    assert_eq!(project("project.dependencies = [\"x\"]\n"), vec!["x"]);
    assert!(project("[project]\ndependencies = \"x\"\ndynamic = [\"dependencies\"]\n").is_empty());
    assert_eq!(project("[project]\ndependencies = [\"x\", \"unended\n\"y\", \"\"\n"), vec!["x", "y"]);
}

#[test]
fn tables_of_pyproject() {
    assert_eq!(
        project(
            "[tool.poetry]\nname = \"demo\"\n[tool.poetry.dependencies]\npython = \"^3.8\"\n\
             django = \"^4\"\nredis = {version = \"1\", optional = true}\n\
             [tool.poetry.dev-dependencies]\nmypy = \"1\"\n\
             [tool.poetry.group.test.dependencies]\ntox = \"*\"\n\
             [tool.poetry.dependencies.celery]\nversion = \"5\"\n\
             [tool.poetry.scripts]\nrun = \"demo:main\"\n"
        ),
        vec!["celery", "django", "mypy", "redis", "tox"]
    );
}

#[test]
fn dependencies_of_all_manifests_are_sorted_and_occur_once() {
    let deps = parse_dependencies(&Manifests {
        cargo_toml: Some("[dependencies]\nserde = 1\nclap = 4\nserde = 2\n".to_string()),
        package_json: Some("{\"dependencies\": {\"serde\": 1, \"Zod\": 1}}".to_string()),
        requirements_txt: Some("clap\n".to_string()),
        pyproject_toml: Some("[project]\ndependencies = [\"attrs\", \"clap\"]\n".to_string()),
    });
    assert_eq!(deps, vec!["Zod", "attrs", "clap", "serde"]);
    assert!(parse_dependencies(&no_manifests()).is_empty());
}

#[test]
fn marks_of_tests() {
    assert_eq!(tests_of("#[test]"), 1);
    assert_eq!(tests_of("    #[tokio::test] // x"), 1);
    assert_eq!(tests_of("fn test_a() {}\nasync fn test_b() {}\n"), 2);
    assert_eq!(tests_of("test(\"a\")\nit('b')\ndescribe('c')\n"), 2);
    assert_eq!(tests_of("class TestX:\n    def test_x():\n    def test_y():\n"), 2);
    assert_eq!(tests_of("func TestX(t *testing.T) {"), 1);
    assert_eq!(tests_of("pub fn test_a() {}\nx.test(1)\nclass test:\n"), 0);
    assert_eq!(tests_of("it('has #[test]')\r\n"), 1);
    assert_eq!(tests_of(""), 0);
}

#[test]
fn a_rust_test_counts_once() {
    assert_eq!(
        tests_of(
            "#[cfg(test)]\nmod tests {\n    #[test]\n    fn test_add() {}\n    #[test]\n    fn test_sub() {}\n}\n"
        ),
        2
    );
    assert_eq!(tests_of("#[test] fn test_a() {}\nfn test_b() {}\n"), 2);
    assert_eq!(
        tests_of("#[test]\n#[should_panic]\n// a fn of some kind\n\nfn test_a() {}\nfn test_b() {}\n"),
        2
    );
    assert_eq!(tests_of("#[tokio::test]\n#[test]\nasync fn test_a() {}\n"), 1);
    assert_eq!(tests_of("#[test]\nfn helper() {}\nfn test_b() {}\n"), 2);
    // What a file awaits, the next does not answer.
    let files = [text_at("a.rs", "#[test]"), text_at("b.rs", "fn test_b() {}")];
    assert_eq!(count_tests("repo", &files), Some(2));
}

#[test]
fn tests_add_up() {
    let a = text_at("a.rs", "#[test]\nfn test_a() {}\nfn test_b() {}\n");
    let b = text_at("dist/b.js", "it('b')\n");
    let c = text_at("target/c.rs", "#[test]\n");
    assert_eq!(count_tests("repo", &[]), Some(0));
    assert_eq!(count_tests("repo", &[a.clone()]), Some(2));
    assert_eq!(count_tests("repo", &[b.clone()]), Some(1));
    assert_eq!(count_tests("repo", &[a.clone(), b.clone(), c]), Some(3));
    assert_eq!(count_tests("node_modules", &[a, b]), Some(0));
}

#[test]
fn only_files_of_text_are_read_for_tests() {
    let mut dir = text_at("a.rs", "#[test]");
    dir.is_file = false;
    let unread = file_at("b.rs", None);
    let bytes = file_at("c.rs", Some(b"#[test]\n\xff"));
    assert_eq!(count_tests("repo", &[dir, unread, bytes, text_at("d.rs", "#[test]")]), Some(1));
}

#[test]
fn numbers_of_commits() {
    assert_eq!(count_commits(None), 0);
    assert_eq!(count_commits(Some(b"17\n")), 17);
    assert_eq!(count_commits(Some(b"17\xff")), 0);
    assert_eq!(commits_in("  +42 \t"), 42);
    assert_eq!(commits_in("4294967295"), u32::MAX);
    assert_eq!(commits_in("4294967296"), 0);
    assert_eq!(commits_in("99999999999999999999"), 0);
    assert_eq!(commits_in("007"), 7);
    for bad in ["", "+", "-1", "1 2", "x", "1x", "\u{0661}"] {
        assert_eq!(commits_in(bad), 0, "{}", bad);
    }
}

#[test]
fn names_that_walks_enter() {
    for name in ["src", "a.b", "targets", "tar", ""] {
        let bytes = name.as_bytes();
        assert!(enters_source_walk(bytes) && enters_test_walk(bytes) && !hidden(name));
    }
    for name in [".git", ".", "target", "node_modules"] {
        assert!(!enters_source_walk(name.as_bytes()) && !enters_test_walk(name.as_bytes()));
    }
    for name in ["dist", "build"] {
        assert!(!enters_source_walk(name.as_bytes()) && enters_test_walk(name.as_bytes()));
    }
    assert!(hidden(".git"));
}

#[test]
fn paths_that_walks_come_to() {
    assert_eq!(MAX_DEPTH, 5);
    let both = |root: &str, path: &str| {
        let parts = path_parts(path);
        (reached_by_source_walk(root, &parts), reached_by_test_walk(root, &parts))
    };
    assert_eq!(both("repo", "a.rs"), (true, true));
    assert_eq!(both("repo", "1/2/3/4/a.rs"), (true, true));
    assert_eq!(both("repo", "1/2/3/4/5/a.rs"), (false, false));
    assert_eq!(both("repo", "a/target/b/x.rs"), (false, false));
    assert_eq!(both("repo", "a/.b/x.rs"), (false, false));
    assert_eq!(both("repo", "a/.x.rs"), (false, false));
    assert_eq!(both("repo", "a/build/x.rs"), (false, true));
    assert_eq!(both("dist", "x.rs"), (false, true));
    assert_eq!(both("node_modules", "x.rs"), (false, false));
    assert!(reached_by_source_walk("repo", &[vec![0xff, 0xfe]]));
}

#[test]
fn extensions_of_source_files() {
    for ext in ["rs", "ts", "js", "py", "go", "java", "c", "cpp", "h", "hpp", "rb", "sh"] {
        assert!(source_extension(ext), "{}", ext);
    }
    for ext in ["", "RS", "md", "toml", "cc", "tsx"] {
        assert!(!source_extension(ext), "{}", ext);
    }
}

#[test]
fn extensions_of_paths() {
    let cases = [
        ("main.rs", Some("rs")),
        ("src/a.tar.gz", Some("gz")),
        ("a.b/LICENSE", None),
        ("src/.hidden", None),
        ("src/.hidden.rs", Some("rs")),
        ("trailing.", Some("")),
        ("..", None),
        ("...", Some("")),
        ("x.\u{e9}", Some("\u{e9}")),
    ];
    for (path, ext) in cases {
        assert_eq!(extension_of(&path_parts(path)).as_deref(), ext, "{}", path);
        assert_eq!(std::path::Path::new(path).extension().and_then(|e| e.to_str()), ext);
    }
    assert_eq!(extension_of(&[]), None);
    assert_eq!(extension_of(&[b"x.\xff".to_vec()]), None);
}

#[test]
fn paths_as_text() {
    assert_eq!(text_of_path(&[]), "");
    assert_eq!(text_of_path(&path_parts("a")), "a");
    assert_eq!(text_of_path(&path_parts("a/\u{e9}/c.rs")), "a/\u{e9}/c.rs");
    assert_eq!(text_of_path(&[b"a\xff".to_vec(), b"b".to_vec()]), "a\u{fffd}/b");
}

#[test]
fn source_files_in_the_order_of_their_paths() {
    let mut odd = file_at("dir.rs", None);
    odd.is_file = false;
    let files = collect_source_files("repo", vec![
        file_at("src/b.rs", None),
        file_at("target/deep/c.rs", None),
        file_at("1/2/3/4/5/6/7/8/c.rs", None),
        file_at(".ci/c.rs", None),
        file_at("src/.c.rs", None),
        odd,
        file_at("src-x/a.rs", None),
        file_at("README", None),
        file_at("src/a/z.c", None),
        file_at("src/a.go", None),
        file_at("notes.md", None),
    ]);
    let paths: Vec<String> = files.iter().map(|f| text_of_path(&f.components)).collect();
    assert_eq!(paths, vec!["src/a/z.c", "src/a.go", "src/b.rs", "src-x/a.rs"]);
}

#[test]
fn hashes_of_files() {
    assert_eq!(
        compute_content_hash(&[]),
        "af1349b9f5f9a1a6a0404dea36dcc9499bcb25c9adc112b7cc9a93cae41f3262"
    );
    // The hash of "abc".
    let abc = "6437b3ac38465133ffb63b75273a8db548c558465d79db03fd359c6cd5bd9d85";
    assert_eq!(abc.len(), 64);
    assert_eq!(compute_content_hash(&[file_at("a", Some(b"bc"))]), abc);
    assert_eq!(compute_content_hash(&[file_at("a", None), file_at("b", Some(b"c"))]), abc);
    assert_eq!(gather_bytes(&[file_at("\u{e9}", Some(&[0, 255]))]), vec![0xC3, 0xA9, 0, 255]);
}

#[test]
fn one_hash_for_all_files_or_one_file_at_a_time() {
    let files = [file_at("x.rs", Some(&[7u8; 5000])), file_at("y.rs", Some(b"end"))];
    let mut hasher = blake3::Hasher::new();
    for f in &files {
        hasher.update(text_of_path(&f.components).as_bytes());
        hasher.update(f.content.as_ref().unwrap());
    }
    assert_eq!(compute_content_hash(&files), hex::encode(hasher.finalize().as_bytes()));
}

#[test]
fn the_order_of_a_walk_makes_no_difference() {
    let a = file_at("a.rs", Some(b"1"));
    let b = file_at("b/c.rs", Some(b"2"));
    let c = file_at("b/d.py", Some(b"3"));
    let one = collect_source_files("repo", vec![a.clone(), b.clone(), c.clone()]);
    let two = collect_source_files("repo", vec![c, a, b]);
    assert_eq!(compute_content_hash(&one), compute_content_hash(&two));
}

#[test]
fn equal_files_have_equal_hashes() {
    let a = file_at("a.rs", Some(b"1"));
    let mut b = file_at("a.rs", Some(b"1"));
    b.is_file = false;
    assert_eq!(compute_content_hash(&[a.clone()]), compute_content_hash(&[b]));
    assert_ne!(compute_content_hash(&[a]), compute_content_hash(&[file_at("a.rs", Some(b"2"))]));
}

#[test]
fn counts_of_file_types() {
    let mut dir = file_at("x.rs", None);
    dir.is_file = false;
    let types = compute_file_types("repo", &[
        file_at("a.rs", None),
        file_at("b.md", None),
        file_at("c.rs", None),
        dir,
        file_at("LICENSE", None),
        file_at("d.RS", None),
        file_at("build/e.rs", None),
        file_at("1/2/3/4/5/f.rs", None),
    ])
    .unwrap();
    assert_eq!(
        types.entries(),
        &vec![("RS".to_string(), 1), ("md".to_string(), 1), ("rs".to_string(), 2)]
    );
    assert_eq!(types.get("rs"), Some(2));
    assert_eq!(types.get("py"), None);
    assert!(compute_file_types("repo", &[]).unwrap().entries().is_empty());
}

#[test]
fn sorting_sorts_and_keeps_every_item() {
    let v: Vec<String> = ["b", "a", "c", "a", ""].iter().map(|s| s.to_string()).collect();
    assert_eq!(sort_stable(v), vec!["", "a", "a", "b", "c"]);
    assert!(sort_stable(Vec::<String>::new()).is_empty());
}

#[test]
fn operations_on_text() {
    assert_eq!(trim(&in_chars(" \t\u{a0}\u{3000}x y\u{2003}\r\n")), in_chars("x y"));
    assert!(trim(&in_chars(" \u{85} ")).is_empty());
    assert_eq!(unquote(&in_chars("\"\"a\"b\"")), in_chars("a\"b"));
    let text = in_chars("a\r\nb\n\nc\n");
    assert_eq!(
        split_lines(&text),
        vec![in_chars("a\r"), in_chars("b"), in_chars(""), in_chars("c"), in_chars("")]
    );
    assert_eq!(split_lines(&[]), vec![in_chars("")]);
    assert_eq!(cut_before(&in_chars("ab=c"), &['=', ';']), in_chars("ab"));
    assert_eq!(cut_before(&in_chars("abc"), &['=']), in_chars("abc"));
    assert!(starts_with(&in_chars("abc"), &in_chars("ab")));
    assert!(!starts_with(&in_chars("a"), &in_chars("ab")));
    assert!(ends_with(&in_chars("abc"), &in_chars("bc")));
    assert!(!ends_with(&in_chars("c"), &in_chars("bc")));
    assert!(is_word(&in_chars("abc"), "abc"));
    assert!(!is_word(&in_chars("abc"), "ab"));
    assert!(contains(&in_chars("xaab"), &in_chars("ab")));
    assert!(!contains(&in_chars("xa b"), &in_chars("ab")));
    assert!(contains(&[], &[]));
    assert_eq!(decimal_of(0), "0");
    assert_eq!(decimal_of(u64::MAX), "18446744073709551615");
    assert_eq!(join(&["a".to_string(), "".to_string(), "b".to_string()], ", "), "a, , b");
    assert_eq!(join(&[], ","), "");
}
