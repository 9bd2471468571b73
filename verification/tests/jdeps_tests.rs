use sentrux_core::jdeps::JdepsStep;
use sentrux_core::JdepsDotRun;
use sentrux_core::{
    auto_detect_class_dirs, build_fqn_index, class_dir_candidates, extract_quoted,
    map_deps_to_edges, parse_dot_deps, parse_jdeps_verbose_output, resolve_fqn,
    resolve_jdeps_edges, FileNode, FqnIndex,
};

fn java_file(path: &str) -> FileNode {
    file_with_lang(path, "java")
}

fn file_with_lang(path: &str, lang: &str) -> FileNode {
    FileNode {
        path: path.to_string(),
        name: path.rsplit('/').next().unwrap_or("").to_string(),
        is_dir: false,
        lines: 1,
        logic: 1,
        comments: 0,
        blanks: 0,
        funcs: 0,
        gs: String::new(),
        lang: lang.to_string(),
    }
}

fn pair(a: &str, b: &str) -> (String, String) {
    (a.to_string(), b.to_string())
}

#[test]
fn parse_dot_deps_basic() {
    let dot = r#"
digraph "example.jar" {
    "com.example.Foo" -> "com.example.Bar";
    "com.example.Foo" -> "java.lang.String";
    "com.example.Bar" -> "com.example.Baz";
}
"#;
    let mut deps = Vec::new();
    parse_dot_deps(dot, &mut deps);
    assert_eq!(deps.len(), 2); // java.lang.String filtered out
    assert_eq!(deps[0], ("com.example.Foo".to_string(), "com.example.Bar".to_string()));
    assert_eq!(deps[1], ("com.example.Bar".to_string(), "com.example.Baz".to_string()));
}

#[test]
fn extract_quoted_basic() {
    assert_eq!(extract_quoted(r#"   "hello.world"   "#), Some("hello.world"));
    assert_eq!(extract_quoted("no quotes"), None);
}

#[test]
fn build_fqn_index_maps_correctly() {
    let file = FileNode {
        path: "src/main/java/com/example/Foo.java".to_string(),
        name: "Foo.java".to_string(),
        is_dir: false,
        lines: 100,
        logic: 80,
        comments: 10,
        blanks: 10,
        funcs: 5,
        gs: String::new(),
        lang: "java".to_string(),
    };
    let files = vec![&file];
    let root = "/project";
    let index = build_fqn_index(root, &files);
    assert!(index.contains_key("com.example.Foo"));
    assert!(index.contains_key("com.example"));
}

#[test]
fn resolve_inner_class() {
    let mut index = FqnIndex::new();
    index.insert("com.example.Foo".to_string(), "src/main/java/com/example/Foo.java".to_string());
    assert_eq!(
        resolve_fqn("com.example.Foo$Inner", &index),
        Some("src/main/java/com/example/Foo.java".to_string())
    );
}

#[test]
fn parse_dot_deps_appends_and_skips_malformed_lines() {
    let dot = "\"a.A\" -> \"b.B\";\r\n\"a.A\" -> \"b.B\" -> \"c.C\";\nno arrow here\n\"a.A\" -> unquoted;\n  \"x.X\"->\"jdk.internal.Y\"\n\"x.X\" -> \"javax.Z\"\n\"x.X\" -> \"javafx.W\"";
    let mut deps = vec![pair("pre", "existing")];
    parse_dot_deps(dot, &mut deps);
    assert_eq!(deps, vec![pair("pre", "existing"), pair("a.A", "b.B"), pair("x.X", "javafx.W")]);
}

#[test]
fn parse_dot_deps_empty_input() {
    let mut deps = Vec::new();
    parse_dot_deps("", &mut deps);
    assert!(deps.is_empty());
}

#[test]
fn parse_verbose_output_takes_first_word_of_target() {
    let out = "   com.example.Foo  -> com.example.Bar  classes\n\
               com.example.Foo -> java.lang.Object  java.base\n\
               com.example.Foo ->   \n\
               header line without arrow\n\
               a.B -> c.D -> e.F\n\
               \tcom.example.Baz\t->\tcom.example.Qux";
    let deps = parse_jdeps_verbose_output(out);
    assert_eq!(
        deps,
        vec![pair("com.example.Foo", "com.example.Bar"), pair("com.example.Baz", "com.example.Qux")]
    );
}

#[test]
fn extract_quoted_edge_cases() {
    assert_eq!(extract_quoted("only \"one quote"), None);
    assert_eq!(extract_quoted("\"\""), Some(""));
    assert_eq!(extract_quoted("x\"a\"b\"c\""), Some("a"));
    assert_eq!(extract_quoted("\"é.ü\" rest"), Some("é.ü"));
}

#[test]
fn build_fqn_index_roots_packages_and_order() {
    let a = java_file("src/com/a/First.java");
    let b = java_file("src/com/a/Second.java");
    let c = java_file("java/org/x/Y.java");
    let d = java_file("Top.java");
    let e = file_with_lang("src/com/a/Third.kt", "kotlin");
    let f = java_file("src/main/java/com/a/Notes.txt");
    let files = vec![&a, &b, &c, &d, &e, &f];
    let index = build_fqn_index("/p", &files);
    assert_eq!(index.get(&"com.a.First".to_string()), Some("src/com/a/First.java".to_string()));
    assert_eq!(index.get(&"com.a.Second".to_string()), Some("src/com/a/Second.java".to_string()));
    // the package maps to the first file seen in it
    assert_eq!(index.get(&"com.a".to_string()), Some("src/com/a/First.java".to_string()));
    assert_eq!(index.get(&"org.x.Y".to_string()), Some("java/org/x/Y.java".to_string()));
    assert_eq!(index.get(&"org.x".to_string()), Some("java/org/x/Y.java".to_string()));
    assert_eq!(index.get(&"Top".to_string()), Some("Top.java".to_string()));
    assert!(!index.contains_key("com.a.Third"));
    assert!(!index.contains_key("com.a.Notes"));
    assert!(!index.is_empty());
}

#[test]
fn build_fqn_index_class_overrides_package_entry() {
    let a = java_file("src/com/Pkg/A.java");
    let b = java_file("src/com/Pkg.java");
    let files = vec![&a, &b];
    let index = build_fqn_index("", &files);
    // "com.Pkg" was first the package of A, then the class Pkg replaces it.
    assert_eq!(index.get(&"com.Pkg".to_string()), Some("src/com/Pkg.java".to_string()));
}

#[test]
fn build_fqn_index_without_java_is_empty() {
    let a = file_with_lang("src/lib.rs", "rust");
    let files = vec![&a];
    assert!(build_fqn_index("/p", &files).is_empty());
}

#[test]
fn resolve_fqn_exact_outer_package_none() {
    let mut index = FqnIndex::new();
    index.insert("com.example.Foo".to_string(), "Foo.java".to_string());
    index.insert("com.example".to_string(), "Pkg.java".to_string());
    index.insert("com.example.Foo$Inner".to_string(), "Inner.java".to_string());
    assert_eq!(resolve_fqn("com.example.Foo$Inner", &index), Some("Inner.java".to_string()));
    assert_eq!(resolve_fqn("com.example.Foo$Other", &index), Some("Foo.java".to_string()));
    assert_eq!(resolve_fqn("com.example.Bar", &index), Some("Pkg.java".to_string()));
    // outer class missing: falls back to the package of the whole name
    assert_eq!(resolve_fqn("com.example.Missing$X", &index), Some("Pkg.java".to_string()));
    assert_eq!(resolve_fqn("org.other.Thing", &index), None);
    assert_eq!(resolve_fqn("NoDots", &index), None);
}

#[test]
fn fqn_index_insert_replaces_and_insert_if_absent_keeps() {
    let mut index = FqnIndex::new();
    assert!(index.is_empty());
    index.insert("k".to_string(), "one".to_string());
    index.insert("k".to_string(), "two".to_string());
    assert_eq!(index.get(&"k".to_string()), Some("two".to_string()));
    index.insert_if_absent("k".to_string(), "three".to_string());
    assert_eq!(index.get(&"k".to_string()), Some("two".to_string()));
    index.insert_if_absent("j".to_string(), "four".to_string());
    assert_eq!(index.get(&"j".to_string()), Some("four".to_string()));
    assert_eq!(index.get(&"x".to_string()), None);
}

#[test]
fn map_deps_to_edges_dedups_and_counts_unmapped() {
    let mut index = FqnIndex::new();
    index.insert("a.A".to_string(), "A.java".to_string());
    index.insert("a.B".to_string(), "B.java".to_string());
    index.insert("a.C".to_string(), "A.java".to_string());
    let deps = vec![
        pair("a.A", "a.B"),
        pair("a.A", "a.B"),      // duplicate edge: neither kept nor unmapped
        pair("a.A$In", "a.B"),   // same file edge again
        pair("a.A", "a.C"),      // both in A.java: dropped, not unmapped
        pair("a.A", "z.Unknown"), // unresolved: unmapped
        pair("a.B", "a.A"),
    ];
    let (edges, unmapped) = map_deps_to_edges(&deps, &index);
    assert_eq!(edges.len(), 2);
    assert_eq!(edges[0].from_file, "A.java");
    assert_eq!(edges[0].to_file, "B.java");
    assert_eq!(edges[1].from_file, "B.java");
    assert_eq!(edges[1].to_file, "A.java");
    assert_eq!(unmapped, 1);
}

#[test]
fn class_dir_candidates_join_paths() {
    assert_eq!(
        class_dir_candidates("/project"),
        vec![
            "/project/target/classes".to_string(),
            "/project/build/classes/java/main".to_string(),
            "/project/build/classes".to_string(),
            "/project/out/production/classes".to_string(),
            "/project/bin".to_string(),
        ]
    );
    assert_eq!(class_dir_candidates("/project/")[4], "/project/bin");
    assert_eq!(class_dir_candidates("")[0], "target/classes");
}

#[test]
fn auto_detect_class_dirs_keeps_existing() {
    let found = auto_detect_class_dirs("/p", &[false, true, false, false, true]);
    assert_eq!(found, vec!["/p/build/classes/java/main".to_string(), "/p/bin".to_string()]);
    assert!(auto_detect_class_dirs("/p", &[false; 5]).is_empty());
}

#[test]
fn resolve_jdeps_edges_steps() {
    let rust = file_with_lang("src/main.rs", "rust");
    let (_, step) = resolve_jdeps_edges("/p", &[&rust], &[]);
    assert!(matches!(step, JdepsStep::Finished(None)));

    let foo = java_file("src/main/java/com/example/Foo.java");
    let bar = java_file("src/main/java/com/example/Bar.java");
    let files = vec![&foo, &bar];
    let (session, step) = resolve_jdeps_edges("/p", &files, &[]);
    match step {
        JdepsStep::ProbeClassDirs(c) => assert_eq!(c[0], "/p/target/classes"),
        _ => panic!("expected a probe"),
    }
    assert!(matches!(session.class_dirs_probed(&[false; 5]), JdepsStep::Finished(None)));
    match session.class_dirs_probed(&[true, false, false, false, false]) {
        JdepsStep::RunJdeps(t) => assert_eq!(t, vec!["/p/target/classes".to_string()]),
        _ => panic!("expected a jdeps run"),
    }

    let (session, step) = resolve_jdeps_edges("/p", &files, &["lib.jar".to_string()]);
    match step {
        JdepsStep::RunJdeps(t) => assert_eq!(t, vec!["lib.jar".to_string()]),
        _ => panic!("expected a jdeps run"),
    }
    assert!(session.jdeps_finished(None).is_none());
    assert!(session.jdeps_finished(Some(Vec::new())).is_none());
    let result = session
        .jdeps_finished(Some(vec![
            pair("com.example.Foo", "com.example.Bar"),
            pair("com.example.Foo", "org.other.X"),
        ]))
        .expect("dependencies were given");
    assert_eq!(result.edges.len(), 1);
    assert_eq!(result.edges[0].from_file, "src/main/java/com/example/Foo.java");
    assert_eq!(result.edges[0].to_file, "src/main/java/com/example/Bar.java");
    assert_eq!(result.unmapped_count, 1);
}

#[test]
fn inner_class_on_its_outer_class_is_not_unmapped() {
    let a = java_file("src/a/A.java");
    let files = vec![&a];
    let (session, _) = resolve_jdeps_edges("/p", &files, &["x.jar".to_string()]);
    let result = session.jdeps_finished(Some(vec![pair("a.A$Inner", "a.A")])).expect("one dependency");
    assert!(result.edges.is_empty());
    assert_eq!(result.unmapped_count, 0);
}

#[test]
fn build_fqn_index_skips_other_files_at_any_position() {
    // Not Java, though named like a Java source, and placed first.
    let early = file_with_lang("src/com/a/Early.java", "kotlin");
    let a = java_file("src/com/a/First.java");
    let notes = java_file("src/com/a/Notes.md");
    let b = java_file("src/com/b/Second.java");
    let with_others = vec![&early, &a, &notes, &b];
    let only_java = vec![&a, &b];
    let i1 = build_fqn_index("", &with_others);
    let i2 = build_fqn_index("", &only_java);
    for key in ["com.a", "com.a.First", "com.b", "com.b.Second"] {
        assert_eq!(i1.get(&key.to_string()), i2.get(&key.to_string()));
    }
    assert_eq!(i1.get(&"com.a".to_string()), Some("src/com/a/First.java".to_string()));
    assert!(!i1.contains_key("com.a.Early"));
    assert!(!i1.contains_key("com.a.Notes"));
}

#[test]
fn dot_run_outcomes_decide_the_next_step() {
    let foo = java_file("src/main/java/com/example/Foo.java");
    let bar = java_file("src/main/java/com/example/Bar.java");
    let files = vec![&foo, &bar];
    let targets = vec!["lib.jar".to_string(), "classes".to_string()];
    let (session, _) = resolve_jdeps_edges("/p", &files, &targets);

    assert!(matches!(
        session.dot_run_finished(&targets, JdepsDotRun::NotStarted),
        JdepsStep::Finished(None)
    ));
    match session.dot_run_finished(&targets, JdepsDotRun::Failed) {
        JdepsStep::RunJdepsVerbose(t) => assert_eq!(t, targets),
        _ => panic!("expected the verbose fallback"),
    }
    // Dot files that name only JDK classes give no dependency, hence no result.
    let jdk_only = vec!["\"com.example.Foo\" -> \"java.lang.String\";".to_string()];
    assert!(matches!(
        session.dot_run_finished(&targets, JdepsDotRun::Succeeded(jdk_only)),
        JdepsStep::Finished(None)
    ));
    assert!(matches!(
        session.dot_run_finished(&targets, JdepsDotRun::Succeeded(Vec::new())),
        JdepsStep::Finished(None)
    ));
    // Dependencies from every dot file are mapped together.
    let dots = vec![
        "digraph \"lib.jar\" {\n  \"com.example.Foo\" -> \"com.example.Bar\";\n}".to_string(),
        "  \"com.example.Bar\" -> \"org.other.X\";\n  \"com.example.Bar\" -> \"com.example.Foo\";"
            .to_string(),
    ];
    match session.dot_run_finished(&targets, JdepsDotRun::Succeeded(dots)) {
        JdepsStep::Finished(Some(result)) => {
            assert_eq!(result.edges.len(), 2);
            assert_eq!(result.edges[0].from_file, "src/main/java/com/example/Foo.java");
            assert_eq!(result.edges[0].to_file, "src/main/java/com/example/Bar.java");
            assert_eq!(result.edges[1].from_file, "src/main/java/com/example/Bar.java");
            assert_eq!(result.edges[1].to_file, "src/main/java/com/example/Foo.java");
            assert_eq!(result.unmapped_count, 1);
        }
        _ => panic!("expected a result"),
    }
}

#[test]
fn verbose_run_output_is_parsed_and_mapped() {
    let foo = java_file("src/main/java/com/example/Foo.java");
    let bar = java_file("src/main/java/com/example/Bar.java");
    let files = vec![&foo, &bar];
    let (session, _) = resolve_jdeps_edges("/p", &files, &["lib.jar".to_string()]);

    assert!(session.verbose_run_finished(None).is_none());
    assert!(session.verbose_run_finished(Some(String::new())).is_none());
    let out = "lib.jar -> java.base\n   com.example.Foo  -> com.example.Bar  lib.jar\n   com.example.Foo  -> java.lang.Object  java.base\n";
    let result = session.verbose_run_finished(Some(out.to_string())).expect("one dependency");
    assert_eq!(result.edges.len(), 1);
    assert_eq!(result.edges[0].from_file, "src/main/java/com/example/Foo.java");
    assert_eq!(result.edges[0].to_file, "src/main/java/com/example/Bar.java");
    assert_eq!(result.unmapped_count, 0);
}
