use dnx::{
    escape_nix_string, is_local_path, is_valid_attr_segment, lock_status_of, quoted_selector, Flake,
    FlakeError, LockFile, LockStatus, StrPart, SurfaceExpr,
};

fn bind(path: &[&str], v: SurfaceExpr) -> SurfaceExpr {
    SurfaceExpr::Binding(Some(path.iter().map(|s| s.to_string()).collect()), Some(Box::new(v)))
}

fn set(entries: Vec<SurfaceExpr>) -> SurfaceExpr {
    SurfaceExpr::AttrSet(entries)
}

fn lit(s: &str) -> SurfaceExpr {
    SurfaceExpr::Str(vec![StrPart::Literal(s.to_string())])
}

fn lambda(body: SurfaceExpr) -> SurfaceExpr {
    SurfaceExpr::Lambda(Some(Box::new(body)))
}

/// `{ description = "a minimal dnx flake"; inputs = { self = { url = "."; }; };
///   outputs = inputs: { packages = { x86_64-linux = { hello = 1; world = 2; }; };
///                       apps = { x86_64-linux = { run = 3; }; }; }; }`
fn minimal() -> SurfaceExpr {
    set(vec![
        bind(&["description"], lit("a minimal dnx flake")),
        bind(&["inputs"], set(vec![bind(&["self"], set(vec![bind(&["url"], lit("."))]))])),
        bind(
            &["outputs"],
            lambda(set(vec![
                bind(
                    &["packages"],
                    set(vec![bind(
                        &["x86_64-linux"],
                        set(vec![bind(&["hello"], SurfaceExpr::Other), bind(&["world"], SurfaceExpr::Other)]),
                    )]),
                ),
                bind(&["apps"], set(vec![bind(&["x86_64-linux"], set(vec![bind(&["run"], SurfaceExpr::Other)]))])),
            ])),
        ),
    ])
}

#[test]
fn show_enumerates_output_attr_names() {
    let f = Flake::from_surface(minimal(), ".".to_string()).expect("a flake");
    let out = f.show().expect("show");
    let paths: Vec<&str> = out.paths().iter().map(|s| s.as_str()).collect();
    assert_eq!(
        paths,
        vec!["apps.x86_64-linux.run", "packages.x86_64-linux.hello", "packages.x86_64-linux.world"]
    );
}

/// `{ outputs = inputs: { packages.x86_64-linux.hello = 1; }; }`
#[test]
fn show_enumerates_flat_attrpath_outputs() {
    let top = set(vec![bind(
        &["outputs"],
        lambda(set(vec![bind(&["packages", "x86_64-linux", "hello"], SurfaceExpr::Other)])),
    )]);
    let f = Flake::from_surface(top, ".".to_string()).expect("a flake");
    let out = f.show().expect("show");
    let names: Vec<&str> = out.paths().iter().map(|s| s.as_str()).collect();
    assert_eq!(names, vec!["packages.x86_64-linux.hello"]);
}

#[test]
fn show_joins_flat_attrpaths_and_drops_repeats() {
    let top = set(vec![bind(
        &["outputs"],
        lambda(set(vec![
            bind(&["packages", "x86_64-linux", "hello"], SurfaceExpr::Other),
            bind(&["packages", "x86_64-linux", "hello"], SurfaceExpr::Other),
            bind(&["a"], SurfaceExpr::Other),
        ])),
    )]);
    let f = Flake::from_surface(top, ".".to_string()).expect("a flake");
    let out = f.show().expect("show");
    let paths: Vec<&str> = out.paths().iter().map(|s| s.as_str()).collect();
    assert_eq!(paths, vec!["a", "packages.x86_64-linux.hello"]);
}

#[test]
fn show_rejects_a_dynamic_output_key() {
    let top = set(vec![bind(
        &["outputs"],
        lambda(set(vec![SurfaceExpr::Binding(None, Some(Box::new(SurfaceExpr::Other)))])),
    )]);
    let f = Flake::from_surface(top, ".".to_string()).expect("a flake");
    assert!(matches!(f.show(), Err(FlakeError::Parse(_))));
}

#[test]
fn show_rejects_inherit_in_outputs() {
    let top = set(vec![bind(&["outputs"], lambda(set(vec![SurfaceExpr::Inherit])))]);
    let f = Flake::from_surface(top, ".".to_string()).expect("a flake");
    assert!(matches!(f.show(), Err(FlakeError::Parse(_))));
}

#[test]
fn outputs_that_are_not_a_function_are_refused() {
    let top = set(vec![bind(&["outputs"], set(vec![]))]);
    let f = Flake::from_surface(top, ".".to_string()).expect("a flake");
    assert!(matches!(f.show(), Err(FlakeError::NotAFlake(_))));
}

#[test]
fn a_bare_expression_is_not_a_flake() {
    assert!(matches!(Flake::from_surface(SurfaceExpr::Other, ".".to_string()), Err(FlakeError::NotAFlake(_))));
    assert!(matches!(
        Flake::from_surface(set(vec![bind(&["description"], lit("x"))]), ".".to_string()),
        Err(FlakeError::NotAFlake(_))
    ));
}

#[test]
fn inputs_enumerates_local_path_inputs_sorted() {
    let top = set(vec![
        bind(
            &["inputs"],
            set(vec![
                bind(&["other"], set(vec![bind(&["url"], lit("../sibling"))])),
                bind(&["dep"], set(vec![bind(&["url"], lit("./vendor/dep"))])),
            ]),
        ),
        bind(&["outputs"], lambda(set(vec![bind(&["answer"], SurfaceExpr::Other)]))),
    ]);
    let f = Flake::from_surface(top, ".".to_string()).expect("a flake");
    let ins = f.inputs().expect("inputs");
    let got: Vec<(&str, &str)> = ins.entries().iter().map(|i| (i.name(), i.url())).collect();
    assert_eq!(got, vec![("dep", "./vendor/dep"), ("other", "../sibling")]);
}

#[test]
fn inputs_absent_is_empty() {
    let top = set(vec![bind(&["outputs"], lambda(set(vec![])))]);
    let f = Flake::from_surface(top, ".".to_string()).expect("a flake");
    assert!(f.inputs().expect("inputs").entries().is_empty());
}

#[test]
fn inputs_rejects_a_non_local_url() {
    let top = set(vec![
        bind(&["inputs"], set(vec![bind(&["nixpkgs"], set(vec![bind(&["url"], lit("github:NixOS/nixpkgs"))]))])),
        bind(&["outputs"], lambda(set(vec![]))),
    ]);
    let f = Flake::from_surface(top, ".".to_string()).expect("a flake");
    assert!(matches!(f.inputs(), Err(FlakeError::NotAFlake(_))));
}

#[test]
fn inputs_rejects_a_dynamic_url() {
    let url = SurfaceExpr::Str(vec![StrPart::Literal("./".to_string()), StrPart::Interpolation]);
    let top = set(vec![
        bind(&["inputs"], set(vec![bind(&["dep"], set(vec![bind(&["url"], url)]))])),
        bind(&["outputs"], lambda(set(vec![]))),
    ]);
    let f = Flake::from_surface(top, ".".to_string()).expect("a flake");
    assert!(matches!(f.inputs(), Err(FlakeError::Parse(_))));
}

#[test]
fn inputs_rejects_an_entry_without_a_url() {
    let top = set(vec![
        bind(&["inputs"], set(vec![bind(&["dep"], set(vec![bind(&["rev"], lit("abc"))]))])),
        bind(&["outputs"], lambda(set(vec![]))),
    ]);
    let f = Flake::from_surface(top, ".".to_string()).expect("a flake");
    assert!(matches!(f.inputs(), Err(FlakeError::NotAFlake(_))));
}

#[test]
fn description_returns_the_declared_description() {
    let f = Flake::from_surface(minimal(), ".".to_string()).expect("a flake");
    assert_eq!(f.description().expect("description").as_deref(), Some("a minimal dnx flake"));
}

#[test]
fn description_absent_is_none() {
    let top = set(vec![bind(&["outputs"], lambda(set(vec![])))]);
    let f = Flake::from_surface(top, ".".to_string()).expect("a flake");
    assert_eq!(f.description().expect("description"), None);
}

#[test]
fn description_that_is_not_a_string_is_refused() {
    let top = set(vec![bind(&["description"], SurfaceExpr::Other), bind(&["outputs"], lambda(set(vec![])))]);
    let f = Flake::from_surface(top, ".".to_string()).expect("a flake");
    assert!(matches!(f.description(), Err(FlakeError::NotAFlake(_))));
}

#[test]
fn selectors_are_quoted_segment_by_segment() {
    assert_eq!(quoted_selector("packages.x86_64-linux.hello").as_deref(), Some("\"packages\".\"x86_64-linux\".\"hello\""));
    assert_eq!(quoted_selector("x; builtins.foo"), None);
    assert_eq!(quoted_selector("hello}.x"), None);
    assert_eq!(quoted_selector(""), None);
    assert_eq!(quoted_selector("a..b"), None);
    assert_eq!(quoted_selector("a."), None);
    assert!(is_valid_attr_segment("_x'-9"));
    assert!(!is_valid_attr_segment("9x"));
}

#[test]
fn nix_strings_are_escaped() {
    assert_eq!(escape_nix_string(r#"a"b\c${d}"#), r#"a\"b\\c\${d}"#);
    assert_eq!(escape_nix_string("plain"), "plain");
}

#[test]
fn local_paths_have_no_scheme() {
    assert!(is_local_path("."));
    assert!(is_local_path("./vendor/dep"));
    assert!(is_local_path("../sibling"));
    assert!(is_local_path("/abs/with:colon"));
    assert!(is_local_path(":x"));
    assert!(!is_local_path("github:NixOS/nixpkgs"));
    assert!(!is_local_path("git+https://example.org/x"));
    assert!(!is_local_path("path:./x"));
}

#[test]
fn lock_status_compares_declared_and_pinned_names() {
    let top = set(vec![
        bind(&["inputs"], set(vec![bind(&["dep"], set(vec![bind(&["url"], lit("./dep"))]))])),
        bind(&["outputs"], lambda(set(vec![]))),
    ]);
    let f = Flake::from_surface(top, ".".to_string()).expect("a flake");
    let ins = f.inputs().expect("inputs");
    let mut lock = LockFile::default();
    assert_eq!(lock_status_of(&ins, &lock, true), LockStatus::Stale);
    lock.pin_bytes("dep", "dep/flake.nix", b"{ outputs = _: { }; }");
    assert_eq!(lock_status_of(&ins, &lock, true), LockStatus::UpToDate);
    assert_eq!(lock_status_of(&ins, &lock, false), LockStatus::Stale);
    lock.pin_bytes("other", "other/flake.nix", b"x");
    assert_eq!(lock_status_of(&ins, &lock, true), LockStatus::Stale);
}

#[test]
fn from_source_reads_a_flake_off_its_text() {
    let src = r#"{
  description = "demo";
  outputs = { self }: {
    packages.x86_64-linux.hello = 1;
    packages.x86_64-linux."world" = 2;
  };
}"#;
    let f = Flake::from_source(src, "demo".to_string()).expect("a flake");
    assert_eq!(f.dir(), "demo");
    let out = f.show().expect("show");
    let paths: Vec<&str> = out.paths().iter().map(|s| s.as_str()).collect();
    assert_eq!(paths, vec!["packages.x86_64-linux.hello", "packages.x86_64-linux.world"]);
}

#[test]
fn from_source_reports_a_parse_error() {
    assert!(matches!(Flake::from_source("{ outputs = ", ".".to_string()), Err(FlakeError::Parse(_))));
}

#[test]
fn from_source_without_outputs_is_not_a_flake() {
    assert!(matches!(
        Flake::from_source("{ description = \"x\"; }", ".".to_string()),
        Err(FlakeError::NotAFlake(_))
    ));
}
