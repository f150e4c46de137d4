use barb::package::{DepSpec, FetchAction, Manifest, Resolver, Snippet};
use std::collections::HashMap;

fn s(x: &str) -> String {
    x.to_string()
}

fn manifest(name: &str, features: &[(&str, &str)], deps: Vec<(&str, DepSpec)>) -> Manifest {
    Manifest {
        name: s(name),
        features: features.iter().map(|(a, b)| (s(a), s(b))).collect(),
        dependencies: deps.into_iter().map(|(n, d)| (s(n), d)).collect(),
    }
}

fn plain() -> DepSpec {
    DepSpec { git: None, path: None }
}

fn snippet(p: &str, f: &str, c: &str) -> Snippet {
    Snippet { package: s(p), feature: s(f), content: s(c) }
}

#[test]
fn root_package_comes_first() {
    let r = Resolver::new(manifest("app", &[], vec![]), s("/proj"));
    let pkgs = r.loaded();
    assert_eq!(pkgs.len(), 1);
    assert_eq!(pkgs[0].name, "app");
    assert_eq!(pkgs[0].dir.root, "/proj");
    assert!(pkgs[0].dir.parts.is_empty());
    assert!(r.next_missing().is_none());
}

#[test]
fn missing_dependency_lies_in_packages_dir() {
    let r = Resolver::new(manifest("app", &[], vec![("left-pad", plain())]), s("/proj"));
    let f = r.next_missing().unwrap();
    assert_eq!(f.name, "left-pad");
    assert_eq!(f.dir.root, "/proj");
    assert_eq!(f.dir.parts, vec![s(".packages"), s("left-pad")]);
    assert_eq!(f.git, None);
}

#[test]
fn path_dependency_is_relative_to_its_package() {
    let spec = DepSpec { git: Some(s("https://example.org/lib.git")), path: Some(s("../lib")) };
    let mut r = Resolver::new(manifest("app", &[], vec![("mid", plain())]), s("/proj"));
    let f = r.next_missing().unwrap();
    r.add_package(f, manifest("mid", &[], vec![("lib", spec)]));
    let f = r.next_missing().unwrap();
    assert_eq!(f.name, "lib");
    assert_eq!(f.dir.root, "/proj");
    assert_eq!(f.dir.parts, vec![s(".packages"), s("mid"), s("../lib")]);
    assert_eq!(f.git, Some(s("https://example.org/lib.git")));
}

#[test]
fn dependencies_are_found_in_order() {
    let root = manifest("app", &[], vec![("a", plain()), ("b", plain())]);
    let mut r = Resolver::new(root, s("/p"));
    let f = r.next_missing().unwrap();
    assert_eq!(f.name, "a");
    r.add_package(f, manifest("a", &[], vec![("c", plain()), ("b", plain())]));
    // "b" of the root comes before the dependencies of "a"
    let f = r.next_missing().unwrap();
    assert_eq!(f.name, "b");
    r.add_package(f, manifest("b", &[], vec![]));
    let f = r.next_missing().unwrap();
    assert_eq!(f.name, "c");
    r.add_package(f, manifest("c", &[], vec![("app", plain())]));
    // "app" is loaded already: nothing is left
    assert!(r.next_missing().is_none());
    let names: Vec<&str> = r.loaded().iter().map(|p| p.name.as_str()).collect();
    assert_eq!(names, vec!["app", "a", "b", "c"]);
}

#[test]
fn fetch_action_clones_missing_git_packages() {
    let r = Resolver::new(
        manifest("app", &[], vec![("g", DepSpec { git: Some(s("url")), path: None })]),
        s("/p"),
    );
    let f = r.next_missing().unwrap();
    assert_eq!(f.action(true, true), FetchAction::Load);
    assert_eq!(f.action(false, false), FetchAction::Clone);
    assert_eq!(f.action(false, true), FetchAction::ReplaceByClone);
    let r = Resolver::new(manifest("app", &[], vec![("h", plain())]), s("/p"));
    let f = r.next_missing().unwrap();
    assert_eq!(f.action(false, false), FetchAction::Load);
}

#[test]
fn feature_files_lie_in_their_packages() {
    let mut r = Resolver::new(manifest("app", &[("greet", "greet.bf")], vec![("lp", plain())]), s("/p"));
    let f = r.next_missing().unwrap();
    r.add_package(f, manifest("lp", &[("space-5", "space-5.bf"), ("x", "sub/x.bf")], vec![]));
    let files = r.feature_files();
    assert_eq!(files.len(), 3);
    assert_eq!((files[0].package.as_str(), files[0].feature.as_str()), ("app", "greet"));
    assert_eq!(files[0].path.root, "/p");
    assert_eq!(files[0].path.parts, vec![s("greet.bf")]);
    assert_eq!((files[1].package.as_str(), files[1].feature.as_str()), ("lp", "space-5"));
    assert_eq!(files[1].path.parts, vec![s(".packages"), s("lp"), s("space-5.bf")]);
    assert_eq!(files[2].path.parts, vec![s(".packages"), s("lp"), s("sub/x.bf")]);
}

fn left_pad_resolver() -> Resolver {
    let mut r = Resolver::new(manifest("app", &[], vec![("left-pad", plain())]), s("/p"));
    let f = r.next_missing().unwrap();
    r.add_package(
        f,
        manifest("left-pad", &[("space-5", "space-5.bf"), ("twice", "twice.bf"), ("loop", "loop.bf")], vec![]),
    );
    r
}

#[test]
fn resolve_pastes_snippet_text() {
    let r = left_pad_resolver();
    let snippets = vec![snippet("left-pad", "space-5", "++++>")];
    assert_eq!(r.resolve(">+++++\n@left-pad/space-5\n.", &snippets), ">+++++\n++++>\n.");
}

#[test]
fn resolve_leaves_text_without_references() {
    let r = left_pad_resolver();
    let snippets = vec![snippet("left-pad", "space-5", "++++>")];
    assert_eq!(r.resolve("+[-]. no refs here", &snippets), "+[-]. no refs here");
    assert_eq!(r.resolve("", &snippets), "");
}

#[test]
fn resolve_keeps_unknown_references() {
    let r = left_pad_resolver();
    let snippets = vec![snippet("left-pad", "space-5", "++++>")];
    // unknown package, undeclared feature, unreadable file
    assert_eq!(r.resolve("@nope/space-5", &snippets), "@nope/space-5");
    assert_eq!(r.resolve("@left-pad/other", &snippets), "@left-pad/other");
    assert_eq!(r.resolve("@left-pad/twice", &snippets), "@left-pad/twice");
}

#[test]
fn resolve_expands_nested_references() {
    let r = left_pad_resolver();
    let snippets = vec![
        snippet("left-pad", "space-5", "+"),
        snippet("left-pad", "twice", "@left-pad/space-5@left-pad/space-5"),
    ];
    assert_eq!(r.resolve("a@left-pad/twice b", &snippets), "a++ b");
}

#[test]
fn resolve_stops_after_one_hundred_rounds() {
    let r = left_pad_resolver();
    // the snippet refers to itself: every round adds one '+'
    let snippets = vec![snippet("left-pad", "loop", "+@left-pad/loop")];
    let out = r.resolve("@left-pad/loop", &snippets);
    assert_eq!(out, format!("{}@left-pad/loop", "+".repeat(100)));
}

#[test]
fn loaded_packages_are_exactly_the_needed_ones() {
    // app -> a -> b, and a diamond back to app: the loaded set is the least
    // set closed under the dependencies
    let mut r = Resolver::new(manifest("app", &[], vec![("a", plain())]), s("/p"));
    while let Some(f) = r.next_missing() {
        let m = match f.name.as_str() {
            "a" => manifest("a", &[], vec![("b", plain()), ("app", plain())]),
            "b" => manifest("b", &[], vec![("a", plain())]),
            _ => unreachable!(),
        };
        r.add_package(f, m);
    }
    let names: Vec<&str> = r.loaded().iter().map(|p| p.name.as_str()).collect();
    assert_eq!(names, vec!["app", "a", "b"]);
    for p in r.loaded() {
        for (dep, _) in &p.manifest.dependencies {
            assert!(names.contains(&dep.as_str()));
        }
    }
}

#[test]
fn distinct_keys_are_checked() {
    assert!(manifest("m", &[("a", "a.bf"), ("b", "b.bf")], vec![("x", plain()), ("y", plain())]).has_distinct_keys());
    assert!(!manifest("m", &[("a", "a.bf"), ("a", "b.bf")], vec![]).has_distinct_keys());
    assert!(!manifest("m", &[], vec![("x", plain()), ("x", plain())]).has_distinct_keys());
    assert!(manifest("m", &[], vec![]).has_distinct_keys());
}

#[test]
fn expand_with_puts_pieces_and_replacements_together() {
    let r = left_pad_resolver();
    let snippets = vec![snippet("left-pad", "space-5", "+++++")];
    let pieces = vec![s("<"), s(" and "), s(">")];
    let names = vec![(s("left-pad"), s("space-5")), (s("nope"), s("x"))];
    assert_eq!(r.expand_with(&pieces, &names, &snippets), "<+++++ and @nope/x>");
    assert_eq!(r.expand_with(&vec![s("alone")], &vec![], &snippets), "alone");
}

#[test]
fn resolve_keeps_text_without_at_signs_and_unmatched_at_signs() {
    let r = left_pad_resolver();
    let snippets = vec![snippet("left-pad", "space-5", "+")];
    assert_eq!(r.resolve("+>-<[].,", &snippets), "+>-<[].,");
    assert_eq!(r.resolve("mail@ or @/x or @p/", &snippets), "mail@ or @/x or @p/");
}

/// Resolves `root` over `disk` (directory parts to manifest), recording
/// the actions taken; a clone puts `remote`'s manifest on the disk.
fn resolve_over(
    disk: &mut HashMap<Vec<String>, Manifest>,
    remote: &HashMap<String, Manifest>,
    actions: &mut Vec<FetchAction>,
) -> Vec<String> {
    let root = manifest("app", &[], vec![("a", DepSpec { git: Some(s("a")), path: None }), ("b", plain())]);
    let mut r = Resolver::new(root, s("/p"));
    while let Some(f) = r.next_missing() {
        let exists = disk.contains_key(&f.dir.parts);
        let action = f.action(exists, exists);
        actions.push(action);
        if action != FetchAction::Load {
            disk.insert(f.dir.parts.clone(), remote[&f.name].clone());
        }
        let m = disk[&f.dir.parts].clone();
        r.add_package(f, m);
    }
    r.loaded().iter().map(|p| format!("{}@{}", p.name, p.dir.parts.join("/"))).collect()
}

#[test]
fn resolving_again_loads_the_same_and_clones_nothing() {
    let mut disk = HashMap::new();
    disk.insert(vec![s(".packages"), s("b")], manifest("b", &[], vec![("c", DepSpec { git: None, path: Some(s("../c")) })]));
    disk.insert(vec![s(".packages"), s("b"), s("../c")], manifest("c", &[], vec![]));
    let mut remote = HashMap::new();
    remote.insert(s("a"), manifest("a", &[], vec![("b", plain())]));
    let mut first = Vec::new();
    let loaded1 = resolve_over(&mut disk, &remote, &mut first);
    assert_eq!(first, vec![FetchAction::Clone, FetchAction::Load, FetchAction::Load]);
    let mut second = Vec::new();
    let loaded2 = resolve_over(&mut disk, &remote, &mut second);
    assert_eq!(loaded1, loaded2);
    assert!(second.iter().all(|a| *a == FetchAction::Load));
}
