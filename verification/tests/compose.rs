use yake::yake::{TargetEntry, Yake, YakeMeta, YakeTarget, YakeTargetMeta, YakeTargetType};

fn callable(doc: &str, commands: Vec<&str>) -> YakeTarget {
    YakeTarget {
        targets: None,
        meta: YakeTargetMeta {
            doc: doc.to_string(),
            target_type: YakeTargetType::Callable,
            depends: None,
        },
        env: None,
        commands: Some(commands.iter().map(|c| c.to_string()).collect()),
    }
}

fn group(doc: &str) -> YakeTarget {
    YakeTarget {
        targets: None,
        meta: YakeTargetMeta {
            doc: doc.to_string(),
            target_type: YakeTargetType::Group,
            depends: None,
        },
        env: None,
        commands: None,
    }
}

fn entry(name: &str, target: YakeTarget) -> TargetEntry {
    TargetEntry { name: name.to_string(), target }
}

fn document(targets: Vec<TargetEntry>) -> Yake {
    Yake {
        targets,
        env: None,
        meta: YakeMeta {
            doc: "Some docs".to_string(),
            version: "1.0.0".to_string(),
            include_recursively: None,
        },
    }
}

fn find<'a>(targets: &'a [TargetEntry], name: &str) -> Option<&'a YakeTarget> {
    targets.iter().find(|e| e.name == name).map(|e| &e.target)
}

#[test]
fn test_add_sub_yakes() {
    let mut yake = document(vec![
        entry("base", callable("Test command", vec!["echo \"i'm base\""])),
        entry("group", group("Test command")),
    ]);
    assert_eq!(
        find(&yake.targets, "base").unwrap().meta.target_type,
        YakeTargetType::Callable
    );
    assert_eq!(
        find(&yake.targets, "group").unwrap().meta.target_type,
        YakeTargetType::Group
    );

    let sub_yake = document(vec![
        entry(
            "base",
            callable(
                "Test command overwritten",
                vec!["echo \"i'm base, but overwritten by a sub yake\""],
            ),
        ),
        entry("sub_base", callable("Sub: Test command", vec!["echo \"i'm sub base\""])),
    ]);
    assert_eq!(
        find(&sub_yake.targets, "base").unwrap().meta.target_type,
        YakeTargetType::Callable
    );
    assert_eq!(
        find(&sub_yake.targets, "sub_base").unwrap().meta.target_type,
        YakeTargetType::Callable
    );

    yake.add_sub_yake(sub_yake);
    assert_eq!(
        find(&yake.targets, "base").unwrap().meta.target_type,
        YakeTargetType::Callable
    );
    assert_eq!(
        find(&yake.targets, "base").unwrap().meta.doc,
        "Test command overwritten"
    );
    assert_eq!(
        find(&yake.targets, "sub_base").unwrap().meta.target_type,
        YakeTargetType::Callable
    );
}

#[test]
fn test_compose_override() {
    // A key in both documents ends up with the subordinate's data, a key
    // only in the subordinate is added, a key only in the root is
    // untouched.
    let mut root = document(vec![
        entry("both", callable("root data", vec![])),
        entry("root_only", callable("kept", vec![])),
    ]);
    let sub = document(vec![
        entry("both", callable("sub data", vec![])),
        entry("sub_only", callable("added", vec![])),
    ]);
    root.add_sub_yake(sub);
    assert_eq!(root.targets.len(), 3);
    assert_eq!(find(&root.targets, "both").unwrap().meta.doc, "sub data");
    assert_eq!(find(&root.targets, "root_only").unwrap().meta.doc, "kept");
    assert_eq!(find(&root.targets, "sub_only").unwrap().meta.doc, "added");
}

#[test]
fn test_add_sub_yake_flattens() {
    // A subordinate document's nested callable arrives in the root's
    // top-level map under its dot-qualified name.
    let mut root = document(vec![entry("base", callable("Base", vec![]))]);
    let mut grp = group("Grouptarget");
    grp.targets = Some(vec![entry("inner", callable("Nested", vec![]))]);
    let sub = document(vec![entry("grp", grp)]);
    root.add_sub_yake(sub);
    assert!(find(&root.targets, "grp.inner").is_some());
    assert!(root.has_target_name("grp.inner").is_ok());
}
