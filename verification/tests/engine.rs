use yake::yake::{
    EnvEntry, TargetEntry, Yake, YakeError, YakeMeta, YakeTarget, YakeTargetMeta, YakeTargetType,
};

fn env_entry(key: &str, value: &str) -> EnvEntry {
    EnvEntry { key: key.to_string(), value: value.to_string() }
}

fn target(
    target_type: YakeTargetType,
    depends: Option<Vec<&str>>,
    children: Option<Vec<TargetEntry>>,
    env: Option<Vec<EnvEntry>>,
    commands: Option<Vec<&str>>,
) -> YakeTarget {
    YakeTarget {
        targets: children,
        meta: YakeTargetMeta {
            doc: "doc".to_string(),
            target_type,
            depends: depends.map(|d| d.iter().map(|s| s.to_string()).collect()),
        },
        env,
        commands: commands.map(|c| c.iter().map(|s| s.to_string()).collect()),
    }
}

fn entry(name: &str, t: YakeTarget) -> TargetEntry {
    TargetEntry { name: name.to_string(), target: t }
}

fn document(env: Option<Vec<EnvEntry>>, targets: Vec<TargetEntry>) -> Yake {
    Yake {
        targets,
        env,
        meta: YakeMeta {
            doc: "doc".to_string(),
            version: "1.0.0".to_string(),
            include_recursively: None,
        },
    }
}

#[test]
fn test_deeply_nested_callable_is_addressable() {
    // A callable three levels down appears under its full dot-joined path;
    // the intermediate group below the top level is not a key of the
    // flattened map.
    let leaf = target(YakeTargetType::Callable, None, None, None, Some(vec!["echo leaf"]));
    let inner = target(YakeTargetType::Group, None, Some(vec![entry("leaf", leaf)]), None, None);
    let outer = target(YakeTargetType::Group, None, Some(vec![entry("inner", inner)]), None, None);
    let yake = document(None, vec![entry("outer", outer)]);

    let names = yake.get_target_names();
    assert_eq!(names.len(), 1);
    assert!(names.contains(&"outer.inner.leaf".to_string()));
    assert!(yake.get_target_by_name("outer.inner.leaf").is_some());
    assert!(yake.get_target_by_name("outer.inner").is_none());
    assert!(yake.get_target_by_name("outer").is_some());
}

#[test]
fn test_unknown_dependency_is_fatal() {
    let broken = target(YakeTargetType::Callable, Some(vec!["missing"]), None, None, None);
    let yake = document(None, vec![entry("broken", broken)]);
    match yake.get_all_dependencies() {
        Err(YakeError::UnknownDependency { dependency, target }) => {
            assert_eq!(dependency, "missing");
            assert_eq!(target, "broken");
        },
        _ => panic!("expected an unknown-dependency error"),
    }
    assert!(yake.get_dependencies_by_name("broken").is_err());
}

#[test]
fn test_unknown_target_lists_callable_names() {
    let base = target(YakeTargetType::Callable, None, None, None, None);
    let yake = document(None, vec![entry("base", base)]);
    match yake.get_target_env_vars("nope") {
        Err(YakeError::UnknownTarget { name, known }) => {
            assert_eq!(name, "nope");
            assert_eq!(known, vec!["base".to_string()]);
        },
        _ => panic!("expected an unknown-target error"),
    }
}

#[test]
fn test_reserved_env_from_target_layer() {
    // The reserved-name rejection applies whatever layer introduces the
    // name: here the target's own environment, not the root.
    let bad = target(
        YakeTargetType::Callable,
        None,
        None,
        Some(vec![env_entry("HOME", "/tmp"), env_entry("OK_VAR", "1")]),
        None,
    );
    let yake = document(Some(vec![env_entry("SAFE", "yes")]), vec![entry("bad", bad)]);
    match yake.get_target_env_vars("bad") {
        Err(YakeError::ReservedEnvironmentVariable { keys }) => {
            assert_eq!(keys, vec!["HOME".to_string()]);
        },
        _ => panic!("expected a reserved-variable error"),
    }
}

#[test]
fn test_reserved_env_from_ancestor_layer() {
    let leaf = target(YakeTargetType::Callable, None, None, None, None);
    let grp = YakeTarget {
        env: Some(vec![env_entry("TERM", "dumb")]),
        ..target(YakeTargetType::Group, None, Some(vec![entry("leaf", leaf)]), None, None)
    };
    let yake = document(None, vec![entry("grp", grp)]);
    match yake.get_target_env_vars("grp.leaf") {
        Err(YakeError::ReservedEnvironmentVariable { keys }) => {
            assert_eq!(keys, vec!["TERM".to_string()]);
        },
        _ => panic!("expected a reserved-variable error"),
    }
}

#[test]
fn test_execution_plan_order_and_env() {
    // The plan runs each dependency's commands first, in declaration
    // order, then the target's own, and resolves the environment once from
    // the requested target's name.
    let base = target(YakeTargetType::Callable, None, None, None, Some(vec!["echo base"]));
    let silent = target(YakeTargetType::Callable, None, None, None, None);
    let main_t = target(
        YakeTargetType::Callable,
        Some(vec!["silent", "base"]),
        None,
        Some(vec![env_entry("PORT", "8080")]),
        Some(vec!["echo one", "echo two"]),
    );
    let yake = document(
        Some(vec![env_entry("ROOT", "r")]),
        vec![entry("base", base), entry("silent", silent), entry("main", main_t)],
    );
    let plan = yake.execution_plan("main").unwrap();
    assert_eq!(plan.groups.len(), 3);
    assert_eq!(plan.groups[0], None);
    assert_eq!(plan.groups[1], Some(vec!["echo base".to_string()]));
    assert_eq!(
        plan.groups[2],
        Some(vec!["echo one".to_string(), "echo two".to_string()])
    );
    assert_eq!(plan.env.len(), 2);
    assert_eq!(plan.env.get("ROOT").unwrap(), "r");
    assert_eq!(plan.env.get("PORT").unwrap(), "8080");
}

#[test]
fn test_execution_plan_for_group_fails() {
    let leaf = target(YakeTargetType::Callable, None, None, None, None);
    let grp = target(YakeTargetType::Group, None, Some(vec![entry("leaf", leaf)]), None, None);
    let yake = document(None, vec![entry("grp", grp)]);
    assert!(yake.execution_plan("grp").is_err());
    assert!(yake.execution_plan("grp.leaf").is_ok());
}

#[test]
fn test_env_merge_depth_overrides() {
    // Root < ancestor < target: the deepest layer wins for a shared key,
    // unrelated keys accumulate.
    let leaf = target(
        YakeTargetType::Callable,
        None,
        None,
        Some(vec![env_entry("SHARED", "leaf"), env_entry("LEAF_ONLY", "l")]),
        None,
    );
    let grp = YakeTarget {
        env: Some(vec![env_entry("SHARED", "group"), env_entry("GROUP_ONLY", "g")]),
        ..target(YakeTargetType::Group, None, Some(vec![entry("leaf", leaf)]), None, None)
    };
    let yake = document(
        Some(vec![env_entry("SHARED", "root"), env_entry("ROOT_ONLY", "r")]),
        vec![entry("grp", grp)],
    );
    let envs = yake.get_target_env_vars("grp.leaf").unwrap();
    assert_eq!(envs.len(), 4);
    assert_eq!(envs.get("SHARED").unwrap(), "leaf");
    assert_eq!(envs.get("ROOT_ONLY").unwrap(), "r");
    assert_eq!(envs.get("GROUP_ONLY").unwrap(), "g");
    assert_eq!(envs.get("LEAF_ONLY").unwrap(), "l");
}

#[test]
fn test_dependencies_keep_declaration_order() {
    let a = target(YakeTargetType::Callable, None, None, None, None);
    let b = target(YakeTargetType::Callable, None, None, None, None);
    let mut c = target(YakeTargetType::Callable, Some(vec!["b", "a"]), None, None, None);
    c.meta.doc = "c".to_string();
    let mut aa = a;
    aa.meta.doc = "a".to_string();
    let mut bb = b;
    bb.meta.doc = "b".to_string();
    let yake = document(None, vec![entry("a", aa), entry("b", bb), entry("c", c)]);
    let deps = yake.get_dependencies_by_name("c").unwrap();
    assert_eq!(deps.len(), 2);
    assert_eq!(deps[0].meta.doc, "b");
    assert_eq!(deps[1].meta.doc, "a");
}

#[test]
fn test_get_sub_targets_with_prefix() {
    // Callable children are emitted under the prefix-qualified name; a
    // group child dissolves into its own children one level further down.
    let leaf = target(YakeTargetType::Callable, None, None, None, None);
    let inner = target(YakeTargetType::Group, None, Some(vec![entry("leaf", leaf)]), None, None);
    let direct = target(YakeTargetType::Callable, None, None, None, None);
    let parent = target(
        YakeTargetType::Group,
        None,
        Some(vec![entry("direct", direct), entry("inner", inner)]),
        None,
        None,
    );
    let subs = parent.get_sub_targets(Some("top".to_string()));
    let names: Vec<&str> = subs.iter().map(|e| e.name.as_str()).collect();
    assert_eq!(names, vec!["top.direct", "top.inner.leaf"]);
}

#[test]
fn test_get_sub_targets_without_prefix() {
    // Without a prefix, callable children keep their bare names and group
    // children stay anonymous: their own children keep bare names too.
    let leaf = target(YakeTargetType::Callable, None, None, None, None);
    let inner = target(YakeTargetType::Group, None, Some(vec![entry("leaf", leaf)]), None, None);
    let direct = target(YakeTargetType::Callable, None, None, None, None);
    let parent = target(
        YakeTargetType::Group,
        None,
        Some(vec![entry("direct", direct), entry("inner", inner)]),
        None,
        None,
    );
    let subs = parent.get_sub_targets(None);
    let names: Vec<&str> = subs.iter().map(|e| e.name.as_str()).collect();
    assert_eq!(names, vec!["direct", "leaf"]);
}

#[test]
fn test_env_map_get_absent_key() {
    let base = target(YakeTargetType::Callable, None, None, None, None);
    let yake = document(Some(vec![env_entry("ONLY", "1")]), vec![entry("base", base)]);
    let envs = yake.get_target_env_vars("base").unwrap();
    assert!(envs.get("OTHER").is_none());
    assert_eq!(envs.len(), 1);
}
