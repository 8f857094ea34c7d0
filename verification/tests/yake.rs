use yake::yake::{EnvEntry, TargetEntry, Yake, YakeMeta, YakeTarget, YakeTargetMeta, YakeTargetType};

fn env_entry(key: &str, value: &str) -> EnvEntry {
    EnvEntry { key: key.to_string(), value: value.to_string() }
}

fn get_yake_targets() -> Vec<TargetEntry> {
    let env = vec![env_entry("WEBAPP_PORT", "6543"), env_entry("POSTGRES_PORT", "5432")];
    let callable_target = YakeTarget {
        targets: None,
        meta: YakeTargetMeta {
            doc: "Huhu".to_string(),
            target_type: YakeTargetType::Callable,
            depends: Some(vec!["base".to_string()]),
        },
        env: Some(env),
        commands: None,
    };

    let env_sub = vec![
        env_entry("BASE", "OVERWRITE"),
        env_entry("DOCKER_PORT", "1234"),
        env_entry("POSTGRES_PORT", "54322"),
    ];
    let sub_target = YakeTarget {
        targets: None,
        meta: YakeTargetMeta {
            doc: "Subtarget".to_string(),
            target_type: YakeTargetType::Callable,
            depends: Some(vec!["base".to_string()]),
        },
        env: Some(env_sub),
        commands: None,
    };

    let group_target = YakeTarget {
        targets: Some(vec![TargetEntry { name: "sub".to_string(), target: sub_target }]),
        meta: YakeTargetMeta {
            doc: "Grouptarget".to_string(),
            target_type: YakeTargetType::Group,
            depends: None,
        },
        env: None,
        commands: None,
    };

    vec![
        TargetEntry {
            name: "base".to_string(),
            target: YakeTarget {
                targets: None,
                meta: YakeTargetMeta {
                    doc: "Base".to_string(),
                    target_type: YakeTargetType::Callable,
                    depends: None,
                },
                env: None,
                commands: None,
            },
        },
        TargetEntry { name: "test".to_string(), target: callable_target },
        TargetEntry { name: "group".to_string(), target: group_target },
    ]
}

fn get_yake() -> Yake {
    let targets = get_yake_targets();
    let env_root = vec![env_entry("BASE", "BASEVAL")];

    Yake {
        targets,
        env: Some(env_root),
        meta: YakeMeta {
            doc: "Bla".to_string(),
            version: "1.0.0".to_string(),
            include_recursively: None,
        },
    }
}

#[test]
fn test_get_all_targets() {
    let yake = get_yake();

    let all_targets = yake.get_all_targets();
    assert_eq!(all_targets.len(), 4);
}

#[test]
fn test_get_all_dependencies() {
    let yake = get_yake();
    let dependencies = yake.get_all_dependencies().unwrap();
    assert_eq!(dependencies.len(), 3);
    assert_eq!(dependencies.get("test").unwrap().len(), 1);
    assert_eq!(dependencies.get("base").unwrap().len(), 0);
    assert_eq!(dependencies.get("group.sub").unwrap().len(), 1);
}

#[test]
fn test_get_target_by_name() {
    let yake = get_yake();
    assert_eq!(yake.get_target_by_name("group.sub").is_some(), true);
    assert_eq!(yake.get_target_by_name("base").is_some(), true);
    assert_eq!(yake.get_target_by_name("sub").is_none(), true);
}

#[test]
fn test_has_target_name() {
    let yake = get_yake();
    assert_eq!(yake.has_target_name("group.sub").is_ok(), true);
    assert_eq!(yake.has_target_name("sub").is_err(), true);
    assert_eq!(yake.has_target_name("sub").err().unwrap().len(), 3);
}

#[test]
fn test_get_target_names() {
    let yake = get_yake();
    let names = yake.get_target_names();
    assert_eq!(names.len(), 3);
    assert_eq!(names.contains(&"group.sub".to_string()), true);
    assert_eq!(names.contains(&"base".to_string()), true);
    assert_eq!(names.contains(&"test".to_string()), true);
}

#[test]
fn test_get_dependencies_by_name() {
    let yake = get_yake();
    let dependencies = yake.get_dependencies_by_name("group.sub").unwrap();
    assert_eq!(dependencies.len(), 1);
    assert_eq!(dependencies[0].meta.doc, "Base".to_string());
}

#[test]
fn test_get_env_vars() {
    let yake = get_yake();

    let envs = yake.get_target_env_vars("base").unwrap_or_default();
    assert_eq!(envs.len(), 1);
    assert_eq!(envs.get("BASE").unwrap(), "BASEVAL");

    let envs = yake.get_target_env_vars("test").unwrap_or_default();
    assert_eq!(envs.len(), 3);
    assert_eq!(envs.get("BASE").unwrap(), "BASEVAL");
    assert_eq!(envs.get("WEBAPP_PORT").unwrap(), "6543");
    assert_eq!(envs.get("POSTGRES_PORT").unwrap(), "5432");

    let envs = yake.get_target_env_vars("group").unwrap_or_default();
    assert_eq!(envs.len(), 1);
    assert_eq!(envs.get("BASE").unwrap(), "BASEVAL");

    let envs = yake.get_target_env_vars("group.sub").unwrap_or_default();
    assert_eq!(envs.len(), 3);
    assert_eq!(envs.get("BASE").unwrap(), "OVERWRITE");
    assert_eq!(envs.get("DOCKER_PORT").unwrap(), "1234");
    assert_eq!(envs.get("POSTGRES_PORT").unwrap(), "54322");
}

#[test]
#[should_panic]
fn test_get_env_vars_bad() {
    let env = vec![env_entry("WEBAPP_PORT", "6543"), env_entry("PATH", "$HOME/bin:$PATH")];
    let mut yake = get_yake();
    yake.env = Some(env);

    yake.get_target_env_vars("base").unwrap();
}
