use rsplug::config::{CacheConfig, MergeConfig, PluginConfig, SetupScript};
use rsplug::dag::iterator::DagIteratorMapFuncArgs;
use rsplug::dag::{DagError, TryDag};
use rsplug::lazy_type::LazyType;
use std::collections::{HashMap, HashSet};

type Args<'a> = DagIteratorMapFuncArgs<'a, PluginConfig>;

fn node(id: Option<&str>, depends: &[&str]) -> PluginConfig {
    PluginConfig {
        id: id.map(str::to_string),
        cache: CacheConfig {
            repo: None,
            dotgit: false,
            build: Vec::new(),
            lua_build: None,
            lua_post_update: None,
        },
        lazy_type: LazyType::Start,
        depends: depends.iter().map(|s| s.to_string()).collect(),
        custom_name: None,
        script: SetupScript::default(),
        merge: MergeConfig {
            ignore: None,
            merge: true,
        },
    }
}

fn name(node: &PluginConfig) -> String {
    node.id.clone().unwrap_or_default()
}

#[test]
fn unknown_dependency_detection() {
    let nodes = vec![node(Some("A"), &["B"])];

    let res = nodes.try_dag();
    assert!(matches!(res, Err(DagError::UnknownDependency { .. })));
}

#[test]
fn duplicate_node_detection() {
    let nodes = vec![
        node(Some("A"), &[]),
        node(Some("A"), &[]),
    ];

    let res = nodes.try_dag();
    assert!(matches!(res, Err(DagError::DuplicateName(_))));
}

#[test]
fn cycle_detection() {
    let nodes = vec![
        node(Some("A"), &["B"]),
        node(Some("B"), &["A"]),
    ];

    let res = nodes.try_dag();
    assert!(matches!(res, Err(DagError::CycleDetected(_))));
}

#[test]
fn successful_resolution() {
    let nodes = vec![
        node(Some("A"), &["B", "C"]),
        node(Some("B"), &["C"]),
        node(Some("C"), &[]),
    ];

    let res = nodes.try_dag().ok().unwrap();

    let mut resolved_nodes = res.into_iter();
    assert_eq!(resolved_nodes.next().unwrap().id.as_deref(), Some("C"));
    assert_eq!(resolved_nodes.next().unwrap().id.as_deref(), Some("B"));
    assert_eq!(resolved_nodes.next().unwrap().id.as_deref(), Some("A"));
    assert!(resolved_nodes.next().is_none());
}

fn chain() -> Vec<PluginConfig> {
    vec![
        node(Some("A"), &["B"]),
        node(Some("B"), &["C"]),
        node(Some("C"), &[]),
    ]
}

#[test]
fn get_direct_dependents() {
    let res = chain().try_dag().ok().unwrap();
    let mut iter = res.into_map_iter(|mut d: Args| {
        (
            name(&d.inner),
            d.dependents_iter
                .next()
                .unwrap_or_default()
                .into_iter()
                .map(name)
                .collect::<HashSet<_>>(),
        )
    });
    let mut direct_dependents_map: HashMap<String, HashSet<String>> = HashMap::new();
    while let Some((id, dependents)) = iter.next() {
        direct_dependents_map.insert(id, dependents);
    }

    let dependents = direct_dependents_map.get("A").unwrap();
    assert!(dependents.is_empty());

    let dependents = direct_dependents_map.get("B").unwrap();
    assert_eq!(dependents.len(), 1);
    assert!(dependents.contains("A"));

    let dependents = direct_dependents_map.get("C").unwrap();
    assert_eq!(dependents.len(), 1);
    assert!(dependents.contains("B"));
}

#[test]
fn get_recursive_dependents() {
    let res = chain().try_dag().ok().unwrap();
    let mut iter = res.into_map_iter(|mut d: Args| {
        let mut all = HashSet::new();
        while let Some(level) = d.dependents_iter.next() {
            all.extend(level.into_iter().map(name));
        }
        (name(&d.inner), all)
    });
    let mut recursive_dependents_map: HashMap<String, HashSet<String>> = HashMap::new();
    while let Some((id, dependents)) = iter.next() {
        recursive_dependents_map.insert(id, dependents);
    }

    let dependents = recursive_dependents_map.get("A").unwrap();
    assert!(dependents.is_empty());

    let dependents = recursive_dependents_map.get("B").unwrap();
    assert_eq!(dependents.len(), 1);
    assert!(dependents.contains("A"));

    let dependents = recursive_dependents_map.get("C").unwrap();
    assert_eq!(dependents.len(), 2);
    assert!(dependents.contains("A"));
    assert!(dependents.contains("B"));
}

#[test]
fn multiple_unnamed_nodes_coexist() {
    let nodes = vec![
        node(None, &[]),
        node(None, &[]),
    ];
    let res = nodes.try_dag();
    assert!(res.is_ok());
}

#[test]
fn unnamed_node_is_not_dependency_target() {
    let nodes = vec![
        node(None, &[]),
        node(Some("A"), &["__nonexistent__"]),
    ];
    let res = nodes.try_dag();
    assert!(matches!(res, Err(DagError::UnknownDependency { .. })));
}

#[test]
fn unnamed_node_can_depend_on_named() {
    let nodes = vec![
        node(Some("base"), &[]),
        node(None, &["base"]),
    ];
    let res = nodes.try_dag().ok().unwrap();
    let mut iter = res.into_iter();
    let mut ids = Vec::new();
    while let Some(n) = iter.next() {
        ids.push(n.id);
    }
    assert_eq!(ids, vec![Some("base".to_string()), None]);
}

#[test]
fn map_iter_receives_index_and_depth() {
    let nodes = vec![
        node(Some("leaf"), &[]),
        node(Some("root"), &["leaf"]),
    ];
    let res = nodes.try_dag().ok().unwrap();
    let mut iter =
        res.into_map_iter(|d: Args| (name(&d.inner), (d.index, d.depth)));
    let mut collected: HashMap<String, (usize, usize)> = HashMap::new();
    while let Some((id, place)) = iter.next() {
        collected.insert(id, place);
    }
    assert_eq!(collected["leaf"], (0, 0));
    assert_eq!(collected["root"], (1, 1));
}

#[test]
fn dag_errors_have_messages() {
    assert_eq!(
        DagError::DuplicateName("x".to_string()).message(),
        "duplicate node: x"
    );
    let unknown = vec![node(None, &["gone"])]
    .try_dag()
    .err()
    .unwrap();
    assert_eq!(
        unknown.message(),
        "unknown dependency: gone (referred by <unnamed>)"
    );
    let cycle = vec![
        node(Some("a"), &["b"]),
        node(Some("b"), &["a"]),
        node(Some("c"), &["a"]),
    ]
    .try_dag()
    .err()
    .unwrap();
    match cycle {
        DagError::CycleDetected(mut names) => {
            names.sort();
            assert_eq!(names, vec!["a", "b", "c"]);
        }
        other => panic!("expected a cycle, got {other:?}"),
    }
}

#[test]
fn dependencies_come_before_dependents() {
    // A diamond: every node once, dependencies first, the deepest chain counts.
    let nodes = vec![
        node(Some("top"), &["left", "right"]),
        node(Some("left"), &["base"]),
        node(Some("right"), &["left", "base"]),
        node(Some("base"), &[]),
    ];
    let res = nodes.try_dag().ok().unwrap();
    let mut iter =
        res.into_map_iter(|d: Args| (name(&d.inner), d.index, d.depth));
    let mut seen = Vec::new();
    while let Some(x) = iter.next() {
        seen.push(x);
    }
    let expected = [
        ("base", 3, 0),
        ("left", 1, 1),
        ("right", 2, 2),
        ("top", 0, 3),
    ];
    assert_eq!(
        seen,
        expected.map(|(n, i, d)| (n.to_string(), i, d)).to_vec()
    );
}

#[test]
fn whole_runs_map_every_node_once() {
    let nodes = vec![
        node(Some("top"), &["left", "right"]),
        node(Some("left"), &["base"]),
        node(Some("right"), &["base"]),
        node(Some("base"), &[]),
    ];
    let res = nodes.try_dag().ok().unwrap();
    let mapped = res
        .into_map_iter(|d: Args| (name(&d.inner), d.index, d.depth))
        .collect();
    assert_eq!(mapped.len(), 4);
    assert_eq!(mapped[0], ("base".to_string(), 3, 0));
    assert_eq!(mapped[3], ("top".to_string(), 0, 2));
    let middle: HashSet<(String, usize, usize)> = mapped[1..3].iter().cloned().collect();
    let expected: HashSet<(String, usize, usize)> =
        [("left".to_string(), 1, 1), ("right".to_string(), 2, 1)].into();
    assert_eq!(middle, expected);
}

#[test]
fn levels_of_dependents_end() {
    let nodes = vec![
        node(Some("top"), &["left", "right"]),
        node(Some("left"), &["base"]),
        node(Some("right"), &["base"]),
        node(Some("base"), &[]),
        node(Some("other"), &[]),
    ];
    let res = nodes.try_dag().ok().unwrap();
    let mut levels: HashMap<String, Vec<Vec<String>>> = HashMap::new();
    let found = res
        .into_map_iter(|mut d: Args| {
            let mut all = Vec::new();
            while let Some(level) = d.dependents_iter.next() {
                let mut names: Vec<String> = level.into_iter().map(name).collect();
                names.sort();
                all.push(names);
            }
            assert!(d.dependents_iter.next().is_none());
            (name(&d.inner), all)
        })
        .collect();
    levels.extend(found);
    assert!(levels["top"].is_empty());
    assert!(levels["other"].is_empty());
    assert_eq!(levels["left"], [["top"]]);
    assert_eq!(levels["base"], [vec!["left", "right"], vec!["top"]]);
}
