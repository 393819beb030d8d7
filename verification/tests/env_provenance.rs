use locald_core::config::env_provenance::{merge_env_layers, overlay_env, EnvLayer, EnvLayerKind, EnvLayerSource};

fn layer(kind: EnvLayerKind, path: &str, pairs: &[(&str, &str)]) -> EnvLayer {
    EnvLayer {
        kind,
        path: path.to_string(),
        vars: pairs.iter().map(|(k, v)| ((*k).to_string(), (*v).to_string())).collect(),
    }
}

#[test]
fn merge_env_layers_later_wins_and_provenance_tracks_source() {
    let layers = vec![
        layer(EnvLayerKind::Context, "/ctx/.locald.toml", &[("A", "1"), ("B", "1")]),
        layer(EnvLayerKind::Workspace, "/ws/locald.workspace.toml", &[("B", "2")]),
        layer(EnvLayerKind::DotEnv, "/proj/.env", &[("C", "3")]),
    ];

    let resolved = merge_env_layers(&layers);

    assert_eq!(resolved.get_value("A"), Some("1"));
    assert_eq!(resolved.get_value("B"), Some("2"));
    assert_eq!(resolved.get_value("C"), Some("3"));

    let b = resolved.get("B").unwrap();
    assert_eq!(b.source.kind, EnvLayerKind::Workspace);
    assert_eq!(b.source.path, "/ws/locald.workspace.toml".to_string());
}

#[test]
fn overlay_env_overrides_subset_and_preserves_existing_sources() {
    let base_layers = vec![layer(EnvLayerKind::Workspace, "/ws/locald.workspace.toml", &[("A", "1"), ("B", "1")])];
    let base = merge_env_layers(&base_layers);

    let overlay: Vec<(String, String)> = vec![("B".to_string(), "2".to_string())];
    let source = EnvLayerSource { kind: EnvLayerKind::Project, path: "/proj/locald.toml".to_string() };
    let resolved = overlay_env(&base, &overlay, &source);

    assert_eq!(resolved.get_value("A"), Some("1"));
    assert_eq!(resolved.get_value("B"), Some("2"));

    let a = resolved.get("A").unwrap();
    assert_eq!(a.source.kind, EnvLayerKind::Workspace);

    let b = resolved.get("B").unwrap();
    assert_eq!(b.source.kind, EnvLayerKind::Project);
}

#[test]
fn resolved_variables_are_listed_by_name() {
    let layers = vec![layer(EnvLayerKind::Project, "/p", &[("Z", "1"), ("A", "2"), ("M", "3")])];
    let resolved = merge_env_layers(&layers);
    let names: Vec<&str> = resolved.vars().iter().map(|(k, _)| k.as_str()).collect();
    assert_eq!(names, vec!["A", "M", "Z"]);
    assert_eq!(resolved.get_value("missing"), None);
}
