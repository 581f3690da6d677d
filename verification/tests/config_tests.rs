use typed_interactions::config::Configuration;

#[test]
fn builder_collects_sources_and_paths() {
    let mut cfg = Configuration::with_paths(
        "schema/ctf.json".to_string(),
        "out/interactions.rs".to_string(),
    );
    assert_eq!(cfg.sources(), &vec!["schema/ctf.json".to_string()]);
    assert_eq!(cfg.destination(), "out/interactions.rs");
    assert_eq!(cfg.resolved_type(), &None);

    cfg.src("schema/other.json".to_string());
    cfg.dest("out/gen.rs".to_string());
    cfg.resolved_struct("MyResolved".to_string());
    assert_eq!(
        cfg.sources(),
        &vec![
            "schema/ctf.json".to_string(),
            "schema/other.json".to_string()
        ]
    );
    assert_eq!(cfg.destination(), "out/gen.rs");
    assert_eq!(cfg.resolved_type(), &Some("MyResolved".to_string()));
}
