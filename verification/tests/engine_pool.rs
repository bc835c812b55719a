use par_csv::engine::Engine;

#[test]
fn engine_is_configured_from_its_settings() {
    let engine = Engine::from_settings(Some("data.csv".to_string()), Some("3".to_string()), Some(8))
        .unwrap_or_else(|e| panic!("configuration failed: {}", e.to_string()));
    assert_eq!(engine.path(), "data.csv");
    assert_eq!(engine.workers(), 3);
}
