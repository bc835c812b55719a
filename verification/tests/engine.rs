use par_csv::engine::Engine;
use par_csv::errors::EngineError;

#[test]
fn missing_dataset_path_is_refused() {
    match Engine::from_settings(None, Some("4".to_string()), Some(8)) {
        Err(EngineError::InvalidArguments(msg)) => assert_eq!(msg, "DATASET_PATH not set"),
        Err(e) => panic!("unexpected error: {}", e.to_string()),
        Ok(_) => panic!("an engine without a dataset"),
    }
}

#[test]
fn workers_come_from_the_setting() {
    assert_eq!(Engine::workers_from(&Some("4".to_string()), Some(8)), 4);
    assert_eq!(Engine::workers_from(&Some("+4".to_string()), Some(8)), 4);
    assert_eq!(Engine::workers_from(&Some("0".to_string()), Some(8)), 0);
}

#[test]
fn invalid_workers_setting_falls_back() {
    assert_eq!(Engine::workers_from(&Some("four".to_string()), Some(8)), 8);
    assert_eq!(Engine::workers_from(&Some(" 4".to_string()), Some(8)), 8);
    assert_eq!(Engine::workers_from(&Some("-4".to_string()), None), 1);
    assert_eq!(Engine::workers_from(&Some("99999999999999999999999".to_string()), Some(2)), 2);
    assert_eq!(Engine::workers_from(&None, Some(6)), 6);
    assert_eq!(Engine::workers_from(&None, None), 1);
}

#[test]
fn pool_outcome_completes_the_engine() {
    let engine = Engine::from_pool_outcome("data.csv".to_string(), Ok(2)).unwrap();
    assert_eq!(engine.path(), "data.csv");
    assert_eq!(engine.workers(), 2);
}
