use clann::codec::{enc_config_push, parse_config};
use clann::config::{Config, MetricsOutput};

#[test]
fn test_default_config() {
    let config = Config::default();
    // Check all default values
    assert_eq!(config.num_tables, 10);
    assert_eq!(config.num_clusters_factor, 1000);
    assert_eq!(config.k, 10);
    assert_eq!(config.delta, 900);
    assert_eq!(config.dataset_name, Vec::<u8>::new());
    assert!(matches!(config.metrics_output, MetricsOutput::NoOutput));
}

#[test]
fn test_new_config() {
    let metrics_output = MetricsOutput::NoOutput;
    let dataset_name = b"test_dataset";
    let config = Config::new(2048, 10_000, 100, 950, dataset_name, metrics_output);

    // Check all custom values
    assert_eq!(config.num_tables, 2048);
    assert_eq!(config.num_clusters_factor, 10_000);
    assert_eq!(config.k, 100);
    assert_eq!(config.delta, 950);
    assert_eq!(config.dataset_name, dataset_name.to_vec());
    assert!(matches!(config.metrics_output, MetricsOutput::NoOutput));
}

#[test]
fn test_serialize_deserialize_json() {
    let original = Config::new(2048, 10_000, 100, 950, b"test_dataset", MetricsOutput::NoOutput);

    // Serialize to JSON
    let mut bytes: Vec<u8> = Vec::new();
    enc_config_push(&mut bytes, &original);
    let serialized = String::from_utf8(bytes.clone()).unwrap();

    // Verify JSON contains expected fields
    assert!(serialized.contains("\"num_tables\":2048"));
    assert!(serialized.contains("\"num_clusters_factor\":10.0"));
    assert!(serialized.contains("\"k\":100"));
    assert!(serialized.contains("\"delta\":0.95"));
    assert!(serialized.contains("\"dataset_name\":\"test_dataset\""));

    // Deserialize back to Config
    let (deserialized, consumed) = parse_config(&bytes, 0).unwrap();
    assert_eq!(consumed, bytes.len());

    // Assert all fields match
    assert_eq!(original.num_tables, deserialized.num_tables);
    assert_eq!(original.num_clusters_factor, deserialized.num_clusters_factor);
    assert_eq!(original.k, deserialized.k);
    assert_eq!(original.delta, deserialized.delta);
    assert_eq!(original.dataset_name, deserialized.dataset_name);
    assert!(matches!(deserialized.metrics_output, MetricsOutput::NoOutput));
}

#[test]
fn test_clone() {
    let original = Config::new(512, 7000, 25, 850, b"clone_test", MetricsOutput::NoOutput);

    let cloned = original.clone();

    // Assert the cloned config matches the original
    assert_eq!(original.num_tables, cloned.num_tables);
    assert_eq!(original.num_clusters_factor, cloned.num_clusters_factor);
    assert_eq!(original.k, cloned.k);
    assert_eq!(original.delta, cloned.delta);
    assert_eq!(original.dataset_name, cloned.dataset_name);
    assert!(matches!(cloned.metrics_output, MetricsOutput::NoOutput));
}

#[test]
fn test_different_metric_outputs() {
    // Create configs with different metric outputs
    let config1 = Config::new(1, 1000, 10, 900, b"test", MetricsOutput::DB);

    // Serialize and deserialize
    let mut bytes: Vec<u8> = Vec::new();
    enc_config_push(&mut bytes, &config1);
    let (deserialized, _) = parse_config(&bytes, 0).unwrap();

    // Verify metric output is preserved
    assert!(matches!(deserialized.metrics_output, MetricsOutput::DB));
}

#[test]
fn test_milli_codec_round_trip() {
    for v in [1u32, 9, 10, 100, 400, 900, 950, 999, 1000, 1500, 10_000, 999_999, 1_000_000] {
        let cfg = Config::new(7, v, 3, 905, b"m", MetricsOutput::NoOutput);
        let mut bytes: Vec<u8> = Vec::new();
        enc_config_push(&mut bytes, &cfg);
        let (back, consumed) = parse_config(&bytes, 0).unwrap();
        assert_eq!(consumed, bytes.len());
        assert_eq!(back.num_clusters_factor, v, "factor {} did not survive", v);
    }
}
