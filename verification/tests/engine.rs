use utoaudio::engine::AudioError;

#[test]
fn string_error_maps_to_engine_variant() {
    let err = AudioError::from("Rust audio engine is not initialized".to_string());
    assert!(matches!(err, AudioError::NotInitialized(_)));
    let err = AudioError::from("decoder boom".to_string());
    assert!(matches!(err, AudioError::Engine(_)));
}
