use geodb_core::cache::{
    cache_suffix, compression_of, default_dataset_filename, get_cache_path, is_binary_name, is_cache_fresh, step,
    CompressionMode, LoadAction, LoadEvent, LoadFailure, LoadState,
};

#[test]
fn cache_path_appends_dot_and_suffix() {
    assert_eq!(get_cache_path("countries.json.gz", "flat.bin"), "countries.json.gz.flat.bin");
    assert_eq!(get_cache_path("countries.json.gz", ".flat.bin"), "countries.json.gz..flat.bin");
    assert_eq!(get_cache_path("", ""), ".");
    assert_eq!(get_cache_path("Länder.json", "bin"), "Länder.json.bin");
}

#[test]
fn suffix_and_default_file_name() {
    assert_eq!(cache_suffix(CompressionMode::Plain), ".flat.bin");
    assert_eq!(cache_suffix(CompressionMode::Gzip), ".comp.flat.bin");
    assert_eq!(default_dataset_filename(CompressionMode::Plain), "geodb.flat.bin");
    assert_eq!(default_dataset_filename(CompressionMode::Gzip), "geodb.comp.flat.bin");
}

#[test]
fn binary_names_end_in_dot_bin() {
    assert!(is_binary_name("geodb.flat.bin"));
    assert!(is_binary_name("a.bin"));
    assert!(is_binary_name("ü.bin"));
    assert!(!is_binary_name(".bin"));
    assert!(!is_binary_name("bin"));
    assert!(!is_binary_name("geodb.bin.gz"));
    assert!(!is_binary_name("geodb.BIN"));
    assert!(!is_binary_name("countries.json"));
    assert!(!is_binary_name(""));
}

#[test]
fn a_cache_is_fresh_only_if_it_is_newer() {
    assert!(is_cache_fresh(Some(10), Some(9), Some(8)));
    assert!(is_cache_fresh(Some(10), Some(9), None));
    assert!(is_cache_fresh(Some(10), None, None));
    assert!(!is_cache_fresh(Some(10), Some(10), None));
    assert!(!is_cache_fresh(Some(10), Some(9), Some(10)));
    assert!(!is_cache_fresh(Some(10), Some(11), Some(1)));
    assert!(!is_cache_fresh(Some(10), Some(1), Some(11)));
    assert!(!is_cache_fresh(None, Some(1), Some(1)));
    assert!(!is_cache_fresh(None, None, None));
}

#[test]
fn a_binary_path_is_decoded_and_its_failure_is_the_failure_of_the_load() {
    let (s, a) = step(LoadState::Idle, LoadEvent::Requested { binary: true });
    assert_eq!((s, a), (LoadState::DecodingGiven, LoadAction::DecodeGiven));
    assert_eq!(step(s, LoadEvent::Decoded { failure: None }), (LoadState::Ready, LoadAction::Deliver));
    assert_eq!(
        step(s, LoadEvent::Decoded { failure: Some(LoadFailure::Decode) }),
        (LoadState::Failed(LoadFailure::Decode), LoadAction::Fail(LoadFailure::Decode))
    );
    assert_eq!(
        step(s, LoadEvent::Decoded { failure: Some(LoadFailure::NotFound) }),
        (LoadState::Failed(LoadFailure::NotFound), LoadAction::Fail(LoadFailure::NotFound))
    );
}

#[test]
fn a_source_path_uses_a_fresh_cache_and_rebuilds_when_it_is_unusable() {
    let (s, a) = step(LoadState::Idle, LoadEvent::Requested { binary: false });
    assert_eq!((s, a), (LoadState::Probing, LoadAction::Probe));
    let (s, a) = step(s, LoadEvent::Probed { cache: Some(5), source: Some(4), side: None });
    assert_eq!((s, a), (LoadState::DecodingCache, LoadAction::DecodeCache));
    assert_eq!(step(s, LoadEvent::Decoded { failure: None }), (LoadState::Ready, LoadAction::Deliver));
    let (s, a) = step(s, LoadEvent::Decoded { failure: Some(LoadFailure::Decode) });
    assert_eq!((s, a), (LoadState::Building, LoadAction::Build));
    let (s, a) = step(s, LoadEvent::Built { failure: None });
    assert_eq!((s, a), (LoadState::Caching, LoadAction::WriteCache));
    assert_eq!(step(s, LoadEvent::Written { ok: false }), (LoadState::Ready, LoadAction::Deliver));
    assert_eq!(step(s, LoadEvent::Written { ok: true }), (LoadState::Ready, LoadAction::Deliver));
}

#[test]
fn a_stale_cache_leads_to_building_and_a_failed_build_fails_the_load() {
    let (s, _) = step(LoadState::Idle, LoadEvent::Requested { binary: false });
    let (s, a) = step(s, LoadEvent::Probed { cache: Some(5), source: Some(5), side: None });
    assert_eq!((s, a), (LoadState::Building, LoadAction::Build));
    let (s2, a2) = step(LoadState::Probing, LoadEvent::Probed { cache: None, source: Some(5), side: None });
    assert_eq!((s2, a2), (LoadState::Building, LoadAction::Build));
    assert_eq!(
        step(s, LoadEvent::Built { failure: Some(LoadFailure::Malformed) }),
        (LoadState::Failed(LoadFailure::Malformed), LoadAction::Fail(LoadFailure::Malformed))
    );
    assert_eq!(
        step(s, LoadEvent::Built { failure: Some(LoadFailure::NotFound) }),
        (LoadState::Failed(LoadFailure::NotFound), LoadAction::Fail(LoadFailure::NotFound))
    );
}

#[test]
fn an_event_out_of_place_changes_nothing() {
    assert_eq!(step(LoadState::Idle, LoadEvent::Written { ok: true }), (LoadState::Idle, LoadAction::Nothing));
    assert_eq!(
        step(LoadState::Ready, LoadEvent::Requested { binary: true }),
        (LoadState::Ready, LoadAction::Nothing)
    );
    assert_eq!(
        step(LoadState::Failed(LoadFailure::Decode), LoadEvent::Built { failure: None }),
        (LoadState::Failed(LoadFailure::Decode), LoadAction::Nothing)
    );
}

#[test]
fn compression_goes_by_the_file_name() {
    assert_eq!(compression_of("countries.json.gz"), CompressionMode::Gzip);
    assert_eq!(compression_of("geodb.comp.flat.bin"), CompressionMode::Gzip);
    assert_eq!(compression_of("geodb.flat.bin"), CompressionMode::Plain);
    assert_eq!(compression_of("countries.json"), CompressionMode::Plain);
    assert_eq!(compression_of("gz"), CompressionMode::Plain);
    assert_eq!(compression_of(".gz"), CompressionMode::Gzip);
    assert_eq!(compression_of(""), CompressionMode::Plain);
}
