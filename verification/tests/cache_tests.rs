use phantasy::cache::{CACHE_DIR,
    cache_file_name, cache_step, track_stem, CacheAction, CacheEvent, CachePhase,
};
use phantasy::scanner::FailureKind;

#[test]
fn the_stem_is_the_name_without_its_extension() {
    assert_eq!(track_stem("song.ogg"), "song");
    assert_eq!(track_stem("archive.tar.gz"), "archive.tar");
    assert_eq!(track_stem("a.b"), "a");
    assert_eq!(track_stem("trailing."), "trailing");
    assert_eq!(track_stem("two.."), "two.");
}

#[test]
fn a_name_without_extension_is_its_own_stem() {
    assert_eq!(track_stem("noext"), "noext");
    assert_eq!(track_stem(""), "");
    assert_eq!(track_stem(".hidden"), ".hidden");
    assert_eq!(track_stem("."), ".");
}

#[test]
fn a_hidden_name_may_have_an_extension() {
    assert_eq!(track_stem(".hidden.ogg"), ".hidden");
    assert_eq!(track_stem(".."), ".");
}

#[test]
fn the_stem_counts_characters_not_bytes() {
    assert_eq!(track_stem("caf\u{e9} \u{266b}.ogg"), "caf\u{e9} \u{266b}");
    assert_eq!(track_stem("\u{266b}.\u{266b}"), "\u{266b}");
}

#[test]
fn the_stem_agrees_with_the_standard_library() {
    let names = ["song.ogg", "a.b.c", "noext", ".hidden", "x.", ".a.b", "", "dir.name.flac"];
    for name in names {
        let expected = std::path::Path::new(name)
            .file_stem()
            .map(|stem| stem.to_string_lossy().into_owned())
            .unwrap_or_default();
        assert_eq!(track_stem(name), expected);
    }
}

#[test]
fn a_fingerprint_is_stored_as_json_under_its_stem() {
    assert_eq!(cache_file_name("song"), "song.json");
    assert_eq!(cache_file_name(""), ".json");
    assert_eq!(cache_file_name(&track_stem("My Track.ogg")), "My Track.json");
}

#[test]
fn a_stored_fingerprint_is_loaded_and_not_built() {
    assert_eq!(
        cache_step(CachePhase::Probing, CacheEvent::Found),
        Some((CachePhase::Loading, CacheAction::Load))
    );
    assert_eq!(
        cache_step(CachePhase::Loading, CacheEvent::Loaded),
        Some((CachePhase::Finished, CacheAction::Return))
    );
}

#[test]
fn a_missing_fingerprint_is_built_then_stored_then_returned() {
    assert_eq!(
        cache_step(CachePhase::Probing, CacheEvent::Missing),
        Some((CachePhase::Building, CacheAction::Build))
    );
    assert_eq!(
        cache_step(CachePhase::Building, CacheEvent::Built),
        Some((CachePhase::Persisting, CacheAction::Persist))
    );
    assert_eq!(
        cache_step(CachePhase::Persisting, CacheEvent::Persisted),
        Some((CachePhase::Finished, CacheAction::Return))
    );
}

#[test]
fn an_unreadable_fingerprint_fails_the_track_and_is_not_rebuilt() {
    assert_eq!(
        cache_step(CachePhase::Loading, CacheEvent::LoadFailed),
        Some((CachePhase::Finished, CacheAction::Fail { reason: FailureKind::CacheIo }))
    );
    assert_eq!(
        cache_step(CachePhase::Persisting, CacheEvent::PersistFailed),
        Some((CachePhase::Finished, CacheAction::Fail { reason: FailureKind::CacheIo }))
    );
}

#[test]
fn a_failed_build_fails_with_its_own_reason() {
    assert_eq!(
        cache_step(CachePhase::Building, CacheEvent::BuildFailed { reason: FailureKind::Decode }),
        Some((CachePhase::Finished, CacheAction::Fail { reason: FailureKind::Decode }))
    );
    assert_eq!(
        cache_step(
            CachePhase::Building,
            CacheEvent::BuildFailed { reason: FailureKind::Conversion }
        ),
        Some((CachePhase::Finished, CacheAction::Fail { reason: FailureKind::Conversion }))
    );
}

#[test]
fn an_event_out_of_place_is_refused() {
    assert_eq!(cache_step(CachePhase::Probing, CacheEvent::Loaded), None);
    assert_eq!(cache_step(CachePhase::Probing, CacheEvent::Built), None);
    assert_eq!(cache_step(CachePhase::Loading, CacheEvent::Found), None);
    assert_eq!(cache_step(CachePhase::Loading, CacheEvent::Persisted), None);
    assert_eq!(cache_step(CachePhase::Building, CacheEvent::Missing), None);
    assert_eq!(cache_step(CachePhase::Persisting, CacheEvent::Built), None);
    assert_eq!(cache_step(CachePhase::Finished, CacheEvent::Found), None);
    assert_eq!(cache_step(CachePhase::Finished, CacheEvent::Persisted), None);
}

#[test]
fn fingerprints_are_kept_in_the_hashes_directory() {
    assert_eq!(CACHE_DIR, "hashes");
}
