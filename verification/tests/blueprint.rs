use poker_core::blueprint::{Blueprint, BlueprintError, VERSION};

/// Probabilities as they are stored.
fn stored(probabilities: &[f32]) -> Vec<u32> {
    probabilities.iter().map(|p| p.to_bits()).collect()
}

fn sample_profile() -> Vec<(u64, Vec<u32>)> {
    vec![
        (10, stored(&[0.25, 0.75])),
        (3, stored(&[1.0, 0.0, 0.0])),
        (7, stored(&[0.5, 0.5])),
    ]
}

fn sample(label: &str) -> Blueprint {
    Blueprint::from_profile(&sample_profile(), label.to_string())
}

#[test]
fn lookup_finds_stored_sets_and_refuses_unknown_ones() {
    let blueprint = sample("test");
    assert_eq!(blueprint.len(), 3);

    assert!(blueprint.strategy(3).is_some());
    assert!(blueprint.strategy(7).is_some());
    assert!(blueprint.strategy(10).is_some());

    // Never solved: the caller has to decide, not this module.
    assert_eq!(blueprint.strategy(11), None);
    assert_eq!(blueprint.strategy(0), None);
    assert_eq!(blueprint.best_action(999), None);
}

#[test]
fn strategies_of_differing_lengths_stay_separate() {
    let blueprint = sample("test");
    assert_eq!(blueprint.strategy(3).expect("stored").len(), 3);
    assert_eq!(blueprint.strategy(7).expect("stored").len(), 2);
    assert_eq!(blueprint.strategy(10).expect("stored").len(), 2);
    assert_eq!(blueprint.strategy(10).expect("stored"), stored(&[0.25, 0.75]));
}

#[test]
fn best_action_picks_the_largest_probability() {
    let blueprint = sample("test");
    assert_eq!(blueprint.best_action(10), Some(1), "0.75 beats 0.25");
    assert_eq!(blueprint.best_action(3), Some(0));
}

#[test]
fn a_blueprint_round_trips_through_disk() {
    let original = sample("heads-up 100bb");
    let file = original.to_bytes();
    assert_eq!(file.len(), original.size_on_disk());

    let loaded = Blueprint::from_bytes(&file).expect("load");
    assert_eq!(loaded.label(), "heads-up 100bb");
    for key in [3u64, 7, 10] {
        assert_eq!(loaded.strategy(key), original.strategy(key), "key {key}");
    }
    assert_eq!(loaded.entries(), original.entries());
    assert_eq!(loaded.to_bytes(), file);
}

#[test]
fn metadata_survives_a_round_trip() {
    let blueprint = Blueprint::from_solver(
        &sample_profile(),
        "labelled".to_string(),
        1_234_567,
        Some(0.0042f64.to_bits()),
    );
    let loaded = Blueprint::from_bytes(&blueprint.to_bytes()).expect("load");

    assert_eq!(loaded.iterations(), 1_234_567);
    assert_eq!(loaded.exploitability().map(f64::from_bits), Some(0.0042));
    assert_eq!(loaded.label(), "labelled");
}

#[test]
fn an_unmeasured_exploitability_stays_absent() {
    let blueprint = sample("unmeasured");
    assert_eq!(blueprint.exploitability(), None);
    let loaded = Blueprint::from_bytes(&blueprint.to_bytes()).expect("load");
    assert_eq!(loaded.exploitability(), None);
}

#[test]
fn an_empty_blueprint_is_valid() {
    let blueprint = Blueprint::from_profile(&Vec::new(), "empty".to_string());
    assert!(blueprint.is_empty());
    assert_eq!(blueprint.strategy(0), None);

    let loaded = Blueprint::from_bytes(&blueprint.to_bytes()).expect("load");
    assert!(loaded.is_empty());
}

#[test]
fn a_file_that_is_not_a_blueprint_is_rejected() {
    let error = Blueprint::from_bytes(b"this is not a blueprint at all").err();
    assert_eq!(error, Some(BlueprintError::Magic));
}

#[test]
fn a_truncated_file_is_rejected() {
    let bytes = sample("truncated").to_bytes();
    assert_eq!(
        Blueprint::from_bytes(&bytes[..bytes.len() / 2]).err(),
        Some(BlueprintError::Truncated),
        "half a file is not a blueprint"
    );
    for size in 0..bytes.len() {
        assert!(Blueprint::from_bytes(&bytes[..size]).is_err(), "{size} bytes");
    }
}

#[test]
fn a_wrong_version_is_rejected_rather_than_misread() {
    let mut bytes = sample("versioned").to_bytes();
    bytes[4..8].copy_from_slice(&(VERSION + 1).to_le_bytes());

    let error = Blueprint::from_bytes(&bytes).err().expect("should refuse");
    assert_eq!(error, BlueprintError::Version(VERSION + 1));
    assert!(error.to_string().contains("version"), "{}", error.to_string());
}

#[test]
fn unsorted_keys_are_rejected() {
    // A blueprint whose keys are out of order would make bisection return
    // the wrong strategy, silently.
    let blueprint = sample("sorted");
    let mut bytes = blueprint.to_bytes();
    // The key block starts after magic, version, label header, label,
    // iterations, the exploitability flag and value, and the count.
    let start = 4 + 4 + 4 + blueprint.label().len() + 8 + 1 + 8 + 8;
    bytes[start..start + 8].copy_from_slice(&u64::MAX.to_le_bytes());

    let error = Blueprint::from_bytes(&bytes).err().expect("should refuse");
    assert_eq!(error, BlueprintError::Keys);
    assert!(error.to_string().contains("ascending"), "{}", error.to_string());
}

#[test]
fn offsets_that_go_back_are_rejected() {
    let blueprint = sample("offsets");
    let mut bytes = blueprint.to_bytes();
    let start = 4 + 4 + 4 + blueprint.label().len() + 8 + 1 + 8 + 8 + 3 * 8;
    bytes[start + 4..start + 8].copy_from_slice(&6u32.to_le_bytes());
    assert_eq!(Blueprint::from_bytes(&bytes).err(), Some(BlueprintError::Offsets));
}

#[test]
fn a_label_in_another_script_survives_and_a_broken_one_is_refused() {
    let blueprint = sample("флоп ♠");
    let mut bytes = blueprint.to_bytes();
    assert_eq!(Blueprint::from_bytes(&bytes).expect("load").label(), "флоп ♠");

    // A byte that never begins a character.
    bytes[12] = 0xFF;
    assert_eq!(Blueprint::from_bytes(&bytes).err(), Some(BlueprintError::Label));
}

#[test]
fn many_keys_all_look_up_correctly() {
    // Exercises the bisection across a realistic key spread.
    let mut profile = Vec::new();
    for index in 0..5_000u64 {
        let key = index.wrapping_mul(0x9E37_79B9_7F4A_7C15);
        let weight = index as f64 % 7.0 + 1.0;
        let share = weight / (weight + 2.0);
        profile.push((key, stored(&[share as f32, (1.0 - share) as f32])));
    }
    let blueprint = Blueprint::from_profile(&profile, "wide".to_string());
    assert_eq!(blueprint.len(), profile.len());

    for (key, expected) in &profile {
        assert_eq!(blueprint.strategy(*key).expect("stored"), expected, "key {key}");
    }
}

#[test]
fn entries_walk_every_stored_set() {
    let blueprint = sample("walk");
    let collected: Vec<u64> = blueprint.entries().iter().map(|(key, _)| *key).collect();
    assert_eq!(collected, vec![3, 7, 10], "in ascending key order");
    assert_eq!(blueprint.entries().len(), blueprint.len());
}

#[test]
fn the_most_likely_action_is_compared_as_a_number() {
    let profile = vec![
        (1, vec![(-0.5f32).to_bits(), 0.25f32.to_bits()]),
        (2, vec![0.25f32.to_bits(), (-0.5f32).to_bits(), (-0.75f32).to_bits()]),
        (3, vec![(-0.75f32).to_bits(), (-0.5f32).to_bits()]),
        (4, vec![0.0f32.to_bits(), (-0.0f32).to_bits()]),
        (5, vec![0.5f32.to_bits(), f32::NAN.to_bits(), 0.25f32.to_bits()]),
        (6, vec![0.5f32.to_bits(), 0.5f32.to_bits()]),
    ];
    let blueprint = Blueprint::from_profile(&profile, "test".to_string());
    assert_eq!(blueprint.best_action(1), Some(1));
    assert_eq!(blueprint.best_action(2), Some(0));
    assert_eq!(blueprint.best_action(3), Some(1));
    assert_eq!(blueprint.best_action(4), Some(1), "the two zeros are alike");
    assert_eq!(blueprint.best_action(5), Some(2), "what is no number gives way");
    assert_eq!(blueprint.best_action(6), Some(1), "the last of several");
}
