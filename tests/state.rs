use std::collections::HashMap;

use waifu_bot::{
    apply_selection, character_stats_key, decode_characters, decode_profile, decode_team,
    encode_characters, encode_profile, encode_team, profile_after_selection, team_key, user_key, CharacterRegistry,
    ProfileCard, StoreError, Team, UserProfile, WaifuCharacter, RECORD_VERSION,
    RESET_PERIOD_MS,
};

const DAY_MS: i64 = 86_400_000;

fn character(name: &str, id: u64, count: u32, last_reset: i64) -> WaifuCharacter {
    WaifuCharacter {
        name: name.to_string(),
        emoji_id: id,
        emoji_name: name.to_lowercase(),
        role_id: id + 1000,
        description: String::new(),
        selection_count: count,
        last_reset,
    }
}

fn two_character_registry() -> CharacterRegistry {
    CharacterRegistry::from_characters(vec![character("A", 1, 0, 0), character("B", 2, 0, 0)])
        .unwrap()
}

fn counts(reg: &CharacterRegistry) -> Vec<u32> {
    reg.characters().iter().map(|c| c.selection_count).collect()
}

fn sample_profile() -> UserProfile {
    UserProfile {
        user_id: 77,
        selected_waifu: 5,
        team_id: Some("crew-ü".to_string()),
        join_date: -3,
        last_selection_date: 1_700_000_000_000,
        previous_selections: vec![1, 2, 3, u64::MAX],
    }
}

/// A selection as the bot runs it, against an in-memory byte store.
fn select(
    reg: &mut CharacterRegistry,
    store: &mut HashMap<Vec<u8>, Vec<u8>>,
    user: u64,
    id: u64,
    now: i64,
) -> Result<(), StoreError> {
    let _ = reg.record_selection(id);
    store.insert(character_stats_key(), reg.snapshot());
    let stored = store.get(&user_key(user)).cloned();
    let profile = profile_after_selection(stored.as_deref(), user, id, now)?;
    store.insert(user_key(user), encode_profile(&profile));
    Ok(())
}

#[test]
fn profile_round_trip() {
    let p = sample_profile();
    assert_eq!(decode_profile(&encode_profile(&p)), Ok(p));
    let q = UserProfile {
        user_id: 0,
        selected_waifu: 0,
        team_id: None,
        join_date: 0,
        last_selection_date: 0,
        previous_selections: vec![],
    };
    assert_eq!(decode_profile(&encode_profile(&q)), Ok(q));
}

#[test]
fn team_round_trip() {
    let t = Team {
        id: "t1".to_string(),
        name: "Zero Two ♥ fans".to_string(),
        leader_id: 9,
        members: vec![9, 10, 11],
        created_at: 1_600_000_000_123,
    };
    assert_eq!(decode_team(&encode_team(&t)), Ok(t));
    let empty = Team {
        id: String::new(),
        name: String::new(),
        leader_id: 0,
        members: vec![],
        created_at: 0,
    };
    assert_eq!(decode_team(&encode_team(&empty)), Ok(empty));
}

#[test]
fn characters_round_trip() {
    let cs = vec![character("Rem", 3, 4, 5), character("Ãñ", 9, u32::MAX, -1)];
    assert_eq!(decode_characters(&encode_characters(&cs)), Ok(cs));
    assert_eq!(decode_characters(&encode_characters(&vec![])), Ok(vec![]));
}

#[test]
fn profile_record_layout() {
    let p = UserProfile {
        user_id: 1,
        selected_waifu: 2,
        team_id: None,
        join_date: 3,
        last_selection_date: 4,
        previous_selections: vec![5],
    };
    let mut expected = vec![RECORD_VERSION];
    for x in [1u64, 2] {
        expected.extend_from_slice(&x.to_le_bytes());
    }
    expected.push(0);
    for x in [3u64, 4, 1, 5] {
        expected.extend_from_slice(&x.to_le_bytes());
    }
    assert_eq!(encode_profile(&p), expected);
}

#[test]
fn corrupt_records_are_rejected() {
    let good = encode_profile(&sample_profile());
    assert_eq!(decode_profile(&[]), Err(StoreError::CorruptRecord));
    let mut wrong_version = good.clone();
    wrong_version[0] = 2;
    assert_eq!(decode_profile(&wrong_version), Err(StoreError::CorruptRecord));
    let mut trailing = good.clone();
    trailing.push(0);
    assert_eq!(decode_profile(&trailing), Err(StoreError::CorruptRecord));
    assert_eq!(decode_profile(&good[..good.len() - 1]), Err(StoreError::CorruptRecord));
    let mut bad_tag = good.clone();
    bad_tag[17] = 7;
    assert_eq!(decode_profile(&bad_tag), Err(StoreError::CorruptRecord));
    let t = Team {
        id: "ab".to_string(),
        name: String::new(),
        leader_id: 0,
        members: vec![],
        created_at: 0,
    };
    let mut bad_utf8 = encode_team(&t);
    bad_utf8[9] = 0xff;
    assert_eq!(decode_team(&bad_utf8), Err(StoreError::CorruptRecord));
    assert_eq!(decode_characters(&[1, 1]), Err(StoreError::CorruptRecord));
}

#[test]
fn store_keys() {
    assert_eq!(user_key(42), b"user:42".to_vec());
    assert_eq!(user_key(0), b"user:0".to_vec());
    assert_eq!(user_key(u64::MAX), b"user:18446744073709551615".to_vec());
    assert_eq!(team_key("red-team"), b"team:red-team".to_vec());
    assert_eq!(character_stats_key(), b"character_stats".to_vec());
}

#[test]
fn seeded_roster() {
    let reg = CharacterRegistry::seeded(123);
    let cs = reg.characters();
    assert_eq!(cs.len(), 13);
    assert_eq!(cs[0].name, "Maki");
    assert_eq!(cs[0].emoji_id, 1327355612350382141);
    assert_eq!(cs[5].name, "Zero Two");
    assert_eq!(cs[5].emoji_name, "002");
    assert_eq!(cs[12].emoji_id, 1332070942746349659);
    assert!(cs.iter().all(|c| c.selection_count == 0 && c.last_reset == 123 && c.role_id == 0));
}

#[test]
fn duplicate_identifiers_are_refused() {
    let dup = vec![character("A", 1, 0, 0), character("B", 1, 0, 0)];
    assert!(CharacterRegistry::from_characters(dup.clone()).is_none());
    let stored = encode_characters(&dup);
    assert!(matches!(
        CharacterRegistry::restore(Some(&stored), 0),
        Err(StoreError::CorruptRecord)
    ));
}

#[test]
fn restore_from_store() {
    let seeded = CharacterRegistry::restore(None, 55).unwrap();
    assert_eq!(seeded.characters(), CharacterRegistry::seeded(55).characters());
    let mut reg = two_character_registry();
    reg.record_selection(2).unwrap();
    let back = CharacterRegistry::restore(Some(&reg.snapshot()), 55).unwrap();
    assert_eq!(back.characters(), reg.characters());
    assert!(matches!(
        CharacterRegistry::restore(Some(&[9, 9, 9]), 55),
        Err(StoreError::CorruptRecord)
    ));
}

#[test]
fn record_selection_counts() {
    let mut reg = two_character_registry();
    assert_eq!(reg.record_selection(1), Ok(()));
    assert_eq!(reg.record_selection(1), Ok(()));
    assert_eq!(counts(&reg), vec![2, 0]);
}

#[test]
fn unknown_character_changes_nothing() {
    let mut reg = two_character_registry();
    reg.record_selection(2).unwrap();
    let before = reg.characters().clone();
    assert_eq!(reg.record_selection(999), Err(StoreError::UnknownCharacter));
    assert_eq!(reg.characters(), &before);
}

#[test]
fn counter_stays_at_largest_value() {
    let mut reg =
        CharacterRegistry::from_characters(vec![character("A", 1, u32::MAX, 0)]).unwrap();
    reg.record_selection(1).unwrap();
    assert_eq!(counts(&reg), vec![u32::MAX]);
}

#[test]
fn reset_waits_for_a_full_period() {
    let mut reg =
        CharacterRegistry::from_characters(vec![character("A", 1, 3, 0), character("B", 2, 4, 0)])
            .unwrap();
    assert!(!reg.reset_if_due(29 * DAY_MS));
    assert_eq!(counts(&reg), vec![3, 4]);
    assert!(!reg.reset_if_due(RESET_PERIOD_MS - 1));
    assert!(!reg.reset_if_due(30 * DAY_MS));
    assert_eq!(counts(&reg), vec![3, 4]);
    assert!(reg.reset_if_due(30 * DAY_MS + 1));
    assert_eq!(counts(&reg), vec![0, 0]);
    assert!(reg.characters().iter().all(|c| c.last_reset == 30 * DAY_MS + 1));
}

#[test]
fn reset_twice_at_same_instant() {
    let mut reg =
        CharacterRegistry::from_characters(vec![character("A", 1, 3, 0), character("B", 2, 4, 0)])
            .unwrap();
    let now = 31 * DAY_MS;
    assert!(reg.reset_if_due(now));
    let once = reg.characters().clone();
    assert!(!reg.reset_if_due(now));
    assert_eq!(reg.characters(), &once);
    assert_eq!(counts(&reg), vec![0, 0]);
    assert!(reg.characters().iter().all(|c| c.last_reset == now));
}

#[test]
fn empty_registry_never_resets() {
    let mut reg = CharacterRegistry::from_characters(vec![]).unwrap();
    assert!(!reg.reset_if_due(i64::MAX));
    assert!(reg.rankings().is_empty());
}

#[test]
fn rankings_order_and_stability() {
    let mut reg = CharacterRegistry::from_characters(vec![
        character("A", 1, 2, 0),
        character("B", 2, 5, 0),
        character("C", 3, 2, 0),
        character("D", 4, 7, 0),
    ])
    .unwrap();
    let first = reg.rankings();
    let expected: Vec<(String, u32)> = vec![
        ("D".to_string(), 7),
        ("B".to_string(), 5),
        ("A".to_string(), 2),
        ("C".to_string(), 2),
    ];
    assert_eq!(first, expected);
    assert_eq!(reg.rankings(), first);
    reg.record_selection(3).unwrap();
    assert_eq!(reg.rankings()[2], ("C".to_string(), 3));
}

#[test]
fn history_after_n_selections() {
    let mut prior = None;
    let picks = [4u64, 9, 9, 2, 7];
    for (i, pick) in picks.iter().enumerate() {
        prior = Some(apply_selection(prior, 8, *pick, i as i64));
    }
    let p = prior.unwrap();
    assert_eq!(p.previous_selections.len(), picks.len());
    assert_eq!(p.previous_selections, vec![4, 4, 9, 9, 2]);
    assert_eq!(p.selected_waifu, 7);
    assert_eq!(p.join_date, 0);
    assert_eq!(p.last_selection_date, 4);
}

#[test]
fn end_to_end_selection() {
    let mut reg = two_character_registry();
    let mut store: HashMap<Vec<u8>, Vec<u8>> = HashMap::new();
    select(&mut reg, &mut store, 1, 1, 10).unwrap();
    assert_eq!(counts(&reg), vec![1, 0]);
    let p = decode_profile(store.get(&user_key(1)).unwrap()).unwrap();
    assert_eq!(p.selected_waifu, 1);
    assert_eq!(p.previous_selections, vec![1]);
    select(&mut reg, &mut store, 1, 2, 20).unwrap();
    assert_eq!(counts(&reg), vec![1, 1]);
    let p = decode_profile(store.get(&user_key(1)).unwrap()).unwrap();
    assert_eq!(p.selected_waifu, 2);
    assert_eq!(p.previous_selections, vec![1, 1]);
    assert_eq!(p.join_date, 10);
    assert_eq!(p.last_selection_date, 20);
    assert_eq!(reg.rankings(), vec![("A".to_string(), 1), ("B".to_string(), 1)]);
    let stored = decode_characters(store.get(&character_stats_key()).unwrap()).unwrap();
    assert_eq!(&stored, reg.characters());
}

#[test]
fn role_sync_lists_roles() {
    let reg = two_character_registry();
    let sync = reg.role_sync(5, 2);
    assert_eq!(sync.user_id, 5);
    assert_eq!(sync.remove_role_ids, vec![1001, 1002]);
    assert_eq!(sync.add_role_id, Some(1002));
    assert_eq!(reg.role_sync(5, 3).add_role_id, None);
}

#[test]
fn profile_card_shows_team_or_none() {
    let reg = two_character_registry();
    let mut p = apply_selection(None, 3, 2, 99);
    assert_eq!(
        reg.profile_card(&p),
        Some(ProfileCard { character_name: "B".to_string(), team: "None".to_string(), join_date: 99 })
    );
    p.team_id = Some("blue".to_string());
    assert_eq!(reg.profile_card(&p).unwrap().team, "blue");
    p.selected_waifu = 42;
    assert_eq!(reg.profile_card(&p), None);
}

#[test]
fn corrupt_stored_profile_is_reported() {
    assert_eq!(
        profile_after_selection(Some(&[1, 2, 3]), 4, 5, 6),
        Err(StoreError::CorruptRecord)
    );
    let fresh = profile_after_selection(None, 4, 5, 6).unwrap();
    assert_eq!(fresh.previous_selections, vec![5]);
    let stored = encode_profile(&fresh);
    let next = profile_after_selection(Some(&stored), 4, 8, 7).unwrap();
    assert_eq!(next.previous_selections, vec![5, 5]);
    assert_eq!(next.selected_waifu, 8);
    assert_eq!(next.join_date, 6);
}
