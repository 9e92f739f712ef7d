//! Parser-state and analyser tests: wholesale schema replacement, message
//! routing, baseline capture, and the derived match statistics.

use demo_schema::analyser::{
    Analyser, Class, Death, Spawn, Team, UserId, UserInfo, UserState,
};
use demo_schema::datatable::{SendTable, SendTableName};
use demo_schema::handler::MessageHandler;
use demo_schema::message::{
    ChatMessageKind, EntityId, ExtraData, Message, MessageType, PlayerDeathEvent,
    PlayerSpawnEvent, SayText2Message, ServerInfoMessage, StringTableEntry, UserMessage,
};
use demo_schema::state::{parse_dec_u32, ParserState};

fn bare_table(name: &str) -> SendTable {
    SendTable {
        name: SendTableName(name.to_owned()),
        needs_decoder: false,
        raw_props: Vec::new(),
        flattened_props: Vec::new(),
    }
}

fn lookup<'a>(state: &'a ParserState, name: &str) -> Option<&'a SendTable> {
    state.send_tables.iter().find(|t| t.name.as_str() == name)
}

#[test]
fn data_tables_replace_wholesale() {
    let mut state = ParserState::new(Vec::new());
    state.handle_data_table(
        vec![bare_table("alpha"), bare_table("beta")],
        Vec::new(),
    );
    assert!(lookup(&state, "alpha").is_some());
    assert!(lookup(&state, "beta").is_some());

    // the next packet's tables replace the stored set wholesale: nothing
    // from the previous packet survives
    let mut replacement = bare_table("alpha");
    replacement.needs_decoder = true;
    state.handle_data_table(vec![replacement], Vec::new());
    assert_eq!(state.send_tables.len(), 1);
    assert!(lookup(&state, "alpha").unwrap().needs_decoder);
    assert!(lookup(&state, "beta").is_none());

    // a name repeated within one packet resolves to its last entry
    let mut first = bare_table("gamma");
    first.needs_decoder = true;
    let second = bare_table("gamma");
    state.handle_data_table(vec![first, second], Vec::new());
    assert_eq!(state.send_tables.len(), 1);
    assert!(!lookup(&state, "gamma").unwrap().needs_decoder);
}

#[test]
fn should_parse_message_honours_core_and_consumer() {
    let state = ParserState::new(vec![MessageType::GameEvent]);
    assert!(state.should_parse_message(MessageType::ServerInfo));
    assert!(state.should_parse_message(MessageType::GameEventList));
    assert!(state.should_parse_message(MessageType::GameEvent));
    assert!(!state.should_parse_message(MessageType::VoiceInit));
}

#[test]
fn server_info_sets_demo_meta_once() {
    let mut state = ParserState::new(Vec::new());
    state.handle_message(
        Message::ServerInfo(ServerInfoMessage {
            version: 24,
            game: "tf".to_owned(),
            interval_per_tick: 0.015f32.to_bits(),
        }),
        5,
    );
    assert_eq!(state.demo_meta.version, 24);
    assert_eq!(state.demo_meta.game, "tf");
    assert_eq!(state.demo_meta.interval_per_tick, 0.015f32.to_bits());
}

#[test]
fn baseline_entries_are_captured_by_class_id() {
    let mut state = ParserState::new(Vec::new());
    let table = "instancebaseline".to_owned();
    let entry = StringTableEntry {
        text: Some("42".to_owned()),
        extra_data: Some(ExtraData { byte_len: 3, data: vec![1, 2, 3] }),
    };
    state.handle_string_entry(&table, 0, &entry);
    let baseline = state.static_baselines.get(&42).expect("captured");
    assert_eq!(baseline.class_id, 42);
    assert_eq!(baseline.raw, vec![1, 2, 3]);
    assert!(baseline.parsed.is_none());
}

#[test]
fn decimal_parser_is_exact() {
    assert_eq!(parse_dec_u32("0"), Some(0));
    assert_eq!(parse_dec_u32("42"), Some(42));
    assert_eq!(parse_dec_u32("+42"), Some(42));
    assert_eq!(parse_dec_u32("4294967295"), Some(u32::MAX));
    assert_eq!(parse_dec_u32("4294967296"), None);
    assert_eq!(parse_dec_u32(""), None);
    assert_eq!(parse_dec_u32("+"), None);
    assert_eq!(parse_dec_u32("++1"), None);
    assert_eq!(parse_dec_u32("12a"), None);
    assert_eq!(parse_dec_u32("-3"), None);
}

#[test]
fn userinfo_entries_register_users() {
    let mut analyser = Analyser::new();
    // 32-byte name region, 32-bit user id, zero-terminated steam id
    let mut payload = b"ann".to_vec();
    payload.resize(32, 0);
    payload.extend_from_slice(&261u32.to_le_bytes());
    payload.extend_from_slice(b"STEAM_0:1:2\0");
    let byte_len = payload.len() as u32;
    let table = "userinfo".to_owned();
    let entry = StringTableEntry {
        text: Some("7".to_owned()),
        extra_data: Some(ExtraData { byte_len, data: payload.clone() }),
    };
    analyser.handle_string_entry(&table, 0, &entry);
    assert_eq!(analyser.users.len(), 1);
    assert_eq!(analyser.users[0].name, "ann");
    assert_eq!(analyser.users[0].user_id, UserId(5));
    assert_eq!(analyser.users[0].steam_id, "STEAM_0:1:2");
    assert_eq!(analyser.users[0].entity_id, EntityId(7));

    // an empty steam id is not registered
    let mut bad = b"bob".to_vec();
    bad.resize(32, 0);
    bad.extend_from_slice(&2u32.to_le_bytes());
    bad.push(0);
    let entry2 = StringTableEntry {
        text: Some("8".to_owned()),
        extra_data: Some(ExtraData { byte_len: bad.len() as u32, data: bad }),
    };
    analyser.handle_string_entry(&table, 1, &entry2);
    assert_eq!(analyser.users.len(), 1);
}

#[test]
fn team_and_class_numbers_map_exactly() {
    assert_eq!(Team::new(1), Team::Spectator);
    assert_eq!(Team::new(2), Team::Red);
    assert_eq!(Team::new(3), Team::Blue);
    assert_eq!(Team::new(0), Team::Other);
    assert_eq!(Team::new(9), Team::Other);
    assert_eq!(Class::new(1), Class::Scout);
    assert_eq!(Class::new(4), Class::Demoman);
    assert_eq!(Class::new(9), Class::Engineer);
    assert_eq!(Class::new(10), Class::Other);
}

#[test]
fn death_event_sentinel_assister() {
    let with = Death::from_event(
        PlayerDeathEvent { user_id: 258, attacker: 7, assister: 3, weapon: "rl".to_owned() },
        50,
    );
    assert_eq!(with.victim, UserId(2));
    assert_eq!(with.killer, UserId(7));
    assert_eq!(with.assister, Some(UserId(3)));
    assert_eq!(with.weapon, "rl");
    assert_eq!(with.tick, 50);

    let without = Death::from_event(
        PlayerDeathEvent { user_id: 1, attacker: 2, assister: 16384, weapon: "kn".to_owned() },
        51,
    );
    assert_eq!(without.assister, None);
}

#[test]
fn chat_and_name_changes() {
    let mut analyser = Analyser::new();
    analyser.users.push(UserInfo {
        name: "old_name".to_owned(),
        user_id: UserId(3),
        steam_id: "STEAM_1".to_owned(),
        entity_id: EntityId(9),
    });
    analyser.handle_message(
        Message::UserMessage(UserMessage::SayText2(SayText2Message {
            kind: ChatMessageKind::ChatAll,
            from: "old_name".to_owned(),
            text: "hello".to_owned(),
        })),
        12,
    );
    assert_eq!(analyser.chat.len(), 1);
    assert_eq!(analyser.chat[0].text, "hello");
    assert_eq!(analyser.start_tick, 12);

    analyser.handle_message(
        Message::UserMessage(UserMessage::SayText2(SayText2Message {
            kind: ChatMessageKind::NameChange,
            from: "old_name".to_owned(),
            text: "new_name".to_owned(),
        })),
        13,
    );
    assert_eq!(analyser.chat.len(), 1);
    assert_eq!(analyser.users[0].name, "new_name");
    assert_eq!(analyser.start_tick, 12);
}

#[test]
fn user_states_resolve_teams_and_class_counts() {
    let users = vec![
        UserInfo {
            name: "a".to_owned(),
            user_id: UserId(1),
            steam_id: "S1".to_owned(),
            entity_id: EntityId(1),
        },
        UserInfo {
            name: "b".to_owned(),
            user_id: UserId(2),
            steam_id: "S2".to_owned(),
            entity_id: EntityId(2),
        },
    ];
    let spawns = vec![
        Spawn { user: UserId(1), class: Class::Scout, team: Team::Red, tick: 1 },
        Spawn { user: UserId(1), class: Class::Scout, team: Team::Red, tick: 2 },
        Spawn { user: UserId(1), class: Class::Medic, team: Team::Blue, tick: 3 },
    ];
    let states: Vec<UserState> = UserState::from_users_and_spawn(users, spawns);
    assert_eq!(states.len(), 2);
    assert_eq!(states[0].team, Team::Blue);
    assert_eq!(states[0].user_id, UserId(1));
    let scout = states[0].classes.iter().find(|(c, _)| *c == Class::Scout).unwrap();
    assert_eq!(scout.1, 2);
    let medic = states[0].classes.iter().find(|(c, _)| *c == Class::Medic).unwrap();
    assert_eq!(medic.1, 1);
    assert!(states[0].classes.iter().all(|(c, _)| *c != Class::Heavy));
    assert_eq!(states[1].team, Team::Other);
    assert!(states[1].classes.is_empty());
}

#[test]
fn spawns_deaths_and_rounds_accumulate() {
    let mut analyser = Analyser::new();
    analyser.handle_message(
        Message::GameEvent(demo_schema::message::GameEventMessage {
            event: demo_schema::message::GameEvent::PlayerSpawn(PlayerSpawnEvent {
                user_id: 5,
                class: 1,
                team: 2,
            }),
        }),
        100,
    );
    assert_eq!(analyser.user_spawns.len(), 1);
    assert_eq!(analyser.user_spawns[0].user, UserId(5));
    assert_eq!(analyser.user_spawns[0].class, Class::Scout);
    assert_eq!(analyser.user_spawns[0].team, Team::Red);

    analyser.handle_message(
        Message::GameEvent(demo_schema::message::GameEventMessage {
            event: demo_schema::message::GameEvent::TeamPlayRoundWin(
                demo_schema::message::TeamPlayRoundWinEvent {
                    team: 2,
                    win_reason: 6,
                    round_time: 1.5f32.to_bits(),
                },
            ),
        }),
        200,
    );
    // a round ended by the time limit is not recorded
    assert_eq!(analyser.rounds.len(), 0);

    analyser.handle_message(
        Message::GameEvent(demo_schema::message::GameEventMessage {
            event: demo_schema::message::GameEvent::TeamPlayRoundWin(
                demo_schema::message::TeamPlayRoundWinEvent {
                    team: 3,
                    win_reason: 1,
                    round_time: 2.5f32.to_bits(),
                },
            ),
        }),
        300,
    );
    assert_eq!(analyser.rounds.len(), 1);
    assert_eq!(analyser.rounds[0].winner, Team::Blue);

    let state = ParserState::new(Vec::new());
    let output = analyser.get_output(state);
    assert_eq!(output.start_tick, 100);
    assert_eq!(output.rounds.len(), 1);
}
