//! Message-level data model: the message-type discriminants the decode loop
//! routes on, the few message payloads the core itself consumes, and
//! string-table entries and metadata.

use vstd::prelude::*;

verus! {

/// The discriminant of one network message inside a message packet.
#[derive(Debug, Clone, Copy, PartialEq, Eq, Hash, Structural)]
pub enum MessageType {
    Empty,
    File,
    NetTick,
    StringCmd,
    SetConVar,
    SigOnState,
    Print,
    ServerInfo,
    ClassInfo,
    SetPause,
    CreateStringTable,
    UpdateStringTable,
    VoiceInit,
    VoiceData,
    ParseSounds,
    SetView,
    FixAngle,
    BspDecal,
    UserMessage,
    EntityMessage,
    GameEvent,
    PacketEntities,
    TempEntities,
    PreFetch,
    Menu,
    GameEventList,
    GetCvarValue,
    CmdKeyValues,
}

/// Identity of a networked entity.
#[derive(Debug, Clone, Copy, PartialEq, Eq, Hash, Structural)]
pub struct EntityId(pub u32);

/// Identity of a game-event type.
#[derive(Debug, Clone, Copy, PartialEq, Eq, Hash, Structural)]
pub struct GameEventTypeId(pub u16);

/// Definition of one game-event type from the event-list message.
#[derive(Debug, Clone)]
pub struct GameEventDefinition {
    pub id: GameEventTypeId,
    pub name: String,
}

/// The session handshake message: demo metadata.  The tick interval carries
/// the raw 32-bit image of the authored floating-point value.
#[derive(Debug, Clone)]
pub struct ServerInfoMessage {
    pub version: u16,
    pub game: String,
    pub interval_per_tick: u32,
}

/// A player-spawn game event.
#[derive(Debug, Clone)]
pub struct PlayerSpawnEvent {
    pub user_id: u16,
    pub class: u16,
    pub team: u16,
}

/// A player-death game event.
#[derive(Debug, Clone)]
pub struct PlayerDeathEvent {
    pub user_id: u16,
    pub attacker: u16,
    pub assister: u16,
    pub weapon: String,
}

/// A round-won game event.  The round time carries the raw 32-bit image of
/// the authored floating-point value.
#[derive(Debug, Clone)]
pub struct TeamPlayRoundWinEvent {
    pub team: u8,
    pub win_reason: u8,
    pub round_time: u32,
}

/// A decoded game event; kinds the analyser does not consume collapse into
/// `Other`.
#[derive(Debug, Clone)]
pub enum GameEvent {
    PlayerSpawn(PlayerSpawnEvent),
    PlayerDeath(PlayerDeathEvent),
    TeamPlayRoundWin(TeamPlayRoundWinEvent),
    Other(GameEventTypeId),
}

/// A game-event message.
#[derive(Debug, Clone)]
pub struct GameEventMessage {
    pub event: GameEvent,
}

/// The event-list message: the definitions of every event type.
#[derive(Debug, Clone)]
pub struct GameEventListMessage {
    pub event_list: Vec<GameEventDefinition>,
}

/// The kind of one chat message.
#[derive(Debug, Clone, Copy, PartialEq, Eq, Hash, Structural)]
pub enum ChatMessageKind {
    ChatAll,
    ChatTeam,
    ChatAllDead,
    ChatTeamDead,
    ChatAllSpec,
    NameChange,
    Empty,
}

/// A chat user message.
#[derive(Debug, Clone)]
pub struct SayText2Message {
    pub kind: ChatMessageKind,
    pub from: String,
    pub text: String,
}

/// A user message; kinds the analyser does not consume collapse into
/// `Other`.
#[derive(Debug, Clone)]
pub enum UserMessage {
    SayText2(SayText2Message),
    Other(u8),
}

/// A decoded message, as handed to message handlers; kinds nobody consumes
/// collapse into `Other` carrying their discriminant.
#[derive(Debug, Clone)]
pub enum Message {
    ServerInfo(ServerInfoMessage),
    GameEvent(GameEventMessage),
    GameEventList(GameEventListMessage),
    UserMessage(UserMessage),
    Other(MessageType),
}

/// Metadata of one string table, appended once per table announcement.
#[derive(Debug, Clone)]
pub struct StringTableMeta {
    pub name: String,
    pub max_entries: u32,
    pub fixed_userdata_size: Option<u32>,
}

/// Out-of-band payload attached to a string-table entry.
#[derive(Debug, Clone)]
pub struct ExtraData {
    pub byte_len: u32,
    pub data: Vec<u8>,
}

/// One string-table entry update.
#[derive(Debug, Clone)]
pub struct StringTableEntry {
    pub text: Option<String>,
    pub extra_data: Option<ExtraData>,
}

impl StringTableEntry {
    /// The entry's text, empty when absent.
    pub fn text(&self) -> (r: &str)
        ensures
            r@ == entry_text(self),
    {
        match &self.text {
            Some(t) => t.as_str(),
            None => {
                let r = "";
                proof {
                    reveal_strlit("");
                    assert(r@ =~= Seq::<char>::empty());
                }
                r
            },
        }
    }
}

/// The text of an entry, empty when absent.
pub open spec fn entry_text(e: &StringTableEntry) -> Seq<char> {
    match e.text {
        Some(t) => t@,
        None => Seq::empty(),
    }
}

} // verus!
