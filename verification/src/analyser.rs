//! The match analyser: a message consumer that derives match-level
//! statistics — chat log, user registry, spawns, deaths and rounds — from
//! the decoded message stream, and is consumed into an immutable match
//! state at end of stream.

use vstd::prelude::*;

verus! {

use crate::message::ChatMessageKind;
use crate::message::EntityId;
use crate::message::GameEvent;
use crate::message::Message;
use crate::message::MessageType;
use crate::message::PlayerDeathEvent;
use crate::message::PlayerSpawnEvent;
use crate::message::SayText2Message;
use crate::message::StringTableEntry;
use crate::message::TeamPlayRoundWinEvent;
use crate::message::UserMessage;
use crate::handler::MessageHandler;
use crate::state::ParserState;
use crate::state::dec_parse;
use crate::bits::bits_at;
use crate::bits::bytes_bits;
use crate::bits::le_bits;
use crate::bits::str_bits;
use crate::bits::str_ok;
use crate::cursor::sized_text;
use vstd::utf8::encode_utf8;

/// One chat message with the tick it was said on.
#[derive(Debug, Clone)]
pub struct ChatMassage {
    pub kind: ChatMessageKind,
    pub from: String,
    pub text: String,
    pub tick: u32,
}

impl ChatMassage {
    /// The chat record of one say message.
    pub fn from_message(message: SayText2Message, tick: u32) -> (r: Self)
        ensures
            r.kind == message.kind,
            r.from == message.from,
            r.text == message.text,
            r.tick == tick,
    {
        ChatMassage { kind: message.kind, from: message.from, text: message.text, tick }
    }
}

/// One of the four team slots.
#[derive(Debug, Clone, Copy, PartialEq, Eq, Hash, Structural)]
pub enum Team {
    Other,
    Spectator,
    Red,
    Blue,
}

/// The team a wire number names.
pub open spec fn team_of(number: u16) -> Team {
    if number == 1 {
        Team::Spectator
    } else if number == 2 {
        Team::Red
    } else if number == 3 {
        Team::Blue
    } else {
        Team::Other
    }
}

impl Team {
    /// The team a wire number names; anything unrecognised is `Other`.
    pub fn new(number: u16) -> (r: Self)
        ensures
            r == team_of(number),
    {
        match number {
            1 => Team::Spectator,
            2 => Team::Red,
            3 => Team::Blue,
            _ => Team::Other,
        }
    }
}

/// One of the nine player classes.
#[derive(Debug, Clone, Copy, PartialEq, Eq, Hash, Structural)]
pub enum Class {
    Other,
    Scout,
    Sniper,
    Solder,
    Demoman,
    Medic,
    Heavy,
    Pyro,
    Spy,
    Engineer,
}

/// The class a wire number names.
pub open spec fn class_of(number: u16) -> Class {
    if number == 1 {
        Class::Scout
    } else if number == 2 {
        Class::Sniper
    } else if number == 3 {
        Class::Solder
    } else if number == 4 {
        Class::Demoman
    } else if number == 5 {
        Class::Medic
    } else if number == 6 {
        Class::Heavy
    } else if number == 7 {
        Class::Pyro
    } else if number == 8 {
        Class::Spy
    } else if number == 9 {
        Class::Engineer
    } else {
        Class::Other
    }
}

impl Class {
    /// The class a wire number names; anything unrecognised is `Other`.
    pub fn new(number: u16) -> (r: Self)
        ensures
            r == class_of(number),
    {
        match number {
            1 => Class::Scout,
            2 => Class::Sniper,
            3 => Class::Solder,
            4 => Class::Demoman,
            5 => Class::Medic,
            6 => Class::Heavy,
            7 => Class::Pyro,
            8 => Class::Spy,
            9 => Class::Engineer,
            _ => Class::Other,
        }
    }
}

/// Identity of one user within the match: the low byte of the wire user id.
#[derive(Debug, Clone, Copy, PartialEq, Eq, Hash, Structural)]
pub struct UserId(pub u8);

/// One spawn record.
#[derive(Debug, Clone)]
pub struct Spawn {
    pub user: UserId,
    pub class: Class,
    pub team: Team,
    pub tick: u32,
}

impl Spawn {
    /// The spawn record of one player-spawn event.
    pub fn from_event(event: PlayerSpawnEvent, tick: u32) -> (r: Self)
        ensures
            r.user == UserId((event.user_id & 255) as u8),
            r.class == class_of(event.class),
            r.team == team_of(event.team),
            r.tick == tick,
    {
        Spawn {
            user: UserId((event.user_id & 255) as u8),
            class: Class::new(event.class),
            team: Team::new(event.team),
            tick,
        }
    }
}

/// One registered user.
#[derive(Debug, Clone)]
pub struct UserInfo {
    pub name: String,
    pub user_id: UserId,
    pub steam_id: String,
    pub entity_id: EntityId,
}

/// One death record.
#[derive(Debug, Clone)]
pub struct Death {
    pub weapon: String,
    pub victim: UserId,
    pub assister: Option<UserId>,
    pub killer: UserId,
    pub tick: u32,
}

impl Death {
    /// The death record of one player-death event; assister ids at or above
    /// the sentinel mean no assister.
    pub fn from_event(event: PlayerDeathEvent, tick: u32) -> (r: Self)
        ensures
            r.weapon == event.weapon,
            r.victim == UserId((event.user_id & 255) as u8),
            r.killer == UserId((event.attacker & 255) as u8),
            r.assister == if event.assister < 16384 {
                Some(UserId((event.assister & 255) as u8))
            } else {
                None::<UserId>
            },
            r.tick == tick,
    {
        let assister = if event.assister < 16 * 1024 {
            Some(UserId((event.assister & 255) as u8))
        } else {
            None
        };
        Death {
            assister,
            tick,
            killer: UserId((event.attacker & 255) as u8),
            weapon: event.weapon,
            victim: UserId((event.user_id & 255) as u8),
        }
    }
}

/// One completed round.  The length carries the raw 32-bit image of the
/// authored floating-point round time.
#[derive(Debug, Clone)]
pub struct Round {
    pub winner: Team,
    pub length: u32,
    pub end_tick: u32,
}

impl Round {
    /// The round record of one round-won event.
    pub fn from_event(event: TeamPlayRoundWinEvent, tick: u32) -> (r: Self)
        ensures
            r.winner == team_of(event.team as u16),
            r.length == event.round_time,
            r.end_tick == tick,
    {
        Round { winner: Team::new(event.team as u16), length: event.round_time, end_tick: tick }
    }
}

/// A point in world space, each coordinate the raw 32-bit image of the
/// authored floating-point value.
#[derive(Debug, Clone, Copy, PartialEq, Eq, Structural, Default)]
pub struct Vector {
    pub x: u32,
    pub y: u32,
    pub z: u32,
}

/// The world boundary box.
#[derive(Debug, Clone, Copy, PartialEq, Eq, Structural, Default)]
pub struct World {
    pub boundary_min: Vector,
    pub boundary_max: Vector,
}

/// The analyser's mutable state while the stream is decoded.
#[derive(Debug)]
pub struct Analyser {
    pub chat: Vec<ChatMassage>,
    pub users: Vec<UserInfo>,
    pub user_spawns: Vec<Spawn>,
    pub deaths: Vec<Death>,
    pub rounds: Vec<Round>,
    pub start_tick: u32,
}

/// The index of the first user with the given name.
pub open spec fn name_index(users: Seq<UserInfo>, name: Seq<char>) -> Option<int>
    decreases users.len(),
{
    if users.len() == 0 {
        None
    } else if users[0].name@ == name {
        Some(0)
    } else {
        match name_index(users.drop_first(), name) {
            Some(k) => Some(k + 1),
            None => None,
        }
    }
}

/// How one user message transforms the analyser: a name change renames its
/// user, anything else said extends the chat log by one record.
pub open spec fn user_msg_step(pre: Analyser, post: Analyser, message: UserMessage, tick: u32) -> bool {
    &&& post.user_spawns == pre.user_spawns
    &&& post.deaths == pre.deaths
    &&& post.rounds == pre.rounds
    &&& post.start_tick == pre.start_tick
    &&& match message {
        UserMessage::SayText2(m) => if m.kind == ChatMessageKind::NameChange {
            &&& post.chat == pre.chat
            &&& match name_index(pre.users@, m.from@) {
                Some(k) => {
                    &&& post.users@.len() == pre.users@.len()
                    &&& post.users@[k].name@ == m.text@
                    &&& post.users@[k].user_id == pre.users@[k].user_id
                    &&& post.users@[k].steam_id == pre.users@[k].steam_id
                    &&& post.users@[k].entity_id == pre.users@[k].entity_id
                    &&& forall|j: int|
                        0 <= j < pre.users@.len() && j != k ==> post.users@[j] == pre.users@[j]
                },
                None => post.users == pre.users,
            }
        } else {
            &&& post.chat@.len() == pre.chat@.len() + 1
            &&& post.chat@.last().kind == m.kind
            &&& post.chat@.last().from == m.from
            &&& post.chat@.last().text == m.text
            &&& post.chat@.last().tick == tick
            &&& post.chat@.take(pre.chat@.len() as int) == pre.chat@
            &&& post.users == pre.users
        },
        UserMessage::Other(_) => post == pre,
    }
}

/// How one game event transforms the analyser: deaths, spawns, and rounds
/// not ended by the time limit each append one record.
pub open spec fn event_step(pre: Analyser, post: Analyser, event: GameEvent, tick: u32) -> bool {
    &&& post.chat == pre.chat
    &&& post.users == pre.users
    &&& post.start_tick == pre.start_tick
    &&& match event {
        GameEvent::PlayerDeath(e) => {
            &&& post.deaths@.len() == pre.deaths@.len() + 1
            &&& post.deaths@.take(pre.deaths@.len() as int) == pre.deaths@
            &&& post.deaths@.last().victim == UserId((e.user_id & 255) as u8)
            &&& post.deaths@.last().killer == UserId((e.attacker & 255) as u8)
            &&& post.deaths@.last().weapon == e.weapon
            &&& post.deaths@.last().tick == tick
            &&& post.user_spawns == pre.user_spawns
            &&& post.rounds == pre.rounds
        },
        GameEvent::PlayerSpawn(e) => {
            &&& post.user_spawns@.len() == pre.user_spawns@.len() + 1
            &&& post.user_spawns@.take(pre.user_spawns@.len() as int) == pre.user_spawns@
            &&& post.user_spawns@.last().user == UserId((e.user_id & 255) as u8)
            &&& post.user_spawns@.last().class == class_of(e.class)
            &&& post.user_spawns@.last().team == team_of(e.team)
            &&& post.user_spawns@.last().tick == tick
            &&& post.deaths == pre.deaths
            &&& post.rounds == pre.rounds
        },
        GameEvent::TeamPlayRoundWin(e) => {
            &&& post.deaths == pre.deaths
            &&& post.user_spawns == pre.user_spawns
            &&& if e.win_reason != 6 {
                &&& post.rounds@.len() == pre.rounds@.len() + 1
                &&& post.rounds@.take(pre.rounds@.len() as int) == pre.rounds@
                &&& post.rounds@.last().winner == team_of(e.team as u16)
                &&& post.rounds@.last().length == e.round_time
                &&& post.rounds@.last().end_tick == tick
            } else {
                post.rounds == pre.rounds
            }
        },
        GameEvent::Other(_) => post == pre,
    }
}

impl Analyser {
    /// A fresh analyser with nothing recorded.
    pub fn new() -> (r: Self)
        ensures
            r.chat@.len() == 0,
            r.users@.len() == 0,
            r.user_spawns@.len() == 0,
            r.deaths@.len() == 0,
            r.rounds@.len() == 0,
            r.start_tick == 0,
    {
        Analyser {
            chat: Vec::new(),
            users: Vec::new(),
            user_spawns: Vec::new(),
            deaths: Vec::new(),
            rounds: Vec::new(),
            start_tick: 0,
        }
    }

    /// The message types the analyser consumes.
    pub fn get_message_types(&self) -> (r: Vec<MessageType>)
        ensures
            r@ == seq![MessageType::GameEvent, MessageType::UserMessage],
    {
        let mut v: Vec<MessageType> = Vec::new();
        v.push(MessageType::GameEvent);
        v.push(MessageType::UserMessage);
        proof {
            assert(v@ =~= seq![MessageType::GameEvent, MessageType::UserMessage]);
        }
        v
    }

    /// Rename the first user of the given name, if any.
    fn change_name(&mut self, from: String, to: String)
        ensures
            final(self).chat == old(self).chat,
            final(self).user_spawns == old(self).user_spawns,
            final(self).deaths == old(self).deaths,
            final(self).rounds == old(self).rounds,
            final(self).start_tick == old(self).start_tick,
            match name_index(old(self).users@, from@) {
                Some(k) => {
                    &&& final(self).users@.len() == old(self).users@.len()
                    &&& final(self).users@[k].name@ == to@
                    &&& final(self).users@[k].user_id == old(self).users@[k].user_id
                    &&& final(self).users@[k].steam_id == old(self).users@[k].steam_id
                    &&& final(self).users@[k].entity_id == old(self).users@[k].entity_id
                    &&& forall|j: int|
                        0 <= j < old(self).users@.len() && j != k ==> final(self).users@[j] == old(
                            self,
                        ).users@[j]
                },
                None => final(self).users == old(self).users,
            },
    {
        let ghost u0 = self.users@;
        let mut i: usize = 0;
        while i < self.users.len()
            invariant
                i <= u0.len(),
                *self == *old(self),
                self.users@ == u0,
                forall|k: int| 0 <= k < i ==> (#[trigger] u0[k]).name@ != from@,
            decreases u0.len() - i,
        {
            if self.users[i].name == from {
                proof {
                    lemma_name_index_found(u0, from@, i as int);
                }
                let previous = &self.users[i];
                let renamed = UserInfo {
                    name: to,
                    user_id: previous.user_id,
                    steam_id: previous.steam_id.clone(),
                    entity_id: previous.entity_id,
                };
                self.users.set(i, renamed);
                return ;
            }
            i = i + 1;
        }
        proof {
            lemma_name_index_missing(u0, from@);
        }
    }

    /// Record one user message: a name change renames its user, anything
    /// else said lands in the chat log.
    fn handle_user_message(&mut self, message: UserMessage, tick: u32)
        ensures
            user_msg_step(*old(self), *final(self), message, tick),
    {
        match message {
            UserMessage::SayText2(m) => {
                if matches!(m.kind, ChatMessageKind::NameChange) {
                    self.change_name(m.from, m.text);
                } else {
                    let ghost c0 = self.chat@;
                    self.chat.push(ChatMassage::from_message(m, tick));
                    proof {
                        assert(self.chat@.take(c0.len() as int) =~= c0);
                    }
                }
            },
            UserMessage::Other(_) => {},
        }
    }

    /// Record one game event: deaths, spawns, and rounds not ended by the
    /// time limit.
    fn handle_event(&mut self, event: GameEvent, tick: u32)
        ensures
            event_step(*old(self), *final(self), event, tick),
    {
        match event {
            GameEvent::PlayerDeath(e) => {
                let ghost d0 = self.deaths@;
                self.deaths.push(Death::from_event(e, tick));
                proof {
                    assert(self.deaths@.take(d0.len() as int) =~= d0);
                }
            },
            GameEvent::PlayerSpawn(e) => {
                let ghost s0 = self.user_spawns@;
                self.user_spawns.push(Spawn::from_event(e, tick));
                proof {
                    assert(self.user_spawns@.take(s0.len() as int) =~= s0);
                }
            },
            GameEvent::TeamPlayRoundWin(e) => {
                if e.win_reason != 6 {
                    let ghost r0 = self.rounds@;
                    self.rounds.push(Round::from_event(e, tick));
                    proof {
                        assert(self.rounds@.take(r0.len() as int) =~= r0);
                    }
                }
            },
            GameEvent::Other(_) => {},
        }
    }
}

/// A scan that found the name at `i` with no earlier match names index `i`.
proof fn lemma_name_index_found(users: Seq<UserInfo>, name: Seq<char>, i: int)
    requires
        0 <= i < users.len(),
        users[i].name@ == name,
        forall|k: int| 0 <= k < i ==> (#[trigger] users[k]).name@ != name,
    ensures
        name_index(users, name) == Some(i),
    decreases users.len(),
{
    if i > 0 {
        lemma_name_index_found(users.drop_first(), name, i - 1);
        assert forall|k: int| 0 <= k < i - 1 implies (#[trigger] users.drop_first()[k]).name@
            != name by {
            assert(users.drop_first()[k] == users[k + 1]);
        }
    }
}

/// A scan that found no match names no index.
proof fn lemma_name_index_missing(users: Seq<UserInfo>, name: Seq<char>)
    requires
        forall|k: int| 0 <= k < users.len() ==> (#[trigger] users[k]).name@ != name,
    ensures
        name_index(users, name) is None,
    decreases users.len(),
{
    if users.len() > 0 {
        assert forall|k: int| 0 <= k < users.len() - 1 implies (
        #[trigger] users.drop_first()[k]).name@ != name by {
            assert(users.drop_first()[k] == users[k + 1]);
        }
        lemma_name_index_missing(users.drop_first(), name);
    }
}

/// How many of the spawns belong to the user with the given class.
pub open spec fn spawn_count(spawns: Seq<Spawn>, user: UserId, class: Class) -> nat
    decreases spawns.len(),
{
    if spawns.len() == 0 {
        0
    } else {
        spawn_count(spawns.drop_last(), user, class) + if spawns.last().user == user
            && spawns.last().class == class {
            1nat
        } else {
            0nat
        }
    }
}

/// A count capped at the width of one byte.
pub open spec fn cap255(n: nat) -> nat {
    if n > 255 {
        255
    } else {
        n
    }
}

/// The team of the user's last spawn, if any.
pub open spec fn last_team(spawns: Seq<Spawn>, user: UserId) -> Option<Team>
    decreases spawns.len(),
{
    if spawns.len() == 0 {
        None
    } else if spawns.last().user == user {
        Some(spawns.last().team)
    } else {
        last_team(spawns.drop_last(), user)
    }
}

/// The count recorded for a class in a per-user class list.
pub open spec fn class_find(s: Seq<(Class, u8)>, c: Class) -> Option<u8>
    decreases s.len(),
{
    if s.len() == 0 {
        None
    } else if s[0].0 == c {
        Some(s[0].1)
    } else {
        class_find(s.drop_first(), c)
    }
}

/// The per-match summary of one user.
#[derive(Debug, Clone)]
pub struct UserState {
    pub classes: Vec<(Class, u8)>,
    pub name: String,
    pub user_id: UserId,
    pub steam_id: String,
    pub team: Team,
}

/// What one resolved user summary must say about its user and the spawn
/// list: identity fields carried over, the team of the last spawn, and each
/// class's spawn count (capped at one byte), recorded exactly for the
/// classes that were spawned.
pub open spec fn user_resolved(user: UserInfo, spawns: Seq<Spawn>, out: UserState) -> bool {
    &&& out.name@ == user.name@
    &&& out.user_id == user.user_id
    &&& out.steam_id@ == user.steam_id@
    &&& out.team == (match last_team(spawns, user.user_id) {
        Some(t) => t,
        None => Team::Other,
    })
    &&& forall|c: Class|
        match #[trigger] class_find(out.classes@, c) {
            Some(n) => n as nat == cap255(spawn_count(spawns, user.user_id, c)) && n > 0,
            None => spawn_count(spawns, user.user_id, c) == 0,
        }
}

/// A prefix never counts more spawns than the whole list.
proof fn lemma_spawn_count_take_le(spawns: Seq<Spawn>, i: int, user: UserId, class: Class)
    requires
        0 <= i <= spawns.len(),
    ensures
        spawn_count(spawns.take(i), user, class) <= spawn_count(spawns, user, class),
    decreases spawns.len() - i,
{
    if i == spawns.len() {
        assert(spawns.take(i) =~= spawns);
    } else {
        lemma_spawn_count_take_le(spawns, i + 1, user, class);
        assert(spawns.take(i + 1).drop_last() =~= spawns.take(i));
    }
}

/// The index of the first entry of a class in a per-user class list.
fn find_class(s: &Vec<(Class, u8)>, c: Class) -> (r: Option<usize>)
    ensures
        match r {
            Some(j) => (j as int) < s@.len() && s@[j as int].0 == c && forall|k: int|
                0 <= k < j ==> (#[trigger] s@[k]).0 != c,
            None => forall|k: int| 0 <= k < s@.len() ==> (#[trigger] s@[k]).0 != c,
        },
{
    let mut j: usize = 0;
    while j < s.len()
        invariant
            j <= s@.len(),
            forall|k: int| 0 <= k < j ==> (#[trigger] s@[k]).0 != c,
        decreases s@.len() - j,
    {
        if s[j].0 == c {
            return Some(j);
        }
        j = j + 1;
    }
    None
}

/// A list without a class records no count for it.
proof fn lemma_class_find_missing(s: Seq<(Class, u8)>, c: Class)
    requires
        forall|k: int| 0 <= k < s.len() ==> (#[trigger] s[k]).0 != c,
    ensures
        class_find(s, c) is None,
    decreases s.len(),
{
    if s.len() > 0 {
        assert forall|k: int| 0 <= k < s.drop_first().len() implies (
        #[trigger] s.drop_first()[k]).0 != c by {
            assert(s.drop_first()[k] == s[k + 1]);
        }
        lemma_class_find_missing(s.drop_first(), c);
    }
}

/// The first entry of a class records that class's count.
proof fn lemma_class_find_at(s: Seq<(Class, u8)>, j: int, c: Class)
    requires
        0 <= j < s.len(),
        s[j].0 == c,
        forall|k: int| 0 <= k < j ==> (#[trigger] s[k]).0 != c,
    ensures
        class_find(s, c) == Some(s[j].1),
    decreases s.len(),
{
    if j > 0 {
        assert forall|k: int| 0 <= k < j - 1 implies (#[trigger] s.drop_first()[k]).0 != c by {
            assert(s.drop_first()[k] == s[k + 1]);
        }
        lemma_class_find_at(s.drop_first(), j - 1, c);
    }
}

impl UserState {
    /// The summary of one user against the spawn list.
    pub fn of_user(user: &UserInfo, spawns: &Vec<Spawn>) -> (r: UserState)
        ensures
            user_resolved(*user, spawns@, r),
    {
        let ghost sp = spawns@;
        let uid = user.user_id;
        let mut classes: Vec<(Class, u8)> = Vec::new();
        let mut team = Team::Other;
        let mut i: usize = 0;
        proof {
            assert(sp.take(0).len() == 0);
        }
        while i < spawns.len()
            invariant
                i <= sp.len(),
                sp == spawns@,
                team == (match last_team(sp.take(i as int), uid) {
                    Some(t) => t,
                    None => Team::Other,
                }),
                forall|c: Class|
                    match #[trigger] class_find(classes@, c) {
                        Some(n) => n as nat == cap255(spawn_count(sp.take(i as int), uid, c)) && n
                            > 0,
                        None => spawn_count(sp.take(i as int), uid, c) == 0,
                    },
            decreases sp.len() - i,
        {
            let spawn = &spawns[i];
            proof {
                assert(sp.take(i + 1).drop_last() =~= sp.take(i as int));
                assert(sp.take(i + 1).last() == sp[i as int]);
            }
            if spawn.user == uid {
                team = spawn.team;
                let ghost cls0 = classes@;
                let ghost cj = sp[i as int].class;
                match find_class(&classes, spawn.class) {
                    Some(j) => {
                        let old_count = classes[j].1;
                        let bumped: u8 = if old_count < 255 {
                            old_count + 1
                        } else {
                            255
                        };
                        classes.set(j, (spawn.class, bumped));
                        proof {
                            lemma_class_find_at(cls0, j as int, cj);
                            assert forall|c: Class|
                                match #[trigger] class_find(classes@, c) {
                                    Some(n) => n as nat == cap255(
                                        spawn_count(sp.take(i + 1), uid, c),
                                    ) && n > 0,
                                    None => spawn_count(sp.take(i + 1), uid, c) == 0,
                                } by {
                                assert(classes@ =~= cls0.update(j as int, (cj, bumped)));
                                lemma_class_find_update(cls0, j as int, c, bumped, cj);
                                if c == cj {
                                    let cnt0 = spawn_count(sp.take(i as int), uid, cj);
                                    assert(class_find(cls0, cj) == Some(cls0[j as int].1));
                                    assert(old_count as nat == cap255(cnt0));
                                    assert(spawn_count(sp.take(i + 1), uid, cj) == cnt0 + 1);
                                }
                            }
                        }
                    },
                    None => {
                        classes.push((spawn.class, 1));
                        proof {
                            assert forall|c: Class|
                                match #[trigger] class_find(classes@, c) {
                                    Some(n) => n as nat == cap255(
                                        spawn_count(sp.take(i + 1), uid, c),
                                    ) && n > 0,
                                    None => spawn_count(sp.take(i + 1), uid, c) == 0,
                                } by {
                                assert(classes@ =~= cls0.push((cj, 1)));
                                lemma_class_find_push(cls0, cj, 1, c);
                                if c == cj {
                                    lemma_class_find_missing(cls0, cj);
                                    assert(spawn_count(sp.take(i as int), uid, cj) == 0);
                                }
                            }
                        }
                    },
                }
            }
            i = i + 1;
        }
        proof {
            assert(sp.take(sp.len() as int) =~= sp);
        }
        UserState {
            classes,
            name: user.name.clone(),
            user_id: uid,
            steam_id: user.steam_id.clone(),
            team,
        }
    }

    /// The summaries of every registered user, in registration order.
    pub fn from_users_and_spawn(users: Vec<UserInfo>, spawns: Vec<Spawn>) -> (r: Vec<UserState>)
        ensures
            r@.len() == users@.len(),
            forall|k: int|
                0 <= k < users@.len() ==> user_resolved(users@[k], spawns@, #[trigger] r@[k]),
    {
        let mut out: Vec<UserState> = Vec::new();
        let mut i: usize = 0;
        while i < users.len()
            invariant
                i <= users@.len(),
                out@.len() == i,
                forall|k: int| 0 <= k < i ==> user_resolved(users@[k], spawns@, #[trigger] out@[k]),
            decreases users@.len() - i,
        {
            let st = UserState::of_user(&users[i], &spawns);
            out.push(st);
            i = i + 1;
        }
        out
    }
}

/// Updating the unique entry of a class changes the recorded count only for
/// that class.
proof fn lemma_class_find_update(s: Seq<(Class, u8)>, j: int, c: Class, bumped: u8, cj: Class)
    requires
        0 <= j < s.len(),
        s[j].0 == cj,
        forall|k: int| 0 <= k < j ==> (#[trigger] s[k]).0 != cj,
    ensures
        class_find(s.update(j, (cj, bumped)), c) == if c == cj {
            Some(bumped)
        } else {
            class_find(s, c)
        },
    decreases s.len(),
{
    let s1 = s.update(j, (cj, bumped));
    if j == 0 {
        if c != cj {
            assert(s1.drop_first() =~= s.drop_first());
        }
    } else {
        assert(s1[0] == s[0]);
        assert(s1.drop_first() =~= s.drop_first().update(j - 1, (cj, bumped)));
        assert forall|k: int| 0 <= k < j - 1 implies (#[trigger] s.drop_first()[k]).0 != cj by {
            assert(s.drop_first()[k] == s[k + 1]);
        }
        lemma_class_find_update(s.drop_first(), j - 1, c, bumped, cj);
        assert(s[0].0 != cj);
    }
}

/// Appending a fresh class changes the recorded count only for that class.
proof fn lemma_class_find_push(s: Seq<(Class, u8)>, cj: Class, n: u8, c: Class)
    requires
        forall|k: int| 0 <= k < s.len() ==> (#[trigger] s[k]).0 != cj,
    ensures
        class_find(s.push((cj, n)), c) == if c == cj {
            Some(n)
        } else {
            class_find(s, c)
        },
    decreases s.len(),
{
    let s1 = s.push((cj, n));
    if s.len() == 0 {
        assert(s1[0] == (cj, n));
        assert(s1[0].0 == cj && s1[0].1 == n);
        assert(s1.drop_first() =~= Seq::<(Class, u8)>::empty());
        assert(class_find(s1.drop_first(), c) is None);
    } else {
        assert(s1[0] == s[0]);
        assert(s1.drop_first() =~= s.drop_first().push((cj, n)));
        assert forall|k: int| 0 <= k < s.drop_first().len() implies (
        #[trigger] s.drop_first()[k]).0 != cj by {
            assert(s.drop_first()[k] == s[k + 1]);
        }
        lemma_class_find_push(s.drop_first(), cj, n, c);
    }
}

/// The immutable end-of-stream output of the analyser.  The tick interval
/// carries the raw 32-bit image of the authored floating-point value.
#[derive(Debug)]
pub struct MatchState {
    pub chat: Vec<ChatMassage>,
    pub users: Vec<UserState>,
    pub deaths: Vec<Death>,
    pub rounds: Vec<Round>,
    pub start_tick: u32,
    pub interval_per_tick: u32,
}

/// `post` is `pre` with `u` recorded: either the first entry with `u`'s id
/// replaced, or — when no entry had that id — `u` appended.
pub open spec fn upserted_user(pre: Seq<UserInfo>, post: Seq<UserInfo>, u: UserInfo) -> bool {
    ||| exists|k: int|
        0 <= k < pre.len() && (#[trigger] pre[k]).user_id == u.user_id && post == pre.update(k, u)
    ||| (post == pre.push(u) && forall|k: int|
        0 <= k < pre.len() ==> (#[trigger] pre[k]).user_id != u.user_id)
}

/// A userinfo payload with the wire user id `idw` and the steam id `sid`
/// placed after the 32-byte name region.
pub open spec fn userinfo_wire_at(data: Seq<u8>, idw: u32, sid: Seq<char>) -> bool {
    &&& str_ok(sid)
    &&& bits_at(bytes_bits(data), 256, le_bits(idw as nat, 32) + str_bits(sid))
}

/// Exactly one user was recorded from the payload: the low byte of the wire
/// user id, the steam id, the entity id the entry text names, and the name
/// region's text (or the fallback when that region is not valid text).
pub open spec fn recorded_user(
    pre: Seq<UserInfo>,
    post: Seq<UserInfo>,
    text: Seq<char>,
    data: Seq<u8>,
    idw: u32,
    sid: Seq<char>,
) -> bool {
    exists|u: UserInfo|
        {
            &&& #[trigger] upserted_user(pre, post, u)
            &&& u.user_id == UserId((idw & 255) as u8)
            &&& u.steam_id@ == sid
            &&& u.entity_id == EntityId(dec_parse(encode_utf8(text))->Some_0)
            &&& u.name@ == sized_text(bytes_bits(data).subrange(0, 256)) || u.name@
                == "Malformed Name"@
        }
}

/// How one userinfo payload transforms the user registry: when the payload
/// holds a user id and steam id, the user is recorded iff the entry text
/// names an entity id and the steam id is nonempty; nothing else ever
/// changes the registry beyond one upsert.
pub open spec fn user_info_step(
    pre: Seq<UserInfo>,
    post: Seq<UserInfo>,
    text: Seq<char>,
    data: Seq<u8>,
) -> bool {
    &&& (post == pre || exists|u: UserInfo| upserted_user(pre, post, u))
    &&& forall|idw: u32, sid: Seq<char>|
        #[trigger] userinfo_wire_at(data, idw, sid) ==> if dec_parse(encode_utf8(text)) is Some
            && sid.len() > 0 {
            recorded_user(pre, post, text, data, idw, sid)
        } else {
            post == pre
        }
}

/// How one string-table entry transforms the analyser: a userinfo entry
/// carrying text and a payload of more than 32 bytes steps the user
/// registry by that payload; everything else changes nothing.
pub open spec fn analyser_entry_step(
    pre: Analyser,
    post: Analyser,
    table: Seq<char>,
    entry: &StringTableEntry,
) -> bool {
    &&& post.chat == pre.chat
    &&& post.user_spawns == pre.user_spawns
    &&& post.deaths == pre.deaths
    &&& post.rounds == pre.rounds
    &&& post.start_tick == pre.start_tick
    &&& if table == "userinfo"@ && entry.text is Some && entry.extra_data is Some
        && entry.extra_data->Some_0.byte_len > 32 {
        user_info_step(
            pre.users@,
            post.users@,
            entry.text->Some_0@,
            entry.extra_data->Some_0.data@,
        )
    } else {
        post.users == pre.users
    }
}

/// Decomposes a placed userinfo payload: where the wire user id and the
/// steam id lie after the 32-byte name region.
proof fn lemma_userinfo_positions(b: Seq<bool>, idw: u32, sid: Seq<char>)
    requires
        str_ok(sid),
        bits_at(b, 256, le_bits(idw as nat, 32) + str_bits(sid)),
    ensures
        le_bits(idw as nat, 32) == b.subrange(256, 288),
        bits_at(b, 288, str_bits(sid)),
        b.len() >= 288 + str_bits(sid).len(),
        (idw as nat) < vstd::arithmetic::power2::pow2(32),
{
    crate::bits::lemma_le_bits_len(idw as nat, 32);
    crate::bits::lemma_bits_at_split(b, 256, le_bits(idw as nat, 32), str_bits(sid));
    assert(le_bits(idw as nat, 32) =~= b.subrange(256, 288));
    assert(vstd::arithmetic::power2::pow2(32) == 0x100000000) by {
        vstd::arithmetic::power2::lemma2_to64();
    }
}

impl Analyser {
    /// Register or update the user described by one userinfo payload: a
    /// 32-byte name region, the wire user id, and the steam id, keyed by
    /// the entity id in the entry text.  A user is recorded iff the entry
    /// text names an entity id and the steam id is nonempty; a name region
    /// of invalid text falls back to a fixed placeholder name.
    fn parse_user_info(&mut self, text: &String, data: Vec<u8>) -> (r: Result<
        (),
        crate::cursor::CodecError,
    >)
        ensures
            final(self).chat == old(self).chat,
            final(self).user_spawns == old(self).user_spawns,
            final(self).deaths == old(self).deaths,
            final(self).rounds == old(self).rounds,
            final(self).start_tick == old(self).start_tick,
            r is Err ==> final(self).users == old(self).users,
            user_info_step(old(self).users@, final(self).users@, text@, data@),
    {
        let ghost b = bytes_bits(data@);
        let entity_id = crate::state::parse_dec_u32(text.as_str());
        let mut rd = crate::cursor::c_stream_from_bytes(data);
        let name = match crate::cursor::c_read_string_sized(&mut rd, 32) {
            Ok(n) => n,
            Err(_e) => "Malformed Name".to_owned(),
        };
        let id_word = match crate::cursor::c_read_int(&mut rd, 32) {
            Ok(v) => v,
            Err(e) => {
                proof {
                    assert forall|idw: u32, sid: Seq<char>|
                        #[trigger] userinfo_wire_at(data@, idw, sid) implies false by {
                        lemma_userinfo_positions(b, idw, sid);
                    }
                }
                return Err(e);
            },
        };
        let user_id = UserId((id_word & 255) as u8);
        let steam_id = match crate::cursor::c_read_string(&mut rd) {
            Ok(v) => v,
            Err(e) => {
                proof {
                    assert forall|idw: u32, sid: Seq<char>|
                        #[trigger] userinfo_wire_at(data@, idw, sid) implies false by {
                        lemma_userinfo_positions(b, idw, sid);
                    }
                }
                return Err(e);
            },
        };
        match entity_id {
            Some(eid) => {
                if !steam_id.as_str().is_empty() {
                    let user = UserInfo {
                        steam_id,
                        user_id,
                        name,
                        entity_id: crate::message::EntityId(eid),
                    };
                    self.upsert_user(user);
                    proof {
                        assert forall|idw: u32, sid: Seq<char>|
                            #[trigger] userinfo_wire_at(data@, idw, sid) implies recorded_user(
                            old(self).users@,
                            self.users@,
                            text@,
                            data@,
                            idw,
                            sid,
                        ) && dec_parse(encode_utf8(text@)) is Some && sid.len() > 0 by {
                            lemma_userinfo_positions(b, idw, sid);
                            crate::bits::lemma_le_bits_inj(id_word as nat, idw as nat, 32);
                        }
                    }
                } else {
                    proof {
                        assert forall|idw: u32, sid: Seq<char>|
                            #[trigger] userinfo_wire_at(data@, idw, sid) implies sid.len()
                            == 0 by {
                            lemma_userinfo_positions(b, idw, sid);
                        }
                    }
                }
            },
            None => {},
        }
        Ok(())
    }

    /// Record a user, replacing the first entry with the same user id.
    fn upsert_user(&mut self, user: UserInfo)
        ensures
            final(self).chat == old(self).chat,
            final(self).user_spawns == old(self).user_spawns,
            final(self).deaths == old(self).deaths,
            final(self).rounds == old(self).rounds,
            final(self).start_tick == old(self).start_tick,
            upserted_user(old(self).users@, final(self).users@, user),
    {
        let ghost u0 = self.users@;
        let mut i: usize = 0;
        while i < self.users.len()
            invariant
                i <= u0.len(),
                *self == *old(self),
                self.users@ == u0,
                forall|k: int| 0 <= k < i ==> (#[trigger] u0[k]).user_id != user.user_id,
            decreases u0.len() - i,
        {
            if self.users[i].user_id == user.user_id {
                proof {
                    let ghost k = i as int;
                    assert(u0[k].user_id == user.user_id);
                }
                self.users.set(i, user);
                proof {
                    assert(self.users@ =~= u0.update(i as int, user));
                }
                return ;
            }
            i = i + 1;
        }
        self.users.push(user);
        proof {
            assert(self.users@ =~= u0.push(user));
        }
    }
}

impl MessageHandler for Analyser {
    type Output = MatchState;

    /// The analyser consumes game events and user messages.
    open spec fn handles_spec(message_type: MessageType) -> bool {
        message_type == MessageType::GameEvent || message_type == MessageType::UserMessage
    }

    /// The analyser accepts any entry.
    open spec fn entry_pre(&self, table: &String, index: usize, entry: &StringTableEntry) -> bool {
        true
    }

    /// The first delivered message fixes the start tick; game events and
    /// user messages step the statistics as their step relations say.
    open spec fn message_post(pre: Self, post: Self, message: Message, tick: u32) -> bool {
        ({
            let mid_start: u32 = if pre.start_tick == 0 {
                tick
            } else {
                pre.start_tick
            };
            let mid = Analyser { start_tick: mid_start, ..pre };
            match message {
                Message::GameEvent(m) => event_step(mid, post, m.event, tick),
                Message::UserMessage(um) => user_msg_step(mid, post, um, tick),
                _ => post == mid,
            }
        })
    }

    /// A userinfo entry may register or update one user; anything else
    /// changes nothing.
    open spec fn entry_post(
        pre: Self,
        post: Self,
        table: &String,
        index: usize,
        entry: &StringTableEntry,
    ) -> bool {
        analyser_entry_step(pre, post, table@, entry)
    }

    /// The output carries the statistics over and resolves every user
    /// against the spawn list; the tick interval comes from the parser
    /// state's demo metadata.
    open spec fn output_spec(self, state: ParserState, output: MatchState) -> bool {
        &&& output.chat == self.chat
        &&& output.deaths == self.deaths
        &&& output.rounds == self.rounds
        &&& output.start_tick == self.start_tick
        &&& output.interval_per_tick == state.demo_meta.interval_per_tick
        &&& output.users@.len() == self.users@.len()
        &&& forall|k: int|
            0 <= k < self.users@.len() ==> user_resolved(
                self.users@[k],
                self.user_spawns@,
                #[trigger] output.users@[k],
            )
    }

    fn does_handle(message_type: MessageType) -> (r: bool) {
        match message_type {
            MessageType::GameEvent | MessageType::UserMessage => true,
            _ => false,
        }
    }

    fn handle_message(&mut self, message: Message, tick: u32) {
        if self.start_tick == 0 {
            self.start_tick = tick;
        }
        match message {
            Message::GameEvent(m) => self.handle_event(m.event, tick),
            Message::UserMessage(m) => self.handle_user_message(m, tick),
            _ => {},
        }
    }

    fn handle_string_entry(&mut self, table: &String, _index: usize, entry: &StringTableEntry) {
        if *table == "userinfo".to_owned() {
            match (&entry.text, &entry.extra_data) {
                (Some(text), Some(data)) => {
                    if data.byte_len > 32 {
                        let payload = crate::state::copy_bytes(&data.data);
                        let _ = self.parse_user_info(text, payload);
                    }
                },
                _ => {},
            }
        }
    }

    fn get_output(self, state: ParserState) -> (r: MatchState) {
        MatchState {
            start_tick: self.start_tick,
            interval_per_tick: state.demo_meta.interval_per_tick,
            chat: self.chat,
            deaths: self.deaths,
            rounds: self.rounds,
            users: UserState::from_users_and_spawn(self.users, self.user_spawns),
        }
    }
}

} // verus!
