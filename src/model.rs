use vstd::prelude::*;

verus! {

/// Milliseconds since 1970-01-01T00:00:00Z.
pub type Timestamp = i64;

/// A selectable roster character with its popularity counter.
#[derive(Debug, Clone, PartialEq, Eq)]
pub struct WaifuCharacter {
    pub name: String,
    pub emoji_id: u64,
    pub emoji_name: String,
    pub role_id: u64,
    pub description: String,
    pub selection_count: u32,
    pub last_reset: Timestamp,
}

/// The per-user record of current and earlier selections.
#[derive(Debug, Clone, PartialEq, Eq)]
pub struct UserProfile {
    pub user_id: u64,
    pub selected_waifu: u64,
    pub team_id: Option<String>,
    pub join_date: Timestamp,
    pub last_selection_date: Timestamp,
    pub previous_selections: Vec<u64>,
}

/// A named group of users with a leader.
#[derive(Debug, Clone, PartialEq, Eq)]
pub struct Team {
    pub id: String,
    pub name: String,
    pub leader_id: u64,
    pub members: Vec<u64>,
    pub created_at: Timestamp,
}

/// The failures that the state operations report.
#[derive(Debug, Clone, Copy, PartialEq, Eq)]
pub enum StoreError {
    /// The durable store failed to read or write.
    Storage,
    /// A stored record does not have the shape of an encoded value.
    CorruptRecord,
    /// The identifier names no character of the registry.
    UnknownCharacter,
}

/// Mathematical value of a [`WaifuCharacter`].
pub struct CharacterModel {
    pub name: Seq<char>,
    pub emoji_id: u64,
    pub emoji_name: Seq<char>,
    pub role_id: u64,
    pub description: Seq<char>,
    pub selection_count: u32,
    pub last_reset: i64,
}

/// Mathematical value of a [`UserProfile`].
pub struct ProfileModel {
    pub user_id: u64,
    pub selected_waifu: u64,
    pub team_id: Option<Seq<char>>,
    pub join_date: i64,
    pub last_selection_date: i64,
    pub previous_selections: Seq<u64>,
}

/// Mathematical value of a [`Team`].
pub struct TeamModel {
    pub id: Seq<char>,
    pub name: Seq<char>,
    pub leader_id: u64,
    pub members: Seq<u64>,
    pub created_at: i64,
}

pub open spec fn opt_string_view(s: Option<String>) -> Option<Seq<char>> {
    match s {
        Some(t) => Some(t@),
        None => None,
    }
}

/// The mathematical values of a list of characters.
pub open spec fn characters_view(v: Seq<WaifuCharacter>) -> Seq<CharacterModel> {
    v.map_values(|c: WaifuCharacter| c@)
}

impl View for WaifuCharacter {
    type V = CharacterModel;

    open spec fn view(&self) -> CharacterModel {
        CharacterModel {
            name: self.name@,
            emoji_id: self.emoji_id,
            emoji_name: self.emoji_name@,
            role_id: self.role_id,
            description: self.description@,
            selection_count: self.selection_count,
            last_reset: self.last_reset,
        }
    }
}

impl View for UserProfile {
    type V = ProfileModel;

    open spec fn view(&self) -> ProfileModel {
        ProfileModel {
            user_id: self.user_id,
            selected_waifu: self.selected_waifu,
            team_id: opt_string_view(self.team_id),
            join_date: self.join_date,
            last_selection_date: self.last_selection_date,
            previous_selections: self.previous_selections@,
        }
    }
}

impl View for Team {
    type V = TeamModel;

    open spec fn view(&self) -> TeamModel {
        TeamModel {
            id: self.id@,
            name: self.name@,
            leader_id: self.leader_id,
            members: self.members@,
            created_at: self.created_at,
        }
    }
}

} // verus!
