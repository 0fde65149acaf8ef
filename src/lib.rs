//! Persistent state of a character-selection community bot: the character
//! registry with its popularity counters and periodic reset, per-user
//! selection profiles, teams, and the byte records they are stored as.

pub mod codec;
pub mod keys;
pub mod model;
pub mod registry;
pub mod selection;

pub use codec::{
    decode_characters, decode_profile, decode_team, encode_characters, encode_profile,
    encode_team, RECORD_VERSION,
};
pub use keys::{character_stats_key, team_key, user_key};
pub use model::{StoreError, Team, Timestamp, UserProfile, WaifuCharacter};
pub use registry::{CharacterRegistry, RESET_PERIOD_MS};
pub use selection::{apply_selection, profile_after_selection, ProfileCard, RoleSync};
