//! Selections: how a user's profile follows their choices, what the role
//! collaborator is told, and what a profile query shows.
use vstd::prelude::*;

use crate::codec::{decode_profile, parse_profile_record};
use crate::model::{opt_string_view, ProfileModel, StoreError, Timestamp, UserProfile};
use crate::registry::{has_character, CharacterRegistry};

verus! {

/// The profile made for a user's first selection: the chosen character as
/// current selection, no team, no history, and `now` for both dates.
pub open spec fn fresh_profile(user_id: u64, character_id: u64, now: i64) -> ProfileModel {
    ProfileModel {
        user_id,
        selected_waifu: character_id,
        team_id: None,
        join_date: now,
        last_selection_date: now,
        previous_selections: Seq::empty(),
    }
}

/// The profile after a selection: the current selection moves to the end of
/// the history, the chosen character becomes current, and `now` is the last
/// selection date. Without an earlier profile a fresh one is made first, so
/// the history of a first selection holds the chosen character.
pub open spec fn selection_applied(
    prior: Option<ProfileModel>,
    user_id: u64,
    character_id: u64,
    now: i64,
) -> ProfileModel {
    let p = match prior {
        Some(p) => p,
        None => fresh_profile(user_id, character_id, now),
    };
    ProfileModel {
        selected_waifu: character_id,
        last_selection_date: now,
        previous_selections: p.previous_selections.push(p.selected_waifu),
        ..p
    }
}

pub open spec fn opt_profile_view(p: Option<UserProfile>) -> Option<ProfileModel> {
    match p {
        Some(q) => Some(q@),
        None => None,
    }
}

/// The profile after the selections `picks`, made at `times`, one by one.
pub open spec fn profile_after(
    prior: Option<ProfileModel>,
    user_id: u64,
    picks: Seq<u64>,
    times: Seq<i64>,
) -> Option<ProfileModel>
    decreases picks.len(),
{
    if picks.len() == 0 || times.len() != picks.len() {
        prior
    } else {
        Some(
            selection_applied(
                profile_after(prior, user_id, picks.drop_last(), times.drop_last()),
                user_id,
                picks.last(),
                times.last(),
            ),
        )
    }
}

/// Updates a user's profile for the selection of `character_id` at `now`,
/// from the stored profile where there is one.
pub fn apply_selection(
    prior: Option<UserProfile>,
    user_id: u64,
    character_id: u64,
    now: Timestamp,
) -> (r: UserProfile)
    ensures
        r@ == selection_applied(opt_profile_view(prior), user_id, character_id, now),
{
    let mut p = match prior {
        Some(p) => p,
        None => UserProfile {
            user_id,
            selected_waifu: character_id,
            team_id: None,
            join_date: now,
            last_selection_date: now,
            previous_selections: Vec::new(),
        },
    };
    let current = p.selected_waifu;
    p.previous_selections.push(current);
    p.selected_waifu = character_id;
    p.last_selection_date = now;
    p
}

/// The user's profile after the selection of `character_id` at `now`, from
/// the stored profile record where there is one. A stored record that is not
/// the record of a profile is `CorruptRecord`, never replaced by a fresh
/// profile.
pub fn profile_after_selection(
    stored: Option<&[u8]>,
    user_id: u64,
    character_id: u64,
    now: Timestamp,
) -> (r: Result<UserProfile, StoreError>)
    ensures
        match stored {
            None => r matches Ok(p) && p@ == selection_applied(None, user_id, character_id, now),
            Some(b) => match parse_profile_record(b@) {
                Some(m) => r matches Ok(p) && p@ == selection_applied(
                    Some(m),
                    user_id,
                    character_id,
                    now,
                ),
                None => r == Err::<UserProfile, StoreError>(StoreError::CorruptRecord),
            },
        },
{
    let prior = match stored {
        Some(b) => match decode_profile(b) {
            Ok(p) => Some(p),
            Err(e) => return Err(e),
        },
        None => None,
    };
    Ok(apply_selection(prior, user_id, character_id, now))
}

/// After N selections by a user who had no profile, the history has N
/// entries: the first choice (from the fresh profile) followed by every
/// choice but the last, and the last choice is the current selection.
pub proof fn lemma_selection_history(user_id: u64, picks: Seq<u64>, times: Seq<i64>)
    requires
        picks.len() > 0,
        times.len() == picks.len(),
    ensures
        profile_after(None, user_id, picks, times) is Some,
        ({
            let p = profile_after(None, user_id, picks, times)->Some_0;
            &&& p.previous_selections.len() == picks.len()
            &&& p.previous_selections == seq![picks[0]] + picks.take(picks.len() - 1)
            &&& p.selected_waifu == picks.last()
            &&& p.user_id == user_id
            &&& p.join_date == times[0]
            &&& p.last_selection_date == times.last()
        }),
    decreases picks.len(),
{
    if picks.len() == 1 {
        assert(picks.drop_last().len() == 0);
        assert(seq![picks[0]] + picks.take(0) =~= seq![picks[0]]);
        assert(Seq::<u64>::empty().push(picks[0]) =~= seq![picks[0]]);
    } else {
        let pd = picks.drop_last();
        let td = times.drop_last();
        lemma_selection_history(user_id, pd, td);
        let q = profile_after(None, user_id, pd, td)->Some_0;
        assert(pd[0] == picks[0]);
        assert(td[0] == times[0]);
        assert(q.previous_selections.push(q.selected_waifu) =~= seq![picks[0]] + picks.take(
            picks.len() - 1,
        ));
    }
}

/// What the role collaborator is told after a selection: drop every roster
/// role, then add the chosen character's role, if the roster has it.
#[derive(Debug, Clone, PartialEq, Eq)]
pub struct RoleSync {
    pub user_id: u64,
    pub remove_role_ids: Vec<u64>,
    pub add_role_id: Option<u64>,
}

/// What a profile query shows.
#[derive(Debug, Clone, PartialEq, Eq)]
pub struct ProfileCard {
    pub character_name: String,
    /// The team identifier, or `None` in words when the user has no team.
    pub team: String,
    pub join_date: Timestamp,
}

impl CharacterRegistry {
    /// The role changes that follow the selection of `character_id` by
    /// `user_id`.
    pub fn role_sync(&self, user_id: u64, character_id: u64) -> (r: RoleSync)
        requires
            self.wf(),
        ensures
            r.user_id == user_id,
            r.remove_role_ids@ == self@.map_values(|c: crate::model::CharacterModel| c.role_id),
            r.add_role_id is Some <==> has_character(self@, character_id),
            r.add_role_id matches Some(role) ==> exists|i: int|
                0 <= i < self@.len() && #[trigger] self@[i].emoji_id == character_id
                    && self@[i].role_id == role,
    {
        let chars = self.characters();
        let mut remove: Vec<u64> = Vec::new();
        let mut add: Option<u64> = None;
        let mut i: usize = 0;
        while i < chars.len()
            invariant
                i <= self@.len(),
                crate::model::characters_view(chars@) == self@,
                remove@ == self@.take(i as int).map_values(
                    |c: crate::model::CharacterModel| c.role_id,
                ),
                add is None ==> forall|k: int| 0 <= k < i ==> #[trigger] self@[k].emoji_id != character_id,
                add matches Some(role) ==> exists|k: int|
                    0 <= k < i && #[trigger] self@[k].emoji_id == character_id && self@[k].role_id
                        == role,
            decreases self@.len() - i,
        {
            let c = &chars[i];
            assert(self@[i as int] == c@);
            remove.push(c.role_id);
            if add.is_none() && c.emoji_id == character_id {
                add = Some(c.role_id);
                assert(self@[i as int].emoji_id == character_id && self@[i as int].role_id
                    == c.role_id);
            }
            assert(self@.take(i + 1) =~= self@.take(i as int).push(self@[i as int]));
            i = i + 1;
        }
        assert(self@.take(i as int) =~= self@);
        RoleSync { user_id, remove_role_ids: remove, add_role_id: add }
    }

    /// The profile query for a stored profile: the current character's name,
    /// the team identifier or `None`, and the join date. Nothing when the
    /// current selection names no character of the roster.
    pub fn profile_card(&self, profile: &UserProfile) -> (r: Option<ProfileCard>)
        requires
            self.wf(),
        ensures
            r is Some <==> has_character(self@, profile.selected_waifu),
            r matches Some(card) ==> {
                &&& exists|i: int|
                    0 <= i < self@.len() && #[trigger] self@[i].emoji_id == profile.selected_waifu
                        && self@[i].name == card.character_name@
                &&& card.team@ == match opt_string_view(profile.team_id) {
                    Some(t) => t,
                    None => "None"@,
                }
                &&& card.join_date == profile.join_date
            },
    {
        let chars = self.characters();
        let mut i: usize = 0;
        while i < chars.len()
            invariant
                i <= self@.len(),
                crate::model::characters_view(chars@) == self@,
                forall|k: int| 0 <= k < i ==> #[trigger] self@[k].emoji_id != profile.selected_waifu,
            decreases self@.len() - i,
        {
            assert(self@[i as int] == chars@[i as int]@);
            if chars[i].emoji_id == profile.selected_waifu {
                let team = match &profile.team_id {
                    Some(t) => t.clone(),
                    None => "None".to_owned(),
                };
                let card = ProfileCard {
                    character_name: chars[i].name.clone(),
                    team,
                    join_date: profile.join_date,
                };
                assert(self@[i as int].emoji_id == profile.selected_waifu && self@[i as int].name
                    == card.character_name@);
                return Some(card);
            }
            i = i + 1;
        }
        None
    }
}

} // verus!
