//! The character registry: the authoritative in-memory roster with its
//! selection counters, rankings and the monthly counter reset.
use vstd::prelude::*;

use crate::codec::{characters_fit, characters_record, decode_characters, encode_characters, parse_characters_record};
use crate::model::{characters_view, CharacterModel, StoreError, Timestamp, WaifuCharacter};

verus! {

/// Thirty days, in milliseconds: the length of a ranking period.
pub const RESET_PERIOD_MS: i64 = 2_592_000_000;

/// No two characters share an identifier.
pub open spec fn unique_ids(cs: Seq<CharacterModel>) -> bool {
    forall|i: int, j: int|
        0 <= i < cs.len() && 0 <= j < cs.len() && i != j ==> #[trigger] cs[i].emoji_id
            != #[trigger] cs[j].emoji_id
}

/// Some character has the identifier.
pub open spec fn has_character(cs: Seq<CharacterModel>, id: u64) -> bool {
    exists|i: int| 0 <= i < cs.len() && #[trigger] cs[i].emoji_id == id
}

/// The counter after one more selection; it stays at its largest value.
pub open spec fn bumped(count: u32) -> u32 {
    if count < u32::MAX {
        (count + 1) as u32
    } else {
        count
    }
}

/// The roster after a selection of `id`: that character's counter goes up.
pub open spec fn count_selection(cs: Seq<CharacterModel>, id: u64) -> Seq<CharacterModel> {
    cs.map_values(
        |c: CharacterModel|
            if c.emoji_id == id {
                CharacterModel { selection_count: bumped(c.selection_count), ..c }
            } else {
                c
            },
    )
}

/// A reset is due once the time since the first character's last reset
/// exceeds the period.
pub open spec fn reset_due(cs: Seq<CharacterModel>, now: i64) -> bool {
    cs.len() > 0 && now - cs[0].last_reset > RESET_PERIOD_MS
}

/// The roster after a reset check at `now`.
pub open spec fn reset_at(cs: Seq<CharacterModel>, now: i64) -> Seq<CharacterModel> {
    if reset_due(cs, now) {
        cs.map_values(
            |c: CharacterModel| CharacterModel { selection_count: 0, last_reset: now, ..c },
        )
    } else {
        cs
    }
}

/// Inserts an entry into a ranking ordered by count, descending, after every
/// entry whose count is at least its own.
pub open spec fn insert_ranked(s: Seq<(Seq<char>, u32)>, x: (Seq<char>, u32)) -> Seq<
    (Seq<char>, u32),
>
    decreases s.len(),
{
    if s.len() == 0 {
        seq![x]
    } else if s.last().1 >= x.1 {
        s.push(x)
    } else {
        insert_ranked(s.drop_last(), x).push(s.last())
    }
}

/// Names and counts of the roster, by count descending; equal counts keep
/// the roster's order.
pub open spec fn ranking_of(cs: Seq<CharacterModel>) -> Seq<(Seq<char>, u32)>
    decreases cs.len(),
{
    if cs.len() == 0 {
        Seq::empty()
    } else {
        insert_ranked(ranking_of(cs.drop_last()), (cs.last().name, cs.last().selection_count))
    }
}

/// The mathematical value of a ranking.
pub open spec fn ranking_view(v: Seq<(String, u32)>) -> Seq<(Seq<char>, u32)> {
    v.map_values(|p: (String, u32)| (p.0@, p.1))
}


proof fn lemma_insert_ranked_at(s: Seq<(Seq<char>, u32)>, x: (Seq<char>, u32), j: int)
    requires
        0 <= j <= s.len(),
        forall|k: int| j <= k < s.len() ==> #[trigger] s[k].1 < x.1,
        j == 0 || s[j - 1].1 >= x.1,
    ensures
        insert_ranked(s, x) == s.take(j).push(x) + s.skip(j),
    decreases s.len(),
{
    if s.len() == j {
        if s.len() == 0 {
            assert(s.take(j).push(x) + s.skip(j) =~= seq![x]);
        } else {
            assert(s.take(j).push(x) + s.skip(j) =~= s.push(x));
        }
    } else {
        let d = s.drop_last();
        assert forall|k: int| j <= k < d.len() implies #[trigger] d[k].1 < x.1 by {
            assert(d[k] == s[k]);
        }
        lemma_insert_ranked_at(d, x, j);
        assert(d.take(j) =~= s.take(j));
        assert((d.take(j).push(x) + d.skip(j)).push(s.last()) =~= s.take(j).push(x) + s.skip(j));
    }
}

/// A roster character as the seed makes it: no role, no description, no
/// selections, and `now` as its last reset.
pub open spec fn seed_character(name: Seq<char>, id: u64, emoji: Seq<char>, now: i64) -> CharacterModel {
    CharacterModel {
        name,
        emoji_id: id,
        emoji_name: emoji,
        role_id: 0,
        description: Seq::empty(),
        selection_count: 0,
        last_reset: now,
    }
}

/// The fixed roster that the registry starts from.
pub open spec fn seeded_roster(now: i64) -> Seq<CharacterModel> {
    seq![
        seed_character("Maki"@, 1327355612350382141, "maki"@, now),
        seed_character("Kaguya"@, 1327356393467940996, "kaguya"@, now),
        seed_character("Marin"@, 1327356110449016934, "marin"@, now),
        seed_character("Makima"@, 1327362655521996810, "makima"@, now),
        seed_character("Kurisu"@, 1327362962624876585, "kurisu"@, now),
        seed_character("Zero Two"@, 1327362208480362529, "002"@, now),
        seed_character("Misaka"@, 1327360466120478750, "mikoto"@, now),
        seed_character("Hinata"@, 1327361136873574573, "hinata"@, now),
        seed_character("Mikasa"@, 1327359687930150943, "mikasa"@, now),
        seed_character("Rem"@, 1327361516743430298, "rem"@, now),
        seed_character("Megumin"@, 1328441290593144905, "Thumpsup_Megumin"@, now),
        seed_character("Nami"@, 1327360671725129920, "nami"@, now),
        seed_character("Himiko"@, 1332070942746349659, "himikoexcited"@, now),
    ]
}

fn seed(name: &str, id: u64, emoji: &str, now: Timestamp) -> (r: WaifuCharacter)
    ensures
        r@ == seed_character(name@, id, emoji@, now),
{
    WaifuCharacter {
        name: name.to_owned(),
        emoji_id: id,
        emoji_name: emoji.to_owned(),
        role_id: 0,
        description: String::new(),
        selection_count: 0,
        last_reset: now,
    }
}

/// Counts never rise from one entry to the next.
pub open spec fn sorted_desc(s: Seq<(Seq<char>, u32)>) -> bool {
    forall|i: int, j: int| 0 <= i < j < s.len() ==> #[trigger] s[i].1 >= #[trigger] s[j].1
}

proof fn lemma_insert_ranked_props(s: Seq<(Seq<char>, u32)>, x: (Seq<char>, u32), m: u32)
    ensures
        insert_ranked(s, x).len() == s.len() + 1,
        sorted_desc(s) ==> sorted_desc(insert_ranked(s, x)),
        (x.1 >= m && forall|i: int| 0 <= i < s.len() ==> #[trigger] s[i].1 >= m) ==> forall|i: int|
            0 <= i < s.len() + 1 ==> #[trigger] insert_ranked(s, x)[i].1 >= m,
    decreases s.len(),
{
    if s.len() > 0 && s.last().1 < x.1 {
        let d = s.drop_last();
        lemma_insert_ranked_props(d, x, m);
        lemma_insert_ranked_props(d, x, s.last().1);
        if x.1 >= m && forall|i: int| 0 <= i < s.len() ==> #[trigger] s[i].1 >= m {
            assert forall|i: int| 0 <= i < d.len() implies #[trigger] d[i].1 >= m by {
                assert(d[i] == s[i]);
            }
        }
        if sorted_desc(s) {
            assert forall|i: int| 0 <= i < d.len() implies #[trigger] d[i].1 >= s.last().1 by {
                assert(d[i] == s[i]);
            }
            assert(sorted_desc(d)) by {
                assert forall|i: int, j: int| 0 <= i < j < d.len() implies #[trigger] d[i].1
                    >= #[trigger] d[j].1 by {
                    assert(d[i] == s[i] && d[j] == s[j]);
                }
            }
        }
    }
}

/// The ranking holds one entry per character and is ordered by count,
/// descending. Being a function of the roster alone, it is the same on every
/// call that no change of the registry separates.
pub proof fn lemma_ranking_sorted(cs: Seq<CharacterModel>)
    ensures
        ranking_of(cs).len() == cs.len(),
        sorted_desc(ranking_of(cs)),
    decreases cs.len(),
{
    if cs.len() > 0 {
        lemma_ranking_sorted(cs.drop_last());
        lemma_insert_ranked_props(
            ranking_of(cs.drop_last()),
            (cs.last().name, cs.last().selection_count),
            0,
        );
    }
}

/// A second reset check at the same instant changes nothing; a check that
/// did reset left every counter at zero with `now` as the last reset.
pub proof fn lemma_reset_idempotent(cs: Seq<CharacterModel>, now: i64)
    ensures
        !reset_due(reset_at(cs, now), now),
        reset_at(reset_at(cs, now), now) == reset_at(cs, now),
        reset_due(cs, now) ==> forall|i: int|
            0 <= i < cs.len() ==> #[trigger] reset_at(cs, now)[i].selection_count == 0
                && reset_at(cs, now)[i].last_reset == now,
{
}

/// A selection of an identifier that names no character leaves the roster
/// as it was.
pub proof fn lemma_unknown_selection_is_harmless(cs: Seq<CharacterModel>, id: u64)
    requires
        !has_character(cs, id),
    ensures
        count_selection(cs, id) == cs,
{
    assert(count_selection(cs, id) =~= cs);
}

/// Restoring a registry from its own snapshot gives the same roster.
pub proof fn lemma_snapshot_restores(cs: Seq<CharacterModel>)
    requires
        unique_ids(cs),
        characters_fit(cs),
    ensures
        parse_characters_record(characters_record(cs)) == Some(cs),
{
    crate::codec::lemma_characters_record_round_trip(cs);
}

/// The in-memory roster of characters.
pub struct CharacterRegistry {
    characters: Vec<WaifuCharacter>,
}

impl View for CharacterRegistry {
    type V = Seq<CharacterModel>;

    closed spec fn view(&self) -> Seq<CharacterModel> {
        characters_view(self.characters@)
    }
}

impl CharacterRegistry {
    /// Well-formed: identifiers are distinct.
    pub open spec fn wf(&self) -> bool {
        unique_ids(self@)
    }

    /// A registry of the given characters, in their order; `None` when two
    /// share an identifier.
    pub fn from_characters(characters: Vec<WaifuCharacter>) -> (r: Option<Self>)
        ensures
            r is Some <==> unique_ids(characters_view(characters@)),
            r matches Some(reg) ==> reg.wf() && reg@ == characters_view(characters@),
    {
        let ghost cs = characters_view(characters@);
        let n = characters.len();
        let mut i: usize = 0;
        while i < n
            invariant
                n == characters@.len(),
                cs == characters_view(characters@),
                i <= n,
                forall|a: int, b: int|
                    0 <= a < i && 0 <= b < n && a != b ==> #[trigger] cs[a].emoji_id
                        != #[trigger] cs[b].emoji_id,
            decreases n - i,
        {
            let mut j: usize = 0;
            while j < n
                invariant
                    n == characters@.len(),
                    cs == characters_view(characters@),
                    i < n,
                    j <= n,
                    forall|a: int, b: int|
                        0 <= a < i && 0 <= b < n && a != b ==> #[trigger] cs[a].emoji_id
                            != #[trigger] cs[b].emoji_id,
                    forall|b: int| 0 <= b < j && b != i ==> cs[i as int].emoji_id != #[trigger] cs[b].emoji_id,
                decreases n - j,
            {
                if j != i && characters[i].emoji_id == characters[j].emoji_id {
                    assert(cs[i as int].emoji_id == cs[j as int].emoji_id);
                    return None;
                }
                j = j + 1;
            }
            i = i + 1;
        }
        let reg = CharacterRegistry { characters };
        assert(reg@ == cs);
        Some(reg)
    }

    /// Names and counts of all characters by count, descending; equal
    /// counts keep roster order. Reads the registry only.
    pub fn rankings(&self) -> (r: Vec<(String, u32)>)
        ensures
            ranking_view(r@) == ranking_of(self@),
    {
        let mut out: Vec<(String, u32)> = Vec::new();
        let mut i: usize = 0;
        while i < self.characters.len()
            invariant
                i <= self@.len(),
                self@ == characters_view(self.characters@),
                ranking_view(out@) == ranking_of(self@.take(i as int)),
            decreases self@.len() - i,
        {
            let count = self.characters[i].selection_count;
            let entry = (self.characters[i].name.clone(), count);
            let ghost x = (self@[i as int].name, count);
            let ghost s = ranking_view(out@);
            let mut j: usize = out.len();
            while j > 0 && out[j - 1].1 < count
                invariant
                    j <= out@.len(),
                    s == ranking_view(out@),
                    x.1 == count,
                    forall|k: int| j <= k < s.len() ==> #[trigger] s[k].1 < x.1,
                decreases j,
            {
                assert(s[j - 1].1 == out@[j - 1].1);
                j = j - 1;
            }
            proof {
                lemma_insert_ranked_at(s, x, j as int);
                let t = self@.take(i + 1);
                assert(t.drop_last() =~= self@.take(i as int));
            }
            out.insert(j, entry);
            assert(ranking_view(out@) =~= s.take(j as int).push(x) + s.skip(j as int));
            i = i + 1;
        }
        assert(self@.take(i as int) =~= self@);
        out
    }

    /// The fixed roster, with `now` as every character's last reset.
    pub fn seeded(now: Timestamp) -> (r: Self)
        ensures
            r.wf(),
            r@ == seeded_roster(now),
    {
        let mut v: Vec<WaifuCharacter> = Vec::new();
        v.push(seed("Maki", 1327355612350382141, "maki", now));
        v.push(seed("Kaguya", 1327356393467940996, "kaguya", now));
        v.push(seed("Marin", 1327356110449016934, "marin", now));
        v.push(seed("Makima", 1327362655521996810, "makima", now));
        v.push(seed("Kurisu", 1327362962624876585, "kurisu", now));
        v.push(seed("Zero Two", 1327362208480362529, "002", now));
        v.push(seed("Misaka", 1327360466120478750, "mikoto", now));
        v.push(seed("Hinata", 1327361136873574573, "hinata", now));
        v.push(seed("Mikasa", 1327359687930150943, "mikasa", now));
        v.push(seed("Rem", 1327361516743430298, "rem", now));
        v.push(seed("Megumin", 1328441290593144905, "Thumpsup_Megumin", now));
        v.push(seed("Nami", 1327360671725129920, "nami", now));
        v.push(seed("Himiko", 1332070942746349659, "himikoexcited", now));
        let r = CharacterRegistry { characters: v };
        assert(r@ =~= seeded_roster(now));
        r
    }

    /// The startup state: the stored character record where there is one,
    /// else the fixed roster stamped `now`. A stored record that is not the
    /// record of a roster with distinct identifiers is `CorruptRecord`.
    pub fn restore(stored: Option<&[u8]>, now: Timestamp) -> (r: Result<Self, StoreError>)
        ensures
            r matches Ok(reg) ==> reg.wf(),
            match stored {
                None => r matches Ok(reg) && reg@ == seeded_roster(now),
                Some(b) => match parse_characters_record(b@) {
                    Some(cs) => if unique_ids(cs) {
                        r matches Ok(reg) && reg@ == cs
                    } else {
                        r == Err::<Self, StoreError>(StoreError::CorruptRecord)
                    },
                    None => r == Err::<Self, StoreError>(StoreError::CorruptRecord),
                },
            },
    {
        match stored {
            None => Ok(Self::seeded(now)),
            Some(b) => match decode_characters(b) {
                Ok(v) => match Self::from_characters(v) {
                    Some(reg) => Ok(reg),
                    None => Err(StoreError::CorruptRecord),
                },
                Err(e) => Err(e),
            },
        }
    }

    /// The record that the registry is stored as.
    pub fn snapshot(&self) -> (r: Vec<u8>)
        ensures
            r@ == characters_record(self@),
            characters_fit(self@),
    {
        encode_characters(&self.characters)
    }

    /// The characters, in roster order.
    pub fn characters(&self) -> (r: &Vec<WaifuCharacter>)
        ensures
            characters_view(r@) == self@,
    {
        &self.characters
    }

    /// The position of the character with the identifier.
    fn position(&self, id: u64) -> (r: Option<usize>)
        requires
            self.wf(),
        ensures
            match r {
                Some(i) => i < self@.len() && self@[i as int].emoji_id == id,
                None => !has_character(self@, id),
            },
    {
        let mut i: usize = 0;
        while i < self.characters.len()
            invariant
                i <= self@.len(),
                self@ == characters_view(self.characters@),
                forall|k: int| 0 <= k < i ==> #[trigger] self@[k].emoji_id != id,
            decreases self@.len() - i,
        {
            if self.characters[i].emoji_id == id {
                return Some(i);
            }
            i = i + 1;
        }
        None
    }

    /// Counts a selection of the character `id`. An identifier that names no
    /// character changes nothing and is reported as `UnknownCharacter`.
    pub fn record_selection(&mut self, id: u64) -> (r: Result<(), StoreError>)
        requires
            old(self).wf(),
        ensures
            final(self).wf(),
            final(self)@ == count_selection(old(self)@, id),
            r is Ok <==> has_character(old(self)@, id),
            r is Err ==> r == Err::<(), StoreError>(StoreError::UnknownCharacter) && final(self)@
                == old(self)@,
    {
        match self.position(id) {
            None => {
                assert(count_selection(self@, id) =~= self@);
                Err(StoreError::UnknownCharacter)
            },
            Some(i) => {
                let ghost before = self@;
                let count = self.characters[i].selection_count;
                let next = if count < u32::MAX {
                    count + 1
                } else {
                    count
                };
                self.characters[i].selection_count = next;
                proof {
                    assert forall|k: int| 0 <= k < before.len() && k != i implies before[k].emoji_id
                        != id by {
                        assert(before[k].emoji_id != before[i as int].emoji_id);
                    }
                    assert(self@ =~= count_selection(before, id));
                }
                Ok(())
            },
        }
    }

    /// Zeroes every counter and stamps `now` as the last reset, when the
    /// time since the first character's last reset exceeds the period.
    /// Returns whether it did.
    pub fn reset_if_due(&mut self, now: Timestamp) -> (r: bool)
        requires
            old(self).wf(),
        ensures
            final(self).wf(),
            r == reset_due(old(self)@, now),
            final(self)@ == reset_at(old(self)@, now),
    {
        if self.characters.len() == 0 {
            return false;
        }
        let elapsed = (now as i128) - (self.characters[0].last_reset as i128);
        if elapsed <= RESET_PERIOD_MS as i128 {
            return false;
        }
        let ghost before = self@;
        let mut i: usize = 0;
        while i < self.characters.len()
            invariant
                i <= self@.len(),
                self@.len() == before.len(),
                forall|k: int| 0 <= k < i ==> #[trigger] self@[k] == (CharacterModel { selection_count: 0, last_reset: now, ..before[k] }),
                forall|k: int| i <= k < self@.len() ==> #[trigger] self@[k] == before[k],
            decreases self@.len() - i,
        {
            let ghost prev = self.characters@;
            self.characters[i].selection_count = 0;
            self.characters[i].last_reset = now;
            proof {
                assert(self.characters@ == prev.update(i as int, self.characters@[i as int]));
                assert forall|k: int| 0 <= k < self@.len() && k != i implies #[trigger] self@[k]
                    == characters_view(prev)[k] by {
                    assert(self.characters@[k] == prev[k]);
                }
                assert(characters_view(prev)[i as int] == before[i as int]);
                assert(self@[i as int] == self.characters@[i as int]@);
                assert(self@[i as int] == (CharacterModel { selection_count: 0, last_reset: now, ..before[i as int] }));
            }
            i = i + 1;
        }
        assert(self@ =~= reset_at(before, now));
        assert forall|a: int, b: int|
            0 <= a < self@.len() && 0 <= b < self@.len() && a != b implies #[trigger] self@[a].emoji_id
                != #[trigger] self@[b].emoji_id by {
            assert(before[a].emoji_id != before[b].emoji_id);
        }
        true
    }
}

} // verus!
