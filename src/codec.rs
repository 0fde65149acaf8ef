//! Byte records of the stored entities.
//!
//! Every record starts with a one-byte format version. Integers are
//! little-endian and fixed-width (timestamps as their two's-complement
//! `u64`), strings are a `u64` byte count followed by their UTF-8 bytes, a
//! sequence is a `u64` item count followed by its items, and an optional
//! string is a tag byte `0` (absent) or `1` followed by the string.
use vstd::bytes::*;
use vstd::prelude::*;
use vstd::slice::slice_subrange;
use vstd::utf8::*;

use crate::model::{
    characters_view, opt_string_view, CharacterModel, ProfileModel, StoreError, Team, TeamModel, UserProfile, WaifuCharacter,
};

verus! {

broadcast use vstd::utf8::encode_utf8_decode_utf8, vstd::utf8::encode_utf8_valid_utf8;

/// The format version written at the start of every record.
pub const RECORD_VERSION: u8 = 1;

// ---------------------------------------------------------------------------
// Encoding, as mathematical functions.

pub open spec fn enc_u64(x: u64) -> Seq<u8> {
    spec_u64_to_le_bytes(x)
}

pub open spec fn enc_i64(x: i64) -> Seq<u8> {
    spec_u64_to_le_bytes(x as u64)
}

pub open spec fn enc_u32(x: u32) -> Seq<u8> {
    spec_u32_to_le_bytes(x)
}

pub open spec fn enc_str(s: Seq<char>) -> Seq<u8> {
    enc_u64(encode_utf8(s).len() as u64) + encode_utf8(s)
}

pub open spec fn enc_opt_str(o: Option<Seq<char>>) -> Seq<u8> {
    match o {
        None => seq![0u8],
        Some(s) => seq![1u8] + enc_str(s),
    }
}

pub open spec fn enc_u64_items(s: Seq<u64>) -> Seq<u8>
    decreases s.len(),
{
    if s.len() == 0 {
        Seq::empty()
    } else {
        enc_u64(s[0]) + enc_u64_items(s.drop_first())
    }
}

pub open spec fn enc_u64_seq(s: Seq<u64>) -> Seq<u8> {
    enc_u64(s.len() as u64) + enc_u64_items(s)
}

/// A string whose encoded length fits the `u64` count.
pub open spec fn str_fits(s: Seq<char>) -> bool {
    encode_utf8(s).len() <= u64::MAX
}

pub open spec fn opt_str_fits(o: Option<Seq<char>>) -> bool {
    match o {
        None => true,
        Some(s) => str_fits(s),
    }
}

// ---------------------------------------------------------------------------
// Decoding, as mathematical functions: the value read from the front of the
// bytes and what follows it.

pub open spec fn parse_u64(b: Seq<u8>) -> Option<(u64, Seq<u8>)> {
    if b.len() >= 8 {
        Some((spec_u64_from_le_bytes(b.take(8)), b.skip(8)))
    } else {
        None
    }
}

pub open spec fn parse_i64(b: Seq<u8>) -> Option<(i64, Seq<u8>)> {
    match parse_u64(b) {
        Some((x, r)) => Some((x as i64, r)),
        None => None,
    }
}

pub open spec fn parse_u32(b: Seq<u8>) -> Option<(u32, Seq<u8>)> {
    if b.len() >= 4 {
        Some((spec_u32_from_le_bytes(b.take(4)), b.skip(4)))
    } else {
        None
    }
}

pub open spec fn parse_u8(b: Seq<u8>) -> Option<(u8, Seq<u8>)> {
    if b.len() >= 1 {
        Some((b[0], b.skip(1)))
    } else {
        None
    }
}

pub open spec fn parse_str(b: Seq<u8>) -> Option<(Seq<char>, Seq<u8>)> {
    match parse_u64(b) {
        Some((n, r)) => if n <= r.len() && valid_utf8(r.take(n as int)) {
            Some((decode_utf8(r.take(n as int)), r.skip(n as int)))
        } else {
            None
        },
        None => None,
    }
}

pub open spec fn parse_opt_str(b: Seq<u8>) -> Option<(Option<Seq<char>>, Seq<u8>)> {
    match parse_u8(b) {
        Some((t, r)) => if t == 0 {
            Some((None, r))
        } else if t == 1 {
            match parse_str(r) {
                Some((s, r2)) => Some((Some(s), r2)),
                None => None,
            }
        } else {
            None
        },
        None => None,
    }
}

pub open spec fn parse_u64_items(b: Seq<u8>, n: nat) -> Option<(Seq<u64>, Seq<u8>)>
    decreases n,
{
    if n == 0 {
        Some((Seq::empty(), b))
    } else {
        match parse_u64(b) {
            Some((x, r)) => match parse_u64_items(r, (n - 1) as nat) {
                Some((xs, r2)) => Some((seq![x] + xs, r2)),
                None => None,
            },
            None => None,
        }
    }
}

pub open spec fn parse_u64_seq(b: Seq<u8>) -> Option<(Seq<u64>, Seq<u8>)> {
    match parse_u64(b) {
        Some((n, r)) => parse_u64_items(r, n as nat),
        None => None,
    }
}

// ---------------------------------------------------------------------------
// Each parser reads back exactly what the encoder wrote, and accepts only
// what the encoder can write.

proof fn lemma_u64_le()
    ensures
        forall|x: u64| #[trigger] enc_u64(x).len() == 8 && spec_u64_from_le_bytes(enc_u64(x)) == x,
        forall|s: Seq<u8>| s.len() == 8 ==> #[trigger] enc_u64(spec_u64_from_le_bytes(s)) == s,
{
    lemma_auto_spec_u64_to_from_le_bytes();
}

pub proof fn lemma_u64_round_trip(x: u64, rest: Seq<u8>)
    ensures
        parse_u64(enc_u64(x) + rest) == Some((x, rest)),
{
    lemma_u64_le();
    let b = enc_u64(x) + rest;
    assert(b.take(8) =~= enc_u64(x));
    assert(b.skip(8) =~= rest);
}

pub proof fn lemma_u64_canonical(b: Seq<u8>, x: u64, rest: Seq<u8>)
    requires
        parse_u64(b) == Some((x, rest)),
    ensures
        b == enc_u64(x) + rest,
{
    lemma_u64_le();
    assert(b =~= b.take(8) + b.skip(8));
}

pub proof fn lemma_i64_round_trip(x: i64, rest: Seq<u8>)
    ensures
        parse_i64(enc_i64(x) + rest) == Some((x, rest)),
{
    lemma_u64_round_trip(x as u64, rest);
    assert((x as u64) as i64 == x) by (bit_vector);
}

pub proof fn lemma_i64_canonical(b: Seq<u8>, x: i64, rest: Seq<u8>)
    requires
        parse_i64(b) == Some((x, rest)),
    ensures
        b == enc_i64(x) + rest,
{
    let y = parse_u64(b)->Some_0;
    lemma_u64_canonical(b, y.0, rest);
    let u = y.0;
    assert((u as i64) as u64 == u) by (bit_vector);
}

proof fn lemma_u32_le()
    ensures
        forall|x: u32| #[trigger] enc_u32(x).len() == 4 && spec_u32_from_le_bytes(enc_u32(x)) == x,
        forall|s: Seq<u8>| s.len() == 4 ==> #[trigger] enc_u32(spec_u32_from_le_bytes(s)) == s,
{
    lemma_auto_spec_u32_to_from_le_bytes();
    assert forall|x: u32| #[trigger] enc_u32(x).len() == 4 && spec_u32_from_le_bytes(enc_u32(x)) == x by {
        assert(spec_u32_to_le_bytes(x).len() == 4);
    }
}

pub proof fn lemma_u32_round_trip(x: u32, rest: Seq<u8>)
    ensures
        parse_u32(enc_u32(x) + rest) == Some((x, rest)),
{
    lemma_u32_le();
    let b = enc_u32(x) + rest;
    assert(b.take(4) =~= enc_u32(x));
    assert(b.skip(4) =~= rest);
}

pub proof fn lemma_u32_canonical(b: Seq<u8>, x: u32, rest: Seq<u8>)
    requires
        parse_u32(b) == Some((x, rest)),
    ensures
        b == enc_u32(x) + rest,
{
    lemma_u32_le();
    assert(b =~= b.take(4) + b.skip(4));
}

pub proof fn lemma_u8_round_trip(x: u8, rest: Seq<u8>)
    ensures
        parse_u8(seq![x] + rest) == Some((x, rest)),
{
    assert((seq![x] + rest).skip(1) =~= rest);
}

pub proof fn lemma_u8_canonical(b: Seq<u8>, x: u8, rest: Seq<u8>)
    requires
        parse_u8(b) == Some((x, rest)),
    ensures
        b == seq![x] + rest,
{
    assert(b =~= seq![b[0]] + b.skip(1));
}

pub proof fn lemma_str_round_trip(s: Seq<char>, rest: Seq<u8>)
    requires
        str_fits(s),
    ensures
        parse_str(enc_str(s) + rest) == Some((s, rest)),
{
    let e = encode_utf8(s);
    let n = e.len() as u64;
    lemma_u64_round_trip(n, e + rest);
    assert(enc_str(s) + rest =~= enc_u64(n) + (e + rest));
    assert((e + rest).take(n as int) =~= e);
    assert((e + rest).skip(n as int) =~= rest);
}

pub proof fn lemma_str_canonical(b: Seq<u8>, s: Seq<char>, rest: Seq<u8>)
    requires
        parse_str(b) == Some((s, rest)),
    ensures
        str_fits(s),
        b == enc_str(s) + rest,
{
    let (n, r) = parse_u64(b)->Some_0;
    lemma_u64_canonical(b, n, r);
    let t = r.take(n as int);
    decode_utf8_encode_utf8(t);
    assert(encode_utf8(s) == t);
    assert(r =~= t + rest);
    assert(b =~= enc_str(s) + rest);
}

pub proof fn lemma_opt_str_round_trip(o: Option<Seq<char>>, rest: Seq<u8>)
    requires
        opt_str_fits(o),
    ensures
        parse_opt_str(enc_opt_str(o) + rest) == Some((o, rest)),
{
    match o {
        None => {
            lemma_u8_round_trip(0, rest);
        },
        Some(s) => {
            lemma_u8_round_trip(1, enc_str(s) + rest);
            assert(enc_opt_str(o) + rest =~= seq![1u8] + (enc_str(s) + rest));
            lemma_str_round_trip(s, rest);
        },
    }
}

pub proof fn lemma_opt_str_canonical(b: Seq<u8>, o: Option<Seq<char>>, rest: Seq<u8>)
    requires
        parse_opt_str(b) == Some((o, rest)),
    ensures
        opt_str_fits(o),
        b == enc_opt_str(o) + rest,
{
    let (t, r) = parse_u8(b)->Some_0;
    lemma_u8_canonical(b, t, r);
    if t == 1 {
        let s = o->Some_0;
        lemma_str_canonical(r, s, rest);
        assert(b =~= enc_opt_str(o) + rest);
    }
}

pub proof fn lemma_u64_items_round_trip(s: Seq<u64>, rest: Seq<u8>)
    ensures
        parse_u64_items(enc_u64_items(s) + rest, s.len()) == Some((s, rest)),
    decreases s.len(),
{
    if s.len() > 0 {
        let tail = s.drop_first();
        lemma_u64_round_trip(s[0], enc_u64_items(tail) + rest);
        assert(enc_u64_items(s) + rest =~= enc_u64(s[0]) + (enc_u64_items(tail) + rest));
        lemma_u64_items_round_trip(tail, rest);
        assert(seq![s[0]] + tail =~= s);
    } else {
        assert(enc_u64_items(s) + rest =~= rest);
        assert(s =~= Seq::<u64>::empty());
    }
}

pub proof fn lemma_u64_items_canonical(b: Seq<u8>, n: nat, s: Seq<u64>, rest: Seq<u8>)
    requires
        parse_u64_items(b, n) == Some((s, rest)),
    ensures
        s.len() == n,
        b == enc_u64_items(s) + rest,
    decreases n,
{
    if n == 0 {
        assert(b =~= enc_u64_items(s) + rest);
    } else {
        let (x, r) = parse_u64(b)->Some_0;
        lemma_u64_canonical(b, x, r);
        let (xs, r2) = parse_u64_items(r, (n - 1) as nat)->Some_0;
        lemma_u64_items_canonical(r, (n - 1) as nat, xs, r2);
        assert(s.drop_first() =~= xs);
        assert(b =~= enc_u64_items(s) + rest);
    }
}

pub proof fn lemma_u64_seq_round_trip(s: Seq<u64>, rest: Seq<u8>)
    requires
        s.len() <= u64::MAX,
    ensures
        parse_u64_seq(enc_u64_seq(s) + rest) == Some((s, rest)),
{
    lemma_u64_round_trip(s.len() as u64, enc_u64_items(s) + rest);
    assert(enc_u64_seq(s) + rest =~= enc_u64(s.len() as u64) + (enc_u64_items(s) + rest));
    lemma_u64_items_round_trip(s, rest);
}

pub proof fn lemma_u64_seq_canonical(b: Seq<u8>, s: Seq<u64>, rest: Seq<u8>)
    requires
        parse_u64_seq(b) == Some((s, rest)),
    ensures
        s.len() <= u64::MAX,
        b == enc_u64_seq(s) + rest,
{
    let (n, r) = parse_u64(b)->Some_0;
    lemma_u64_canonical(b, n, r);
    lemma_u64_items_canonical(r, n as nat, s, rest);
    assert(b =~= enc_u64_seq(s) + rest);
}

// ---------------------------------------------------------------------------
// Entities.

#[verifier::opaque]
pub open spec fn enc_character(c: CharacterModel) -> Seq<u8> {
    enc_str(c.name) + (enc_u64(c.emoji_id) + (enc_str(c.emoji_name) + (enc_u64(c.role_id) + (
    enc_str(c.description) + (enc_u32(c.selection_count) + enc_i64(c.last_reset))))))
}

pub open spec fn character_fits(c: CharacterModel) -> bool {
    str_fits(c.name) && str_fits(c.emoji_name) && str_fits(c.description)
}

#[verifier::opaque]
pub open spec fn parse_character(b: Seq<u8>) -> Option<(CharacterModel, Seq<u8>)> {
    match parse_str(b) {
        None => None,
        Some((name, b1)) => match parse_u64(b1) {
            None => None,
            Some((emoji_id, b2)) => match parse_str(b2) {
                None => None,
                Some((emoji_name, b3)) => match parse_u64(b3) {
                    None => None,
                    Some((role_id, b4)) => match parse_str(b4) {
                        None => None,
                        Some((description, b5)) => match parse_u32(b5) {
                            None => None,
                            Some((selection_count, b6)) => match parse_i64(b6) {
                                None => None,
                                Some((last_reset, b7)) => Some(
                                    (
                                        CharacterModel {
                                            name,
                                            emoji_id,
                                            emoji_name,
                                            role_id,
                                            description,
                                            selection_count,
                                            last_reset,
                                        },
                                        b7,
                                    ),
                                ),
                            },
                        },
                    },
                },
            },
        },
    }
}

pub open spec fn enc_character_items(s: Seq<CharacterModel>) -> Seq<u8>
    decreases s.len(),
{
    if s.len() == 0 {
        Seq::empty()
    } else {
        enc_character(s[0]) + enc_character_items(s.drop_first())
    }
}

pub open spec fn parse_character_items(b: Seq<u8>, n: nat) -> Option<(Seq<CharacterModel>, Seq<u8>)>
    decreases n,
{
    if n == 0 {
        Some((Seq::empty(), b))
    } else {
        match parse_character(b) {
            Some((c, r)) => match parse_character_items(r, (n - 1) as nat) {
                Some((cs, r2)) => Some((seq![c] + cs, r2)),
                None => None,
            },
            None => None,
        }
    }
}

pub open spec fn characters_fit(s: Seq<CharacterModel>) -> bool {
    s.len() <= u64::MAX && forall|i: int| 0 <= i < s.len() ==> #[trigger] character_fits(s[i])
}

pub open spec fn enc_profile(p: ProfileModel) -> Seq<u8> {
    enc_u64(p.user_id) + (enc_u64(p.selected_waifu) + (enc_opt_str(p.team_id) + (enc_i64(p.join_date)
        + (enc_i64(p.last_selection_date) + enc_u64_seq(p.previous_selections)))))
}

pub open spec fn profile_fits(p: ProfileModel) -> bool {
    opt_str_fits(p.team_id) && p.previous_selections.len() <= u64::MAX
}

pub open spec fn parse_profile(b: Seq<u8>) -> Option<(ProfileModel, Seq<u8>)> {
    match parse_u64(b) {
        None => None,
        Some((user_id, b1)) => match parse_u64(b1) {
            None => None,
            Some((selected_waifu, b2)) => match parse_opt_str(b2) {
                None => None,
                Some((team_id, b3)) => match parse_i64(b3) {
                    None => None,
                    Some((join_date, b4)) => match parse_i64(b4) {
                        None => None,
                        Some((last_selection_date, b5)) => match parse_u64_seq(b5) {
                            None => None,
                            Some((previous_selections, b6)) => Some(
                                (
                                    ProfileModel {
                                        user_id,
                                        selected_waifu,
                                        team_id,
                                        join_date,
                                        last_selection_date,
                                        previous_selections,
                                    },
                                    b6,
                                ),
                            ),
                        },
                    },
                },
            },
        },
    }
}

pub open spec fn enc_team(t: TeamModel) -> Seq<u8> {
    enc_str(t.id) + (enc_str(t.name) + (enc_u64(t.leader_id) + (enc_u64_seq(t.members) + enc_i64(
        t.created_at,
    ))))
}

pub open spec fn team_fits(t: TeamModel) -> bool {
    str_fits(t.id) && str_fits(t.name) && t.members.len() <= u64::MAX
}

pub open spec fn parse_team(b: Seq<u8>) -> Option<(TeamModel, Seq<u8>)> {
    match parse_str(b) {
        None => None,
        Some((id, b1)) => match parse_str(b1) {
            None => None,
            Some((name, b2)) => match parse_u64(b2) {
                None => None,
                Some((leader_id, b3)) => match parse_u64_seq(b3) {
                    None => None,
                    Some((members, b4)) => match parse_i64(b4) {
                        None => None,
                        Some((created_at, b5)) => Some(
                            (TeamModel { id, name, leader_id, members, created_at }, b5),
                        ),
                    },
                },
            },
        },
    }
}

pub proof fn lemma_character_round_trip(c: CharacterModel, rest: Seq<u8>)
    requires
        character_fits(c),
    ensures
        parse_character(enc_character(c) + rest) == Some((c, rest)),
{
    reveal(enc_character);
    reveal(parse_character);
    let r6 = enc_i64(c.last_reset) + rest;
    let r5 = enc_u32(c.selection_count) + r6;
    let r4 = enc_str(c.description) + r5;
    let r3 = enc_u64(c.role_id) + r4;
    let r2 = enc_str(c.emoji_name) + r3;
    let r1 = enc_u64(c.emoji_id) + r2;
    assert(enc_character(c) + rest =~= enc_str(c.name) + r1);
    assert(r5 =~= (enc_u32(c.selection_count) + enc_i64(c.last_reset)) + rest);
    lemma_str_round_trip(c.name, r1);
    lemma_u64_round_trip(c.emoji_id, r2);
    lemma_str_round_trip(c.emoji_name, r3);
    lemma_u64_round_trip(c.role_id, r4);
    lemma_str_round_trip(c.description, r5);
    lemma_u32_round_trip(c.selection_count, r6);
    lemma_i64_round_trip(c.last_reset, rest);
}

#[verifier::rlimit(50)]
pub proof fn lemma_character_canonical(b: Seq<u8>, c: CharacterModel, rest: Seq<u8>)
    requires
        parse_character(b) == Some((c, rest)),
    ensures
        character_fits(c),
        b == enc_character(c) + rest,
{
    reveal(enc_character);
    reveal(parse_character);
    let (name, b1) = parse_str(b)->Some_0;
    let (emoji_id, b2) = parse_u64(b1)->Some_0;
    let (emoji_name, b3) = parse_str(b2)->Some_0;
    let (role_id, b4) = parse_u64(b3)->Some_0;
    let (description, b5) = parse_str(b4)->Some_0;
    let (count, b6) = parse_u32(b5)->Some_0;
    lemma_str_canonical(b, name, b1);
    lemma_u64_canonical(b1, emoji_id, b2);
    lemma_str_canonical(b2, emoji_name, b3);
    lemma_u64_canonical(b3, role_id, b4);
    lemma_str_canonical(b4, description, b5);
    lemma_u32_canonical(b5, count, b6);
    lemma_i64_canonical(b6, c.last_reset, rest);
    assert(b =~= enc_character(c) + rest);
}

pub proof fn lemma_character_items_round_trip(s: Seq<CharacterModel>, rest: Seq<u8>)
    requires
        forall|i: int| 0 <= i < s.len() ==> #[trigger] character_fits(s[i]),
    ensures
        parse_character_items(enc_character_items(s) + rest, s.len()) == Some((s, rest)),
    decreases s.len(),
{
    if s.len() > 0 {
        let tail = s.drop_first();
        assert(character_fits(s[0]));
        lemma_character_round_trip(s[0], enc_character_items(tail) + rest);
        assert(enc_character_items(s) + rest =~= enc_character(s[0]) + (enc_character_items(tail)
            + rest));
        assert forall|i: int| 0 <= i < tail.len() implies #[trigger] character_fits(tail[i]) by {
            assert(character_fits(s[i + 1]));
        }
        lemma_character_items_round_trip(tail, rest);
        assert(seq![s[0]] + tail =~= s);
    } else {
        assert(enc_character_items(s) + rest =~= rest);
        assert(s =~= Seq::<CharacterModel>::empty());
    }
}

pub proof fn lemma_character_items_canonical(
    b: Seq<u8>,
    n: nat,
    s: Seq<CharacterModel>,
    rest: Seq<u8>,
)
    requires
        parse_character_items(b, n) == Some((s, rest)),
    ensures
        s.len() == n,
        forall|i: int| 0 <= i < s.len() ==> #[trigger] character_fits(s[i]),
        b == enc_character_items(s) + rest,
    decreases n,
{
    if n == 0 {
        assert(b =~= enc_character_items(s) + rest);
    } else {
        let (c, r) = parse_character(b)->Some_0;
        lemma_character_canonical(b, c, r);
        let (cs, r2) = parse_character_items(r, (n - 1) as nat)->Some_0;
        lemma_character_items_canonical(r, (n - 1) as nat, cs, r2);
        assert(s.drop_first() =~= cs);
        assert forall|i: int| 0 <= i < s.len() implies #[trigger] character_fits(s[i]) by {
            if i > 0 {
                assert(s[i] == cs[i - 1]);
            }
        }
        assert(b =~= enc_character_items(s) + rest);
    }
}

pub proof fn lemma_profile_round_trip(p: ProfileModel, rest: Seq<u8>)
    requires
        profile_fits(p),
    ensures
        parse_profile(enc_profile(p) + rest) == Some((p, rest)),
{
    let r5 = enc_u64_seq(p.previous_selections) + rest;
    let r4 = enc_i64(p.last_selection_date) + r5;
    let r3 = enc_i64(p.join_date) + r4;
    let r2 = enc_opt_str(p.team_id) + r3;
    let r1 = enc_u64(p.selected_waifu) + r2;
    assert(enc_profile(p) + rest =~= enc_u64(p.user_id) + r1);
    lemma_u64_round_trip(p.user_id, r1);
    lemma_u64_round_trip(p.selected_waifu, r2);
    lemma_opt_str_round_trip(p.team_id, r3);
    lemma_i64_round_trip(p.join_date, r4);
    lemma_i64_round_trip(p.last_selection_date, r5);
    lemma_u64_seq_round_trip(p.previous_selections, rest);
}

pub proof fn lemma_profile_canonical(b: Seq<u8>, p: ProfileModel, rest: Seq<u8>)
    requires
        parse_profile(b) == Some((p, rest)),
    ensures
        profile_fits(p),
        b == enc_profile(p) + rest,
{
    let (user_id, b1) = parse_u64(b)->Some_0;
    let (selected, b2) = parse_u64(b1)->Some_0;
    let (team, b3) = parse_opt_str(b2)->Some_0;
    let (join, b4) = parse_i64(b3)->Some_0;
    let (last, b5) = parse_i64(b4)->Some_0;
    lemma_u64_canonical(b, user_id, b1);
    lemma_u64_canonical(b1, selected, b2);
    lemma_opt_str_canonical(b2, team, b3);
    lemma_i64_canonical(b3, join, b4);
    lemma_i64_canonical(b4, last, b5);
    lemma_u64_seq_canonical(b5, p.previous_selections, rest);
    assert(b =~= enc_profile(p) + rest);
}

pub proof fn lemma_team_round_trip(t: TeamModel, rest: Seq<u8>)
    requires
        team_fits(t),
    ensures
        parse_team(enc_team(t) + rest) == Some((t, rest)),
{
    let r4 = enc_i64(t.created_at) + rest;
    let r3 = enc_u64_seq(t.members) + r4;
    let r2 = enc_u64(t.leader_id) + r3;
    let r1 = enc_str(t.name) + r2;
    assert(enc_team(t) + rest =~= enc_str(t.id) + r1);
    lemma_str_round_trip(t.id, r1);
    lemma_str_round_trip(t.name, r2);
    lemma_u64_round_trip(t.leader_id, r3);
    lemma_u64_seq_round_trip(t.members, r4);
    lemma_i64_round_trip(t.created_at, rest);
}

pub proof fn lemma_team_canonical(b: Seq<u8>, t: TeamModel, rest: Seq<u8>)
    requires
        parse_team(b) == Some((t, rest)),
    ensures
        team_fits(t),
        b == enc_team(t) + rest,
{
    let (id, b1) = parse_str(b)->Some_0;
    let (name, b2) = parse_str(b1)->Some_0;
    let (leader, b3) = parse_u64(b2)->Some_0;
    let (members, b4) = parse_u64_seq(b3)->Some_0;
    lemma_str_canonical(b, id, b1);
    lemma_str_canonical(b1, name, b2);
    lemma_u64_canonical(b2, leader, b3);
    lemma_u64_seq_canonical(b3, members, b4);
    lemma_i64_canonical(b4, t.created_at, rest);
    assert(b =~= enc_team(t) + rest);
}

// ---------------------------------------------------------------------------
// Records: the format version, one encoded value, and nothing after it.

pub open spec fn parse_record_body(b: Seq<u8>) -> Option<Seq<u8>> {
    match parse_u8(b) {
        Some((v, r)) => if v == RECORD_VERSION {
            Some(r)
        } else {
            None
        },
        None => None,
    }
}

pub open spec fn characters_record(cs: Seq<CharacterModel>) -> Seq<u8> {
    seq![RECORD_VERSION] + (enc_u64(cs.len() as u64) + enc_character_items(cs))
}

pub open spec fn parse_characters_record(b: Seq<u8>) -> Option<Seq<CharacterModel>> {
    match parse_record_body(b) {
        Some(r) => match parse_u64(r) {
            Some((n, r2)) => match parse_character_items(r2, n as nat) {
                Some((cs, rest)) => if rest.len() == 0 {
                    Some(cs)
                } else {
                    None
                },
                None => None,
            },
            None => None,
        },
        None => None,
    }
}

pub open spec fn profile_record(p: ProfileModel) -> Seq<u8> {
    seq![RECORD_VERSION] + enc_profile(p)
}

pub open spec fn parse_profile_record(b: Seq<u8>) -> Option<ProfileModel> {
    match parse_record_body(b) {
        Some(r) => match parse_profile(r) {
            Some((p, rest)) => if rest.len() == 0 {
                Some(p)
            } else {
                None
            },
            None => None,
        },
        None => None,
    }
}

pub open spec fn team_record(t: TeamModel) -> Seq<u8> {
    seq![RECORD_VERSION] + enc_team(t)
}

pub open spec fn parse_team_record(b: Seq<u8>) -> Option<TeamModel> {
    match parse_record_body(b) {
        Some(r) => match parse_team(r) {
            Some((t, rest)) => if rest.len() == 0 {
                Some(t)
            } else {
                None
            },
            None => None,
        },
        None => None,
    }
}

/// Decoding the record of a character list gives that list back.
pub proof fn lemma_characters_record_round_trip(cs: Seq<CharacterModel>)
    requires
        characters_fit(cs),
    ensures
        parse_characters_record(characters_record(cs)) == Some(cs),
{
    let e = Seq::<u8>::empty();
    let body = enc_u64(cs.len() as u64) + enc_character_items(cs);
    lemma_u8_round_trip(RECORD_VERSION, body);
    lemma_u64_round_trip(cs.len() as u64, enc_character_items(cs));
    lemma_character_items_round_trip(cs, e);
    assert(enc_character_items(cs) + e =~= enc_character_items(cs));
}

/// The only bytes that decode to a character list are its record.
pub proof fn lemma_characters_record_canonical(b: Seq<u8>, cs: Seq<CharacterModel>)
    requires
        parse_characters_record(b) == Some(cs),
    ensures
        characters_fit(cs),
        b == characters_record(cs),
{
    let (v, r) = parse_u8(b)->Some_0;
    lemma_u8_canonical(b, v, r);
    let (n, r2) = parse_u64(r)->Some_0;
    lemma_u64_canonical(r, n, r2);
    let rest = parse_character_items(r2, n as nat)->Some_0.1;
    lemma_character_items_canonical(r2, n as nat, cs, rest);
    assert(rest =~= Seq::<u8>::empty());
    assert(b =~= characters_record(cs));
}

/// Decoding the record of a profile gives that profile back.
pub proof fn lemma_profile_record_round_trip(p: ProfileModel)
    requires
        profile_fits(p),
    ensures
        parse_profile_record(profile_record(p)) == Some(p),
{
    let e = Seq::<u8>::empty();
    lemma_u8_round_trip(RECORD_VERSION, enc_profile(p));
    lemma_profile_round_trip(p, e);
    assert(enc_profile(p) + e =~= enc_profile(p));
}

/// The only bytes that decode to a profile are its record.
pub proof fn lemma_profile_record_canonical(b: Seq<u8>, p: ProfileModel)
    requires
        parse_profile_record(b) == Some(p),
    ensures
        profile_fits(p),
        b == profile_record(p),
{
    let (v, r) = parse_u8(b)->Some_0;
    lemma_u8_canonical(b, v, r);
    let rest = parse_profile(r)->Some_0.1;
    lemma_profile_canonical(r, p, rest);
    assert(rest =~= Seq::<u8>::empty());
    assert(b =~= profile_record(p));
}

/// Decoding the record of a team gives that team back.
pub proof fn lemma_team_record_round_trip(t: TeamModel)
    requires
        team_fits(t),
    ensures
        parse_team_record(team_record(t)) == Some(t),
{
    let e = Seq::<u8>::empty();
    lemma_u8_round_trip(RECORD_VERSION, enc_team(t));
    lemma_team_round_trip(t, e);
    assert(enc_team(t) + e =~= enc_team(t));
}

/// The only bytes that decode to a team are its record.
pub proof fn lemma_team_record_canonical(b: Seq<u8>, t: TeamModel)
    requires
        parse_team_record(b) == Some(t),
    ensures
        team_fits(t),
        b == team_record(t),
{
    let (v, r) = parse_u8(b)->Some_0;
    lemma_u8_canonical(b, v, r);
    let rest = parse_team(r)->Some_0.1;
    lemma_team_canonical(r, t, rest);
    assert(rest =~= Seq::<u8>::empty());
    assert(b =~= team_record(t));
}

// ---------------------------------------------------------------------------
// Reading lists one item at a time.

proof fn lemma_u64_items_extend(b: Seq<u8>, i: nat, xs: Seq<u64>, r: Seq<u8>)
    requires
        parse_u64_items(b, i) == Some((xs, r)),
    ensures
        parse_u64(r) matches Some((x, r2)) ==> parse_u64_items(b, i + 1) == Some((xs.push(x), r2)),
        parse_u64(r) is None ==> forall|n: nat| n > i ==> #[trigger] parse_u64_items(b, n) is None,
    decreases i,
{
    if i > 0 {
        let (y, b1) = parse_u64(b)->Some_0;
        let (ys, r1) = parse_u64_items(b1, (i - 1) as nat)->Some_0;
        lemma_u64_items_extend(b1, (i - 1) as nat, ys, r);
        if parse_u64(r) is Some {
            let x = parse_u64(r)->Some_0.0;
            assert(seq![y] + ys.push(x) =~= xs.push(x));
        } else {
            assert forall|n: nat| n > i implies #[trigger] parse_u64_items(b, n) is None by {
                assert(parse_u64_items(b1, (n - 1) as nat) is None);
            }
        }
    } else {
        assert(seq![] + xs.push(0) =~= xs.push(0));
        if parse_u64(r) is Some {
            let x = parse_u64(r)->Some_0.0;
            let r2 = parse_u64(r)->Some_0.1;
            assert(parse_u64_items(r2, 0) == Some((Seq::<u64>::empty(), r2)));
            assert(seq![x] + Seq::<u64>::empty() =~= xs.push(x));
        } else {
            assert forall|n: nat| n > i implies #[trigger] parse_u64_items(b, n) is None by {
                assert(b == r);
            }
        }
    }
}

proof fn lemma_character_items_extend(b: Seq<u8>, i: nat, cs: Seq<CharacterModel>, r: Seq<u8>)
    requires
        parse_character_items(b, i) == Some((cs, r)),
    ensures
        parse_character(r) matches Some((c, r2)) ==> parse_character_items(b, i + 1) == Some(
            (cs.push(c), r2),
        ),
        parse_character(r) is None ==> forall|n: nat|
            n > i ==> #[trigger] parse_character_items(b, n) is None,
    decreases i,
{
    if i > 0 {
        let (y, b1) = parse_character(b)->Some_0;
        let (ys, r1) = parse_character_items(b1, (i - 1) as nat)->Some_0;
        lemma_character_items_extend(b1, (i - 1) as nat, ys, r);
        if parse_character(r) is Some {
            let x = parse_character(r)->Some_0.0;
            assert(seq![y] + ys.push(x) =~= cs.push(x));
        } else {
            assert forall|n: nat| n > i implies #[trigger] parse_character_items(b, n) is None by {
                assert(parse_character_items(b1, (n - 1) as nat) is None);
            }
        }
    } else {
        if parse_character(r) is Some {
            let x = parse_character(r)->Some_0.0;
            let r2 = parse_character(r)->Some_0.1;
            assert(parse_character_items(r2, 0) == Some((Seq::<CharacterModel>::empty(), r2)));
            assert(seq![x] + Seq::<CharacterModel>::empty() =~= cs.push(x));
        } else {
            assert forall|n: nat| n > i implies #[trigger] parse_character_items(b, n) is None by {
                assert(b == r);
            }
        }
    }
}

// ---------------------------------------------------------------------------
// Writers.

fn write_u64(out: &mut Vec<u8>, x: u64)
    ensures
        final(out)@ == old(out)@ + enc_u64(x),
{
    let mut b = u64_to_le_bytes(x);
    out.append(&mut b);
}

fn write_i64(out: &mut Vec<u8>, x: i64)
    ensures
        final(out)@ == old(out)@ + enc_i64(x),
{
    write_u64(out, x as u64);
}

fn write_u32(out: &mut Vec<u8>, x: u32)
    ensures
        final(out)@ == old(out)@ + enc_u32(x),
{
    let mut b = u32_to_le_bytes(x);
    out.append(&mut b);
}

fn write_str(out: &mut Vec<u8>, s: &str)
    ensures
        final(out)@ == old(out)@ + enc_str(s@),
        str_fits(s@),
{
    let bytes = s.as_bytes();
    write_u64(out, bytes.len() as u64);
    let ghost start = out@;
    let mut i: usize = 0;
    while i < bytes.len()
        invariant
            i <= bytes@.len(),
            out@ == start + bytes@.take(i as int),
        decreases bytes@.len() - i,
    {
        out.push(bytes[i]);
        i = i + 1;
        assert(bytes@.take(i as int) =~= bytes@.take(i - 1).push(bytes@[i - 1]));
    }
    assert(bytes@.take(i as int) =~= bytes@);
    assert(old(out)@ + enc_str(s@) =~= (old(out)@ + enc_u64(bytes@.len() as u64)) + bytes@);
}

fn write_opt_str(out: &mut Vec<u8>, o: &Option<String>)
    ensures
        final(out)@ == old(out)@ + enc_opt_str(crate::model::opt_string_view(*o)),
        opt_str_fits(crate::model::opt_string_view(*o)),
{
    match o {
        None => {
            out.push(0u8);
        },
        Some(s) => {
            out.push(1u8);
            write_str(out, s.as_str());
            assert(old(out)@ + enc_opt_str(crate::model::opt_string_view(*o)) =~= old(out)@.push(1u8) + enc_str(s@));
        },
    }
}

fn write_u64_seq(out: &mut Vec<u8>, v: &Vec<u64>)
    ensures
        final(out)@ == old(out)@ + enc_u64_seq(v@),
        v@.len() <= u64::MAX,
{
    write_u64(out, v.len() as u64);
    let ghost start = out@;
    let mut i: usize = 0;
    while i < v.len()
        invariant
            i <= v@.len(),
            out@ == start + enc_u64_items(v@.take(i as int)),
        decreases v@.len() - i,
    {
        proof {
            lemma_u64_items_push(v@.take(i as int), v@[i as int]);
            assert(v@.take(i + 1) =~= v@.take(i as int).push(v@[i as int]));
        }
        write_u64(out, v[i]);
        i = i + 1;
    }
    assert(v@.take(i as int) =~= v@);
}

proof fn lemma_u64_items_push(s: Seq<u64>, x: u64)
    ensures
        enc_u64_items(s.push(x)) == enc_u64_items(s) + enc_u64(x),
    decreases s.len(),
{
    if s.len() == 0 {
        assert(s.push(x).drop_first() =~= Seq::<u64>::empty());
        assert(s.push(x)[0] == x);
        assert(enc_u64_items(Seq::<u64>::empty()) == Seq::<u8>::empty());
        assert(enc_u64_items(s.push(x)) =~= enc_u64_items(s) + enc_u64(x));
    } else {
        lemma_u64_items_push(s.drop_first(), x);
        assert(s.push(x).drop_first() =~= s.drop_first().push(x));
        assert(enc_u64_items(s.push(x)) =~= enc_u64_items(s) + enc_u64(x));
    }
}

proof fn lemma_character_items_push(s: Seq<CharacterModel>, c: CharacterModel)
    ensures
        enc_character_items(s.push(c)) == enc_character_items(s) + enc_character(c),
    decreases s.len(),
{
    if s.len() == 0 {
        assert(s.push(c).drop_first() =~= Seq::<CharacterModel>::empty());
        assert(s.push(c)[0] == c);
        assert(enc_character_items(Seq::<CharacterModel>::empty()) == Seq::<u8>::empty());
        assert(enc_character_items(s.push(c)) =~= enc_character_items(s) + enc_character(c));
    } else {
        lemma_character_items_push(s.drop_first(), c);
        assert(s.push(c).drop_first() =~= s.drop_first().push(c));
        assert(enc_character_items(s.push(c)) =~= enc_character_items(s) + enc_character(c));
    }
}

fn write_character(out: &mut Vec<u8>, c: &WaifuCharacter)
    ensures
        final(out)@ == old(out)@ + enc_character(c@),
        character_fits(c@),
{
    reveal(enc_character);
    write_str(out, c.name.as_str());
    write_u64(out, c.emoji_id);
    write_str(out, c.emoji_name.as_str());
    write_u64(out, c.role_id);
    write_str(out, c.description.as_str());
    write_u32(out, c.selection_count);
    write_i64(out, c.last_reset);
    assert(final(out)@ =~= old(out)@ + enc_character(c@));
}

// ---------------------------------------------------------------------------
// Readers: each reads one value at `pos` and returns it with the position
// after it, exactly where the mathematical parser succeeds.

/// Relies on `std::str::from_utf8`: it accepts exactly the valid UTF-8 byte
/// sequences, and the string it returns is made of those bytes.
#[verifier::external_body]
fn string_from_utf8(bytes: &[u8]) -> (r: Option<String>)
    ensures
        r is Some <==> valid_utf8(bytes@),
        r matches Some(s) ==> encode_utf8(s@) == bytes@,
{
    std::str::from_utf8(bytes).ok().map(|s| s.to_string())
}

fn read_u8(b: &[u8], pos: usize) -> (r: Option<(u8, usize)>)
    requires
        pos <= b@.len(),
    ensures
        match r {
            Some((x, p)) => pos <= p <= b@.len() && parse_u8(b@.skip(pos as int)) == Some(
                (x, b@.skip(p as int)),
            ),
            None => parse_u8(b@.skip(pos as int)) is None,
        },
{
    if pos < b.len() {
        assert(b@.skip(pos as int).skip(1) =~= b@.skip(pos + 1));
        Some((b[pos], pos + 1))
    } else {
        None
    }
}

fn read_u64(b: &[u8], pos: usize) -> (r: Option<(u64, usize)>)
    requires
        pos <= b@.len(),
    ensures
        match r {
            Some((x, p)) => pos <= p <= b@.len() && parse_u64(b@.skip(pos as int)) == Some(
                (x, b@.skip(p as int)),
            ),
            None => parse_u64(b@.skip(pos as int)) is None,
        },
{
    if b.len() - pos >= 8 {
        let s = slice_subrange(b, pos, pos + 8);
        let x = u64_from_le_bytes(s);
        assert(b@.skip(pos as int).take(8) =~= s@);
        assert(b@.skip(pos as int).skip(8) =~= b@.skip(pos + 8));
        Some((x, pos + 8))
    } else {
        None
    }
}

fn read_i64(b: &[u8], pos: usize) -> (r: Option<(i64, usize)>)
    requires
        pos <= b@.len(),
    ensures
        match r {
            Some((x, p)) => pos <= p <= b@.len() && parse_i64(b@.skip(pos as int)) == Some(
                (x, b@.skip(p as int)),
            ),
            None => parse_i64(b@.skip(pos as int)) is None,
        },
{
    match read_u64(b, pos) {
        Some((x, p)) => Some((x as i64, p)),
        None => None,
    }
}

fn read_u32(b: &[u8], pos: usize) -> (r: Option<(u32, usize)>)
    requires
        pos <= b@.len(),
    ensures
        match r {
            Some((x, p)) => pos <= p <= b@.len() && parse_u32(b@.skip(pos as int)) == Some(
                (x, b@.skip(p as int)),
            ),
            None => parse_u32(b@.skip(pos as int)) is None,
        },
{
    if b.len() - pos >= 4 {
        let s = slice_subrange(b, pos, pos + 4);
        let x = u32_from_le_bytes(s);
        assert(b@.skip(pos as int).take(4) =~= s@);
        assert(b@.skip(pos as int).skip(4) =~= b@.skip(pos + 4));
        Some((x, pos + 4))
    } else {
        None
    }
}

fn read_str(b: &[u8], pos: usize) -> (r: Option<(String, usize)>)
    requires
        pos <= b@.len(),
    ensures
        match r {
            Some((s, p)) => pos <= p <= b@.len() && parse_str(b@.skip(pos as int)) == Some(
                (s@, b@.skip(p as int)),
            ),
            None => parse_str(b@.skip(pos as int)) is None,
        },
{
    match read_u64(b, pos) {
        None => None,
        Some((n, p)) => {
            if n <= (b.len() - p) as u64 {
                let e = p + n as usize;
                let bytes = slice_subrange(b, p, e);
                assert(b@.skip(p as int).take(n as int) =~= bytes@);
                assert(b@.skip(p as int).skip(n as int) =~= b@.skip(e as int));
                match string_from_utf8(bytes) {
                    Some(s) => Some((s, e)),
                    None => None,
                }
            } else {
                None
            }
        },
    }
}

fn read_opt_str(b: &[u8], pos: usize) -> (r: Option<(Option<String>, usize)>)
    requires
        pos <= b@.len(),
    ensures
        match r {
            Some((o, p)) => pos <= p <= b@.len() && parse_opt_str(b@.skip(pos as int)) == Some(
                (opt_string_view(o), b@.skip(p as int)),
            ),
            None => parse_opt_str(b@.skip(pos as int)) is None,
        },
{
    match read_u8(b, pos) {
        None => None,
        Some((t, p)) => {
            if t == 0 {
                Some((None, p))
            } else if t == 1 {
                match read_str(b, p) {
                    Some((s, p2)) => Some((Some(s), p2)),
                    None => None,
                }
            } else {
                None
            }
        },
    }
}

fn read_u64_seq(b: &[u8], pos: usize) -> (r: Option<(Vec<u64>, usize)>)
    requires
        pos <= b@.len(),
    ensures
        match r {
            Some((v, p)) => pos <= p <= b@.len() && parse_u64_seq(b@.skip(pos as int)) == Some(
                (v@, b@.skip(p as int)),
            ),
            None => parse_u64_seq(b@.skip(pos as int)) is None,
        },
{
    let (n, p0) = match read_u64(b, pos) {
        None => return None,
        Some(x) => x,
    };
    let ghost start = b@.skip(p0 as int);
    let mut v: Vec<u64> = Vec::new();
    let mut p = p0;
    let mut i: u64 = 0;
    while i < n
        invariant
            i <= n,
            p0 <= p <= b@.len(),
            start == b@.skip(p0 as int),
            parse_u64(b@.skip(pos as int)) == Some((n, start)),
            parse_u64_items(start, i as nat) == Some((v@, b@.skip(p as int))),
        decreases n - i,
    {
        proof {
            lemma_u64_items_extend(start, i as nat, v@, b@.skip(p as int));
        }
        match read_u64(b, p) {
            None => {
                assert(parse_u64_items(start, n as nat) is None);
                return None;
            },
            Some((x, p2)) => {
                v.push(x);
                p = p2;
                i = i + 1;
            },
        }
    }
    Some((v, p))
}

fn read_character(b: &[u8], pos: usize) -> (r: Option<(WaifuCharacter, usize)>)
    requires
        pos <= b@.len(),
    ensures
        match r {
            Some((c, p)) => pos <= p <= b@.len() && parse_character(b@.skip(pos as int)) == Some(
                (c@, b@.skip(p as int)),
            ),
            None => parse_character(b@.skip(pos as int)) is None,
        },
{
    reveal(parse_character);
    let (name, p1) = match read_str(b, pos) {
        None => return None,
        Some(x) => x,
    };
    let (emoji_id, p2) = match read_u64(b, p1) {
        None => return None,
        Some(x) => x,
    };
    let (emoji_name, p3) = match read_str(b, p2) {
        None => return None,
        Some(x) => x,
    };
    let (role_id, p4) = match read_u64(b, p3) {
        None => return None,
        Some(x) => x,
    };
    let (description, p5) = match read_str(b, p4) {
        None => return None,
        Some(x) => x,
    };
    let (selection_count, p6) = match read_u32(b, p5) {
        None => return None,
        Some(x) => x,
    };
    let (last_reset, p7) = match read_i64(b, p6) {
        None => return None,
        Some(x) => x,
    };
    let c = WaifuCharacter {
        name,
        emoji_id,
        emoji_name,
        role_id,
        description,
        selection_count,
        last_reset,
    };
    Some((c, p7))
}

// ---------------------------------------------------------------------------
// Public encoders and decoders.

/// The record of a list of characters.
pub fn encode_characters(cs: &Vec<WaifuCharacter>) -> (r: Vec<u8>)
    ensures
        r@ == characters_record(characters_view(cs@)),
        characters_fit(characters_view(cs@)),
{
    let ghost view = characters_view(cs@);
    let mut out: Vec<u8> = Vec::new();
    out.push(RECORD_VERSION);
    write_u64(&mut out, cs.len() as u64);
    let ghost start = out@;
    let mut i: usize = 0;
    while i < cs.len()
        invariant
            i <= cs@.len(),
            view == characters_view(cs@),
            out@ == start + enc_character_items(view.take(i as int)),
            forall|j: int| 0 <= j < i ==> #[trigger] character_fits(view[j]),
        decreases cs@.len() - i,
    {
        proof {
            lemma_character_items_push(view.take(i as int), view[i as int]);
            assert(view.take(i + 1) =~= view.take(i as int).push(view[i as int]));
        }
        write_character(&mut out, &cs[i]);
        i = i + 1;
    }
    assert(view.take(i as int) =~= view);
    assert(out@ =~= characters_record(view));
    out
}

/// Reads the record of a list of characters. It fails exactly on the bytes
/// that are the record of no list.
pub fn decode_characters(bytes: &[u8]) -> (r: Result<Vec<WaifuCharacter>, StoreError>)
    ensures
        match parse_characters_record(bytes@) {
            Some(cs) => r matches Ok(v) && characters_view(v@) == cs,
            None => r == Err::<Vec<WaifuCharacter>, StoreError>(StoreError::CorruptRecord),
        },
        r matches Ok(v) ==> characters_record(characters_view(v@)) == bytes@,
        r is Err ==> forall|cs: Seq<CharacterModel>|
            characters_fit(cs) ==> #[trigger] characters_record(cs) != bytes@,
{
    let r = decode_characters_body(bytes);
    proof {
        match parse_characters_record(bytes@) {
            Some(cs) => lemma_characters_record_canonical(bytes@, cs),
            None => {
                assert forall|cs: Seq<CharacterModel>|
                    characters_fit(cs) implies #[trigger] characters_record(cs) != bytes@ by {
                    lemma_characters_record_round_trip(cs);
                }
            },
        }
    }
    r
}

fn decode_characters_body(bytes: &[u8]) -> (r: Result<Vec<WaifuCharacter>, StoreError>)
    ensures
        match parse_characters_record(bytes@) {
            Some(cs) => r matches Ok(v) && characters_view(v@) == cs,
            None => r == Err::<Vec<WaifuCharacter>, StoreError>(StoreError::CorruptRecord),
        },
{
    let corrupt = Err(StoreError::CorruptRecord);
    let p0 = match read_u8(bytes, 0) {
        Some((v, p)) => {
            if v != RECORD_VERSION {
                return corrupt;
            }
            p
        },
        None => return corrupt,
    };
    assert(bytes@.skip(0) =~= bytes@);
    let (n, p1) = match read_u64(bytes, p0) {
        None => return corrupt,
        Some(x) => x,
    };
    let ghost start = bytes@.skip(p1 as int);
    let mut v: Vec<WaifuCharacter> = Vec::new();
    let mut p = p1;
    let mut i: u64 = 0;
    while i < n
        invariant
            i <= n,
            p1 <= p <= bytes@.len(),
            start == bytes@.skip(p1 as int),
            parse_record_body(bytes@) == Some(bytes@.skip(p0 as int)),
            parse_u64(bytes@.skip(p0 as int)) == Some((n, start)),
            parse_character_items(start, i as nat) == Some(
                (characters_view(v@), bytes@.skip(p as int)),
            ),
        decreases n - i,
    {
        proof {
            lemma_character_items_extend(start, i as nat, characters_view(v@), bytes@.skip(p as int));
        }
        match read_character(bytes, p) {
            None => {
                assert(parse_character_items(start, n as nat) is None);
                return Err(StoreError::CorruptRecord);
            },
            Some((c, p2)) => {
                let ghost before = v@;
                v.push(c);
                assert(characters_view(v@) =~= characters_view(before).push(c@));
                p = p2;
                i = i + 1;
            },
        }
    }
    if p == bytes.len() {
        assert(bytes@.skip(p as int).len() == 0);
        Ok(v)
    } else {
        Err(StoreError::CorruptRecord)
    }
}

/// The record of a profile.
pub fn encode_profile(profile: &UserProfile) -> (r: Vec<u8>)
    ensures
        r@ == profile_record(profile@),
        profile_fits(profile@),
{
    let mut out: Vec<u8> = Vec::new();
    out.push(RECORD_VERSION);
    write_u64(&mut out, profile.user_id);
    write_u64(&mut out, profile.selected_waifu);
    write_opt_str(&mut out, &profile.team_id);
    write_i64(&mut out, profile.join_date);
    write_i64(&mut out, profile.last_selection_date);
    write_u64_seq(&mut out, &profile.previous_selections);
    assert(out@ =~= profile_record(profile@));
    out
}

/// Reads the record of a profile. It fails exactly on the bytes that are
/// the record of no profile.
pub fn decode_profile(bytes: &[u8]) -> (r: Result<UserProfile, StoreError>)
    ensures
        match parse_profile_record(bytes@) {
            Some(m) => r matches Ok(p) && p@ == m,
            None => r == Err::<UserProfile, StoreError>(StoreError::CorruptRecord),
        },
        r matches Ok(p) ==> profile_record(p@) == bytes@,
        r is Err ==> forall|m: ProfileModel| profile_fits(m) ==> #[trigger] profile_record(m) != bytes@,
{
    let r = decode_profile_body(bytes);
    proof {
        match parse_profile_record(bytes@) {
            Some(m) => lemma_profile_record_canonical(bytes@, m),
            None => {
                assert forall|m: ProfileModel| profile_fits(m) implies #[trigger] profile_record(m)
                    != bytes@ by {
                    lemma_profile_record_round_trip(m);
                }
            },
        }
    }
    r
}

fn decode_profile_body(bytes: &[u8]) -> (r: Result<UserProfile, StoreError>)
    ensures
        match parse_profile_record(bytes@) {
            Some(m) => r matches Ok(p) && p@ == m,
            None => r == Err::<UserProfile, StoreError>(StoreError::CorruptRecord),
        },
{
    let corrupt = Err(StoreError::CorruptRecord);
    let p0 = match read_u8(bytes, 0) {
        Some((v, p)) => {
            if v != RECORD_VERSION {
                return corrupt;
            }
            p
        },
        None => return corrupt,
    };
    assert(bytes@.skip(0) =~= bytes@);
    let (user_id, p1) = match read_u64(bytes, p0) {
        None => return corrupt,
        Some(x) => x,
    };
    let (selected_waifu, p2) = match read_u64(bytes, p1) {
        None => return corrupt,
        Some(x) => x,
    };
    let (team_id, p3) = match read_opt_str(bytes, p2) {
        None => return corrupt,
        Some(x) => x,
    };
    let (join_date, p4) = match read_i64(bytes, p3) {
        None => return corrupt,
        Some(x) => x,
    };
    let (last_selection_date, p5) = match read_i64(bytes, p4) {
        None => return corrupt,
        Some(x) => x,
    };
    let (previous_selections, p6) = match read_u64_seq(bytes, p5) {
        None => return corrupt,
        Some(x) => x,
    };
    if p6 != bytes.len() {
        return corrupt;
    }
    assert(bytes@.skip(p6 as int).len() == 0);
    Ok(
        UserProfile {
            user_id,
            selected_waifu,
            team_id,
            join_date,
            last_selection_date,
            previous_selections,
        },
    )
}

/// The record of a team.
pub fn encode_team(team: &Team) -> (r: Vec<u8>)
    ensures
        r@ == team_record(team@),
        team_fits(team@),
{
    let mut out: Vec<u8> = Vec::new();
    out.push(RECORD_VERSION);
    write_str(&mut out, team.id.as_str());
    write_str(&mut out, team.name.as_str());
    write_u64(&mut out, team.leader_id);
    write_u64_seq(&mut out, &team.members);
    write_i64(&mut out, team.created_at);
    assert(out@ =~= team_record(team@));
    out
}

/// Reads the record of a team. It fails exactly on the bytes that are the
/// record of no team.
pub fn decode_team(bytes: &[u8]) -> (r: Result<Team, StoreError>)
    ensures
        match parse_team_record(bytes@) {
            Some(m) => r matches Ok(t) && t@ == m,
            None => r == Err::<Team, StoreError>(StoreError::CorruptRecord),
        },
        r matches Ok(t) ==> team_record(t@) == bytes@,
        r is Err ==> forall|m: TeamModel| team_fits(m) ==> #[trigger] team_record(m) != bytes@,
{
    let r = decode_team_body(bytes);
    proof {
        match parse_team_record(bytes@) {
            Some(m) => lemma_team_record_canonical(bytes@, m),
            None => {
                assert forall|m: TeamModel| team_fits(m) implies #[trigger] team_record(m)
                    != bytes@ by {
                    lemma_team_record_round_trip(m);
                }
            },
        }
    }
    r
}

fn decode_team_body(bytes: &[u8]) -> (r: Result<Team, StoreError>)
    ensures
        match parse_team_record(bytes@) {
            Some(m) => r matches Ok(t) && t@ == m,
            None => r == Err::<Team, StoreError>(StoreError::CorruptRecord),
        },
{
    let corrupt = Err(StoreError::CorruptRecord);
    let p0 = match read_u8(bytes, 0) {
        Some((v, p)) => {
            if v != RECORD_VERSION {
                return corrupt;
            }
            p
        },
        None => return corrupt,
    };
    assert(bytes@.skip(0) =~= bytes@);
    let (id, p1) = match read_str(bytes, p0) {
        None => return corrupt,
        Some(x) => x,
    };
    let (name, p2) = match read_str(bytes, p1) {
        None => return corrupt,
        Some(x) => x,
    };
    let (leader_id, p3) = match read_u64(bytes, p2) {
        None => return corrupt,
        Some(x) => x,
    };
    let (members, p4) = match read_u64_seq(bytes, p3) {
        None => return corrupt,
        Some(x) => x,
    };
    let (created_at, p5) = match read_i64(bytes, p4) {
        None => return corrupt,
        Some(x) => x,
    };
    if p5 != bytes.len() {
        return corrupt;
    }
    assert(bytes@.skip(p5 as int).len() == 0);
    Ok(Team { id, name, leader_id, members, created_at })
}

} // verus!
