//! Keys of the byte store: `user:<id>` and `team:<id>` for profiles and
//! teams, `character_stats` for the character record.
use vstd::prelude::*;
use vstd::utf8::encode_utf8;

verus! {

/// `character_stats` in ASCII.
pub open spec fn character_stats_bytes() -> Seq<u8> {
    seq![99u8, 104u8, 97u8, 114u8, 97u8, 99u8, 116u8, 101u8, 114u8, 95u8, 115u8, 116u8, 97u8, 116u8, 115u8]
}

/// The key of the character record: `character_stats`.
pub fn character_stats_key() -> (r: Vec<u8>)
    ensures
        r@ == character_stats_bytes(),
{
    let r = vec![99u8, 104u8, 97u8, 114u8, 97u8, 99u8, 116u8, 101u8, 114u8, 95u8, 115u8, 116u8, 97u8, 116u8, 115u8];
    assert(r@ =~= character_stats_bytes());
    r
}

/// The decimal digits of `n`, in ASCII, without leading zeros.
pub open spec fn decimal(n: nat) -> Seq<u8>
    decreases n,
{
    if n < 10 {
        seq![(48 + n) as u8]
    } else {
        decimal(n / 10).push((48 + n % 10) as u8)
    }
}

/// `user:` in ASCII.
pub open spec fn user_prefix() -> Seq<u8> {
    seq![117u8, 115u8, 101u8, 114u8, 58u8]
}

/// `team:` in ASCII.
pub open spec fn team_prefix() -> Seq<u8> {
    seq![116u8, 101u8, 97u8, 109u8, 58u8]
}

fn push_decimal(out: &mut Vec<u8>, n: u64)
    ensures
        final(out)@ == old(out)@ + decimal(n as nat),
    decreases n,
{
    if n >= 10 {
        push_decimal(out, n / 10);
    }
    out.push(48u8 + (n % 10) as u8);
    assert(final(out)@ =~= old(out)@ + decimal(n as nat));
}

/// The key of a user's profile: `user:` and the identifier in decimal.
pub fn user_key(user_id: u64) -> (r: Vec<u8>)
    ensures
        r@ == user_prefix() + decimal(user_id as nat),
{
    let mut out: Vec<u8> = vec![117u8, 115u8, 101u8, 114u8, 58u8];
    assert(out@ =~= user_prefix());
    push_decimal(&mut out, user_id);
    out
}

/// The key of a team: `team:` and the identifier's UTF-8 bytes.
pub fn team_key(team_id: &str) -> (r: Vec<u8>)
    ensures
        r@ == team_prefix() + encode_utf8(team_id@),
{
    let mut out: Vec<u8> = vec![116u8, 101u8, 97u8, 109u8, 58u8];
    assert(out@ =~= team_prefix());
    let bytes = team_id.as_bytes();
    let ghost start = out@;
    let mut i: usize = 0;
    while i < bytes.len()
        invariant
            i <= bytes@.len(),
            out@ == start + bytes@.take(i as int),
        decreases bytes@.len() - i,
    {
        out.push(bytes[i]);
        i = i + 1;
        assert(bytes@.take(i as int) =~= bytes@.take(i - 1).push(bytes@[i - 1]));
    }
    assert(bytes@.take(i as int) =~= bytes@);
    out
}

} // verus!
