use std::collections::HashMap;

use vstd::prelude::*;

use crate::search::{first_match, lemma_first_match_unique};
use crate::text::str_eq;

verus! {

broadcast use vstd::std_specs::hash::group_hash_axioms;

pub open spec fn named_player(name: Seq<char>) -> spec_fn((u64, String)) -> bool {
    |p: (u64, String)| p.1@ == name
}

/// The player a chat line by `sender` belongs to: the first one so named.
pub open spec fn speaker(players: Seq<(u64, String)>, sender: Seq<char>) -> Option<u64> {
    match first_match(players, named_player(sender)) {
        Some(k) => Some(players[k].0),
        None => None,
    }
}

/// For each player, the index of the last of the chat lines by `senders`
/// that belongs to them.
pub open spec fn latest_lines(senders: Seq<String>, players: Seq<(u64, String)>) -> Map<u64, usize>
    decreases senders.len(),
{
    if senders.len() == 0 {
        Map::empty()
    } else {
        let m = latest_lines(senders.drop_last(), players);
        match speaker(players, senders.last()@) {
            Some(id) => m.insert(id, (senders.len() - 1) as usize),
            None => m,
        }
    }
}

/// The player called `sender`: the first one so named.
pub fn find_speaker(players: &[(u64, String)], sender: &str) -> (r: Option<u64>)
    ensures
        r == speaker(players@, sender@),
{
    let n = players.len();
    let mut i: usize = 0;
    while i < n
        invariant
            n == players@.len(),
            i <= n,
            forall|j: int| 0 <= j < i ==> !named_player(sender@)(#[trigger] players@[j]),
        decreases n - i,
    {
        if str_eq(players[i].1.as_str(), sender) {
            proof {
                lemma_first_match_unique(players@, named_player(sender@), Some(i as int));
            }
            return Some(players[i].0);
        }
        i = i + 1;
    }
    proof {
        lemma_first_match_unique(players@, named_player(sender@), None);
    }
    None
}

/// For each player, the index of their latest line among the chat lines
/// spoken by `senders`, in order; lines by a name no player has are skipped.
pub fn latest_lines_by_player(senders: &[String], players: &[(u64, String)]) -> (r: HashMap<
    u64,
    usize,
>)
    ensures
        r@ == latest_lines(senders@, players@),
        forall|j: int|
            0 <= j < senders@.len() ==> match speaker(players@, #[trigger] senders@[j]@) {
                Some(id) => r@.contains_key(id) && r@[id] >= j,
                None => true,
            },
{
    let mut latest: HashMap<u64, usize> = HashMap::new();
    let n = senders.len();
    let mut i: usize = 0;
    while i < n
        invariant
            n == senders@.len(),
            i <= n,
            latest@ == latest_lines(senders@.take(i as int), players@),
        decreases n - i,
    {
        proof {
            assert(senders@.take(i + 1).drop_last() =~= senders@.take(i as int));
            assert(senders@.take(i + 1).last() == senders@[i as int]);
        }
        if let Some(id) = find_speaker(players, senders[i].as_str()) {
            latest.insert(id, i);
        }
        i = i + 1;
    }
    proof {
        assert(senders@.take(n as int) =~= senders@);
        assert forall|j: int| 0 <= j < senders@.len() implies match speaker(
            players@,
            #[trigger] senders@[j]@,
        ) {
            Some(id) => latest@.contains_key(id) && latest@[id] >= j,
            None => true,
        } by {
            if let Some(id) = speaker(players@, senders@[j]@) {
                lemma_speaker_has_line(senders@, players@, id, j);
            }
        }
    }
    latest
}

/// The line kept for a player is theirs, and no later line is: a chat
/// bubble shows what a player said last.
pub proof fn lemma_latest_line_is_last(senders: Seq<String>, players: Seq<(u64, String)>, id: u64)
    requires
        senders.len() <= usize::MAX,
        latest_lines(senders, players).contains_key(id),
    ensures
        ({
            let i = latest_lines(senders, players)[id] as int;
            &&& 0 <= i < senders.len()
            &&& speaker(players, senders[i]@) == Some(id)
            &&& forall|j: int| i < j < senders.len() ==> speaker(players, #[trigger] senders[j]@) != Some(id)
        }),
    decreases senders.len(),
{
    let rest = senders.drop_last();
    if speaker(players, senders.last()@) != Some(id) {
        lemma_latest_line_is_last(rest, players, id);
        let i = latest_lines(rest, players)[id] as int;
        assert(senders[i] == rest[i]);
        assert forall|j: int| i < j < senders.len() implies speaker(players, #[trigger] senders[j]@)
            != Some(id) by {
            if j < senders.len() - 1 {
                assert(senders[j] == rest[j]);
            }
        }
    }
}

/// A player who said something has a line kept, no earlier than any line
/// of theirs: with `lemma_latest_line_is_last`, the kept line is exactly the
/// last one they said.
pub proof fn lemma_speaker_has_line(
    senders: Seq<String>,
    players: Seq<(u64, String)>,
    id: u64,
    j: int,
)
    requires
        senders.len() <= usize::MAX,
        0 <= j < senders.len(),
        speaker(players, senders[j]@) == Some(id),
    ensures
        latest_lines(senders, players).contains_key(id),
        latest_lines(senders, players)[id] >= j,
    decreases senders.len(),
{
    let rest = senders.drop_last();
    if speaker(players, senders.last()@) != Some(id) {
        assert(j < senders.len() - 1);
        assert(rest[j] == senders[j]);
        lemma_speaker_has_line(rest, players, id, j);
    }
}

/// A player who said nothing has no line kept.
pub proof fn lemma_silent_player_has_no_line(
    senders: Seq<String>,
    players: Seq<(u64, String)>,
    id: u64,
)
    requires
        forall|j: int| 0 <= j < senders.len() ==> speaker(players, #[trigger] senders[j]@) != Some(id),
    ensures
        !latest_lines(senders, players).contains_key(id),
    decreases senders.len(),
{
    if senders.len() > 0 {
        let rest = senders.drop_last();
        assert forall|j: int| 0 <= j < rest.len() implies speaker(players, #[trigger] rest[j]@)
            != Some(id) by {
            assert(rest[j] == senders[j]);
        }
        lemma_silent_player_has_no_line(rest, players, id);
    }
}

} // verus!
