use vstd::prelude::*;

use crate::spells::{area, area_fits, is_area, SpellDef};
use crate::tile::TileVec;

verus! {

/// Hit points of a creature or player.
#[derive(Clone, Copy, Debug, PartialEq, Eq, Structural)]
pub struct Health {
    pub current: u32,
    pub max: u32,
}

/// A creature a spell may reach: its entity id, tile and health, if it has any.
#[derive(Clone, Copy, Debug, PartialEq, Eq, Structural)]
pub struct CastTarget {
    pub id: u64,
    pub tile: TileVec,
    pub health: Option<Health>,
}

/// Damage dealt to one entity, and its health afterwards.
#[derive(Clone, Copy, Debug, PartialEq, Eq, Structural)]
pub struct DamageEntry {
    pub id: u64,
    pub damage: u32,
    pub current: u32,
    pub max: u32,
}

/// Everything a cast does.
pub struct CastOutcome {
    /// The tiles the spell covers.
    pub affected_tiles: Vec<TileVec>,
    /// Ids of the creatures standing on them, in the order given.
    pub hit_entities: Vec<u64>,
    /// One entry per hit creature that has health, in the same order.
    pub damage_entries: Vec<DamageEntry>,
    /// Ids of the damaged creatures left with no health.
    pub died_ids: Vec<u64>,
}

pub open spec fn is_hit(affected: Seq<TileVec>) -> spec_fn(CastTarget) -> bool {
    |c: CastTarget| affected.contains(c.tile)
}

pub open spec fn has_health() -> spec_fn(CastTarget) -> bool {
    |c: CastTarget| c.health is Some
}

/// The damage a spell dealing `damage` does to a creature with health `h`:
/// never more than it has left.
pub open spec fn damage_entry(damage: u32, c: CastTarget) -> DamageEntry {
    let h = c.health->0;
    let dealt = if damage <= h.current {
        damage
    } else {
        h.current
    };
    DamageEntry { id: c.id, damage: dealt, current: (h.current - dealt) as u32, max: h.max }
}

pub open spec fn is_dead() -> spec_fn(DamageEntry) -> bool {
    |e: DamageEntry| e.current == 0
}

/// What a cast of `spell` from `origin` does to `creatures`.
pub open spec fn cast_ok(spell: SpellDef, origin: TileVec, creatures: Seq<CastTarget>, r: CastOutcome) -> bool {
    let hits = creatures.filter(is_hit(r.affected_tiles@));
    &&& is_area(r.affected_tiles@, origin, spell.range as int)
    &&& r.hit_entities@ == hits.map_values(|c: CastTarget| c.id)
    &&& r.damage_entries@ == hits.filter(has_health()).map_values(
        |c: CastTarget| damage_entry(spell.damage, c),
    )
    &&& r.died_ids@ == r.damage_entries@.filter(is_dead()).map_values(|e: DamageEntry| e.id)
}

fn contains_tile(tiles: &Vec<TileVec>, t: TileVec) -> (r: bool)
    ensures
        r == tiles@.contains(t),
{
    let n = tiles.len();
    let mut i: usize = 0;
    while i < n
        invariant
            n == tiles@.len(),
            i <= n,
            forall|j: int| 0 <= j < i ==> tiles@[j] != t,
        decreases n - i,
    {
        if tiles[i] == t {
            return true;
        }
        i = i + 1;
    }
    false
}

/// The effect of casting `spell` from `origin` on the given creatures: every
/// creature on a covered tile is hit and, if it has health, loses the
/// spell's damage (at most what it has left); those left with none die.
pub fn resolve_cast(spell: &SpellDef, origin: TileVec, creatures: &[CastTarget]) -> (r: CastOutcome)
    requires
        area_fits(origin, spell.range as int),
    ensures
        cast_ok(*spell, origin, creatures@, r),
{
    let affected_tiles = area(origin, spell.range);
    let ghost aff = affected_tiles@;
    let mut hit_entities: Vec<u64> = Vec::new();
    let mut damage_entries: Vec<DamageEntry> = Vec::new();
    let mut died_ids: Vec<u64> = Vec::new();
    let n = creatures.len();
    let mut i: usize = 0;
    while i < n
        invariant
            n == creatures@.len(),
            i <= n,
            aff == affected_tiles@,
            hit_entities@ == creatures@.take(i as int).filter(is_hit(aff)).map_values(
                |c: CastTarget| c.id,
            ),
            damage_entries@ == creatures@.take(i as int).filter(is_hit(aff)).filter(
                has_health(),
            ).map_values(|c: CastTarget| damage_entry(spell.damage, c)),
            died_ids@ == damage_entries@.filter(is_dead()).map_values(|e: DamageEntry| e.id),
        decreases n - i,
    {
        let c = creatures[i];
        let ghost pre = creatures@.take(i as int);
        proof {
            assert(creatures@.take(i + 1) =~= pre.push(c));
            pre.lemma_filter_push(c, is_hit(aff));
        }
        if contains_tile(&affected_tiles, c.tile) {
            let ghost hits_pre = pre.filter(is_hit(aff));
            proof {
                hits_pre.lemma_filter_push(c, has_health());
            }
            let ghost old_hits = hit_entities@;
            hit_entities.push(c.id);
            assert(hit_entities@ =~= pre.push(c).filter(is_hit(aff)).map_values(
                |c: CastTarget| c.id,
            ));
            match c.health {
                Some(h) => {
                    let dealt = if spell.damage <= h.current {
                        spell.damage
                    } else {
                        h.current
                    };
                    let entry = DamageEntry {
                        id: c.id,
                        damage: dealt,
                        current: h.current - dealt,
                        max: h.max,
                    };
                    let ghost old_entries = damage_entries@;
                    damage_entries.push(entry);
                    proof {
                        assert(entry == damage_entry(spell.damage, c));
                        assert(damage_entries@ =~= pre.push(c).filter(is_hit(aff)).filter(
                            has_health(),
                        ).map_values(|c: CastTarget| damage_entry(spell.damage, c)));
                        old_entries.lemma_filter_push(entry, is_dead());
                    }
                    if entry.current == 0 {
                        died_ids.push(c.id);
                    }
                    proof {
                        assert(died_ids@ =~= damage_entries@.filter(is_dead()).map_values(
                            |e: DamageEntry| e.id,
                        ));
                    }
                },
                None => {
                    proof {
                        assert(damage_entries@ =~= pre.push(c).filter(is_hit(aff)).filter(
                            has_health(),
                        ).map_values(|c: CastTarget| damage_entry(spell.damage, c)));
                    }
                },
            }
        } else {
        }
        i = i + 1;
    }
    proof {
        assert(creatures@.take(n as int) =~= creatures@);
    }
    CastOutcome { affected_tiles, hit_entities, damage_entries, died_ids }
}


/// A spell never takes more health than a creature has, nor more than its
/// damage; what is taken is exactly what is lost; and the creature is left
/// with none exactly when the damage is at least its health.
pub proof fn lemma_damage_entry(damage: u32, c: CastTarget)
    requires
        c.health is Some,
    ensures
        ({
            let e = damage_entry(damage, c);
            let h = c.health->0;
            &&& e.damage <= damage
            &&& e.damage <= h.current
            &&& e.current + e.damage == h.current
            &&& e.max == h.max
            &&& e.id == c.id
            &&& (e.current == 0 <==> damage >= h.current)
        }),
{
}

} // verus!
