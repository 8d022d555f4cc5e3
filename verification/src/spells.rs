use vstd::prelude::*;

use crate::text::str_eq;
use crate::tile::{manhattan, TileVec};

verus! {

/// A spell: what it costs, how long until it can be cast again, how much
/// damage it deals and how far (in steps) it reaches.
#[derive(Clone, Copy, Debug)]
pub struct SpellDef {
    pub name: &'static str,
    pub mana_cost: u32,
    pub cooldown_ms: u32,
    pub damage: u32,
    pub range: i32,
}

pub open spec fn gran_mas_flam_spec() -> (u32, u32, u32, i32) {
    (60, 4000, 10, 4)
}

/// The great fire wave.
pub fn gran_mas_flam() -> (r: SpellDef)
    ensures
        r.name@ == "exevo gran mas flam"@,
        (r.mana_cost, r.cooldown_ms, r.damage, r.range) == gran_mas_flam_spec(),
{
    SpellDef {
        name: "exevo gran mas flam",
        mana_cost: 60,
        cooldown_ms: 4000,
        damage: 10,
        range: 4,
    }
}

/// The spell called `name`, if there is one.
pub fn get(name: &str) -> (r: Option<SpellDef>)
    ensures
        name@ == "exevo gran mas flam"@ ==> (r matches Some(s) && s.name@ == name@ && (
        s.mana_cost,
        s.cooldown_ms,
        s.damage,
        s.range,
    ) == gran_mas_flam_spec()),
        name@ != "exevo gran mas flam"@ ==> r is None,
{
    if str_eq(name, "exevo gran mas flam") {
        Some(gran_mas_flam())
    } else {
        None
    }
}

/// `a` comes before `b` row by row, then column by column.
pub open spec fn row_major_lt(a: TileVec, b: TileVec) -> bool {
    a.y < b.y || (a.y == b.y && a.x < b.x)
}

/// The tiles within `range` steps of `origin`, each once, row by row from
/// the top and left to right within a row.
pub open spec fn is_area(tiles: Seq<TileVec>, origin: TileVec, range: int) -> bool {
    &&& forall|t: TileVec| tiles.contains(t) <==> manhattan(t, origin) <= range
    &&& forall|i: int, j: int|
        0 <= i < j < tiles.len() ==> row_major_lt(#[trigger] tiles[i], #[trigger] tiles[j])
}

/// Every tile within `range` steps of `origin` has coordinates in `i32`.
pub open spec fn area_fits(origin: TileVec, range: int) -> bool {
    range < 0 || (i32::MIN <= origin.x - range && origin.x + range <= i32::MAX && i32::MIN
        <= origin.y - range && origin.y + range <= i32::MAX)
}

/// Tile (column `x`, row `y`) relative to `origin` has been visited when the
/// scan is at column `cx` of row `cy`.
pub open spec fn scanned(t: TileVec, origin: TileVec, cy: int, cx: int) -> bool {
    t.y - origin.y < cy || (t.y - origin.y == cy && t.x - origin.x < cx)
}

/// The diamond of tiles within `range` steps of `origin`.
pub fn area(origin: TileVec, range: i32) -> (tiles: Vec<TileVec>)
    requires
        area_fits(origin, range as int),
    ensures
        is_area(tiles@, origin, range as int),
{
    let mut tiles: Vec<TileVec> = Vec::new();
    if range < 0 {
        proof {
            assert forall|t: TileVec| tiles@.contains(t) <==> manhattan(t, origin) <= range by {}
        }
        return tiles;
    }
    let r = range as i64;
    let mut y: i64 = -r;
    while y <= r
        invariant
            0 <= r <= i32::MAX,
            r == range,
            area_fits(origin, range as int),
            -r <= y <= r + 1,
            forall|t: TileVec|
                tiles@.contains(t) <==> manhattan(t, origin) <= r && scanned(t, origin, y as int, -r),
            forall|i: int, j: int|
                0 <= i < j < tiles@.len() ==> row_major_lt(#[trigger] tiles@[i], #[trigger] tiles@[j]),
            forall|i: int|
                0 <= i < tiles@.len() ==> scanned(#[trigger] tiles@[i], origin, y as int, -r),
        decreases r + 1 - y,
    {
        let shrink: i64 = if y < 0 { -y } else { y };
        let mut x: i64 = -r;
        while x <= r
            invariant
                0 <= r <= i32::MAX,
                r == range,
                area_fits(origin, range as int),
                -r <= y <= r,
                shrink == (if y < 0 { -y } else { y as int }),
                -r <= x <= r + 1,
                forall|t: TileVec|
                    tiles@.contains(t) <==> manhattan(t, origin) <= r && scanned(t, origin, y as int, x as int),
                forall|i: int, j: int|
                    0 <= i < j < tiles@.len() ==> row_major_lt(#[trigger] tiles@[i], #[trigger] tiles@[j]),
                forall|i: int|
                    0 <= i < tiles@.len() ==> scanned(#[trigger] tiles@[i], origin, y as int, x as int),
            decreases r + 1 - x,
        {
            let ax: i64 = if x < 0 { -x } else { x };
            let ghost before = tiles@;
            if ax <= r - shrink {
                let t = TileVec::new((origin.x as i64 + x) as i32, (origin.y as i64 + y) as i32);
                tiles.push(t);
                proof {
                    assert forall|u: TileVec|
                        tiles@.contains(u) <==> manhattan(u, origin) <= r && scanned(
                            u,
                            origin,
                            y as int,
                            x + 1,
                        ) by {
                        if tiles@.contains(u) && u != t {
                            let k = choose|k: int| 0 <= k < tiles@.len() && tiles@[k] == u;
                            assert(before[k] == u);
                            assert(before.contains(u));
                        }
                        if u != t && manhattan(u, origin) <= r && scanned(u, origin, y as int, x + 1) {
                            assert(before.contains(u));
                            let k = choose|k: int| 0 <= k < before.len() && before[k] == u;
                            assert(tiles@[k] == u);
                        }
                        if u == t {
                            assert(tiles@[tiles@.len() - 1] == t);
                        }
                    }
                    assert forall|i: int, j: int|
                        0 <= i < j < tiles@.len() implies row_major_lt(
                        #[trigger] tiles@[i],
                        #[trigger] tiles@[j],
                    ) by {
                        if j == tiles@.len() - 1 {
                            assert(scanned(before[i], origin, y as int, x as int));
                        } else {
                            assert(tiles@[i] == before[i]);
                            assert(tiles@[j] == before[j]);
                        }
                    }
                    assert forall|i: int|
                        0 <= i < tiles@.len() implies scanned(
                        #[trigger] tiles@[i],
                        origin,
                        y as int,
                        x + 1,
                    ) by {
                        if i < before.len() {
                            assert(tiles@[i] == before[i]);
                            assert(scanned(before[i], origin, y as int, x as int));
                        }
                    }
                }
            } else {
                proof {
                    assert forall|u: TileVec|
                        tiles@.contains(u) <==> manhattan(u, origin) <= r && scanned(
                            u,
                            origin,
                            y as int,
                            x + 1,
                        ) by {
                        if manhattan(u, origin) <= r && scanned(u, origin, y as int, x + 1) && !scanned(
                            u,
                            origin,
                            y as int,
                            x as int,
                        ) {
                            assert(u.x - origin.x == x && u.y - origin.y == y);
                        }
                    }
                }
            }
            x = x + 1;
        }
        proof {
            assert forall|u: TileVec|
                tiles@.contains(u) <==> manhattan(u, origin) <= r && scanned(u, origin, y + 1, -r) by {
                if manhattan(u, origin) <= r && scanned(u, origin, y + 1, -r) {
                    if u.y - origin.y == y {
                        assert(scanned(u, origin, y as int, x as int));
                    }
                }
            }
        }
        y = y + 1;
    }
    proof {
        assert forall|t: TileVec| tiles@.contains(t) <==> manhattan(t, origin) <= range by {
            if manhattan(t, origin) <= range {
                assert(scanned(t, origin, y as int, -r));
            }
        }
    }
    tiles
}

/// The same tiles, moved by `origin`.
pub open spec fn translated(tiles: Seq<TileVec>, origin: TileVec) -> Seq<TileVec> {
    tiles.map_values(
        |t: TileVec| TileVec { x: (t.x + origin.x) as i32, y: (t.y + origin.y) as i32 },
    )
}

/// Two sequences in strict row order with the same tiles are the same.
proof fn lemma_row_sorted_unique(a: Seq<TileVec>, b: Seq<TileVec>)
    requires
        forall|i: int, j: int| 0 <= i < j < a.len() ==> row_major_lt(#[trigger] a[i], #[trigger] a[j]),
        forall|i: int, j: int| 0 <= i < j < b.len() ==> row_major_lt(#[trigger] b[i], #[trigger] b[j]),
        forall|t: TileVec| a.contains(t) <==> b.contains(t),
    ensures
        a == b,
    decreases a.len(),
{
    if a.len() == 0 {
        if b.len() > 0 {
            assert(b.contains(b[0]));
        }
        assert(a =~= b);
    } else {
        assert(a.contains(a[0]));
        let j = choose|j: int| 0 <= j < b.len() && b[j] == a[0];
        assert(b.contains(b[0]));
        let i = choose|i: int| 0 <= i < a.len() && a[i] == b[0];
        if j > 0 {
            assert(row_major_lt(b[0], b[j]));
            if i > 0 {
                assert(row_major_lt(a[0], a[i]));
            }
            assert(false);
        }
        let ra = a.drop_first();
        let rb = b.drop_first();
        assert forall|t: TileVec| ra.contains(t) <==> rb.contains(t) by {
            if ra.contains(t) {
                let k = choose|k: int| 0 <= k < ra.len() && ra[k] == t;
                assert(a[k + 1] == t);
                assert(row_major_lt(a[0], a[k + 1]));
                assert(a.contains(t));
                let m = choose|m: int| 0 <= m < b.len() && b[m] == t;
                assert(m != 0);
                assert(rb[m - 1] == t);
            }
            if rb.contains(t) {
                let k = choose|k: int| 0 <= k < rb.len() && rb[k] == t;
                assert(b[k + 1] == t);
                assert(row_major_lt(b[0], b[k + 1]));
                assert(b.contains(t));
                let m = choose|m: int| 0 <= m < a.len() && a[m] == t;
                assert(m != 0);
                assert(ra[m - 1] == t);
            }
        }
        assert forall|x: int, y: int| 0 <= x < y < ra.len() implies row_major_lt(
            #[trigger] ra[x],
            #[trigger] ra[y],
        ) by {
            assert(ra[x] == a[x + 1] && ra[y] == a[y + 1]);
        }
        assert forall|x: int, y: int| 0 <= x < y < rb.len() implies row_major_lt(
            #[trigger] rb[x],
            #[trigger] rb[y],
        ) by {
            assert(rb[x] == b[x + 1] && rb[y] == b[y + 1]);
        }
        lemma_row_sorted_unique(ra, rb);
        assert(a =~= seq![a[0]] + ra);
        assert(b =~= seq![b[0]] + rb);
    }
}

/// A spell's area around `origin` is its area around the tile (0, 0),
/// moved by `origin`: the same offsets in the same order.
pub proof fn lemma_area_translates(origin: TileVec, range: int, tiles: Seq<TileVec>, base: Seq<TileVec>)
    requires
        area_fits(origin, range),
        is_area(tiles, origin, range),
        is_area(base, TileVec { x: 0, y: 0 }, range),
    ensures
        tiles == translated(base, origin),
{
    let zero = TileVec { x: 0, y: 0 };
    let moved = translated(base, origin);
    assert forall|k: int| 0 <= k < base.len() implies #[trigger] moved[k].x == base[k].x + origin.x
        && moved[k].y == base[k].y + origin.y && manhattan(moved[k], origin) == manhattan(
        base[k],
        zero,
    ) by {
        assert(base.contains(base[k]));
    }
    assert forall|t: TileVec| moved.contains(t) <==> manhattan(t, origin) <= range by {
        if moved.contains(t) {
            let k = choose|k: int| 0 <= k < moved.len() && moved[k] == t;
            assert(moved[k].x == base[k].x + origin.x);
            assert(base.contains(base[k]));
        }
        if manhattan(t, origin) <= range {
            let b = TileVec { x: (t.x - origin.x) as i32, y: (t.y - origin.y) as i32 };
            assert(b.x == t.x - origin.x && b.y == t.y - origin.y);
            assert(manhattan(b, zero) <= range);
            assert(base.contains(b));
            let k = choose|k: int| 0 <= k < base.len() && base[k] == b;
            assert(moved[k].x == base[k].x + origin.x);
            assert(moved[k] == t);
            assert(moved.contains(t));
        }
    }
    assert forall|i: int, j: int| 0 <= i < j < moved.len() implies row_major_lt(
        #[trigger] moved[i],
        #[trigger] moved[j],
    ) by {
        assert(moved[i].x == base[i].x + origin.x);
        assert(moved[j].x == base[j].x + origin.x);
        assert(row_major_lt(base[i], base[j]));
    }
    lemma_row_sorted_unique(tiles, moved);
}

} // verus!
