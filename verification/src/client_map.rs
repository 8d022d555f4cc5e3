use std::collections::HashMap;

use vstd::prelude::*;

use crate::search::{first_match, last_match, lemma_first_match_unique, lemma_last_match_unique};
use crate::server_game::{shifted, unit_dir};
use crate::server_map::{floor_name, neighbours_fit};
use crate::text::{
    find_str, floor_layer_name, floor_prefix, floor_prefix_spec, occurs_at, parse_i16,
    parse_i16_spec,
};
use crate::tile::TileVec;
use crate::tiled::{has_tile_spec, TileOffset, TiledLayer, TiledMap, TiledTileset};

verus! {

broadcast use vstd::std_specs::hash::group_hash_axioms;

/// The loaded image of a tileset: its size in pixels and its texture id.
#[derive(Clone, Copy, Debug)]
pub struct Tileset {
    pub dimensions: (u32, u32),
    pub texture: usize,
}

/// The map as the client draws it.
pub struct ClientMap {
    pub tiled: TiledMap,
    pub sets: HashMap<u32, Tileset>,
    pub current_z: i16,
}

pub open spec fn gid_is(g: u32) -> spec_fn(TiledTileset) -> bool {
    |t: TiledTileset| t.firstgid == g
}

pub open spec fn gid_sorted(s: Seq<TiledTileset>) -> bool {
    forall|i: int, j: int| 0 <= i < j < s.len() ==> #[trigger] s[i].firstgid <= #[trigger] s[j].firstgid
}

/// `r` is `s` sorted by first global id, tilesets with equal ids keeping
/// their order.
pub open spec fn stable_sorted_by_gid(s: Seq<TiledTileset>, r: Seq<TiledTileset>) -> bool {
    &&& gid_sorted(r)
    &&& forall|g: u32| #[trigger] r.filter(gid_is(g)) == s.filter(gid_is(g))
}

/// The tileset holds global tile id `tile_id` if it starts at or before it.
pub open spec fn starts_by(tile_id: u32) -> spec_fn(TiledTileset) -> bool {
    |t: TiledTileset| tile_id >= t.firstgid
}

proof fn lemma_filter_none<A>(s: Seq<A>, p: spec_fn(A) -> bool)
    requires
        forall|i: int| 0 <= i < s.len() ==> !p(#[trigger] s[i]),
    ensures
        s.filter(p) == Seq::<A>::empty(),
{
    assert(s.all(|x: A| !p(x))) by {
        assert forall|i: int| 0 <= i < s.len() implies (|x: A| !p(x))(#[trigger] s[i]) by {}
    }
    s.lemma_all_neg_filter_empty(p);
    assert(s.filter(p) =~= Seq::<A>::empty());
}

fn sort_by_firstgid(input: Vec<TiledTileset>) -> (r: Vec<TiledTileset>)
    ensures
        stable_sorted_by_gid(input@, r@),
{
    broadcast use vstd::seq_lib::group_filter_ensures;
    broadcast use vstd::seq_lib::group_seq_properties;

    let ghost orig = input@;
    let mut rest = input;
    let mut out: Vec<TiledTileset> = Vec::new();
    let n = rest.len();
    let mut i: usize = 0;
    proof {
        assert(orig.skip(0) =~= orig);
        assert forall|g: u32| #[trigger] out@.filter(gid_is(g)) == orig.take(0).filter(gid_is(g)) by {
            assert(orig.take(0) =~= Seq::<TiledTileset>::empty());
            lemma_filter_none(out@, gid_is(g));
            lemma_filter_none(orig.take(0), gid_is(g));
        }
    }
    while i < n
        invariant
            n == orig.len(),
            i <= n,
            rest@ == orig.skip(i as int),
            gid_sorted(out@),
            forall|g: u32| #[trigger] out@.filter(gid_is(g)) == orig.take(i as int).filter(gid_is(g)),
        decreases n - i,
    {
        let x = rest.remove(0);
        proof {
            assert(x == orig[i as int]);
            assert(rest@ =~= orig.skip(i + 1));
        }
        let m = out.len();
        let mut p: usize = 0;
        while p < m && out[p].firstgid <= x.firstgid
            invariant
                m == out@.len(),
                p <= m,
                forall|j: int| 0 <= j < p ==> #[trigger] out@[j].firstgid <= x.firstgid,
            decreases m - p,
        {
            p = p + 1;
        }
        let ghost before = out@;
        proof {
            assert forall|j: int| p <= j < m implies #[trigger] before[j].firstgid > x.firstgid by {
                assert(before[p as int].firstgid > x.firstgid);
                if j > p {
                    assert(before[p as int].firstgid <= before[j].firstgid);
                }
            }
        }
        out.insert(p, x);
        proof {
            let a = before.take(p as int);
            let b = before.skip(p as int);
            assert(before =~= a + b);
            assert(out@ =~= a + seq![x] + b);
            assert(orig.take(i + 1) =~= orig.take(i as int).push(x));
            assert forall|j: int, k: int| 0 <= j < k < out@.len() implies #[trigger] out@[j].firstgid
                <= #[trigger] out@[k].firstgid by {
                if k < p {
                } else if k == p {
                    assert(out@[j] == before[j]);
                } else if j < p {
                    assert(out@[j] == before[j]);
                    assert(out@[k] == before[k - 1]);
                } else if j == p {
                    assert(out@[k] == before[k - 1]);
                } else {
                    assert(out@[j] == before[j - 1]);
                    assert(out@[k] == before[k - 1]);
                }
            }
            assert forall|g: u32| #[trigger] out@.filter(gid_is(g)) == orig.take(i + 1).filter(
                gid_is(g),
            ) by {
                orig.take(i as int).lemma_filter_push(x, gid_is(g));
                assert((a + seq![x] + b).filter(gid_is(g)) == (a + seq![x]).filter(gid_is(g))
                    + b.filter(gid_is(g)));
                assert((a + seq![x]).filter(gid_is(g)) == a.filter(gid_is(g)) + seq![x].filter(
                    gid_is(g),
                ));
                assert(before.filter(gid_is(g)) == a.filter(gid_is(g)) + b.filter(gid_is(g)));
                assert(seq![x] =~= Seq::<TiledTileset>::empty().push(x));
                Seq::<TiledTileset>::empty().lemma_filter_push(x, gid_is(g));
                lemma_filter_none(Seq::<TiledTileset>::empty(), gid_is(g));
                if g == x.firstgid {
                    assert forall|j: int| 0 <= j < b.len() implies !gid_is(g)(#[trigger] b[j]) by {
                        assert(b[j] == before[p + j]);
                    }
                    lemma_filter_none(b, gid_is(g));
                    assert(a.filter(gid_is(g)) + seq![x] + Seq::<TiledTileset>::empty() =~= (a
                        + Seq::<TiledTileset>::empty()).filter(gid_is(g)).push(x));
                    assert(a + Seq::<TiledTileset>::empty() =~= a);
                    assert(b.filter(gid_is(g)) =~= Seq::<TiledTileset>::empty());
                    assert(before.filter(gid_is(g)) =~= a.filter(gid_is(g)));
                    assert(out@.filter(gid_is(g)) =~= before.filter(gid_is(g)).push(x));
                } else {
                    assert(out@.filter(gid_is(g)) =~= before.filter(gid_is(g)));
                }
            }
        }
        i = i + 1;
    }
    proof {
        assert(orig.take(n as int) =~= orig);
    }
    out
}

/// The size of the image encoded in `bytes`, by `image::load_from_memory`
/// and the dimensions of its RGBA8 conversion; `None` when it cannot be
/// decoded.
///
/// Trusted for nothing: which format is guessed and how it is decoded can
/// depend on hooks registered anywhere in the process, so nothing is stated
/// of the result.
#[verifier::external_body]
fn decode_image_size(bytes: &[u8]) -> Option<(u32, u32)> {
    image::load_from_memory(bytes).ok().map(|i| i.to_rgba8().dimensions())
}

impl ClientMap {
    /// The client's map over `tiled`, its tilesets ordered by first global
    /// id (equal ids keep their order), with no tileset image loaded yet,
    /// on floor 0.
    pub fn new(tiled: TiledMap) -> (r: ClientMap)
        ensures
            r.tiled.width == tiled.width,
            r.tiled.height == tiled.height,
            r.tiled.tilewidth == tiled.tilewidth,
            r.tiled.tileheight == tiled.tileheight,
            r.tiled.layers == tiled.layers,
            stable_sorted_by_gid(tiled.tilesets@, r.tiled.tilesets@),
            r.loaded_sets() == Map::<u32, Tileset>::empty(),
            r.current_z == 0,
    {
        let TiledMap { width, height, tilewidth, tileheight, layers, tilesets } = tiled;
        let tilesets = sort_by_firstgid(tilesets);
        ClientMap {
            tiled: TiledMap { width, height, tilewidth, tileheight, layers, tilesets },
            sets: HashMap::new(),
            current_z: 0,
        }
    }

    /// The loaded tileset images, by first global id.
    pub open spec fn loaded_sets(&self) -> Map<u32, Tileset> {
        self.sets@
    }

    /// Records the loaded image of the tileset starting at `firstgid`.
    pub fn insert_tileset(&mut self, firstgid: u32, set: Tileset)
        ensures
            final(self).loaded_sets() == old(self).loaded_sets().insert(firstgid, set),
            final(self).tiled == old(self).tiled,
            final(self).current_z == old(self).current_z,
    {
        self.sets.insert(firstgid, set);
    }

    /// Records the image `bytes` of the tileset starting at `firstgid`,
    /// drawn from texture `texture`, if the image can be decoded; says
    /// whether it could.
    pub fn load_tileset(&mut self, firstgid: u32, bytes: &[u8], texture: usize) -> (r: bool)
        ensures
            r ==> exists|d: (u32, u32)|
                final(self).loaded_sets() == old(self).loaded_sets().insert(
                    firstgid,
                    Tileset { dimensions: d, texture },
                ),
            !r ==> final(self).loaded_sets() == old(self).loaded_sets(),
            final(self).tiled == old(self).tiled,
            final(self).current_z == old(self).current_z,
    {
        let decoded = decode_image_size(bytes);
        self.record_tileset(firstgid, decoded, texture)
    }

    /// Records the tileset starting at `firstgid` as drawn from texture
    /// `texture`, with the image size `decoded`, if the image could be
    /// decoded; says whether it could.
    pub fn record_tileset(&mut self, firstgid: u32, decoded: Option<(u32, u32)>, texture: usize) -> (r:
        bool)
        ensures
            r == decoded is Some,
            final(self).loaded_sets() == match decoded {
                Some(d) => old(self).loaded_sets().insert(
                    firstgid,
                    Tileset { dimensions: d, texture },
                ),
                None => old(self).loaded_sets(),
            },
            final(self).tiled == old(self).tiled,
            final(self).current_z == old(self).current_z,
    {
        match decoded {
            Some(dimensions) => {
                self.insert_tileset(firstgid, Tileset { dimensions, texture });
                true
            },
            None => false,
        }
    }

    /// The loaded image of the tileset starting at `firstgid`.
    pub fn loaded_set(&self, firstgid: u32) -> (r: Option<Tileset>)
        ensures
            match r {
                Some(s) => self.loaded_sets().contains_key(firstgid) && self.loaded_sets()[firstgid]
                    == s,
                None => !self.loaded_sets().contains_key(firstgid),
            },
    {
        match self.sets.get(&firstgid) {
            Some(s) => Some(*s),
            None => None,
        }
    }

    /// The tileset that global tile id `tile_id` belongs to: the last one
    /// (in order) that starts at or before it.
    fn find_tileset(&self, tile_id: u32) -> (r: Option<&TiledTileset>)
        ensures
            match last_match(self.tiled.tilesets@, starts_by(tile_id)) {
                Some(i) => r == Some(&self.tiled.tilesets@[i]),
                None => r is None,
            },
    {
        let n = self.tiled.tilesets.len();
        let mut i: usize = n;
        while i > 0
            invariant
                n == self.tiled.tilesets@.len(),
                i <= n,
                forall|j: int| i <= j < n ==> !starts_by(tile_id)(#[trigger] self.tiled.tilesets@[j]),
            decreases i,
        {
            if tile_id >= self.tiled.tilesets[i - 1].firstgid {
                proof {
                    lemma_last_match_unique(
                        self.tiled.tilesets@,
                        starts_by(tile_id),
                        Some(i - 1),
                    );
                }
                return Some(&self.tiled.tilesets[i - 1]);
            }
            i = i - 1;
        }
        proof {
            lemma_last_match_unique(self.tiled.tilesets@, starts_by(tile_id), None);
        }
        None
    }

    /// The floor number of a layer called `"{z}/..."`.
    fn layer_z(name: &str) -> (r: Option<i16>)
        ensures
            r == floor_prefix_spec(name@),
    {
        floor_prefix(name)
    }
}


/// `k` is the first place where `"/roof"` occurs in `name`.
pub open spec fn first_roof_mark(name: Seq<char>, k: int) -> bool {
    occurs_at(name, "/roof"@, k) && forall|j: int| 0 <= j < k ==> !occurs_at(name, "/roof"@, j)
}

/// The layer called `name` is the roof of floor `z`: the text before its
/// first `"/roof"` reads as `z`.
pub open spec fn roof_floor_is(name: Seq<char>, z: i16) -> bool {
    exists|k: int| #[trigger] first_roof_mark(name, k) && parse_i16_spec(name.take(k)) == Some(z)
}

/// The roof layer of floor `z` holds a tile on `p` or on one of the eight
/// tiles around it.
pub open spec fn roof_covers(layers: Seq<TiledLayer>, z: i16, p: TileVec) -> bool {
    exists|d: TileVec|
        unit_dir(d) && #[trigger] has_tile_spec(layers, floor_name(z, "roof"@), shifted(p, d))
}

pub open spec fn roof_over(layers: Seq<TiledLayer>, p: TileVec) -> spec_fn(TiledLayer) -> bool {
    |l: TiledLayer| exists|z: i16| #[trigger] roof_floor_is(l.name@, z) && roof_covers(layers, z, p)
}

/// Some layer is the roof of a floor.
pub open spec fn has_roof_layer(layers: Seq<TiledLayer>) -> bool {
    exists|i: int, z: i16| 0 <= i < layers.len() && #[trigger] roof_floor_is(layers[i].name@, z)
}

/// Whether some layer is a roof that covers `p`, and of which floor: the
/// first such layer decides.
pub open spec fn roof_ok(layers: Seq<TiledLayer>, p: TileVec, r: Option<i16>) -> bool {
    match first_match(layers, roof_over(layers, p)) {
        Some(i) => r matches Some(z) && roof_floor_is(layers[i].name@, z) && roof_covers(
            layers,
            z,
            p,
        ),
        None => r is None,
    }
}

/// A layer is drawn when it is visible, has tiles and a floor number; from
/// inside only the current floor is drawn, from outside it and those above.
pub open spec fn layer_drawn(l: TiledLayer, current_z: i16, inside: bool) -> bool {
    &&& l.visible
    &&& l.data is Some
    &&& floor_prefix_spec(l.name@) matches Some(z)
    &&& if inside {
        z == current_z
    } else {
        z >= current_z
    }
}

/// Indices of the layers drawn, in order.
pub open spec fn drawn_layers(layers: Seq<TiledLayer>, current_z: i16, inside: bool) -> Seq<usize>
    decreases layers.len(),
{
    if layers.len() == 0 {
        Seq::empty()
    } else {
        let rest = drawn_layers(layers.drop_last(), current_z, inside);
        if layer_drawn(layers.last(), current_z, inside) {
            rest.push((layers.len() - 1) as usize)
        } else {
            rest
        }
    }
}

/// One tile to draw: where on the map (column, row), from which texture,
/// and which pixel rectangle of its image.
#[derive(Clone, Copy, Debug, PartialEq, Eq, Structural)]
pub struct TileDraw {
    pub col: u32,
    pub row: u32,
    pub texture: usize,
    pub src_x: u32,
    pub src_y: u32,
    pub src_w: u32,
    pub src_h: u32,
    pub image_w: u32,
    pub image_h: u32,
    pub offset: Option<TileOffset>,
}

/// The global tile id of a map cell without its flip and rotation flags.
pub open spec fn plain_id(raw: u32) -> u32 {
    raw & 0x1FFF_FFFFu32
}

/// The tileset that holds the drawable cell value `raw`, when its image is loaded.
pub open spec fn source_of(map: &ClientMap, raw: u32) -> Option<(TiledTileset, Tileset)> {
    if raw == 0 {
        None
    } else {
        match last_match(map.tiled.tilesets@, starts_by(plain_id(raw))) {
            Some(t) => {
                let ts = map.tiled.tilesets@[t];
                if map.sets@.contains_key(ts.firstgid) {
                    Some((ts, map.sets@[ts.firstgid]))
                } else {
                    None
                }
            },
            None => None,
        }
    }
}

/// Drawing cell value `raw` stays within what its tileset describes.
pub open spec fn source_fits(map: &ClientMap, raw: u32) -> bool {
    match source_of(map, raw) {
        Some((ts, set)) => {
            &&& ts.tilewidth is Some
            &&& ts.tileheight is Some
            &&& ts.tilewidth->0 > 0
            &&& set.dimensions.0 >= ts.tilewidth->0
            &&& ((plain_id(raw) - ts.firstgid) / ((set.dimensions.0 / ts.tilewidth->0) as int))
                * ts.tileheight->0 <= u32::MAX
        },
        None => true,
    }
}

/// How the cell value `raw` at column `x`, row `y` is drawn, if at all.
pub open spec fn cell_draw(map: &ClientMap, raw: u32, x: int, y: int) -> Option<TileDraw> {
    match source_of(map, raw) {
        Some((ts, set)) => {
            let tw = ts.tilewidth->0;
            let th = ts.tileheight->0;
            let per_row = (set.dimensions.0 / tw) as int;
            let local = plain_id(raw) - ts.firstgid;
            Some(
                TileDraw {
                    col: x as u32,
                    row: y as u32,
                    texture: set.texture,
                    src_x: ((local % per_row) * tw) as u32,
                    src_y: ((local / per_row) * th) as u32,
                    src_w: tw,
                    src_h: th,
                    image_w: set.dimensions.0,
                    image_h: set.dimensions.1,
                    offset: ts.tileoffset,
                },
            )
        },
        None => None,
    }
}

pub open spec fn opt_seq(o: Option<TileDraw>) -> Seq<TileDraw> {
    match o {
        Some(d) => seq![d],
        None => Seq::empty(),
    }
}

/// The draws of the first `x` cells of row `y` of a layer `lw` cells wide.
pub open spec fn row_draws(map: &ClientMap, data: Seq<u32>, lw: int, y: int, x: int) -> Seq<TileDraw>
    decreases x,
{
    if x <= 0 {
        Seq::empty()
    } else {
        row_draws(map, data, lw, y, x - 1) + opt_seq(
            cell_draw(map, data[y * lw + (x - 1)], x - 1, y),
        )
    }
}

/// The draws of the first `y` rows of a layer `lw` cells wide, row by row.
pub open spec fn rows_draws(map: &ClientMap, data: Seq<u32>, lw: int, y: int) -> Seq<TileDraw>
    decreases y,
{
    if y <= 0 {
        Seq::empty()
    } else {
        rows_draws(map, data, lw, y - 1) + row_draws(map, data, lw, y - 1, lw)
    }
}

/// The tile layer `l` can be drawn: it gives its size, holds all its cells,
/// and each of its `width * height` cells stays within its tileset.
pub open spec fn layer_drawable(map: &ClientMap, l: TiledLayer) -> bool {
    l.data is Some ==> {
        &&& l.width is Some
        &&& l.height is Some
        &&& l.width->0 * l.height->0 <= l.data->0@.len()
        &&& l.width->0 * l.height->0 <= 0x1_0000_0000
        &&& forall|i: int|
            0 <= i < l.width->0 * l.height->0 ==> source_fits(map, #[trigger] l.data->0@[i])
    }
}

/// The first layer called `name`, if there is one, can be drawn.
pub open spec fn named_layer_drawable(map: &ClientMap, name: Seq<char>) -> bool {
    match first_match(map.tiled.layers@, crate::tiled::layer_named(name)) {
        Some(i) => layer_drawable(map, map.tiled.layers@[i]),
        None => true,
    }
}

/// The draws of the first layer called `name`, cell by cell in row-major order.
pub open spec fn layer_draws(map: &ClientMap, name: Seq<char>) -> Seq<TileDraw> {
    match first_match(map.tiled.layers@, crate::tiled::layer_named(name)) {
        Some(i) => {
            let l = map.tiled.layers@[i];
            match l.data {
                Some(data) => rows_draws(map, data@, l.width->0 as int, l.height->0 as int),
                None => Seq::empty(),
            }
        },
        None => Seq::empty(),
    }
}

impl ClientMap {
    /// The floor a layer called `name` is the roof of, if it is one.
    fn roof_floor(name: &str) -> (r: Option<i16>)
        ensures
            match r {
                Some(z) => roof_floor_is(name@, z) && forall|zz: i16|
                    #[trigger] roof_floor_is(name@, zz) ==> zz == z,
                None => forall|zz: i16| !#[trigger] roof_floor_is(name@, zz),
            },
    {
        match find_str(name, "/roof") {
            Some(k) => {
                proof {
                    assert(first_roof_mark(name@, k as int));
                }
                let head = name.substring_char(0, k);
                let parsed = parse_i16(head);
                proof {
                    assert forall|zz: i16| #[trigger] roof_floor_is(name@, zz) implies parsed
                        == Some(zz) by {
                        let kk = choose|kk: int| #[trigger] first_roof_mark(name@, kk)
                            && parse_i16_spec(name@.take(kk)) == Some(zz);
                        if kk < k {
                            assert(!occurs_at(name@, "/roof"@, kk));
                        } else if k < kk {
                            assert(!occurs_at(name@, "/roof"@, k as int));
                        }
                    }
                    if let Some(z) = parsed {
                        assert(roof_floor_is(name@, z));
                    }
                }
                parsed
            },
            None => {
                proof {
                    assert forall|zz: i16| !#[trigger] roof_floor_is(name@, zz) by {
                        if roof_floor_is(name@, zz) {
                            let kk = choose|kk: int| #[trigger] first_roof_mark(name@, kk)
                                && parse_i16_spec(name@.take(kk)) == Some(zz);
                        }
                    }
                }
                None
            },
        }
    }

    /// Whether some layer is the roof of a floor.
    pub fn has_roof_layer(&self) -> (r: bool)
        ensures
            r == has_roof_layer(self.tiled.layers@),
    {
        let layers = &self.tiled.layers;
        let n = layers.len();
        let mut i: usize = 0;
        while i < n
            invariant
                n == layers@.len(),
                layers@ == self.tiled.layers@,
                i <= n,
                forall|j: int, zz: i16| 0 <= j < i ==> !#[trigger] roof_floor_is(layers@[j].name@, zz),
            decreases n - i,
        {
            if let Some(z) = ClientMap::roof_floor(layers[i].name.as_str()) {
                proof {
                    assert(roof_floor_is(layers@[i as int].name@, z));
                }
                return true;
            }
            i = i + 1;
        }
        false
    }

    /// The floor of the first roof layer with a tile on or around `player_tile`.
    fn get_roof_layer(&self, player_tile: TileVec) -> (r: Option<i16>)
        requires
            has_roof_layer(self.tiled.layers@) ==> neighbours_fit(player_tile),
        ensures
            roof_ok(self.tiled.layers@, player_tile, r),
    {
        let layers = &self.tiled.layers;
        let n = layers.len();
        let mut i: usize = 0;
        while i < n
            invariant
                n == layers@.len(),
                layers@ == self.tiled.layers@,
                i <= n,
                has_roof_layer(layers@) ==> neighbours_fit(player_tile),
                forall|j: int| 0 <= j < i ==> !roof_over(layers@, player_tile)(#[trigger] layers@[j]),
            decreases n - i,
        {
            let name = layers[i].name.as_str();
            let mut found: Option<i16> = None;
            if let Some(z) = ClientMap::roof_floor(name) {
                proof {
                    assert(roof_floor_is(layers@[i as int].name@, z));
                    assert(has_roof_layer(layers@));
                }
                let roof = floor_layer_name(z, "roof");
                let mut covered = false;
                let mut dy: i32 = -1;
                while dy <= 1 && !covered
                    invariant
                        -1 <= dy <= 2,
                        neighbours_fit(player_tile),
                        roof@ == floor_name(z, "roof"@),
                        covered ==> roof_covers(self.tiled.layers@, z, player_tile),
                        !covered ==> forall|d: TileVec|
                            unit_dir(d) && d.y < dy ==> !#[trigger] has_tile_spec(
                                self.tiled.layers@,
                                floor_name(z, "roof"@),
                                shifted(player_tile, d),
                            ),
                    decreases 3 - dy,
                {
                    let mut dx: i32 = -1;
                    while dx <= 1 && !covered
                        invariant
                            -1 <= dx <= 2,
                            -1 <= dy <= 1,
                            neighbours_fit(player_tile),
                            roof@ == floor_name(z, "roof"@),
                            covered ==> roof_covers(self.tiled.layers@, z, player_tile),
                            !covered ==> forall|d: TileVec|
                                unit_dir(d) && (d.y < dy || (d.y == dy && d.x < dx))
                                    ==> !#[trigger] has_tile_spec(
                                    self.tiled.layers@,
                                    floor_name(z, "roof"@),
                                    shifted(player_tile, d),
                                ),
                        decreases 3 - dx,
                    {
                        let d = TileVec::new(dx, dy);
                        let t = TileVec::new(player_tile.x + dx, player_tile.y + dy);
                        assert(t == shifted(player_tile, d));
                        if self.tiled.has_tile(roof.as_str(), t) {
                            covered = true;
                        }
                        dx = dx + 1;
                    }
                    dy = dy + 1;
                }
                if covered {
                    found = Some(z);
                } else {
                    proof {
                        assert forall|d: TileVec|
                            unit_dir(d) implies !#[trigger] has_tile_spec(
                            self.tiled.layers@,
                            floor_name(z, "roof"@),
                            shifted(player_tile, d),
                        ) by {
                            assert(d.y < dy);
                        }
                    }
                }
            }
            if let Some(z) = found {
                proof {
                    lemma_first_match_unique(layers@, roof_over(layers@, player_tile), Some(i as int));
                }
                return Some(z);
            }
            i = i + 1;
        }
        proof {
            lemma_first_match_unique(layers@, roof_over(layers@, player_tile), None);
        }
        None
    }

    /// The layers to draw, by index in order: from inside a building (below
    /// ground, or under a roof) only the current floor, else it and above.
    pub fn layers_to_draw(&self, player_tile: TileVec) -> (r: Vec<usize>)
        requires
            self.current_z >= 0 && has_roof_layer(self.tiled.layers@) ==> neighbours_fit(player_tile),
        ensures
            exists|roof: Option<i16>| #[trigger]
                roof_ok(self.tiled.layers@, player_tile, roof) && r@ == drawn_layers(
                    self.tiled.layers@,
                    self.current_z,
                    self.current_z < 0 || roof is Some,
                ),
            forall|i: int, z: i16, dx: int, dy: int|
                #![trigger roof_floor_is(self.tiled.layers@[i].name@, z), has_tile_spec(self.tiled.layers@, floor_name(z, "roof"@), TileVec { x: (player_tile.x + dx) as i32, y: (player_tile.y + dy) as i32 })]
                0 <= i < self.tiled.layers@.len() && roof_floor_is(self.tiled.layers@[i].name@, z)
                    && -1 <= dx <= 1 && -1 <= dy <= 1 && has_tile_spec(
                    self.tiled.layers@,
                    floor_name(z, "roof"@),
                    TileVec { x: (player_tile.x + dx) as i32, y: (player_tile.y + dy) as i32 },
                ) ==> r@ == drawn_layers(self.tiled.layers@, self.current_z, true),
    {
        let roof = if self.current_z < 0 {
            None
        } else {
            Some(self.get_roof_layer(player_tile))
        };
        let inside = match roof {
            None => true,
            Some(r) => r.is_some(),
        };
        let ghost roof_seen: Option<i16> = match roof {
            Some(r) => r,
            None => choose|r: Option<i16>| roof_ok(self.tiled.layers@, player_tile, r),
        };
        proof {
            if self.current_z < 0 {
                lemma_roof_ok_exists(self.tiled.layers@, player_tile);
            }
        }
        let layers = &self.tiled.layers;
        let n = layers.len();
        let mut out: Vec<usize> = Vec::new();
        let mut i: usize = 0;
        while i < n
            invariant
                n == layers@.len(),
                i <= n,
                out@ == drawn_layers(layers@.take(i as int), self.current_z, inside),
            decreases n - i,
        {
            let l = &layers[i];
            let mut drawn = false;
            if l.visible && l.data.is_some() {
                if let Some(z) = ClientMap::layer_z(l.name.as_str()) {
                    drawn = if inside {
                        z == self.current_z
                    } else {
                        z >= self.current_z
                    };
                }
            }
            proof {
                assert(layers@.take(i + 1).drop_last() =~= layers@.take(i as int));
                assert(drawn == layer_drawn(layers@[i as int], self.current_z, inside));
            }
            if drawn {
                out.push(i);
            }
            i = i + 1;
        }
        proof {
            assert(layers@.take(n as int) =~= layers@);
            assert forall|i: int, z: i16, dx: int, dy: int|
                #![trigger roof_floor_is(self.tiled.layers@[i].name@, z), has_tile_spec(self.tiled.layers@, floor_name(z, "roof"@), TileVec { x: (player_tile.x + dx) as i32, y: (player_tile.y + dy) as i32 })]
                0 <= i < self.tiled.layers@.len() && roof_floor_is(self.tiled.layers@[i].name@, z)
                    && -1 <= dx <= 1 && -1 <= dy <= 1 && has_tile_spec(
                    self.tiled.layers@,
                    floor_name(z, "roof"@),
                    TileVec { x: (player_tile.x + dx) as i32, y: (player_tile.y + dy) as i32 },
                ) implies out@ == drawn_layers(self.tiled.layers@, self.current_z, true) by {
                lemma_roof_tile_around_means_inside(
                    self.tiled.layers@,
                    player_tile,
                    roof_seen,
                    i,
                    z,
                    dx,
                    dy,
                );
            }
        }
        out
    }

    /// The tiles of the first layer called `layer_name` to draw, cell by
    /// cell in row-major order: cells that are set and belong to a tileset
    /// whose image is loaded.
    pub fn tile_draws(&self, layer_name: &str) -> (r: Vec<TileDraw>)
        requires
            named_layer_drawable(self, layer_name@),
        ensures
            r@ == layer_draws(self, layer_name@),
            forall|i: int| 0 <= i < r@.len() ==> from_set_cell(self, #[trigger] r@[i]),
    {
        proof {
            lemma_layer_draws_from_loaded(self, layer_name@);
        }
        let layer = match self.tiled.get_layer(layer_name) {
            Some(l) => l,
            None => return Vec::new(),
        };
        let data = match &layer.data {
            Some(d) => d,
            None => return Vec::new(),
        };
        let lw = layer.width.unwrap();
        let lh = layer.height.unwrap();
        let ghost dv = data@;
        let mut out: Vec<TileDraw> = Vec::new();
        let mut y: u32 = 0;
        while y < lh
            invariant
                layer_drawable(self, *layer),
                layer.data == Some(*data),
                layer.width == Some(lw),
                layer.height == Some(lh),
                dv == data@,
                y <= lh,
                out@ == rows_draws(self, dv, lw as int, y as int),
            decreases lh - y,
        {
            let mut x: u32 = 0;
            while x < lw
                invariant
                    layer_drawable(self, *layer),
                    layer.data == Some(*data),
                    layer.width == Some(lw),
                    layer.height == Some(lh),
                    dv == data@,
                    y < lh,
                    x <= lw,
                    out@ == rows_draws(self, dv, lw as int, y as int) + row_draws(
                        self,
                        dv,
                        lw as int,
                        y as int,
                        x as int,
                    ),
                decreases lw - x,
            {
                proof {
                    assert((y as int) * (lw as int) + (x as int) < (lw as int) * (lh as int))
                        by (nonlinear_arith)
                        requires
                            x < lw,
                            y < lh,
                    ;
                }
                let raw = data[(y * lw + x) as usize];
                let ghost before = out@;
                if let Some(d) = self.draw_cell(raw, x, y) {
                    out.push(d);
                }
                proof {
                    assert(out@ =~= rows_draws(self, dv, lw as int, y as int) + row_draws(
                        self,
                        dv,
                        lw as int,
                        y as int,
                        x + 1,
                    ));
                }
                x = x + 1;
            }
            y = y + 1;
        }
        out
    }

    /// Whether drawing the cell value `raw` stays within what its tileset
    /// describes.
    pub fn cell_fits(&self, raw: u32) -> (r: bool)
        ensures
            r == source_fits(self, raw),
    {
        if raw == 0 {
            return true;
        }
        let tile_id = raw & 0x1FFF_FFFF;
        let tileset = match self.find_tileset(tile_id) {
            Some(t) => t,
            None => return true,
        };
        let set = match self.loaded_set(tileset.firstgid) {
            Some(s) => s,
            None => return true,
        };
        let (tw, th) = match (tileset.tilewidth, tileset.tileheight) {
            (Some(tw), Some(th)) => (tw, th),
            _ => return false,
        };
        if tw == 0 || set.dimensions.0 < tw {
            return false;
        }
        let per_row = set.dimensions.0 / tw;
        proof {
            crate::search::lemma_last_match_facts(self.tiled.tilesets@, starts_by(tile_id));
            assert(per_row > 0) by (nonlinear_arith)
                requires
                    per_row == set.dimensions.0 / tw,
                    set.dimensions.0 >= tw,
                    tw > 0,
            ;
        }
        let local = tile_id - tileset.firstgid;
        let q = (local / per_row) as u64;
        proof {
            assert(q * (th as u64) <= 0xFFFF_FFFF * 0xFFFF_FFFF) by (nonlinear_arith)
                requires
                    q <= 0xFFFF_FFFF,
                    th <= 0xFFFF_FFFF,
            ;
        }
        q * (th as u64) <= 0xFFFF_FFFF
    }

    /// Whether the first layer called `layer_name`, if there is one, can be
    /// drawn: `tile_draws` asks this of it.
    pub fn layer_can_draw(&self, layer_name: &str) -> (r: bool)
        ensures
            r == named_layer_drawable(self, layer_name@),
    {
        let layer = match self.tiled.get_layer(layer_name) {
            Some(l) => l,
            None => return true,
        };
        let data = match &layer.data {
            Some(d) => d,
            None => return true,
        };
        let (w, h) = match (layer.width, layer.height) {
            (Some(w), Some(h)) => (w, h),
            _ => return false,
        };
        proof {
            assert((w as u64) * (h as u64) <= 0xFFFF_FFFF * 0xFFFF_FFFF) by (nonlinear_arith)
                requires
                    w <= 0xFFFF_FFFF,
                    h <= 0xFFFF_FFFF,
            ;
        }
        let cells = (w as u64) * (h as u64);
        if cells > data.len() as u64 || cells > 0x1_0000_0000 {
            return false;
        }
        let ghost k = first_match(self.tiled.layers@, crate::tiled::layer_named(layer_name@))->0;
        let n = cells as usize;
        let mut i: usize = 0;
        while i < n
            invariant
                n == (w as int) * (h as int),
                n <= data@.len(),
                i <= n,
                layer.data == Some(*data),
                layer.width == Some(w),
                layer.height == Some(h),
                first_match(self.tiled.layers@, crate::tiled::layer_named(layer_name@)) == Some(k),
                self.tiled.layers@[k] == *layer,
                forall|j: int| 0 <= j < i ==> source_fits(self, #[trigger] data@[j]),
            decreases n - i,
        {
            if !self.cell_fits(data[i]) {
                proof {
                    assert(layer.data->0@[i as int] == data@[i as int]);
                }
                return false;
            }
            i = i + 1;
        }
        true
    }

    /// How the cell value `raw` at column `x`, row `y` is drawn, if at all.
    fn draw_cell(&self, raw: u32, x: u32, y: u32) -> (r: Option<TileDraw>)
        requires
            source_fits(self, raw),
        ensures
            r == cell_draw(self, raw, x as int, y as int),
    {
        if raw == 0 {
            return None;
        }
        let tile_id = raw & 0x1FFF_FFFF;
        let tileset = match self.find_tileset(tile_id) {
            Some(t) => t,
            None => return None,
        };
        let set = match self.loaded_set(tileset.firstgid) {
            Some(s) => s,
            None => return None,
        };
        let (img_w, img_h) = set.dimensions;
        let ts_tile_w = tileset.tilewidth.unwrap();
        let ts_tile_h = tileset.tileheight.unwrap();
        let tiles_per_row = img_w / ts_tile_w;
        proof {
            assert(tiles_per_row > 0) by (nonlinear_arith)
                requires
                    tiles_per_row == img_w / ts_tile_w,
                    img_w >= ts_tile_w,
                    ts_tile_w > 0,
            ;
        }
        proof {
            crate::search::lemma_last_match_facts(self.tiled.tilesets@, starts_by(tile_id));
        }
        let local_id = tile_id - tileset.firstgid;
        proof {
            assert((local_id % tiles_per_row) * ts_tile_w <= img_w) by (nonlinear_arith)
                requires
                    tiles_per_row == img_w / ts_tile_w,
                    tiles_per_row > 0,
                    ts_tile_w > 0,
            {
                assert(local_id % tiles_per_row < tiles_per_row);
                assert((local_id % tiles_per_row) * ts_tile_w <= (tiles_per_row - 1) * ts_tile_w
                    + ts_tile_w);
                assert(tiles_per_row * ts_tile_w <= img_w);
            }
        }
        let tile_x = (local_id % tiles_per_row) * ts_tile_w;
        let tile_y = (local_id / tiles_per_row) * ts_tile_h;
        Some(
            TileDraw {
                col: x,
                row: y,
                texture: set.texture,
                src_x: tile_x,
                src_y: tile_y,
                src_w: ts_tile_w,
                src_h: ts_tile_h,
                image_w: img_w,
                image_h: img_h,
                offset: tileset.tileoffset,
            },
        )
    }
}

/// The draw `d` of the cell value `raw` takes its texture, image size,
/// tile size and offset from the loaded image of the last tileset that
/// starts at or before the cell's tile id (flip flags dropped).
pub open spec fn drawn_from_loaded(map: &ClientMap, raw: u32, d: TileDraw) -> bool {
    exists|k: int|
        0 <= k < map.tiled.tilesets@.len() && {
            let ts = #[trigger] map.tiled.tilesets@[k];
            let id = raw & 0x1FFF_FFFFu32;
            &&& ts.firstgid <= id
            &&& forall|j: int|
                k < j < map.tiled.tilesets@.len() ==> (#[trigger] map.tiled.tilesets@[j]).firstgid
                    > id
            &&& map.loaded_sets().contains_key(ts.firstgid)
            &&& d.texture == map.loaded_sets()[ts.firstgid].texture
            &&& d.image_w == map.loaded_sets()[ts.firstgid].dimensions.0
            &&& d.image_h == map.loaded_sets()[ts.firstgid].dimensions.1
            &&& d.src_w == ts.tilewidth->0
            &&& d.src_h == ts.tileheight->0
            &&& d.offset == ts.tileoffset
        }
}

/// A cell is drawn only if it is set, at its own column and row, from the
/// loaded image of the tileset that holds it, whose size it reports
/// unchanged.
pub proof fn lemma_cell_draw_reports_its_image(map: &ClientMap, raw: u32, x: int, y: int)
    requires
        0 <= x <= u32::MAX,
        0 <= y <= u32::MAX,
    ensures
        cell_draw(map, raw, x, y) matches Some(d) ==> {
            &&& raw != 0
            &&& d.col == x
            &&& d.row == y
            &&& drawn_from_loaded(map, raw, d)
        },
{
    if let Some(d) = cell_draw(map, raw, x, y) {
        let id = plain_id(raw);
        crate::search::lemma_last_match_facts(map.tiled.tilesets@, starts_by(id));
        let k = last_match(map.tiled.tilesets@, starts_by(id))->0;
        let ts = map.tiled.tilesets@[k];
        assert forall|j: int|
            k < j < map.tiled.tilesets@.len() implies (#[trigger] map.tiled.tilesets@[j]).firstgid
            > id by {
            assert(!starts_by(id)(map.tiled.tilesets@[j]));
        }
        assert(map.loaded_sets().contains_key(ts.firstgid));
        assert(d.image_w == map.loaded_sets()[ts.firstgid].dimensions.0);
        assert(ts.firstgid <= raw & 0x1FFF_FFFFu32);
        assert(drawn_from_loaded(map, raw, d));
    }
}

/// The draw `d` comes from a set cell of a loaded tileset image.
pub open spec fn from_set_cell(map: &ClientMap, d: TileDraw) -> bool {
    exists|raw: u32| raw != 0 && #[trigger] drawn_from_loaded(map, raw, d)
}

/// Every draw of the first `x` cells of row `y` comes from a set cell of
/// a loaded tileset image.
proof fn lemma_row_draws_from_loaded(map: &ClientMap, data: Seq<u32>, lw: int, y: int, x: int)
    requires
        0 <= y <= u32::MAX,
        x <= u32::MAX + 1,
    ensures
        forall|i: int|
            0 <= i < row_draws(map, data, lw, y, x).len() ==> from_set_cell(
                map,
                #[trigger] row_draws(map, data, lw, y, x)[i],
            ),
    decreases x,
{
    if x > 0 {
        lemma_row_draws_from_loaded(map, data, lw, y, x - 1);
        let raw = data[y * lw + (x - 1)];
        lemma_cell_draw_reports_its_image(map, raw, x - 1, y);
        let pre = row_draws(map, data, lw, y, x - 1);
        let last = opt_seq(cell_draw(map, raw, x - 1, y));
        let all = row_draws(map, data, lw, y, x);
        assert(all == pre + last);
        assert forall|i: int| 0 <= i < all.len() implies from_set_cell(map, #[trigger] all[i]) by {
            if i < pre.len() {
                assert(all[i] == pre[i]);
            } else {
                assert(all[i] == last[i - pre.len()]);
                assert(drawn_from_loaded(map, raw, all[i]));
            }
        }
    }
}

/// Every draw of the first `y` rows comes from a set cell of a loaded
/// tileset image.
proof fn lemma_rows_draws_from_loaded(map: &ClientMap, data: Seq<u32>, lw: int, y: int)
    requires
        0 <= lw <= u32::MAX,
        y <= u32::MAX + 1,
    ensures
        forall|i: int|
            0 <= i < rows_draws(map, data, lw, y).len() ==> from_set_cell(
                map,
                #[trigger] rows_draws(map, data, lw, y)[i],
            ),
    decreases y,
{
    if y > 0 {
        lemma_rows_draws_from_loaded(map, data, lw, y - 1);
        lemma_row_draws_from_loaded(map, data, lw, y - 1, lw);
        let pre = rows_draws(map, data, lw, y - 1);
        let last = row_draws(map, data, lw, y - 1, lw);
        let all = rows_draws(map, data, lw, y);
        assert(all == pre + last);
        assert forall|i: int| 0 <= i < all.len() implies from_set_cell(map, #[trigger] all[i]) by {
            if i < pre.len() {
                assert(all[i] == pre[i]);
            } else {
                assert(all[i] == last[i - pre.len()]);
            }
        }
    }
}

/// Every draw of a layer comes from a set cell of a loaded tileset image,
/// whose texture, image size, tile size and offset it reports unchanged.
pub proof fn lemma_layer_draws_from_loaded(map: &ClientMap, name: Seq<char>)
    ensures
        forall|i: int|
            0 <= i < layer_draws(map, name).len() ==> from_set_cell(
                map,
                #[trigger] layer_draws(map, name)[i],
            ),
{
    if let Some(k) = first_match(map.tiled.layers@, crate::tiled::layer_named(name)) {
        let l = map.tiled.layers@[k];
        if let Some(data) = l.data {
            lemma_rows_draws_from_loaded(map, data@, l.width->0 as int, l.height->0 as int);
        }
    }
}

/// A roof tile on the player's tile or on any of the eight around it, the
/// row above included, puts the player under that roof: some roof is found.
pub proof fn lemma_roof_tile_around_means_inside(
    layers: Seq<TiledLayer>,
    p: TileVec,
    r: Option<i16>,
    i: int,
    z: i16,
    dx: int,
    dy: int,
)
    requires
        roof_ok(layers, p, r),
        0 <= i < layers.len(),
        roof_floor_is(layers[i].name@, z),
        -1 <= dx <= 1,
        -1 <= dy <= 1,
        has_tile_spec(
            layers,
            floor_name(z, "roof"@),
            TileVec { x: (p.x + dx) as i32, y: (p.y + dy) as i32 },
        ),
    ensures
        r is Some,
{
    let d = TileVec { x: dx as i32, y: dy as i32 };
    assert(shifted(p, d) == TileVec { x: (p.x + dx) as i32, y: (p.y + dy) as i32 });
    assert(roof_covers(layers, z, p));
    assert(roof_over(layers, p)(layers[i]));
    crate::search::lemma_first_match_facts(layers, roof_over(layers, p));
}

proof fn lemma_roof_ok_exists(layers: Seq<TiledLayer>, p: TileVec)
    ensures
        exists|r: Option<i16>| roof_ok(layers, p, r),
{
    match first_match(layers, roof_over(layers, p)) {
        Some(i) => {
            crate::search::lemma_first_match_facts(layers, roof_over(layers, p));
            let z = choose|z: i16| #[trigger] roof_floor_is(layers[i].name@, z) && roof_covers(
                layers,
                z,
                p,
            );
            assert(roof_ok(layers, p, Some(z)));
        },
        None => {
            assert(roof_ok(layers, p, None));
        },
    }
}

} // verus!
