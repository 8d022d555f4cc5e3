use vstd::prelude::*;

use crate::search::{first_match, lemma_first_match_unique};
use crate::text::str_eq;
use crate::tile::TileVec;

verus! {

/// A custom property of a map object.
pub struct TiledProperty {
    pub name: String,
    pub value: String,
}

/// An object placed on an object layer; `tile` is the tile that holds its
/// anchor point.
pub struct TiledObject {
    pub name: String,
    pub tile: TileVec,
    pub properties: Option<Vec<TiledProperty>>,
}

/// A layer of the map: tile layers carry `data` (row-major global tile ids,
/// 0 for none), object layers carry `objects`.
pub struct TiledLayer {
    pub name: String,
    pub visible: bool,
    pub width: Option<u32>,
    pub height: Option<u32>,
    pub data: Option<Vec<u32>>,
    pub objects: Vec<TiledObject>,
}

/// Pixel offset applied when drawing the tiles of a tileset.
#[derive(Clone, Copy, Debug, PartialEq, Eq, Structural)]
pub struct TileOffset {
    pub x: i32,
    pub y: i32,
}

/// A tileset: global tile ids from `firstgid` on are drawn from its image.
pub struct TiledTileset {
    pub firstgid: u32,
    pub image: Option<String>,
    pub tilewidth: Option<u32>,
    pub tileheight: Option<u32>,
    pub tileoffset: Option<TileOffset>,
}

/// A tile map: `width` x `height` tiles of `tilewidth` x `tileheight` pixels.
pub struct TiledMap {
    pub width: u32,
    pub height: u32,
    pub tilewidth: u32,
    pub tileheight: u32,
    pub layers: Vec<TiledLayer>,
    pub tilesets: Vec<TiledTileset>,
}

pub open spec fn layer_named(name: Seq<char>) -> spec_fn(TiledLayer) -> bool {
    |l: TiledLayer| l.name@ == name
}

pub open spec fn object_named(name: Seq<char>) -> spec_fn(TiledObject) -> bool {
    |o: TiledObject| o.name@ == name
}

pub open spec fn property_named(name: Seq<char>) -> spec_fn(TiledProperty) -> bool {
    |p: TiledProperty| p.name@ == name
}

/// The objects of the first layer called `name`, or none.
pub open spec fn objects_of(layers: Seq<TiledLayer>, name: Seq<char>) -> Seq<TiledObject> {
    match first_match(layers, layer_named(name)) {
        Some(i) => layers[i].objects@,
        None => Seq::empty(),
    }
}

/// The first layer called `name` holds a tile at `tile`.
pub open spec fn has_tile_spec(layers: Seq<TiledLayer>, name: Seq<char>, tile: TileVec) -> bool {
    match first_match(layers, layer_named(name)) {
        Some(i) => {
            let l = layers[i];
            &&& l.data is Some
            &&& l.width is Some
            &&& l.height is Some
            &&& 0 <= tile.x < l.width->0
            &&& 0 <= tile.y < l.height->0
            &&& tile.y * l.width->0 + tile.x < l.data->0@.len()
            &&& l.data->0@[tile.y * l.width->0 + tile.x] != 0
        },
        None => false,
    }
}

impl TiledMap {
    /// Index of the first layer called `name`.
    pub fn layer_index(&self, name: &str) -> (r: Option<usize>)
        ensures
            match r {
                Some(i) => i < self.layers@.len() && first_match(self.layers@, layer_named(name@))
                    == Some(i as int),
                None => first_match(self.layers@, layer_named(name@)) is None,
            },
    {
        let n = self.layers.len();
        let mut i: usize = 0;
        while i < n
            invariant
                n == self.layers@.len(),
                i <= n,
                forall|j: int| 0 <= j < i ==> !layer_named(name@)(#[trigger] self.layers@[j]),
            decreases n - i,
        {
            if str_eq(self.layers[i].name.as_str(), name) {
                proof {
                    lemma_first_match_unique(self.layers@, layer_named(name@), Some(i as int));
                }
                return Some(i);
            }
            i = i + 1;
        }
        proof {
            lemma_first_match_unique(self.layers@, layer_named(name@), None);
        }
        None
    }

    /// The first layer called `name`.
    pub fn get_layer(&self, name: &str) -> (r: Option<&TiledLayer>)
        ensures
            match first_match(self.layers@, layer_named(name@)) {
                Some(i) => r == Some(&self.layers@[i]),
                None => r is None,
            },
    {
        match self.layer_index(name) {
            Some(i) => Some(&self.layers[i]),
            None => None,
        }
    }

    /// The objects of the first layer called `name` (none if there is no such layer).
    pub fn get_objects(&self, name: &str) -> (r: &[TiledObject])
        ensures
            r@ == objects_of(self.layers@, name@),
    {
        match self.layer_index(name) {
            Some(i) => self.layers[i].objects.as_slice(),
            None => {
                let empty: &[TiledObject] = &[];
                assert(empty@ =~= Seq::<TiledObject>::empty());
                empty
            },
        }
    }

    /// The first object called `object` on the first layer called `layer`.
    pub fn get_object(&self, layer: &str, object: &str) -> (r: Option<&TiledObject>)
        ensures
            match first_match(objects_of(self.layers@, layer@), object_named(object@)) {
                Some(i) => r == Some(&objects_of(self.layers@, layer@)[i]),
                None => r is None,
            },
    {
        let objs = self.get_objects(layer);
        let n = objs.len();
        let mut i: usize = 0;
        while i < n
            invariant
                n == objs@.len(),
                objs@ == objects_of(self.layers@, layer@),
                i <= n,
                forall|j: int| 0 <= j < i ==> !object_named(object@)(#[trigger] objs@[j]),
            decreases n - i,
        {
            if str_eq(objs[i].name.as_str(), object) {
                proof {
                    lemma_first_match_unique(objs@, object_named(object@), Some(i as int));
                }
                return Some(&objs[i]);
            }
            i = i + 1;
        }
        proof {
            lemma_first_match_unique(objs@, object_named(object@), None);
        }
        None
    }

    /// Whether the first layer called `name` holds a tile at `tile`.
    pub fn has_tile(&self, name: &str, tile: TileVec) -> (r: bool)
        ensures
            r == has_tile_spec(self.layers@, name@, tile),
    {
        match self.get_layer(name) {
            Some(layer) => {
                match (&layer.data, layer.width, layer.height) {
                    (Some(data), Some(w), Some(h)) => {
                        if tile.x < 0 || tile.y < 0 || tile.x as u64 >= w as u64 || tile.y as u64
                            >= h as u64 {
                            return false;
                        }
                        let ty = tile.y as u64;
                        let tx = tile.x as u64;
                        let w64 = w as u64;
                        assert(ty * w64 <= 0xffff_ffff * 0xffff_ffffu64) by (nonlinear_arith)
                            requires
                                ty <= 0xffff_ffff,
                                w64 <= 0xffff_ffff,
                        ;
                        let idx: u64 = ty * w64 + tx;
                        if idx >= data.len() as u64 {
                            return false;
                        }
                        data[idx as usize] != 0
                    },
                    _ => false,
                }
            },
            None => false,
        }
    }
}

} // verus!
