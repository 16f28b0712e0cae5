//! Basemap tiles: which tile of the grid a position means, and where it is
//! fetched from. Fetching, caching and pacing the requests stay outside the
//! library.

use vstd::prelude::*;
use vstd::arithmetic::div_mod::lemma_mod_add_multiples_vanish;
use vstd::arithmetic::power2::{
    lemma2_to64, lemma2_to64_rest, lemma_pow2_pos, lemma_pow2_strictly_increases, lemma_pow2_unfold,
    pow2,
};

use crate::text::{decimal, decimal_string};

verus! {

/// The tile a grid position stands for at zoom `z`, or `None` when it is off
/// the top or bottom of the world. Columns wrap around the date line; rows do
/// not. At zoom 63 the grid's width does not fit in an `i64` and no tile is
/// found.
pub open spec fn tile_key_of(z: nat, x: int, y: int) -> Option<(int, int)> {
    if z >= 63 {
        None
    } else {
        let n = pow2(z) as int;
        if 0 <= y < n {
            Some((x % n, y))
        } else {
            None
        }
    }
}

/// Which tile to show for grid column `x` and row `y` at zoom `z`.
pub fn tile_key(z: u8, x: i64, y: i64) -> (r: Option<(i64, i64)>)
    requires
        z < 64,
    ensures
        match r {
            Some((tx, ty)) => tile_key_of(z as nat, x as int, y as int) == Some((tx as int, ty as int)),
            None => tile_key_of(z as nat, x as int, y as int) is None,
        },
{
    if z >= 63 {
        return None;
    }
    proof {
        lemma2_to64();
        lemma2_to64_rest();
    }
    let mut n: i64 = 1;
    let mut i: u8 = 0;
    while i < z
        invariant
            i <= z <= 62,
            n == pow2(i as nat),
            pow2(62) == 0x4000_0000_0000_0000,
        decreases z - i,
    {
        proof {
            lemma_pow2_unfold((i + 1) as nat);
            if i + 1 < 62 {
                lemma_pow2_strictly_increases((i + 1) as nat, 62);
            }
        }
        n = n * 2;
        i += 1;
    }
    if y < 0 || y >= n {
        return None;
    }
    match x.checked_rem_euclid(n) {
        Some(tx) => Some((tx, y)),
        None => None,
    }
}

pub open spec fn tile_url_seq(z: nat, x: nat, y: nat) -> Seq<char> {
    "https://tile.openstreetmap.org/"@ + decimal(z) + "/"@ + decimal(x) + "/"@ + decimal(y)
        + ".png"@
}

/// Where the tile server serves a tile.
pub fn tile_url(z: u8, x: u64, y: u64) -> (r: String)
    ensures
        r@ == tile_url_seq(z as nat, x as nat, y as nat),
{
    let mut r = String::new();
    r.append("https://tile.openstreetmap.org/");
    let a = decimal_string(z as u64);
    r.append(a.as_str());
    r.append("/");
    let b = decimal_string(x);
    r.append(b.as_str());
    r.append("/");
    let c = decimal_string(y);
    r.append(c.as_str());
    r.append(".png");
    r
}

/// Columns wrap around the date line: a column and the one a whole world's
/// width east of it show the same tile.
pub proof fn lemma_columns_wrap(z: nat, x: int, y: int)
    requires
        z < 63,
    ensures
        tile_key_of(z, x + pow2(z), y) == tile_key_of(z, x, y),
{
    lemma_pow2_pos(z);
    lemma_mod_add_multiples_vanish(x, pow2(z) as int);
}

/// Rows do not wrap: a tile is found exactly for the rows of the world, and
/// its column is one of the world's.
pub proof fn lemma_rows_stay_on_the_world(z: nat, x: int, y: int)
    requires
        z < 63,
    ensures
        tile_key_of(z, x, y) is Some <==> 0 <= y < pow2(z),
        tile_key_of(z, x, y) matches Some((tx, ty)) ==> 0 <= tx < pow2(z) && ty == y,
{
    lemma_pow2_pos(z);
}

} // verus!
