//! Weather radar tiles.
use vstd::prelude::*;

use base64::Engine;

use crate::feeds::is_success;
use crate::number::{digits, natural_decimal};
use crate::text::{join, text_of};

verus! {

/// How long a tile stays current, in seconds.
pub const TILE_SECS: u64 = 300;

/// A tile at a zoom level and position, in one period of validity.
#[derive(Clone, Copy, Debug, PartialEq, Eq, Structural)]
pub struct TileKey {
    pub z: u32,
    pub x: u32,
    pub y: u32,
    pub bucket: u64,
}

/// The period of validity that a Unix time falls into.
pub fn bucket_of(secs: u64) -> (r: u64)
    ensures
        r == secs / TILE_SECS,
{
    secs / TILE_SECS
}

/// The character of the standard base64 alphabet for `0 <= n < 64`.
pub open spec fn base64_char(n: int) -> char {
    if n < 26 {
        (65 + n) as char
    } else if n < 52 {
        (71 + n) as char
    } else if n < 62 {
        (n - 4) as char
    } else if n == 62 {
        '+'
    } else {
        '/'
    }
}

/// The standard base64 notation of a row of bytes, padded.
pub open spec fn base64_text(b: Seq<u8>) -> Seq<char>
    decreases b.len(),
{
    if b.len() == 0 {
        Seq::empty()
    } else if b.len() == 1 {
        seq![base64_char(b[0] as int / 4), base64_char(b[0] as int % 4 * 16), '=', '=']
    } else if b.len() == 2 {
        seq![
            base64_char(b[0] as int / 4),
            base64_char(b[0] as int % 4 * 16 + b[1] as int / 16),
            base64_char(b[1] as int % 16 * 4),
            '=',
        ]
    } else {
        seq![
            base64_char(b[0] as int / 4),
            base64_char(b[0] as int % 4 * 16 + b[1] as int / 16),
            base64_char(b[1] as int % 16 * 4 + b[2] as int / 64),
            base64_char(b[2] as int % 64),
        ] + base64_text(b.skip(3))
    }
}

/// `base64::Engine::encode` of the engine `STANDARD`: the alphabet with `+` and `/`, three bytes
/// to four characters, padded with `=`. It panics where the notation cannot be held in memory;
/// such lengths are left out.
#[verifier::external_body]
fn base64_encode(bytes: &Vec<u8>) -> (r: String)
    requires
        bytes@.len() / 3 * 4 + 4 <= isize::MAX,
    ensures
        r@ == base64_text(bytes@),
{
    base64::engine::general_purpose::STANDARD.encode(bytes)
}

/// A tile image as a data URL, which the display can draw without a request of its own.
pub fn tile_data_url(png: &Vec<u8>) -> (r: String)
    requires
        png@.len() / 3 * 4 + 4 <= isize::MAX,
    ensures
        r@ == "data:image/png;base64,"@ + base64_text(png@),
{
    join("data:image/png;base64,", base64_encode(png).as_str())
}

/// The URL of a tile.
pub fn tile_url(z: u32, x: u32, y: u32) -> (r: String)
    ensures
        r@ == tile_address(z, x, y),
{
    let mut r: String = join(
        "https://mesonet.agron.iastate.edu/cache/tile.py/1.0.0/nexrad-n0q-900913/",
        natural_decimal(z as u64).as_str(),
    );
    r.append("/");
    r.append(natural_decimal(x as u64).as_str());
    r.append("/");
    r.append(natural_decimal(y as u64).as_str());
    r.append(".png");
    r
}

/// The error for a tile request that was answered with this status, or `None` for a success.
pub fn tile_failure(status: u16) -> (r: Option<String>)
    ensures
        text_of(r) == (if is_success(status) {
            None
        } else {
            Some("wx http "@ + digits(status as nat))
        }),
{
    if 200 <= status && status < 300 {
        None
    } else {
        Some(join("wx http ", natural_decimal(status as u64).as_str()))
    }
}

/// How a tile request ended.
#[derive(Debug)]
pub enum TileReply {
    /// No answer, with the reason.
    Failed(String),
    /// An answer, with its status and its body or the reason why the body could not be read.
    Answered { status: u16, body: Result<Vec<u8>, String> },
}

impl TileReply {
    /// The image fits into memory as a data URL.
    pub open spec fn holdable(self) -> bool {
        self matches TileReply::Answered { body: Ok(png), .. } ==> png@.len() / 3 * 4 + 4
            <= isize::MAX
    }
}

/// What a tile request amounts to: the data URL of the image that a success brought, and an error
/// for anything else.
pub open spec fn tile_outcome(reply: TileReply) -> Result<Seq<char>, Seq<char>> {
    match reply {
        TileReply::Failed(e) => Err(e@),
        TileReply::Answered { status, body } => if !is_success(status) {
            Err("wx http "@ + digits(status as nat))
        } else {
            match body {
                Ok(png) => Ok("data:image/png;base64,"@ + base64_text(png@)),
                Err(e) => Err(e@),
            }
        },
    }
}

/// The tiles that are held after a request ended: a success is held and drops the tiles of every
/// other period, anything else changes nothing.
pub open spec fn settled_tiles(
    tiles: Map<TileKey, Seq<char>>,
    key: TileKey,
    reply: TileReply,
) -> Map<TileKey, Seq<char>> {
    match tile_outcome(reply) {
        Ok(url) => kept_tiles(tiles, key.bucket).insert(key, url),
        Err(_) => tiles,
    }
}

/// What to do about a tile.
#[derive(Debug)]
pub enum TileLookup {
    /// The data URL is at hand.
    Known(String),
    /// The tile has to be requested.
    Fetch { key: TileKey, url: String },
}

/// The tile that is asked for at a Unix time.
pub open spec fn tile_at(z: u32, x: u32, y: u32, secs: u64) -> TileKey {
    TileKey { z, x, y, bucket: secs / TILE_SECS }
}

/// The URL of a tile.
pub open spec fn tile_address(z: u32, x: u32, y: u32) -> Seq<char> {
    "https://mesonet.agron.iastate.edu/cache/tile.py/1.0.0/nexrad-n0q-900913/"@ + digits(z as nat)
        + "/"@ + digits(x as nat) + "/"@ + digits(y as nat) + ".png"@
}

/// The tiles of one period of validity.
pub struct TileCache {
    tiles: Vec<(TileKey, String)>,
}

impl TileCache {
    /// No tile is held twice.
    pub closed spec fn wf(&self) -> bool {
        forall|i: int, j: int|
            0 <= i < j < self.tiles@.len() ==> #[trigger] self.tiles@[i].0
                != #[trigger] self.tiles@[j].0
    }

    spec fn at(&self, key: TileKey, i: int) -> bool {
        0 <= i < self.tiles@.len() && self.tiles@[i].0 == key
    }

    /// The data URL of each tile that is held.
    pub closed spec fn view(&self) -> Map<TileKey, Seq<char>> {
        Map::new(
            |k: TileKey| exists|i: int| self.at(k, i),
            |k: TileKey| self.tiles@[choose|i: int| self.at(k, i)].1@,
        )
    }

    proof fn lemma_at(&self, key: TileKey, i: int)
        requires
            self.wf(),
            self.at(key, i),
        ensures
            self@.contains_key(key),
            self@[key] == self.tiles@[i].1@,
    {
        let j = choose|j: int| self.at(key, j);
        if j < i {
            assert(self.tiles@[j].0 != self.tiles@[i].0);
        } else if i < j {
            assert(self.tiles@[i].0 != self.tiles@[j].0);
        }
    }

    /// An empty cache.
    pub fn new() -> (r: TileCache)
        ensures
            r.wf(),
            r@ == Map::<TileKey, Seq<char>>::empty(),
    {
        let r: TileCache = TileCache { tiles: Vec::new() };
        assert(r@ =~= Map::<TileKey, Seq<char>>::empty());
        r
    }

    /// The data URL that is held for a tile.
    pub fn get(&self, key: TileKey) -> (r: Option<String>)
        requires
            self.wf(),
        ensures
            (match r {
                Some(url) => self@.contains_key(key) && url@ == self@[key],
                None => !self@.contains_key(key),
            }),
    {
        let n: usize = self.tiles.len();
        let mut i: usize = 0;
        while i < n
            invariant
                self.wf(),
                n == self.tiles@.len(),
                i <= n,
                forall|j: int| 0 <= j < i ==> !self.at(key, j),
            decreases n - i,
        {
            if self.tiles[i].0 == key {
                proof {
                    self.lemma_at(key, i as int);
                }
                return Some(self.tiles[i].1.clone());
            }
            i += 1;
        }
        None
    }

    /// Holds a tile, and drops the tiles of every other period.
    pub fn put(&mut self, key: TileKey, url: String)
        requires
            old(self).wf(),
        ensures
            final(self).wf(),
            final(self)@ == kept_tiles(old(self)@, key.bucket).insert(key, url@),
    {
        let ghost before = *self;
        let ghost goal = kept_tiles(self@, key.bucket).insert(key, url@);
        let mut kept: TileCache = TileCache { tiles: Vec::new() };
        let n: usize = self.tiles.len();
        let mut i: usize = 0;
        while i < n
            invariant
                *self == before,
                self.wf(),
                n == self.tiles@.len(),
                i <= n,
                kept.wf(),
                goal == kept_tiles(self@, key.bucket).insert(key, url@),
                forall|a: int|
                    0 <= a < kept.tiles@.len() ==> (#[trigger] kept.tiles@[a]).0 != key
                        && kept.tiles@[a].0.bucket == key.bucket && (exists|j: int|
                        0 <= j < i && #[trigger] self.tiles@[j] == kept.tiles@[a]),
                forall|j: int|
                    0 <= j < i && (#[trigger] self.tiles@[j]).0 != key && self.tiles@[j].0.bucket
                        == key.bucket ==> kept.tiles@.contains(self.tiles@[j]),
            decreases n - i,
        {
            let k: TileKey = self.tiles[i].0;
            let ghost old_kept = kept.tiles@;
            if k.bucket == key.bucket && k != key {
                let t: String = self.tiles[i].1.clone();
                kept.tiles.push((k, t));
                assert(kept.tiles@[old_kept.len() as int] == self.tiles@[i as int]);
                assert forall|a: int, b: int| 0 <= a < b < kept.tiles@.len() implies
                    #[trigger] kept.tiles@[a].0 != #[trigger] kept.tiles@[b].0 by {
                    if b == old_kept.len() {
                        let j = choose|j: int|
                            0 <= j < i && #[trigger] self.tiles@[j] == old_kept[a];
                        assert(self.tiles@[j].0 != self.tiles@[i as int].0);
                    } else {
                        assert(old_kept[a].0 != old_kept[b].0);
                    }
                }
                assert forall|j: int|
                    0 <= j < i + 1 && (#[trigger] self.tiles@[j]).0 != key
                        && self.tiles@[j].0.bucket == key.bucket implies kept.tiles@.contains(
                    self.tiles@[j],
                ) by {
                    if j < i {
                        assert(old_kept.contains(self.tiles@[j]));
                        let a = choose|a: int|
                            0 <= a < old_kept.len() && old_kept[a] == self.tiles@[j];
                        assert(kept.tiles@[a] == self.tiles@[j]);
                    }
                }
            }
            i += 1;
        }
        let ghost mid = kept.tiles@;
        kept.tiles.push((key, url));
        proof {
            assert forall|a: int, b: int| 0 <= a < b < kept.tiles@.len() implies
                #[trigger] kept.tiles@[a].0 != #[trigger] kept.tiles@[b].0 by {
                if b == mid.len() {
                    assert(mid[a].0 != key);
                } else {
                    assert(mid[a].0 != mid[b].0);
                }
            }
            assert forall|k: TileKey| goal.contains_key(k) <==> kept@.contains_key(k) by {
                if k == key {
                    assert(kept.at(k, mid.len() as int));
                } else {
                    if goal.contains_key(k) {
                        let j = choose|j: int| before.at(k, j);
                        assert(before.tiles@[j].0 == k);
                        assert(mid.contains(before.tiles@[j]));
                        let a = choose|a: int| 0 <= a < mid.len() && mid[a] == before.tiles@[j];
                        assert(kept.at(k, a));
                    }
                    if kept@.contains_key(k) {
                        let a = choose|a: int| kept.at(k, a);
                        assert(a < mid.len());
                        assert(kept.tiles@[a] == mid[a]);
                        let j = choose|j: int| 0 <= j < n && #[trigger] before.tiles@[j] == mid[a];
                        assert(before.at(k, j));
                    }
                }
            }
            assert forall|k: TileKey| kept@.contains_key(k) implies #[trigger] kept@[k] == goal[k] by {
                let a = choose|a: int| kept.at(k, a);
                kept.lemma_at(k, a);
                if k == key {
                    kept.lemma_at(k, mid.len() as int);
                } else {
                    assert(kept.tiles@[a] == mid[a]);
                    let j = choose|j: int| 0 <= j < n && #[trigger] before.tiles@[j] == mid[a];
                    before.lemma_at(k, j);
                }
            }
            assert(kept@ =~= goal);
        }
        *self = kept;
    }

    /// What to do about a tile at a Unix time: answer from memory, or request it.
    pub fn lookup(&self, z: u32, x: u32, y: u32, secs: u64) -> (r: TileLookup)
        requires
            self.wf(),
        ensures
            (match r {
                TileLookup::Known(url) => self@.contains_key(tile_at(z, x, y, secs)) && url@
                    == self@[tile_at(z, x, y, secs)],
                TileLookup::Fetch { key, url } => !self@.contains_key(tile_at(z, x, y, secs))
                    && key == tile_at(z, x, y, secs) && url@ == tile_address(z, x, y),
            }),
    {
        let key: TileKey = TileKey { z, x, y, bucket: bucket_of(secs) };
        match self.get(key) {
            Some(url) => TileLookup::Known(url),
            None => TileLookup::Fetch { key, url: tile_url(z, x, y) },
        }
    }

    /// Takes note of how the request for a tile ended, and returns its data URL or the error.
    pub fn settle(&mut self, key: TileKey, reply: TileReply) -> (r: Result<String, String>)
        requires
            old(self).wf(),
            reply.holdable(),
        ensures
            final(self).wf(),
            final(self)@ == settled_tiles(old(self)@, key, reply),
            (match r {
                Ok(url) => Ok(url@),
                Err(e) => Err(e@),
            }) == tile_outcome(reply),
    {
        match reply {
            TileReply::Failed(e) => Err(e),
            TileReply::Answered { status, body } => match tile_failure(status) {
                Some(e) => Err(e),
                None => match body {
                    Err(e) => Err(e),
                    Ok(png) => {
                        let url: String = tile_data_url(&png);
                        self.put(key, url.clone());
                        Ok(url)
                    },
                },
            },
        }
    }
}

/// The tiles of one period.
pub open spec fn kept_tiles(
    tiles: Map<TileKey, Seq<char>>,
    bucket: u64,
) -> Map<TileKey, Seq<char>> {
    Map::new(|k: TileKey| tiles.contains_key(k) && k.bucket == bucket, |k: TileKey| tiles[k])
}

/// A tile is requested once in its period: after a success, the same tile is at hand with the
/// same data URL for as long as the period lasts, and so is every other tile of the period that
/// was held before.
pub proof fn tiles_are_requested_once(
    tiles: Map<TileKey, Seq<char>>,
    key: TileKey,
    reply: TileReply,
    other: TileKey,
)
    requires
        tile_outcome(reply) is Ok,
    ensures
        settled_tiles(tiles, key, reply).contains_key(key),
        settled_tiles(tiles, key, reply)[key] == tile_outcome(reply)->Ok_0,
        other != key && other.bucket == key.bucket ==> settled_tiles(tiles, key, reply).contains_key(
            other,
        ) == tiles.contains_key(other),
        other != key && other.bucket == key.bucket && tiles.contains_key(other) ==> settled_tiles(
            tiles,
            key,
            reply,
        )[other] == tiles[other],
{
}

/// After a success, only tiles of its period are held.
pub proof fn stale_tiles_are_dropped(
    tiles: Map<TileKey, Seq<char>>,
    key: TileKey,
    reply: TileReply,
    other: TileKey,
)
    requires
        tile_outcome(reply) is Ok,
        other.bucket != key.bucket,
    ensures
        !settled_tiles(tiles, key, reply).contains_key(other),
{
}

/// A request that was not answered, or was answered with anything but a success, is an error and
/// changes nothing.
pub proof fn failed_tiles_change_nothing(
    tiles: Map<TileKey, Seq<char>>,
    key: TileKey,
    reply: TileReply,
)
    requires
        reply is Failed || !is_success(reply->status),
    ensures
        tile_outcome(reply) is Err,
        settled_tiles(tiles, key, reply) == tiles,
{
}

/// A success with a body is the data URL of that body.
pub proof fn successful_tiles_are_data_urls(status: u16, png: Vec<u8>)
    requires
        is_success(status),
    ensures
        tile_outcome(TileReply::Answered { status, body: Ok(png) }) == Ok::<Seq<char>, Seq<char>>(
            "data:image/png;base64,"@ + base64_text(png@),
        ),
{
}

/// A tile is current for five minutes: the tile that is asked for at one time is that of another
/// time exactly where both fall between the same two multiples of 300 seconds.
pub proof fn tiles_last_five_minutes(z: u32, x: u32, y: u32, secs: u64, period: u64)
    ensures
        300 * period <= secs < 300 * period + 300 <==> tile_at(z, x, y, secs).bucket == period,
        tile_at(z, x, y, secs).z == z,
        tile_at(z, x, y, secs).x == x,
        tile_at(z, x, y, secs).y == y,
{
}

/// What a tile request amounts to goes by its answer: an answer from 200 to 299 with a body is
/// the image, one without a body is the reason why it could not be read, any other answer is an
/// error with its status, and no answer the reason why there was none.
pub proof fn tiles_are_judged_by_status(status: u16, body: Result<Vec<u8>, String>, e: String)
    ensures
        tile_outcome(TileReply::Failed(e)) == Err::<Seq<char>, Seq<char>>(e@),
        status < 200 || status > 299 ==> tile_outcome(TileReply::Answered { status, body }) == Err::<
            Seq<char>,
            Seq<char>,
        >("wx http "@ + digits(status as nat)),
        200 <= status <= 299 && body is Err ==> tile_outcome(TileReply::Answered { status, body })
            == Err::<Seq<char>, Seq<char>>(body->Err_0@),
        200 <= status <= 299 && body is Ok ==> tile_outcome(TileReply::Answered { status, body })
            == Ok::<Seq<char>, Seq<char>>(
            "data:image/png;base64,"@ + base64_text(body->Ok_0@),
        ),
{
}

/// The address of a tile ends with its zoom level, its column and its row, in that order.
pub proof fn addresses_name_zoom_column_and_row(z: u32, x: u32, y: u32)
    ensures
        ({
            let place = digits(z as nat) + "/"@ + digits(x as nat) + "/"@ + digits(y as nat)
                + ".png"@;
            &&& place.is_suffix_of(tile_address(z, x, y))
            &&& tile_address(z, x, y).len() == place.len() + 72
        }),
{
    reveal_strlit("https://mesonet.agron.iastate.edu/cache/tile.py/1.0.0/nexrad-n0q-900913/");
    let base = "https://mesonet.agron.iastate.edu/cache/tile.py/1.0.0/nexrad-n0q-900913/"@;
    let place = digits(z as nat) + "/"@ + digits(x as nat) + "/"@ + digits(y as nat) + ".png"@;
    assert(tile_address(z, x, y) =~= base + place);
    let s = tile_address(z, x, y);
    assert(s.subrange(s.len() - place.len(), s.len() as int) =~= place);
}

} // verus!
