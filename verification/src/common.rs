use vstd::prelude::*;

verus! {

/// One of the four cardinal rotations that the decoder searches.
#[derive(Clone, Copy, Debug, PartialEq, Eq)]
pub enum Rotation {
    Deg0,
    Deg90,
    Deg180,
    Deg270,
}

impl Rotation {
    /// The rotation angle in degrees.
    pub open spec fn spec_degrees(self) -> i32 {
        match self {
            Rotation::Deg0 => 0,
            Rotation::Deg90 => 90,
            Rotation::Deg180 => 180,
            Rotation::Deg270 => 270,
        }
    }

    pub fn degrees(self) -> (d: i32)
        ensures
            d == self.spec_degrees(),
    {
        match self {
            Rotation::Deg0 => 0,
            Rotation::Deg90 => 90,
            Rotation::Deg180 => 180,
            Rotation::Deg270 => 270,
        }
    }
}

/// Which embedding backend to use.
#[derive(Clone, Copy, Debug, PartialEq, Eq)]
pub enum BackendChoice {
    Auto,
    FrequencyV2,
    JpegDct,
}

impl Default for BackendChoice {
    fn default() -> (b: Self)
        ensures
            b == BackendChoice::Auto,
    {
        BackendChoice::Auto
    }
}

/// Visibility/robustness trade-off of the embedding.
#[derive(Clone, Copy, Debug, PartialEq, Eq)]
pub enum WatermarkPreset {
    Invisible,
    Balanced,
    Robust,
}

impl Default for WatermarkPreset {
    fn default() -> (p: Self)
        ensures
            p == WatermarkPreset::Invisible,
    {
        WatermarkPreset::Invisible
    }
}

/// Outcome of decoding a payload frame.
#[derive(Clone, Copy, Debug, PartialEq, Eq)]
pub enum DecodeStatus {
    Decoded,
    NoWatermark,
    CrcMismatch,
    UnsupportedPayload,
}

impl Default for DecodeStatus {
    fn default() -> (s: Self)
        ensures
            s == DecodeStatus::NoWatermark,
    {
        DecodeStatus::NoWatermark
    }
}

/// How many ID bytes an image can carry.
#[derive(Clone, Debug)]
pub struct CapacityReport {
    pub width: u32,
    pub height: u32,
    pub tile_size: u32,
    pub tile_count: usize,
    pub max_id_bytes: usize,
    pub recommended_id_bytes: usize,
}

pub const DEFAULT_KEY: &'static str = "hidden-watermark-default-key";
pub const DCT_BLOCK: u32 = 8;
pub const NON_DIAGNOSTIC_ATTEMPT_BUDGET: usize = 4000;

/// Coefficient pairs (a_u, a_v, b_u, b_v) compared in the low, mid and high bands.
pub const CROSS_BAND_PAIRS: [(usize, usize, usize, usize); 3] = [(1, 0, 0, 1), (2, 1, 1, 2), (3, 2, 2, 3)];

pub open spec fn cross_band_pair(i: int) -> (usize, usize, usize, usize) {
    if i == 0 {
        (1, 0, 0, 1)
    } else if i == 1 {
        (2, 1, 1, 2)
    } else {
        (3, 2, 2, 3)
    }
}

/// Pair i compares coefficient (i + 1, i) with its transpose (i, i + 1): the
/// low, mid and high bands in turn, no two pairs alike.
pub proof fn lemma_cross_band_pairs(i: int)
    requires
        0 <= i < 3,
    ensures
        cross_band_pair(i) == ((i + 1) as usize, i as usize, i as usize, (i + 1) as usize),
        cross_band_pair(i) == CROSS_BAND_PAIRS[i],
        forall|j: int| 0 <= j < 3 && j != i ==> cross_band_pair(j) != cross_band_pair(i),
{
}

/// The first min(count, 3) cross-band coefficient pairs.
pub fn cross_band_pairs(count: usize) -> (pairs: Vec<(usize, usize, usize, usize)>)
    ensures
        pairs.len() == if count < 3 { count } else { 3 },
        forall|i: int| 0 <= i < pairs.len() ==> #[trigger] pairs@[i] == cross_band_pair(i),
{
    let n = if count < 3 { count } else { 3 };
    let mut pairs: Vec<(usize, usize, usize, usize)> = Vec::new();
    let mut i: usize = 0;
    while i < n
        invariant
            n <= 3,
            i <= n,
            pairs.len() == i,
            forall|j: int| 0 <= j < i ==> #[trigger] pairs@[j] == cross_band_pair(j),
        decreases n - i,
    {
        let p = if i == 0 { (1, 0, 0, 1) } else if i == 1 { (2, 1, 1, 2) } else { (3, 2, 2, 3) };
        pairs.push(p);
        i += 1;
    }
    pairs
}

/// The key to embed with: the given key unless it is missing or empty.
pub fn normalized_key(key: &Option<String>) -> (k: &str)
    ensures
        match key {
            Some(s) => if s@.len() > 0 {
                k@ == s@
            } else {
                k@ == DEFAULT_KEY@
            },
            None => k@ == DEFAULT_KEY@,
        },
{
    match key {
        Some(value) => {
            if !value.as_str().is_empty() {
                value.as_str()
            } else {
                DEFAULT_KEY
            }
        },
        None => DEFAULT_KEY,
    }
}

/// Index of DCT coefficient (u, v) in a row-major 8 x 8 block.
pub fn dct_index(u: usize, v: usize) -> (i: usize)
    requires
        v * 8 + u <= usize::MAX,
    ensures
        i == v * 8 + u,
{
    v * 8 + u
}

/// The value after v on an axis: v + stride, saturating at u32::MAX.
pub open spec fn axis_next(v: int, stride: int) -> int {
    if v + stride > u32::MAX {
        u32::MAX as int
    } else {
        v + stride
    }
}

/// Origins of tiles along an axis from v on: v, v + stride, ... while the
/// tile ends before the axis does, then the last tile flush with the end.
pub open spec fn axis_from(length: int, tile: int, stride: int, v: int) -> Seq<u32>
    decreases u32::MAX - v,
{
    if v + tile >= length || stride <= 0 || v < 0 || v >= u32::MAX {
        seq![(length - tile) as u32]
    } else {
        seq![v as u32] + axis_from(length, tile, stride, axis_next(v, stride))
    }
}

/// The first origin from v on at which the tile no longer ends before the axis.
pub open spec fn axis_stop(length: int, tile: int, stride: int, v: int) -> int
    decreases u32::MAX - v,
{
    if v + tile >= length || stride <= 0 || v < 0 || v >= u32::MAX {
        v
    } else {
        axis_stop(length, tile, stride, axis_next(v, stride))
    }
}

/// The stepping stops without overflowing u32 and without stepping forever.
pub open spec fn axis_ok(length: int, tile: int, stride: int) -> bool {
    &&& 0 <= tile <= length <= u32::MAX
    &&& (tile < length ==> stride > 0)
    &&& axis_stop(length, tile, stride, 0) + tile <= u32::MAX
}

proof fn lemma_axis_stop_ge(length: int, tile: int, stride: int, v: int)
    ensures
        axis_stop(length, tile, stride, v) >= v,
    decreases u32::MAX - v,
{
    if !(v + tile >= length || stride <= 0 || v < 0 || v >= u32::MAX) {
        lemma_axis_stop_ge(length, tile, stride, axis_next(v, stride));
    }
}

/// Tile origins along an axis of the given length, stepping by stride, with
/// a last tile flush with the end.
pub fn axis_origins(length: u32, tile_size: u32, stride: u32) -> (values: Vec<u32>)
    requires
        axis_ok(length as int, tile_size as int, stride as int),
    ensures
        values@ == axis_from(length as int, tile_size as int, stride as int, 0),
{
    let ghost (l, t, st) = (length as int, tile_size as int, stride as int);
    let mut values: Vec<u32> = Vec::new();
    let mut value: u32 = 0;
    proof {
        lemma_axis_stop_ge(l, t, st, 0);
    }
    while value + tile_size < length
        invariant
            axis_ok(l, t, st),
            l == length,
            t == tile_size,
            st == stride,
            axis_stop(l, t, st, value as int) == axis_stop(l, t, st, 0),
            values@ + axis_from(l, t, st, value as int) == axis_from(l, t, st, 0),
        decreases u32::MAX - value,
    {
        proof {
            lemma_axis_stop_ge(l, t, st, value as int);
        }
        let ghost pre = values@;
        let ghost v0 = value as int;
        values.push(value);
        value = value.saturating_add(stride);
        assert(value as int == axis_next(v0, st));
        assert(axis_from(l, t, st, v0) == seq![v0 as u32] + axis_from(l, t, st, value as int));
        assert(values@ + axis_from(l, t, st, value as int) =~= pre + axis_from(l, t, st, v0));
        proof {
            lemma_axis_stop_ge(l, t, st, value as int);

        }
    }
    let ghost pre = values@;
    values.push(length - tile_size);
    assert(values@ =~= axis_from(l, t, st, 0));
    values
}

/// Some tile among those at the origins covers position p.
pub open spec fn covers(origins: Seq<u32>, tile: int, p: int) -> bool {
    exists|i: int| 0 <= i < origins.len() && #[trigger] origins[i] <= p < origins[i] + tile
}

/// Properties of the origins from v on.
proof fn lemma_axis_from(length: int, tile: int, stride: int, v: int)
    requires
        0 <= tile <= length <= u32::MAX,
        tile < length ==> stride > 0,
        0 <= v,
        v <= length - tile || v + tile >= length,
    ensures
        axis_from(length, tile, stride, v).len() >= 1,
        axis_from(length, tile, stride, v).last() == (length - tile) as u32,
        v <= length - tile ==> axis_from(length, tile, stride, v)[0] == v,
        forall|i: int|
            0 <= i < axis_from(length, tile, stride, v).len() ==> #[trigger] axis_from(length, tile, stride, v)[i] + tile <= length
                && (axis_from(length, tile, stride, v)[i] >= v || axis_from(length, tile, stride, v)[i] == length - tile),
        forall|i: int, j: int|
            0 <= i < j < axis_from(length, tile, stride, v).len() ==> axis_from(length, tile, stride, v)[i] < axis_from(
                length,
                tile,
                stride,
                v,
            )[j],
        stride <= tile ==> forall|p: int| v <= p < length ==> #[trigger] covers(axis_from(length, tile, stride, v), tile, p),
    decreases u32::MAX - v,
{
    let s = axis_from(length, tile, stride, v);
    if v + tile >= length || stride <= 0 || v < 0 || v >= u32::MAX {
        if stride <= tile {
            assert forall|p: int| v <= p < length implies #[trigger] covers(s, tile, p) by {
                assert(s[0] <= p < s[0] + tile);
            }
        }
    } else {
        let n = axis_next(v, stride);
        lemma_axis_from(length, tile, stride, n);
        let rest = axis_from(length, tile, stride, n);
        assert(s == seq![v as u32] + rest);
        assert forall|i: int| 0 <= i < s.len() implies #[trigger] s[i] + tile <= length && (s[i] >= v || s[i] == length - tile) by {
            if i > 0 {
                assert(s[i] == rest[i - 1]);
            }
        }
        assert forall|i: int, j: int| 0 <= i < j < s.len() implies s[i] < s[j] by {
            if i > 0 {
                assert(s[i] == rest[i - 1]);
            }
            assert(s[j] == rest[j - 1]);
        }
        if stride <= tile {
            assert forall|p: int| v <= p < length implies #[trigger] covers(s, tile, p) by {
                if p < n {
                    assert(s[0] <= p < s[0] + tile);
                } else {
                    assert(covers(rest, tile, p));
                    let i = choose|i: int| 0 <= i < rest.len() && #[trigger] rest[i] <= p < rest[i] + tile;
                    assert(s[i + 1] == rest[i]);
                }
            }
        }
    }
}

/// Tile origins along an axis start at 0, increase strictly, keep every tile
/// inside the axis, end with a tile flush with the end, and, when the stride
/// is at most the tile size, cover every position of the axis.
pub proof fn lemma_axis_origins(length: int, tile: int, stride: int)
    requires
        axis_ok(length, tile, stride),
    ensures
        axis_from(length, tile, stride, 0).len() >= 1,
        axis_from(length, tile, stride, 0)[0] == 0,
        axis_from(length, tile, stride, 0).last() == length - tile,
        forall|i: int| 0 <= i < axis_from(length, tile, stride, 0).len() ==> #[trigger] axis_from(length, tile, stride, 0)[i] + tile <= length,
        forall|i: int, j: int|
            0 <= i < j < axis_from(length, tile, stride, 0).len() ==> axis_from(length, tile, stride, 0)[i] < axis_from(length, tile, stride, 0)[j],
        stride <= tile ==> forall|p: int| 0 <= p < length ==> #[trigger] covers(axis_from(length, tile, stride, 0), tile, p),
{
    lemma_axis_from(length, tile, stride, 0);
}

/// Rows of the grid: for each y in ys, every x in xs.
pub open spec fn grid_rows(xs: Seq<u32>, ys: Seq<u32>) -> Seq<(u32, u32)>
    decreases ys.len(),
{
    if ys.len() == 0 {
        Seq::empty()
    } else {
        grid_rows(xs, ys.drop_last()) + xs.map_values(|x: u32| (x, ys.last()))
    }
}

/// A grid of distinct columns and distinct rows has distinct points, each
/// made of one of the columns and one of the rows.
pub proof fn lemma_grid_rows(xs: Seq<u32>, ys: Seq<u32>)
    requires
        xs.no_duplicates(),
        ys.no_duplicates(),
    ensures
        grid_rows(xs, ys).len() == xs.len() * ys.len(),
        grid_rows(xs, ys).no_duplicates(),
        forall|i: int|
            0 <= i < grid_rows(xs, ys).len() ==> xs.contains(#[trigger] grid_rows(xs, ys)[i].0) && ys.contains(
                grid_rows(xs, ys)[i].1,
            ),
    decreases ys.len(),
{
    if ys.len() > 0 {
        let front = ys.drop_last();
        let y = ys.last();
        lemma_grid_rows(xs, front);
        let g = grid_rows(xs, front);
        let row = xs.map_values(|x: u32| (x, y));
        assert(!front.contains(y)) by {
            if front.contains(y) {
                let k = choose|k: int| 0 <= k < front.len() && front[k] == y;
                assert(ys[k] == ys[ys.len() - 1]);
            }
        }
        assert forall|i: int, j: int| 0 <= i < g.len() && 0 <= j < row.len() implies g[i] != row[j] by {
            assert(xs.contains(g[i].0));
            assert(front.contains(g[i].1));
        }
        assert(row.no_duplicates()) by {
            assert forall|i: int, j: int| 0 <= i < row.len() && 0 <= j < row.len() && i != j implies row[i] != row[j] by {
                assert(xs[i] != xs[j]);
            }
        }
        vstd::seq_lib::lemma_no_dup_in_concat(g, row);
        assert(xs.len() * front.len() + xs.len() == xs.len() * ys.len()) by (nonlinear_arith)
            requires front.len() + 1 == ys.len();
        let all = grid_rows(xs, ys);
        assert(all == g + row);
        assert forall|i: int| 0 <= i < all.len() implies xs.contains(#[trigger] all[i].0) && ys.contains(all[i].1) by {
            if i < g.len() {
                assert(all[i] == g[i]);
                assert(xs.contains(g[i].0));
                assert(front.contains(g[i].1));
                let k = choose|k: int| 0 <= k < front.len() && front[k] == g[i].1;
                assert(ys[k] == front[k]);
            } else {
                let k = i - g.len();
                assert(all[i] == row[k]);
                assert(xs[k] == all[i].0);
                assert(ys[ys.len() - 1] == all[i].1);
            }
        }
    }
}

/// Candidate tile origins on a grid with the given step in both directions.
pub fn grid_search_origins(width: u32, height: u32, candidate_tile: u32, step: u32) -> (origins: Vec<(u32, u32)>)
    requires
        axis_ok(width as int, candidate_tile as int, step as int),
        axis_ok(height as int, candidate_tile as int, step as int),
    ensures
        origins@ == grid_rows(
            axis_from(width as int, candidate_tile as int, step as int, 0),
            axis_from(height as int, candidate_tile as int, step as int, 0),
        ),
{
    let xs = axis_origins(width, candidate_tile, step);
    let ys = axis_origins(height, candidate_tile, step);
    let mut origins: Vec<(u32, u32)> = Vec::new();
    let mut a: usize = 0;
    while a < ys.len()
        invariant
            a <= ys.len(),
            origins@ == grid_rows(xs@, ys@.take(a as int)),
        decreases ys.len() - a,
    {
        let y = ys[a];
        let ghost pre = origins@;
        let mut b: usize = 0;
        while b < xs.len()
            invariant
                b <= xs.len(),
                y == ys@[a as int],
                a < ys.len(),
                origins@ == pre + xs@.take(b as int).map_values(|x: u32| (x, y)),
            decreases xs.len() - b,
        {
            origins.push((xs[b], y));
            b += 1;
            assert(origins@ =~= pre + xs@.take(b as int).map_values(|x: u32| (x, y)));
        }
        assert(ys@.take(a + 1).drop_last() =~= ys@.take(a as int));
        assert(xs@.take(xs.len() as int) =~= xs@);
        a += 1;
    }
    assert(ys@.take(ys.len() as int) =~= ys@);
    origins
}

/// The search step for a candidate tile size: a quarter tile, at least 8.
pub open spec fn search_step(candidate_tile: int) -> int {
    if candidate_tile / 4 > 8 {
        candidate_tile / 4
    } else {
        8
    }
}

/// Candidate origins for a tile size, a quarter tile apart (at least 8 pixels).
pub fn search_origins(width: u32, height: u32, candidate_tile: u32) -> (origins: Vec<(u32, u32)>)
    requires
        axis_ok(width as int, candidate_tile as int, search_step(candidate_tile as int)),
        axis_ok(height as int, candidate_tile as int, search_step(candidate_tile as int)),
    ensures
        origins@ == grid_rows(
            axis_from(width as int, candidate_tile as int, search_step(candidate_tile as int), 0),
            axis_from(height as int, candidate_tile as int, search_step(candidate_tile as int), 0),
        ),
{
    let quarter = candidate_tile / 4;
    let step = if quarter > 8 { quarter } else { 8 };
    grid_search_origins(width, height, candidate_tile, step)
}

/// Sub-band of the wavelet decomposition that carries a block.
#[derive(Clone, Copy, Debug, PartialEq, Eq)]
pub enum FrequencySubband {
    Ll,
}

/// An 8 x 8 block of a sub-band.
#[derive(Clone, Copy, Debug, PartialEq, Eq)]
pub struct FrequencyBlock {
    pub subband: FrequencySubband,
    pub x: u32,
    pub y: u32,
}

/// What the integer checks of the watermark options find wrong with a tile size.
#[derive(Clone, Copy, Debug, PartialEq, Eq)]
pub enum TileSizeIssue {
    TooSmall,
    NotMultipleOf16,
}

/// Tiles are at least 64 pixels wide and a multiple of 16: the first rule
/// broken, if any.
pub fn tile_size_issue(tile_size: u32) -> (r: Option<TileSizeIssue>)
    ensures
        r == (if tile_size < 64 {
            Some(TileSizeIssue::TooSmall)
        } else if tile_size % 16 != 0 {
            Some(TileSizeIssue::NotMultipleOf16)
        } else {
            None
        }),
{
    if tile_size < 64 {
        Some(TileSizeIssue::TooSmall)
    } else if tile_size % 16 != 0 {
        Some(TileSizeIssue::NotMultipleOf16)
    } else {
        None
    }
}

/// A tile of the given size fits in an image of the given size.
pub fn image_fits_tile(width: u32, height: u32, tile_size: u32) -> (b: bool)
    ensures
        b == (width >= tile_size && height >= tile_size),
{
    width >= tile_size && height >= tile_size
}

} // verus!
