use crate::classifier::PartType;
use vstd::arithmetic::div_mod::lemma_fundamental_div_mod_converse;
use vstd::prelude::*;

verus! {

/// Whether the viewer shows one track at a time or all of them together.
#[derive(Clone, Copy, Debug, PartialEq, Eq, Hash, Structural)]
pub enum Mode {
    Single,
    Combined,
}

impl Mode {
    /// The other mode.
    pub fn toggle(&self) -> (m: Self)
        ensures
            m != *self,
    {
        match self {
            Mode::Single => Mode::Combined,
            Mode::Combined => Mode::Single,
        }
    }
}

/// The index after `cur` among `len` tracks, going round to the first.
pub fn next_track(cur: usize, len: usize) -> (r: usize)
    ensures
        r == if cur + 1 < len {
            cur + 1
        } else {
            0
        },
{
    if cur < len && cur + 1 < len {
        cur + 1
    } else {
        0
    }
}

/// The index before `cur` among `len` tracks, going round to the last.
pub fn prev_track(cur: usize, len: usize) -> (r: usize)
    ensures
        r == if 0 < cur && cur < len {
            cur - 1
        } else if len > 0 {
            len - 1
        } else {
            0
        },
{
    if 0 < cur && cur < len {
        cur - 1
    } else if len > 0 {
        len - 1
    } else {
        0
    }
}

/// How many entries of `s` are `t`.
pub open spec fn count(s: Seq<PartType>, t: PartType) -> nat
    decreases s.len(),
{
    if s.len() == 0 {
        0
    } else {
        count(s.drop_last(), t) + if s.last() == t {
            1nat
        } else {
            0nat
        }
    }
}

/// The number of tracks of each type.
#[derive(Clone, Copy, Debug, PartialEq, Eq, Hash, Structural)]
pub struct Tally {
    pub alpha: usize,
    pub beta: usize,
    pub gamma: usize,
    pub muon: usize,
    pub unknown: usize,
}

impl Tally {
    /// The count kept for type `t`.
    pub open spec fn of(&self, t: PartType) -> usize {
        match t {
            PartType::ALPHA => self.alpha,
            PartType::BETA => self.beta,
            PartType::GAMMA => self.gamma,
            PartType::MUON => self.muon,
            PartType::UNKNOWN => self.unknown,
        }
    }

    /// The count kept for type `t`.
    pub fn get(&self, t: PartType) -> (n: usize)
        ensures
            n == self.of(t),
    {
        match t {
            PartType::ALPHA => self.alpha,
            PartType::BETA => self.beta,
            PartType::GAMMA => self.gamma,
            PartType::MUON => self.muon,
            PartType::UNKNOWN => self.unknown,
        }
    }
}

/// Counts the tracks of each type in `types`.
pub fn tally(types: &Vec<PartType>) -> (c: Tally)
    ensures
        forall|t: PartType| c.of(t) == count(types@, t),
{
    let mut c = Tally { alpha: 0, beta: 0, gamma: 0, muon: 0, unknown: 0 };
    let mut i: usize = 0;
    while i < types.len()
        invariant
            0 <= i <= types@.len(),
            forall|t: PartType| c.of(t) == count(types@.take(i as int), t),
            forall|t: PartType| #[trigger] count(types@.take(i as int), t) <= i,
        decreases types@.len() - i,
    {
        let ghost before = types@.take(i as int);
        let ghost c0 = c;
        proof {
            assert(types@.take(i + 1).drop_last() =~= before);
            assert(types@.take(i + 1).last() == types@[i as int]);
            assert(c.of(types@[i as int]) <= i);
        }
        match types[i] {
            PartType::ALPHA => c.alpha = c.alpha + 1,
            PartType::BETA => c.beta = c.beta + 1,
            PartType::GAMMA => c.gamma = c.gamma + 1,
            PartType::MUON => c.muon = c.muon + 1,
            PartType::UNKNOWN => c.unknown = c.unknown + 1,
        }
        proof {
            assert forall|t: PartType| c.of(t) == count(types@.take(i + 1), t) by {
                assert(c0.of(t) == count(before, t));
            }
            assert forall|t: PartType| #[trigger] count(types@.take(i + 1), t) <= i + 1 by {
                assert(count(before, t) <= i);
            }
        }
        i = i + 1;
    }
    proof {
        assert(types@.take(types@.len() as int) =~= types@);
    }
    c
}

/// Which types the viewer shows.
#[derive(Clone, Copy, Debug, PartialEq, Eq, Hash, Structural)]
pub struct Shown {
    pub alpha: bool,
    pub beta: bool,
    pub gamma: bool,
    pub muon: bool,
    pub unknown: bool,
}

impl Shown {
    /// Whether type `t` is shown.
    pub open spec fn shows(&self, t: PartType) -> bool {
        match t {
            PartType::ALPHA => self.alpha,
            PartType::BETA => self.beta,
            PartType::GAMMA => self.gamma,
            PartType::MUON => self.muon,
            PartType::UNKNOWN => self.unknown,
        }
    }
}

/// The indices of the tracks whose type is shown, in order.
pub fn visible(types: &Vec<PartType>, shown: &Shown) -> (idx: Vec<usize>)
    ensures
        forall|k: int| 0 <= k < idx@.len() ==> (#[trigger] idx@[k] as int) < types@.len(),
        forall|k: int| 0 <= k < idx@.len() ==> shown.shows(types@[#[trigger] idx@[k] as int]),
        forall|k: int, l: int| 0 <= k < l < idx@.len() ==> #[trigger] idx@[k] < #[trigger] idx@[l],
        forall|i: int|
            0 <= i < types@.len() && shown.shows(#[trigger] types@[i]) ==> idx@.contains(i as usize),
{
    let mut idx: Vec<usize> = Vec::new();
    let mut i: usize = 0;
    while i < types.len()
        invariant
            0 <= i <= types@.len(),
            forall|k: int| 0 <= k < idx@.len() ==> (#[trigger] idx@[k] as int) < i,
            forall|k: int| 0 <= k < idx@.len() ==> shown.shows(types@[#[trigger] idx@[k] as int]),
            forall|k: int, l: int| 0 <= k < l < idx@.len() ==> #[trigger] idx@[k] < #[trigger] idx@[l],
            forall|j: int| 0 <= j < i && shown.shows(#[trigger] types@[j]) ==> idx@.contains(j as usize),
        decreases types@.len() - i,
    {
        let t = types[i];
        let show = match t {
            PartType::ALPHA => shown.alpha,
            PartType::BETA => shown.beta,
            PartType::GAMMA => shown.gamma,
            PartType::MUON => shown.muon,
            PartType::UNKNOWN => shown.unknown,
        };
        if show {
            let ghost prev = idx@;
            idx.push(i);
            proof {
                assert(idx@[idx@.len() - 1] == i);
                assert forall|j: int| 0 <= j < i + 1 && shown.shows(#[trigger] types@[j]) implies idx@.contains(j as usize) by {
                    if j < i {
                        let m = choose|m: int| 0 <= m < prev.len() && prev[m] == j as usize;
                        assert(idx@[m] == j as usize);
                    }
                }
            }
        }
        i = i + 1;
    }
    idx
}

/// Cell `c` is one of the cells of `tracks` that come before entry `i` of
/// track `t`.
pub open spec fn seen(tracks: Seq<Vec<(usize, usize)>>, t: int, i: int, c: (usize, usize)) -> bool {
    exists|a: int, b: int|
        0 <= a < tracks.len() && 0 <= b < tracks[a]@.len() && (a < t || (a == t && b < i))
            && #[trigger] tracks[a]@[b] == c
}

/// Cell `c` belongs to one of `tracks`.
pub open spec fn covered(tracks: Seq<Vec<(usize, usize)>>, c: (usize, usize)) -> bool {
    seen(tracks, tracks.len() as int, 0, c)
}

proof fn lemma_seen_step(tracks: Seq<Vec<(usize, usize)>>, t: int, i: int, c: (usize, usize))
    requires
        0 <= t < tracks.len(),
        0 <= i < tracks[t]@.len(),
    ensures
        seen(tracks, t, i + 1, c) == (seen(tracks, t, i, c) || tracks[t]@[i] == c),
{
    if tracks[t]@[i] == c {
        assert(seen(tracks, t, i + 1, c));
    }
    if seen(tracks, t, i + 1, c) && tracks[t]@[i] != c {
        let (a, b) = choose|a: int, b: int|
            0 <= a < tracks.len() && 0 <= b < tracks[a]@.len() && (a < t || (a == t && b < i + 1))
                && #[trigger] tracks[a]@[b] == c;
        assert(seen(tracks, t, i, c));
    }
}

proof fn lemma_seen_next_track(tracks: Seq<Vec<(usize, usize)>>, t: int, c: (usize, usize))
    requires
        0 <= t < tracks.len(),
    ensures
        seen(tracks, t + 1, 0, c) == seen(tracks, t, tracks[t]@.len() as int, c),
{
    if seen(tracks, t + 1, 0, c) {
        let (a, b) = choose|a: int, b: int|
            0 <= a < tracks.len() && 0 <= b < tracks[a]@.len() && (a < t + 1 || (a == t + 1 && b < 0))
                && #[trigger] tracks[a]@[b] == c;
        assert(seen(tracks, t, tracks[t]@.len() as int, c));
    }
    if seen(tracks, t, tracks[t]@.len() as int, c) {
        let (a, b) = choose|a: int, b: int|
            0 <= a < tracks.len() && 0 <= b < tracks[a]@.len() && (a < t || (a == t && b < tracks[t]@.len()))
                && #[trigger] tracks[a]@[b] == c;
        assert(seen(tracks, t + 1, 0, c));
    }
}

/// For each cell of a `size_x` by `size_y` grid, whether it belongs to one
/// of `tracks`.
pub fn cell_mask(
    size_x: usize,
    size_y: usize,
    tracks: &Vec<Vec<(usize, usize)>>,
) -> (mask: Vec<Vec<bool>>)
    ensures
        mask@.len() == size_x,
        forall|x: int| 0 <= x < size_x ==> (#[trigger] mask@[x])@.len() == size_y,
        forall|x: int, y: int|
            0 <= x < size_x && 0 <= y < size_y ==> #[trigger] mask@[x]@[y] == covered(
                tracks@,
                (x as usize, y as usize),
            ),
{
    let mut mask: Vec<Vec<bool>> = Vec::new();
    let mut x: usize = 0;
    while x < size_x
        invariant
            0 <= x <= size_x,
            mask@.len() == x,
            forall|a: int| 0 <= a < x ==> (#[trigger] mask@[a])@.len() == size_y,
            forall|a: int, b: int| 0 <= a < x && 0 <= b < size_y ==> !#[trigger] mask@[a]@[b],
        decreases size_x - x,
    {
        let mut row: Vec<bool> = Vec::new();
        let mut y: usize = 0;
        while y < size_y
            invariant
                0 <= y <= size_y,
                row@.len() == y,
                forall|b: int| 0 <= b < y ==> !#[trigger] row@[b],
            decreases size_y - y,
        {
            row.push(false);
            y = y + 1;
        }
        mask.push(row);
        x = x + 1;
    }

    let mut t: usize = 0;
    while t < tracks.len()
        invariant
            0 <= t <= tracks@.len(),
            mask@.len() == size_x,
            forall|a: int| 0 <= a < size_x ==> (#[trigger] mask@[a])@.len() == size_y,
            forall|a: int, b: int|
                0 <= a < size_x && 0 <= b < size_y ==> #[trigger] mask@[a]@[b] == seen(
                    tracks@,
                    t as int,
                    0,
                    (a as usize, b as usize),
                ),
        decreases tracks@.len() - t,
    {
        let track = &tracks[t];
        let mut i: usize = 0;
        while i < track.len()
            invariant
                0 <= t < tracks@.len(),
                *track == tracks@[t as int],
                0 <= i <= track@.len(),
                mask@.len() == size_x,
                forall|a: int| 0 <= a < size_x ==> (#[trigger] mask@[a])@.len() == size_y,
                forall|a: int, b: int|
                    0 <= a < size_x && 0 <= b < size_y ==> #[trigger] mask@[a]@[b] == seen(
                        tracks@,
                        t as int,
                        i as int,
                        (a as usize, b as usize),
                    ),
            decreases track@.len() - i,
        {
            let (cx, cy) = track[i];
            let ghost m0 = mask@;
            if cx < size_x && cy < size_y {
                mask[cx][cy] = true;
            }
            proof {
                assert forall|a: int, b: int|
                    0 <= a < size_x && 0 <= b < size_y implies #[trigger] mask@[a]@[b] == seen(
                        tracks@,
                        t as int,
                        i + 1,
                        (a as usize, b as usize),
                    ) by {
                    lemma_seen_step(tracks@, t as int, i as int, (a as usize, b as usize));
                    if a != cx || b != cy {
                        assert(mask@[a]@[b] == m0[a]@[b]);
                    }
                }
            }
            i = i + 1;
        }
        proof {
            assert forall|a: int, b: int|
                0 <= a < size_x && 0 <= b < size_y implies #[trigger] mask@[a]@[b] == seen(
                    tracks@,
                    t + 1,
                    0,
                    (a as usize, b as usize),
                ) by {
                lemma_seen_next_track(tracks@, t as int, (a as usize, b as usize));
            }
        }
        t = t + 1;
    }
    mask
}

/// The cell that pixel `q` of an image `img_y` pixels high shows, each
/// cell drawn as a `scale` by `scale` block.
pub open spec fn pixel_cell(q: int, img_y: int, scale: int) -> (usize, usize) {
    (((q / img_y) / scale) as usize, ((q % img_y) / scale) as usize)
}

/// The image of `tracks` over a `size_x` by `size_y` grid, each cell drawn
/// as a `scale` by `scale` block: pixel `(px, py)` stands at
/// `px * (size_y * scale) + py` and is lit when its cell belongs to a track.
pub fn render(
    size_x: usize,
    size_y: usize,
    scale: usize,
    tracks: &Vec<Vec<(usize, usize)>>,
) -> (pixels: Vec<bool>)
    requires
        size_x * scale <= usize::MAX,
        size_y * scale <= usize::MAX,
        size_x * scale * (size_y * scale) <= usize::MAX,
    ensures
        pixels@.len() == size_x * scale * (size_y * scale),
        forall|q: int|
            0 <= q < pixels@.len() ==> #[trigger] pixels@[q] == covered(
                tracks@,
                pixel_cell(q, size_y * scale, scale as int),
            ),
{
    let mask = cell_mask(size_x, size_y, tracks);
    let mut pixels: Vec<bool> = Vec::new();
    if scale == 0 {
        assert(size_x * scale * (size_y * scale) == 0) by (nonlinear_arith)
            requires
                scale == 0,
        ;
        return pixels;
    }
    let img_x = size_x * scale;
    let img_y = size_y * scale;
    let ghost iy = img_y as int;
    let mut px: usize = 0;
    while px < img_x
        invariant
            scale > 0,
            img_x == size_x * scale,
            img_y == size_y * scale,
            iy == img_y,
            img_x * img_y <= usize::MAX,
            0 <= px <= img_x,
            pixels@.len() == px * img_y,
            mask@.len() == size_x,
            forall|a: int| 0 <= a < size_x ==> (#[trigger] mask@[a])@.len() == size_y,
            forall|a: int, b: int|
                0 <= a < size_x && 0 <= b < size_y ==> #[trigger] mask@[a]@[b] == covered(
                    tracks@,
                    (a as usize, b as usize),
                ),
            forall|q: int|
                0 <= q < pixels@.len() ==> #[trigger] pixels@[q] == covered(
                    tracks@,
                    pixel_cell(q, iy, scale as int),
                ),
        decreases img_x - px,
    {
        let mut py: usize = 0;
        while py < img_y
            invariant
                scale > 0,
                img_x == size_x * scale,
                img_y == size_y * scale,
                iy == img_y,
                img_x * img_y <= usize::MAX,
                0 <= px < img_x,
                0 <= py <= img_y,
                pixels@.len() == px * img_y + py,
                mask@.len() == size_x,
                forall|a: int| 0 <= a < size_x ==> (#[trigger] mask@[a])@.len() == size_y,
                forall|a: int, b: int|
                    0 <= a < size_x && 0 <= b < size_y ==> #[trigger] mask@[a]@[b] == covered(
                        tracks@,
                        (a as usize, b as usize),
                    ),
                forall|q: int|
                    0 <= q < pixels@.len() ==> #[trigger] pixels@[q] == covered(
                        tracks@,
                        pixel_cell(q, iy, scale as int),
                    ),
            decreases img_y - py,
        {
            proof {
                assert(px * img_y + py < img_x * img_y) by (nonlinear_arith)
                    requires
                        px < img_x,
                        py < img_y,
                ;
                assert(px / scale < size_x) by (nonlinear_arith)
                    requires
                        px < size_x * scale,
                        scale > 0,
                ;
                assert(py / scale < size_y) by (nonlinear_arith)
                    requires
                        py < size_y * scale,
                        scale > 0,
                ;
                lemma_fundamental_div_mod_converse(
                    px * img_y + py,
                    iy,
                    px as int,
                    py as int,
                );
            }
            let lit = mask[px / scale][py / scale];
            pixels.push(lit);
            py = py + 1;
        }
        proof {
            assert(px * img_y + img_y == (px + 1) * img_y) by (nonlinear_arith);
        }
        px = px + 1;
    }
    pixels
}

} // verus!
