//! From image bytes to a segmented program: pixel classification, lexing
//! into a codel grid, and flood-fill segmentation into color blocks.

use vstd::prelude::*;

use crate::ast::{Codel, Color, ColorBlock, Hue, Lightness, Program};
use crate::grid::Grid;
use crate::util::{adjacent, Direction};

verus! {

/// One classified codel, before segmentation.
#[derive(Debug, Copy, Clone, PartialEq, Eq, Structural)]
pub enum RawCodel {
    White,
    Black,
    Color(Color),
}

/// A channel sample quantized to the nearest canonical value.
pub open spec fn spec_quantize(n: u8) -> u8 {
    if n < 0x60 {
        0x00
    } else if n < 0xE0 {
        0xC0
    } else {
        0xFF
    }
}

/// The classification of one RGB pixel: black, white, one of the eighteen
/// canonical colors, or `None` when the quantized channels match no
/// canonical pattern (callers coerce that to white).
pub open spec fn spec_decode(r: u8, g: u8, b: u8) -> Option<RawCodel> {
    let qr = spec_quantize(r);
    let qg = spec_quantize(g);
    let qb = spec_quantize(b);
    let mn = if qr <= qg {
        if qr <= qb {
            qr
        } else {
            qb
        }
    } else {
        if qg <= qb {
            qg
        } else {
            qb
        }
    };
    let mx = if qr >= qg {
        if qr >= qb {
            qr
        } else {
            qb
        }
    } else {
        if qg >= qb {
            qg
        } else {
            qb
        }
    };
    if (qr != mn && qr != mx) || (qg != mn && qg != mx) || (qb != mn && qb != mx) {
        None
    } else if mn == 0x00 && mx == 0x00 {
        Some(RawCodel::Black)
    } else if mn == 0xFF && mx == 0xFF {
        Some(RawCodel::White)
    } else {
        let lightness = if mn == 0xC0 && mx == 0xFF {
            Some(Lightness::Light)
        } else if mn == 0x00 && mx == 0xFF {
            Some(Lightness::Normal)
        } else if mn == 0x00 && mx == 0xC0 {
            Some(Lightness::Dark)
        } else {
            None
        };
        match lightness {
            None => None,
            Some(l) => match (qr == mx, qg == mx, qb == mx) {
                (true, false, false) => Some(RawCodel::Color(Color { hue: Hue::Red, lightness: l })),
                (true, true, false) => Some(
                    RawCodel::Color(Color { hue: Hue::Yellow, lightness: l }),
                ),
                (false, true, false) => Some(
                    RawCodel::Color(Color { hue: Hue::Green, lightness: l }),
                ),
                (false, true, true) => Some(
                    RawCodel::Color(Color { hue: Hue::Cyan, lightness: l }),
                ),
                (false, false, true) => Some(
                    RawCodel::Color(Color { hue: Hue::Blue, lightness: l }),
                ),
                (true, false, true) => Some(
                    RawCodel::Color(Color { hue: Hue::Magenta, lightness: l }),
                ),
                _ => None,
            },
        }
    }
}

fn quantize(n: u8) -> (r: u8)
    ensures
        r == spec_quantize(n),
{
    if n < 0x60 {
        0x00
    } else if n < 0xE0 {
        0xC0
    } else {
        0xFF
    }
}

impl RawCodel {
    /// Classifies one RGB pixel, tolerant of anti-aliasing through
    /// quantization.
    pub fn decode(r: u8, g: u8, b: u8) -> (res: Option<RawCodel>)
        ensures
            res == spec_decode(r, g, b),
    {
        let qr: u8 = quantize(r);
        let qg: u8 = quantize(g);
        let qb: u8 = quantize(b);
        let mn: u8 = if qr <= qg {
            if qr <= qb {
                qr
            } else {
                qb
            }
        } else {
            if qg <= qb {
                qg
            } else {
                qb
            }
        };
        let mx: u8 = if qr >= qg {
            if qr >= qb {
                qr
            } else {
                qb
            }
        } else {
            if qg >= qb {
                qg
            } else {
                qb
            }
        };
        if (qr != mn && qr != mx) || (qg != mn && qg != mx) || (qb != mn && qb != mx) {
            return None;
        }
        if mn == 0x00 && mx == 0x00 {
            return Some(RawCodel::Black);
        }
        if mn == 0xFF && mx == 0xFF {
            return Some(RawCodel::White);
        }
        let lightness: Lightness = if mn == 0xC0 && mx == 0xFF {
            Lightness::Light
        } else if mn == 0x00 && mx == 0xFF {
            Lightness::Normal
        } else if mn == 0x00 && mx == 0xC0 {
            Lightness::Dark
        } else {
            return None;
        };
        let hue: Hue = match (qr == mx, qg == mx, qb == mx) {
            (true, false, false) => Hue::Red,
            (true, true, false) => Hue::Yellow,
            (false, true, false) => Hue::Green,
            (false, true, true) => Hue::Cyan,
            (false, false, true) => Hue::Blue,
            (true, false, true) => Hue::Magenta,
            _ => {
                return None;
            }
        };
        Some(RawCodel::Color(Color { hue, lightness }))
    }
}

/// A non-empty chain of in-bounds coordinates, each carrying raw codel `v`,
/// each adjacent to the next.
pub open spec fn is_path(raw: Grid<RawCodel>, v: RawCodel, p: Seq<(usize, usize)>) -> bool {
    &&& p.len() >= 1
    &&& forall|k: int|
        0 <= k < p.len() ==> ((#[trigger] p[k]).0 < raw.spec_width() && p[k].1 < raw.spec_height()
            && raw.spec_at(p[k].0 as int, p[k].1 as int) == v)
    &&& forall|k: int| 0 <= k < p.len() - 1 ==> #[trigger] adjacent(p[k], p[k + 1])
}

/// `b` can be reached from `a` through 4-connected codels all carrying `v`.
pub open spec fn reach(raw: Grid<RawCodel>, v: RawCodel, a: (usize, usize), b: (
    usize,
    usize,
)) -> bool {
    exists|p: Seq<(usize, usize)>| is_path(raw, v, p) && p[0] == a && p.last() == b
}

/// `s` is closed under same-codel adjacency: every in-bounds 4-neighbor of
/// a member that carries `v` is itself a member. A closed set containing
/// one codel of a region contains the whole region.
pub open spec fn region_closed(raw: Grid<RawCodel>, v: RawCodel, s: Seq<(usize, usize)>) -> bool {
    forall|k: int, b: (usize, usize)|
        0 <= k < s.len() && #[trigger] adjacent(s[k], b) && b.0 < raw.spec_width() && b.1
            < raw.spec_height() && raw.spec_at(b.0 as int, b.1 as int) == v ==> s.contains(b)
}

/// Reachability extends one adjacency step.
pub proof fn lemma_reach_step(
    raw: Grid<RawCodel>,
    v: RawCodel,
    a: (usize, usize),
    b: (usize, usize),
    c: (usize, usize),
)
    requires
        reach(raw, v, a, b),
        adjacent(b, c),
        c.0 < raw.spec_width(),
        c.1 < raw.spec_height(),
        raw.spec_at(c.0 as int, c.1 as int) == v,
    ensures
        reach(raw, v, a, c),
{
    let p = choose|p: Seq<(usize, usize)>| is_path(raw, v, p) && p[0] == a && p.last() == b;
    let q = p.push(c);
    assert forall|k: int| 0 <= k < q.len() - 1 implies #[trigger] adjacent(q[k], q[k + 1]) by {
        if k < p.len() - 1 {
            assert(adjacent(p[k], p[k + 1]));
        } else {
            assert(q[k] == b && q[k + 1] == c);
        }
    }
    assert(is_path(raw, v, q) && q[0] == a && q.last() == c);
}

/// A member of a closed set is joined by everything that reaches it: walk
/// the path backwards, one closure step at a time.
pub proof fn lemma_path_into_closed(
    raw: Grid<RawCodel>,
    v: RawCodel,
    s: Seq<(usize, usize)>,
    p: Seq<(usize, usize)>,
)
    requires
        region_closed(raw, v, s),
        is_path(raw, v, p),
        s.contains(p.last()),
    ensures
        s.contains(p[0]),
    decreases p.len(),
{
    if p.len() > 1 {
        let q = p.drop_last();
        let i = choose|i: int| 0 <= i < s.len() && s[i] == p.last();
        assert(adjacent(p[p.len() - 2], p[p.len() - 2 + 1]));
        assert(adjacent(s[i], p[p.len() - 2]));
        assert(s.contains(q.last()));
        assert(is_path(raw, v, q));
        lemma_path_into_closed(raw, v, s, q);
    }
}

/// The flood-fill bookkeeping invariant: `result` lists distinct in-bounds
/// codels of value `v`, all reachable from `start`; the `visited` grid
/// mirrors membership; worklist entries are members; and every member not
/// still on the worklist already has all its same-value neighbors in
/// `result`.
spec fn ff_inv(
    raw: Grid<RawCodel>,
    v: RawCodel,
    start: (usize, usize),
    visited: Grid<bool>,
    result: Seq<(usize, usize)>,
    work: Seq<(usize, usize)>,
) -> bool {
    &&& raw.wf()
    &&& visited.wf()
    &&& visited.spec_width() == raw.spec_width()
    &&& visited.spec_height() == raw.spec_height()
    &&& result.len() >= 1 && result[0] == start
    &&& result.no_duplicates()
    &&& forall|k: int|
        0 <= k < result.len() ==> ((#[trigger] result[k]).0 < raw.spec_width() && result[k].1
            < raw.spec_height() && raw.spec_at(result[k].0 as int, result[k].1 as int) == v)
    &&& forall|k: int| 0 <= k < result.len() ==> reach(raw, v, start, #[trigger] result[k])
    &&& forall|x: int, y: int|
        0 <= x < raw.spec_width() && 0 <= y < raw.spec_height() ==> #[trigger] visited.spec_at(x, y)
            == result.contains((((x as usize), (y as usize))))
    &&& forall|k: int| 0 <= k < work.len() ==> result.contains(#[trigger] work[k])
}

/// The closure part of the invariant, with one coordinate exempted (the
/// codel whose neighbors are being probed right now).
spec fn ff_closed_except(
    raw: Grid<RawCodel>,
    v: RawCodel,
    result: Seq<(usize, usize)>,
    work: Seq<(usize, usize)>,
    ex: (usize, usize),
    use_ex: bool,
) -> bool {
    forall|k: int, b: (usize, usize)|
        0 <= k < result.len() && #[trigger] adjacent(result[k], b) && !work.contains(result[k]) && !(
        use_ex && result[k] == ex) && b.0 < raw.spec_width() && b.1 < raw.spec_height()
            && raw.spec_at(b.0 as int, b.1 as int) == v ==> result.contains(b)
}

/// Probes one neighbor of `from` during a flood fill, growing the region
/// by that neighbor when it carries the same value and is not yet a member.
fn visit_neighbor(
    raw: &Grid<RawCodel>,
    value: RawCodel,
    visited: &mut Grid<bool>,
    result: &mut Vec<(usize, usize)>,
    work: &mut Vec<(usize, usize)>,
    from: (usize, usize),
    d: Direction,
    start: Ghost<(usize, usize)>,
)
    requires
        ff_inv(*raw, value, start@, *old(visited), old(result)@, old(work)@),
        ff_closed_except(*raw, value, old(result)@, old(work)@, from, true),
        from.0 < raw.spec_width(),
        from.1 < raw.spec_height(),
        old(result)@.contains(from),
    ensures
        ff_inv(*raw, value, start@, *final(visited), final(result)@, final(work)@),
        ff_closed_except(*raw, value, final(result)@, final(work)@, from, true),
        old(result)@.is_prefix_of(final(result)@),
        old(work)@.is_prefix_of(final(work)@),
        (final(result)@ == old(result)@ && final(work)@ == old(work)@) || (final(result)@.len()
            == old(result)@.len() + 1 && final(work)@.len() == old(work)@.len() + 1),
        match d.spec_go(from, (((raw.spec_width() as usize), (raw.spec_height() as usize)))) {
            Some(n) => raw.spec_at(n.0 as int, n.1 as int) == value ==> final(result)@.contains(n),
            None => true,
        },
{
    let size: (usize, usize) = raw.size();
    match d.go(from, size) {
        None => {}
        Some(n) => {
            if raw.at(n.0, n.1) == value {
                if !visited.at(n.0, n.1) {
                    visited.put(n.0, n.1, true);
                    result.push(n);
                    work.push(n);
                    proof {
                        let r0 = old(result)@;
                        let r1 = result@;
                        assert(!r0.contains(n));
                        assert(r0.is_prefix_of(r1)) by {
                            assert(r1.subrange(0, r0.len() as int) =~= r0);
                        }
                        assert(old(work)@.is_prefix_of(work@)) by {
                            assert(work@.subrange(0, old(work)@.len() as int) =~= old(work)@);
                        }
                        assert forall|k: int|
                            0 <= k < work@.len() implies r1.contains(#[trigger] work@[k]) by {
                            if k < old(work)@.len() {
                                assert(old(result)@.contains(old(work)@[k]));
                                lemma_prefix_contains(r0, r1, old(work)@[k]);
                                assert(work@[k] == old(work)@[k]);
                            } else {
                                assert(work@[k] == n);
                                assert(r1[r1.len() - 1] == n);
                            }
                        }
                        assert(r1.no_duplicates()) by {
                            assert forall|i: int, j: int|
                                0 <= i < r1.len() && 0 <= j < r1.len() && i != j implies r1[i]
                                != r1[j] by {
                                if i < r0.len() && j < r0.len() {
                                    assert(r0[i] != r0[j]);
                                } else if i < r0.len() {
                                    assert(r0.contains(r0[i]));
                                } else if j < r0.len() {
                                    assert(r0.contains(r0[j]));
                                }
                            }
                        }
                        assert(reach(*raw, value, start@, from));
                        lemma_reach_step(*raw, value, start@, from, n);
                        assert forall|x: int, y: int|
                            0 <= x < raw.spec_width() && 0 <= y
                                < raw.spec_height() implies #[trigger] visited.spec_at(x, y)
                            == r1.contains((((x as usize), (y as usize)))) by {
                            let c = ((x as usize), (y as usize));
                            if c == n {
                                assert(r1[r1.len() - 1] == n);
                                assert(r1.contains(c));
                            } else {
                                assert(r1.contains(c) == r0.contains(c)) by {
                                    if r0.contains(c) {
                                        let i = choose|i: int|
                                            0 <= i < r0.len() && r0[i] == c;
                                        assert(r1[i] == c);
                                    } else if r1.contains(c) {
                                        let i = choose|i: int|
                                            0 <= i < r1.len() && r1[i] == c;
                                        assert(i < r0.len());
                                    }
                                }
                            }
                        }
                        assert forall|k: int|
                            0 <= k < result@.len() implies reach(
                            *raw,
                            value,
                            start@,
                            #[trigger] result@[k],
                        ) by {
                            if k < r0.len() {
                                assert(reach(*raw, value, start@, r0[k]));
                            }
                        }
                        assert(ff_closed_except(
                            *raw,
                            value,
                            result@,
                            work@,
                            from,
                            true,
                        )) by {
                            assert forall|k: int, b: (usize, usize)|
                                0 <= k < r1.len() && #[trigger] adjacent(r1[k], b)
                                    && !work@.contains(r1[k]) && !(r1[k] == from) && b.0
                                    < raw.spec_width() && b.1 < raw.spec_height() && raw.spec_at(
                                    b.0 as int,
                                    b.1 as int,
                                ) == value implies r1.contains(b) by {
                                assert(work@[work@.len() - 1] == n);
                                assert(work@.contains(n));
                                if k < r0.len() {
                                    assert(!old(work)@.contains(r0[k])) by {
                                        if old(work)@.contains(r0[k]) {
                                            let i = choose|i: int|
                                                0 <= i < old(work)@.len() && old(work)@[i] == r0[k];
                                            assert(work@[i] == r0[k]);
                                        }
                                    }
                                    assert(r0.contains(b));
                                    let i = choose|i: int| 0 <= i < r0.len() && r0[i] == b;
                                    assert(r1[i] == b);
                                } else {
                                    assert(r1[k] == n);
                                }
                            }
                        }
                    }
                } else {
                    proof {
                        assert(result@.contains(n));
                    }
                }
            }
        }
    }
}

/// The maximal 4-connected region of codels sharing the raw value at
/// `start`, collected with an explicit work list. The result lists
/// distinct in-bounds coordinates, starts with `start`, contains only
/// codels of that value, is closed under same-value adjacency (so it is
/// the whole region), and every member is 4-connected to `start`.
pub fn flood_fill(raw: &Grid<RawCodel>, start: (usize, usize)) -> (r: Vec<(usize, usize)>)
    requires
        raw.wf(),
        start.0 < raw.spec_width(),
        start.1 < raw.spec_height(),
    ensures
        r@.len() >= 1 && r@[0] == start,
        r@.no_duplicates(),
        r@.len() <= raw.spec_width() * raw.spec_height(),
        forall|k: int|
            0 <= k < r@.len() ==> ((#[trigger] r@[k]).0 < raw.spec_width() && r@[k].1
                < raw.spec_height() && raw.spec_at(r@[k].0 as int, r@[k].1 as int) == raw.spec_at(
                start.0 as int,
                start.1 as int,
            )),
        region_closed(*raw, raw.spec_at(start.0 as int, start.1 as int), r@),
        forall|k: int|
            0 <= k < r@.len() ==> reach(
                *raw,
                raw.spec_at(start.0 as int, start.1 as int),
                start,
                #[trigger] r@[k],
            ),
{
    let size: (usize, usize) = raw.size();
    let value: RawCodel = raw.at(start.0, start.1);
    proof {
        crate::grid::lemma_area_bound(*raw);
    }
    let mut visited: Grid<bool> = Grid::new(size.0, size.1, false);
    let mut result: Vec<(usize, usize)> = Vec::new();
    let mut work: Vec<(usize, usize)> = Vec::new();
    visited.put(start.0, start.1, true);
    result.push(start);
    work.push(start);
    proof {
        let p = seq![start];
        assert(is_path(*raw, value, p) && p[0] == start && p.last() == start);
        assert(reach(*raw, value, start, start));
        assert(result@ == seq![start]);
        assert forall|x: int, y: int|
            0 <= x < raw.spec_width() && 0 <= y < raw.spec_height() implies #[trigger
        ] visited.spec_at(x, y) == result@.contains((((x as usize), (y as usize)))) by {
            let c = ((x as usize), (y as usize));
            if c == start {
                assert(result@[0] == c);
            } else {
                if result@.contains(c) {
                    let i = choose|i: int| 0 <= i < result@.len() && result@[i] == c;
                    assert(i == 0);
                }
            }
        }
    }
    while work.len() > 0
        invariant
            raw.wf(),
            size.0 == raw.spec_width(),
            size.1 == raw.spec_height(),
            value == raw.spec_at(start.0 as int, start.1 as int),
            ff_inv(*raw, value, start, visited, result@, work@),
            ff_closed_except(*raw, value, result@, work@, start, false),
        decreases raw.spec_width() * raw.spec_height() - result@.len(), work@.len(),
    {
        proof {
            crate::util::lemma_distinct_coords_len(
                result@,
                raw.spec_width(),
                raw.spec_height(),
            );
        }
        let ghost work0 = work@;
        let ghost result0 = result@;
        let xy: (usize, usize) = match work.pop() {
            Some(v) => v,
            None => (0, 0),
        };
        proof {
            assert(result@.contains(xy));
            let i = choose|i: int| 0 <= i < result@.len() && result@[i] == xy;
            assert(result@[i] == xy);
            assert(ff_closed_except(*raw, value, result@, work@, xy, true)) by {
                assert forall|k: int, b: (usize, usize)|
                    0 <= k < result@.len() && #[trigger] adjacent(result@[k], b)
                        && !work@.contains(result@[k]) && !(result@[k] == xy) && b.0
                        < raw.spec_width() && b.1 < raw.spec_height() && raw.spec_at(
                        b.0 as int,
                        b.1 as int,
                    ) == value implies result@.contains(b) by {
                    assert(!work0.contains(result@[k])) by {
                        if work0.contains(result@[k]) {
                            let j = choose|j: int|
                                0 <= j < work0.len() && work0[j] == result@[k];
                            if j < work0.len() - 1 {
                                assert(work@[j] == result@[k]);
                            } else {
                                assert(work0[j] == xy);
                            }
                        }
                    }
                }
            }
        }
        visit_neighbor(raw, value, &mut visited, &mut result, &mut work, xy, Direction::Up, Ghost(start));
        let ghost ra = result@;
        visit_neighbor(raw, value, &mut visited, &mut result, &mut work, xy, Direction::Right, Ghost(start));
        let ghost rb = result@;
        visit_neighbor(raw, value, &mut visited, &mut result, &mut work, xy, Direction::Down, Ghost(start));
        let ghost rc = result@;
        visit_neighbor(raw, value, &mut visited, &mut result, &mut work, xy, Direction::Left, Ghost(start));
        proof {
            let sz = ((raw.spec_width() as usize), (raw.spec_height() as usize));
            assert(size == sz);
            assert(ra.is_prefix_of(result@) && rb.is_prefix_of(result@) && rc.is_prefix_of(
                result@,
            )) by {
                lemma_prefix_trans(ra, rb, rc, result@);
            }
            assert(ff_closed_except(*raw, value, result@, work@, start, false)) by {
                assert forall|k: int, b: (usize, usize)|
                    0 <= k < result@.len() && #[trigger] adjacent(result@[k], b)
                        && !work@.contains(result@[k]) && b.0 < raw.spec_width() && b.1
                        < raw.spec_height() && raw.spec_at(b.0 as int, b.1 as int)
                        == value implies result@.contains(b) by {
                    if result@[k] == xy {
                        crate::util::lemma_adjacent_go(xy, b, size);
                        if Direction::Up.spec_go(xy, sz) == Some(b) {
                            lemma_prefix_contains(ra, result@, b);
                        } else if Direction::Right.spec_go(xy, sz) == Some(b) {
                            lemma_prefix_contains(rb, result@, b);
                        } else if Direction::Down.spec_go(xy, sz) == Some(b) {
                            lemma_prefix_contains(rc, result@, b);
                        }
                    }
                }
            }
            if result@.len() == result0.len() {
                assert(work@.len() == work0.len() - 1);
            }
            crate::util::lemma_distinct_coords_len(
                result@,
                raw.spec_width(),
                raw.spec_height(),
            );
        }
    }
    proof {
        crate::util::lemma_distinct_coords_len(result@, raw.spec_width(), raw.spec_height());
        assert(region_closed(*raw, value, result@));
    }
    result
}

/// How one program cell must relate to the classified codel under it:
/// white stays white, black stays black, and a colored codel lies in a
/// block of its own color.
pub open spec fn parse_cell_ok(p: Program, raw: Grid<RawCodel>, x: int, y: int) -> bool {
    cell_matches(p, raw.spec_at(x, y), x, y)
}

/// The row-major scan position of a coordinate on a `w`-wide grid.
pub open spec fn scan_index(w: int, c: (usize, usize)) -> int {
    c.1 * w + c.0
}

/// A coordinate with a smaller scan position lies strictly earlier in the
/// row-major scan.
proof fn lemma_scan_order(w: int, x: int, y: int, q: (usize, usize))
    by (nonlinear_arith)
    requires
        0 <= x < w,
        0 <= y,
        q.0 < w,
        (q.1 as int) * w + q.0 < y * w + x,
    ensures
        q.1 < y || (q.1 == y && q.0 < x),
{
}

/// One finished block against the classified and segmented grids: its
/// members are distinct in-bounds codels of the block's color, each cell
/// names the block, and the member set is closed under same-color
/// adjacency (the block is maximal) and 4-connected to its first member.
spec fn seg_block_ok(
    raw: Grid<RawCodel>,
    grid: Grid<Codel>,
    blocks: Seq<ColorBlock>,
    i: int,
) -> bool {
    let b = blocks[i];
    &&& b.codels@.len() >= 1
    &&& b.codels@.no_duplicates()
    &&& b.codels@.len() <= raw.spec_width() * raw.spec_height()
    &&& forall|k: int|
        0 <= k < b.codels@.len() ==> {
            let c = #[trigger] b.codels@[k];
            c.0 < raw.spec_width() && c.1 < raw.spec_height() && grid.spec_at(
                c.0 as int,
                c.1 as int,
            ) == Codel::ColorBlock(i as usize) && raw.spec_at(c.0 as int, c.1 as int)
                == RawCodel::Color(b.color)
        }
    &&& region_closed(raw, RawCodel::Color(b.color), b.codels@)
    &&& forall|k: int|
        0 <= k < b.codels@.len() ==> scan_index(raw.spec_width(), b.codels@[0]) <= scan_index(
            raw.spec_width(),
            #[trigger] b.codels@[k],
        )
    &&& forall|k: int|
        0 <= k < b.codels@.len() ==> reach(
            raw,
            RawCodel::Color(b.color),
            b.codels@[0],
            #[trigger] b.codels@[k],
        )
}

/// The running segmentation invariant: every finished block is consistent,
/// and every grid cell backs its claim (a block reference lies in that
/// block, black cells cover black codels).
spec fn seg_inv(raw: Grid<RawCodel>, grid: Grid<Codel>, blocks: Seq<ColorBlock>) -> bool {
    &&& raw.wf()
    &&& grid.wf()
    &&& grid.spec_width() == raw.spec_width()
    &&& grid.spec_height() == raw.spec_height()
    &&& forall|i: int| 0 <= i < blocks.len() ==> #[trigger] seg_block_ok(raw, grid, blocks, i)
    &&& forall|x: int, y: int|
        0 <= x < raw.spec_width() && 0 <= y < raw.spec_height() ==> match #[trigger] grid.spec_at(
            x,
            y,
        ) {
            Codel::ColorBlock(id) => id < blocks.len() && blocks[id as int].codels@.contains(
                (((x as usize), (y as usize))),
            ),
            Codel::Black => raw.spec_at(x, y) == RawCodel::Black,
            Codel::White => true,
        }
}

/// A scanned cell's final state: black codels are marked black, colored
/// codels sit in some block.
spec fn cell_done(raw: Grid<RawCodel>, grid: Grid<Codel>, x: int, y: int) -> bool {
    match raw.spec_at(x, y) {
        RawCodel::Black => grid.spec_at(x, y) == Codel::Black,
        RawCodel::Color(_) => grid.spec_at(x, y) matches Codel::ColorBlock(_),
        RawCodel::White => true,
    }
}

/// Segments a classified grid into a program: a row-major scan marks black
/// codels and flood-fills each not-yet-assigned colored codel into a new
/// block with a fresh sequential id. The result partitions the colored
/// coordinates into maximal 4-connected one-color blocks; white and black
/// codels stay outside every block.
pub fn parse(raw: &Grid<RawCodel>) -> (p: Program)
    requires
        raw.wf(),
        raw.spec_width() * raw.spec_height() <= i64::MAX,
    ensures
        p.wf(),
        p.grid.spec_width() == raw.spec_width(),
        p.grid.spec_height() == raw.spec_height(),
        forall|x: int, y: int|
            0 <= x < raw.spec_width() && 0 <= y < raw.spec_height() ==> #[trigger] parse_cell_ok(
                p,
                *raw,
                x,
                y,
            ),
        forall|i: int|
            0 <= i < p.blocks@.len() ==> region_closed(
                *raw,
                RawCodel::Color((#[trigger] p.blocks@[i]).color),
                p.blocks@[i].codels@,
            ),
        forall|i: int, k: int|
            0 <= i < p.blocks@.len() && 0 <= k < p.blocks@[i].codels@.len() ==> {
                let c = #[trigger] p.blocks@[i].codels@[k];
                raw.spec_at(c.0 as int, c.1 as int) == RawCodel::Color(p.blocks@[i].color)
                    && reach(
                    *raw,
                    RawCodel::Color(p.blocks@[i].color),
                    p.blocks@[i].codels@[0],
                    c,
                ) && scan_index(raw.spec_width(), p.blocks@[i].codels@[0]) <= scan_index(
                    raw.spec_width(),
                    c,
                )
            },
        forall|i: int, j: int|
            0 <= i < j < p.blocks@.len() ==> scan_index(
                raw.spec_width(),
                (#[trigger] p.blocks@[i]).codels@[0],
            ) < scan_index(raw.spec_width(), (#[trigger] p.blocks@[j]).codels@[0]),
{
    let size: (usize, usize) = raw.size();
    let (w, h): (usize, usize) = size;
    proof {
        crate::grid::lemma_area_bound(*raw);
    }
    let mut blocks: Vec<ColorBlock> = Vec::new();
    let mut grid: Grid<Codel> = Grid::new(w, h, Codel::White);
    let mut y: usize = 0;
    while y < h
        invariant
            raw.wf(),
            w == raw.spec_width(),
            h == raw.spec_height(),
            y <= h,
            seg_inv(*raw, grid, blocks@),
            forall|xx: int, yy: int|
                0 <= xx < w && 0 <= yy < y ==> #[trigger] cell_done(*raw, grid, xx, yy),
            forall|i: int|
                0 <= i < blocks@.len() ==> scan_index(w as int, (#[trigger] blocks@[i]).codels@[0])
                    < (y as int) * (w as int),
            forall|i: int, j: int|
                0 <= i < j < blocks@.len() ==> scan_index(
                    w as int,
                    (#[trigger] blocks@[i]).codels@[0],
                ) < scan_index(w as int, (#[trigger] blocks@[j]).codels@[0]),
        decreases h - y,
    {
        let mut x: usize = 0;
        while x < w
            invariant
                raw.wf(),
                w == raw.spec_width(),
                h == raw.spec_height(),
                x <= w,
                y < h,
                seg_inv(*raw, grid, blocks@),
                forall|xx: int, yy: int|
                    0 <= xx < w && 0 <= yy < y ==> #[trigger] cell_done(*raw, grid, xx, yy),
                forall|xx: int| 0 <= xx < x ==> #[trigger] cell_done(*raw, grid, xx, y as int),
                forall|i: int|
                    0 <= i < blocks@.len() ==> scan_index(
                        w as int,
                        (#[trigger] blocks@[i]).codels@[0],
                    ) < (y as int) * (w as int) + x,
                forall|i: int, j: int|
                    0 <= i < j < blocks@.len() ==> scan_index(
                        w as int,
                        (#[trigger] blocks@[i]).codels@[0],
                    ) < scan_index(w as int, (#[trigger] blocks@[j]).codels@[0]),
            decreases w - x,
        {
            let cell: Codel = grid.at(x, y);
            if cell == Codel::White {
                match raw.at(x, y) {
                    RawCodel::White => {}
                    RawCodel::Black => {
                        let ghost g0 = grid;
                        grid.put(x, y, Codel::Black);
                        proof {
                            assert forall|i: int|
                                0 <= i < blocks@.len() implies #[trigger] seg_block_ok(
                                *raw,
                                grid,
                                blocks@,
                                i,
                            ) by {
                                assert(seg_block_ok(*raw, g0, blocks@, i));
                                assert forall|k: int|
                                    0 <= k < blocks@[i].codels@.len() implies {
                                    let m = #[trigger] blocks@[i].codels@[k];
                                    grid.spec_at(m.0 as int, m.1 as int) == Codel::ColorBlock(
                                        i as usize,
                                    )
                                } by {
                                    let m = blocks@[i].codels@[k];
                                    assert(g0.spec_at(m.0 as int, m.1 as int)
                                        == Codel::ColorBlock(i as usize));
                                }
                            }
                            assert forall|xx: int, yy: int|
                                0 <= xx < w && ((0 <= yy < y) || (yy == y && 0 <= xx
                                    <= x)) implies #[trigger] cell_done(*raw, grid, xx, yy) by {
                                if !(xx == x && yy == y) {
                                    assert(cell_done(*raw, g0, xx, yy));
                                    assert(grid.spec_at(xx, yy) == g0.spec_at(xx, yy));
                                }
                            }
                        }
                    }
                    RawCodel::Color(c) => {
                        let codels: Vec<(usize, usize)> = flood_fill(raw, (x, y));
                        let ghost v = RawCodel::Color(c);
                        // Every freshly collected codel is still unassigned:
                        // were one inside an existing block, that block's
                        // closure would drag the start codel in too, yet the
                        // start codel is white in the output grid.
                        proof {
                            assert forall|k: int|
                                0 <= k < codels@.len() implies grid.spec_at(
                                (#[trigger] codels@[k]).0 as int,
                                codels@[k].1 as int,
                            ) == Codel::White by {
                                let q = codels@[k];
                                match grid.spec_at(q.0 as int, q.1 as int) {
                                    Codel::ColorBlock(id) => {
                                        assert(seg_block_ok(*raw, grid, blocks@, id as int));
                                        assert(blocks@[id as int].codels@.contains(q));
                                        assert(raw.spec_at(q.0 as int, q.1 as int) == v);
                                        assert(raw.spec_at(q.0 as int, q.1 as int)
                                            == RawCodel::Color(blocks@[id as int].color));
                                        assert(reach(*raw, v, (x, y), q));
                                        let pth = choose|pth: Seq<(usize, usize)>|
                                            is_path(*raw, v, pth) && pth[0] == (x, y) && pth.last()
                                                == q;
                                        lemma_path_into_closed(
                                            *raw,
                                            v,
                                            blocks@[id as int].codels@,
                                            pth,
                                        );
                                        assert(blocks@[id as int].codels@.contains((x, y)));
                                    }
                                    Codel::Black => {
                                        assert(raw.spec_at(q.0 as int, q.1 as int)
                                            == RawCodel::Black);
                                    }
                                    Codel::White => {}
                                }
                            }
                        }
                        let block_id: usize = blocks.len();
                        let ghost grid0 = grid;
                        let mut k: usize = 0;
                        while k < codels.len()
                            invariant
                                k <= codels@.len(),
                                raw.wf(),
                                w == raw.spec_width(),
                                h == raw.spec_height(),
                                grid.wf(),
                                grid.spec_width() == w,
                                grid.spec_height() == h,
                                codels@.no_duplicates(),
                                forall|j: int|
                                    0 <= j < codels@.len() ==> ((#[trigger] codels@[j]).0 < w
                                        && codels@[j].1 < h),
                                forall|j: int|
                                    0 <= j < k ==> grid.spec_at(
                                        (#[trigger] codels@[j]).0 as int,
                                        codels@[j].1 as int,
                                    ) == Codel::ColorBlock(block_id),
                                forall|j: int|
                                    k <= j < codels@.len() ==> grid.spec_at(
                                        (#[trigger] codels@[j]).0 as int,
                                        codels@[j].1 as int,
                                    ) == Codel::White,
                                forall|xx: int, yy: int|
                                    0 <= xx < w && 0 <= yy < h && !codels@.contains(
                                        (((xx as usize), (yy as usize))),
                                    ) ==> #[trigger] grid.spec_at(xx, yy) == grid0.spec_at(xx, yy),
                            decreases codels@.len() - k,
                        {
                            let q: (usize, usize) = codels[k];
                            grid.put(q.0, q.1, Codel::ColorBlock(block_id));
                            proof {
                                assert forall|j: int|
                                    k + 1 <= j < codels@.len() implies grid.spec_at(
                                    (#[trigger] codels@[j]).0 as int,
                                    codels@[j].1 as int,
                                ) == Codel::White by {
                                    assert(codels@[j] != codels@[k as int]);
                                }
                            }
                            k = k + 1;
                        }
                        let ghost cds = codels@;
                        let ghost blocks0 = blocks@;
                        blocks.push(ColorBlock { color: c, codels });
                        proof {
                            assert(blocks@.len() == blocks0.len() + 1);
                            assert(blocks@[block_id as int].codels@ == cds);
                            assert(blocks@[block_id as int].color == c);
                            assert(cds[0] == (x, y));
                            assert(scan_index(raw.spec_width(), cds[0]) == (y as int) * (
                            w as int) + x);
                            assert forall|k: int|
                                0 <= k < cds.len() implies scan_index(raw.spec_width(), cds[0])
                                <= scan_index(raw.spec_width(), #[trigger] cds[k]) by {
                                let q = cds[k];
                                if scan_index(raw.spec_width(), q) < (y as int) * (w as int)
                                    + x {
                                    lemma_scan_order(w as int, x as int, y as int, q);
                                    assert(cell_done(*raw, grid0, q.0 as int, q.1 as int));
                                    assert(raw.spec_at(q.0 as int, q.1 as int)
                                        == RawCodel::Color(c));
                                    assert(grid0.spec_at(q.0 as int, q.1 as int)
                                        == Codel::White);
                                }
                            }
                            assert forall|i: int|
                                0 <= i < blocks@.len() implies scan_index(
                                raw.spec_width(),
                                (#[trigger] blocks@[i]).codels@[0],
                            ) < (y as int) * (w as int) + x + 1 by {
                                if i < blocks0.len() {
                                    assert(blocks@[i] == blocks0[i]);
                                } else {
                                    assert(blocks@[i].codels@[0] == cds[0]);
                                }
                            }
                            assert forall|i: int|
                                0 <= i < blocks@.len() implies #[trigger] seg_block_ok(
                                *raw,
                                grid,
                                blocks@,
                                i,
                            ) by {
                                if i < blocks0.len() {
                                    assert(blocks@[i] == blocks0[i]);
                                    assert(seg_block_ok(*raw, grid0, blocks0, i));
                                    assert forall|k: int|
                                        0 <= k < blocks@[i].codels@.len() implies {
                                        let m = #[trigger] blocks@[i].codels@[k];
                                        grid.spec_at(m.0 as int, m.1 as int)
                                            == Codel::ColorBlock(i as usize)
                                    } by {
                                        let m = blocks@[i].codels@[k];
                                        if cds.contains(m) {
                                            let j = choose|j: int|
                                                0 <= j < cds.len() && cds[j] == m;
                                            assert(grid0.spec_at(
                                                cds[j].0 as int,
                                                cds[j].1 as int,
                                            ) == Codel::White);
                                        } else {
                                            assert(grid.spec_at(m.0 as int, m.1 as int)
                                                == grid0.spec_at(m.0 as int, m.1 as int));
                                        }
                                    }
                                } else {
                                    assert(i == block_id);
                                    assert forall|k: int|
                                        0 <= k < cds.len() implies {
                                        let m = #[trigger] cds[k];
                                        m.0 < raw.spec_width() && m.1 < raw.spec_height()
                                            && grid.spec_at(m.0 as int, m.1 as int)
                                            == Codel::ColorBlock(block_id) && raw.spec_at(
                                            m.0 as int,
                                            m.1 as int,
                                        ) == RawCodel::Color(c)
                                    } by {
                                        assert(raw.spec_at(cds[k].0 as int, cds[k].1 as int)
                                            == raw.spec_at(x as int, y as int));
                                    }
                                }
                            }
                            assert forall|xx: int, yy: int|
                                0 <= xx < raw.spec_width() && 0 <= yy
                                    < raw.spec_height() implies match #[trigger] grid.spec_at(
                                xx,
                                yy,
                            ) {
                                Codel::ColorBlock(id) => id < blocks@.len()
                                    && blocks@[id as int].codels@.contains(
                                    (((xx as usize), (yy as usize))),
                                ),
                                Codel::Black => raw.spec_at(xx, yy) == RawCodel::Black,
                                Codel::White => true,
                            } by {
                                let cc = ((xx as usize), (yy as usize));
                                if cds.contains(cc) {
                                    let j = choose|j: int| 0 <= j < cds.len() && cds[j] == cc;
                                    assert(grid.spec_at(cds[j].0 as int, cds[j].1 as int)
                                        == Codel::ColorBlock(block_id));
                                } else {
                                    assert(grid.spec_at(xx, yy) == grid0.spec_at(xx, yy));
                                    match grid0.spec_at(xx, yy) {
                                        Codel::ColorBlock(id) => {
                                            assert(blocks@[id as int] == blocks0[id as int]);
                                        }
                                        _ => {}
                                    }
                                }
                            }
                            assert forall|xx: int, yy: int|
                                0 <= xx < w && (yy < y || (yy == y && xx <= x)) && 0 <= yy implies
                                #[trigger] cell_done(*raw, grid, xx, yy) by {
                                if xx == x && yy == y {
                                    assert(cds.contains((x, y))) by {
                                        assert(cds[0] == (x, y));
                                    }
                                    let j = choose|j: int| 0 <= j < cds.len() && cds[j] == (x, y);
                                    assert(grid.spec_at(cds[j].0 as int, cds[j].1 as int)
                                        == Codel::ColorBlock(block_id));
                                } else {
                                    assert(cell_done(*raw, grid0, xx, yy));
                                    assert(!cds.contains((((xx as usize), (yy as usize))))
                                        ==> grid.spec_at(xx, yy) == grid0.spec_at(xx, yy));
                                    if cds.contains((((xx as usize), (yy as usize)))) {
                                        let j = choose|j: int|
                                            0 <= j < cds.len() && cds[j] == (((xx as usize), (
                                            yy as usize)));
                                        assert(grid.spec_at(cds[j].0 as int, cds[j].1 as int)
                                            == Codel::ColorBlock(block_id));
                                    }
                                }
                            }
                        }
                    }
                }
            } else {
                proof {
                    assert(cell_done(*raw, grid, x as int, y as int)) by {
                        match grid.spec_at(x as int, y as int) {
                            Codel::ColorBlock(id) => {
                                assert(seg_block_ok(*raw, grid, blocks@, id as int));
                                let m = ((x, y));
                                assert(blocks@[id as int].codels@.contains(m));
                                let j = choose|j: int|
                                    0 <= j < blocks@[id as int].codels@.len()
                                        && blocks@[id as int].codels@[j] == m;
                                assert(blocks@[id as int].codels@[j] == m);
                            }
                            _ => {}
                        }
                    }
                }
            }
            x = x + 1;
        }
        proof {
            assert(((y + 1) as int) * (w as int) == (y as int) * (w as int) + w)
                by (nonlinear_arith);
        }
        y = y + 1;
    }
    let p = Program { blocks, grid };
    proof {
        assert forall|i: int| 0 <= i < p.blocks@.len() implies #[trigger] p.block_wf(i) by {
            assert(seg_block_ok(*raw, p.grid, p.blocks@, i));
        }
        assert forall|i: int| 0 <= i < p.blocks@.len() implies region_closed(
            *raw,
            RawCodel::Color((#[trigger] p.blocks@[i]).color),
            p.blocks@[i].codels@,
        ) by {
            assert(seg_block_ok(*raw, p.grid, p.blocks@, i));
        }
        assert forall|x: int, y: int|
            0 <= x < raw.spec_width() && 0 <= y < raw.spec_height() implies #[trigger
        ] parse_cell_ok(p, *raw, x, y) by {
            assert(cell_done(*raw, p.grid, x, y));
            let cc = ((x as usize), (y as usize));
            match p.grid.spec_at(x, y) {
                Codel::ColorBlock(id) => {
                    assert(p.blocks@[id as int].codels@.contains(cc));
                    let j = choose|j: int|
                        0 <= j < p.blocks@[id as int].codels@.len() && p.blocks@[id as int].codels@[j]
                            == cc;
                    assert(seg_block_ok(*raw, p.grid, p.blocks@, id as int));
                    assert(p.blocks@[id as int].codels@[j] == cc);
                }
                _ => {}
            }
        }
        assert forall|i: int, k: int|
            0 <= i < p.blocks@.len() && 0 <= k < p.blocks@[i].codels@.len() implies {
            let c = #[trigger] p.blocks@[i].codels@[k];
            raw.spec_at(c.0 as int, c.1 as int) == RawCodel::Color(p.blocks@[i].color) && reach(
                *raw,
                RawCodel::Color(p.blocks@[i].color),
                p.blocks@[i].codels@[0],
                c,
            ) && scan_index(raw.spec_width(), p.blocks@[i].codels@[0]) <= scan_index(
                raw.spec_width(),
                c,
            )
        } by {
            assert(seg_block_ok(*raw, p.grid, p.blocks@, i));
            assert(scan_index(raw.spec_width(), p.blocks@[i].codels@[0]) <= scan_index(
                raw.spec_width(),
                p.blocks@[i].codels@[k],
            ));
        }
    }
    p
}

/// The classified codel for cell `(x, y)`: the pixel sampled every `cs`
/// pixels from a `w`-wide row-major pixel buffer, decoded, with anything
/// unrecognized coerced to white.
pub open spec fn spec_classified(pix: Seq<(u8, u8, u8)>, w: int, cs: int, x: int, y: int) -> RawCodel {
    let p = pix[(y * cs) * w + x * cs];
    match spec_decode(p.0, p.1, p.2) {
        Some(c) => c,
        None => RawCodel::White,
    }
}

/// A sampled pixel of an in-range cell lies inside its row.
proof fn lemma_sample_bound(xx: int, ww: int, cs: int, total: int)
    by (nonlinear_arith)
    requires
        0 <= xx < ww,
        1 <= cs,
        ww * cs <= total,
    ensures
        0 <= xx * cs,
        xx * cs + cs <= total,
{
}

/// Classifies every sampled pixel into the codel grid: one codel per
/// `codel_size` x `codel_size` pixel block, decided by its top-left pixel.
pub fn lex(width: u32, height: u32, pixels: &Vec<(u8, u8, u8)>, codel_size: u32) -> (g: Grid<
    RawCodel,
>)
    requires
        codel_size >= 1,
        pixels@.len() == width * height,
    ensures
        g.wf(),
        g.spec_width() == width as int / codel_size as int,
        g.spec_height() == height as int / codel_size as int,
        forall|x: int, y: int|
            0 <= x < g.spec_width() && 0 <= y < g.spec_height() ==> #[trigger] g.spec_at(x, y)
                == spec_classified(pixels@, width as int, codel_size as int, x, y),
{
    let w: u32 = width / codel_size;
    let h: u32 = height / codel_size;
    let wu: usize = w as usize;
    let hu: usize = h as usize;
    let total: usize = pixels.len();
    proof {
        assert(total == pixels@.len());
        vstd::arithmetic::div_mod::lemma_fundamental_div_mod(width as int, codel_size as int);
        vstd::arithmetic::div_mod::lemma_mod_bound(width as int, codel_size as int);
        vstd::arithmetic::div_mod::lemma_fundamental_div_mod(height as int, codel_size as int);
        vstd::arithmetic::div_mod::lemma_mod_bound(height as int, codel_size as int);
        crate::util::lemma_mul_commute(codel_size as int, w as int);
        crate::util::lemma_mul_commute(codel_size as int, h as int);
        vstd::arithmetic::div_mod::lemma_div_nonincreasing(width as int, codel_size as int);
        vstd::arithmetic::div_mod::lemma_div_nonincreasing(height as int, codel_size as int);
        vstd::arithmetic::mul::lemma_mul_upper_bound(
            w as int,
            width as int,
            h as int,
            height as int,
        );
    }
    let mut g: Grid<RawCodel> = Grid::new(wu, hu, RawCodel::White);
    let mut y: usize = 0;
    while y < hu
        invariant
            y <= hu,
            codel_size >= 1,
            pixels@.len() == width * height,
            pixels@.len() <= usize::MAX,
            wu == width as int / codel_size as int,
            hu == height as int / codel_size as int,
            (wu as int) * (codel_size as int) <= width,
            (hu as int) * (codel_size as int) <= height,
            g.wf(),
            g.spec_width() == wu,
            g.spec_height() == hu,
            forall|i: int, j: int|
                0 <= i < wu && 0 <= j < y ==> #[trigger] g.spec_at(i, j) == spec_classified(
                    pixels@,
                    width as int,
                    codel_size as int,
                    i,
                    j,
                ),
        decreases hu - y,
    {
        let mut x: usize = 0;
        while x < wu
            invariant
                x <= wu,
                y < hu,
                codel_size >= 1,
                pixels@.len() == width * height,
                pixels@.len() <= usize::MAX,
                wu == width as int / codel_size as int,
                hu == height as int / codel_size as int,
                (wu as int) * (codel_size as int) <= width,
                (hu as int) * (codel_size as int) <= height,
                g.wf(),
                g.spec_width() == wu,
                g.spec_height() == hu,
                forall|i: int, j: int|
                    0 <= i < wu && 0 <= j < y ==> #[trigger] g.spec_at(i, j) == spec_classified(
                        pixels@,
                        width as int,
                        codel_size as int,
                        i,
                        j,
                    ),
                forall|i: int|
                    0 <= i < x ==> #[trigger] g.spec_at(i, y as int) == spec_classified(
                        pixels@,
                        width as int,
                        codel_size as int,
                        i,
                        y as int,
                    ),
            decreases wu - x,
        {
            proof {
                lemma_sample_bound(x as int, wu as int, codel_size as int, width as int);
                lemma_sample_bound(y as int, hu as int, codel_size as int, height as int);
                crate::util::lemma_row_major_bound(
                    width as int,
                    height as int,
                    (x as int) * (codel_size as int),
                    (y as int) * (codel_size as int),
                );
            }
            let px: usize = x * (codel_size as usize);
            let py: usize = y * (codel_size as usize);
            let idx: usize = py * (width as usize) + px;
            let p: (u8, u8, u8) = pixels[idx];
            let cell: RawCodel = match RawCodel::decode(p.0, p.1, p.2) {
                Some(c) => c,
                None => RawCodel::White,
            };
            g.put(x, y, cell);
            x = x + 1;
        }
        y = y + 1;
    }
    g
}

/// What the image decoder yields for given bytes: the dimensions and the
/// row-major RGB pixels, or nothing for bytes that decode as no image.
pub uninterp spec fn decoded_image(data: Seq<u8>) -> Option<(u32, u32, Seq<(u8, u8, u8)>)>;

/// Relies on image::load_from_memory and image::DynamicImage::to_rgb8:
/// decoding is a pure function of the byte content, and a decoded image of
/// dimensions w x h stores exactly w * h pixels, which `pixels` walks in
/// row-major order.
#[verifier::external_body]
fn decode_image(data: &[u8]) -> (r: Option<(u32, u32, Vec<(u8, u8, u8)>)>)
    ensures
        match r {
            Some(t) => decoded_image(data@) == Some((t.0, t.1, t.2@)) && t.2@.len() == t.0 * t.1,
            None => decoded_image(data@) is None,
        },
{
    match image::load_from_memory(data) {
        Ok(img) => {
            let rgb = img.to_rgb8();
            let (w, h) = (rgb.width(), rgb.height());
            let pix = rgb.pixels().map(|p| (p.0[0], p.0[1], p.0[2])).collect();
            Some((w, h, pix))
        }
        Err(_) => None,
    }
}

/// How one program cell must stand to a given classified codel.
pub open spec fn cell_matches(p: Program, rc: RawCodel, x: int, y: int) -> bool {
    match rc {
        RawCodel::White => p.grid.spec_at(x, y) == Codel::White,
        RawCodel::Black => p.grid.spec_at(x, y) == Codel::Black,
        RawCodel::Color(c) => match p.grid.spec_at(x, y) {
            Codel::ColorBlock(id) => id < p.blocks@.len() && p.blocks@[id as int].color == c,
            _ => false,
        },
    }
}

/// Decodes image bytes and segments the sampled codel grid into a program.
/// `None` exactly when the bytes decode as no image, the image is smaller
/// than one codel, or the codel grid's area would overflow the engine's
/// operand range.
pub fn compile(data: &[u8], codel_size: u32) -> (r: Option<Program>)
    requires
        codel_size >= 1,
    ensures
        match decoded_image(data@) {
            Option::None => r is None,
            Option::Some(t) => {
                let cw = t.0 as int / codel_size as int;
                let ch = t.1 as int / codel_size as int;
                match r {
                    Some(p) => {
                        &&& cw >= 1 && ch >= 1 && cw * ch <= i64::MAX
                        &&& p.wf()
                        &&& p.grid.spec_width() == cw
                        &&& p.grid.spec_height() == ch
                        &&& forall|x: int, y: int|
                            0 <= x < cw && 0 <= y < ch ==> #[trigger] cell_matches(
                                p,
                                spec_classified(t.2, t.0 as int, codel_size as int, x, y),
                                x,
                                y,
                            )
                    },
                    None => cw < 1 || ch < 1 || cw * ch > i64::MAX,
                }
            },
        },
{
    match decode_image(data) {
        None => None,
        Some((w, h, pixels)) => {
            let cw: u32 = w / codel_size;
            let ch: u32 = h / codel_size;
            if cw == 0 || ch == 0 {
                return None;
            }
            proof {
                vstd::arithmetic::mul::lemma_mul_upper_bound(
                    cw as int,
                    u32::MAX as int,
                    ch as int,
                    u32::MAX as int,
                );
            }
            let area: u64 = (cw as u64) * (ch as u64);
            if area > (i64::MAX as u64) {
                return None;
            }
            let raw: Grid<RawCodel> = lex(w, h, &pixels, codel_size);
            let program: Program = parse(&raw);
            proof {
                assert forall|x: int, y: int|
                    0 <= x < cw && 0 <= y < ch implies #[trigger] cell_matches(
                    program,
                    spec_classified(pixels@, w as int, codel_size as int, x, y),
                    x,
                    y,
                ) by {
                    assert(parse_cell_ok(program, raw, x, y));
                    assert(raw.spec_at(x, y) == spec_classified(
                        pixels@,
                        w as int,
                        codel_size as int,
                        x,
                        y,
                    ));
                }
            }
            Some(program)
        }
    }
}

/// Prefix chains compose.
proof fn lemma_prefix_trans(
    a: Seq<(usize, usize)>,
    b: Seq<(usize, usize)>,
    c: Seq<(usize, usize)>,
    d: Seq<(usize, usize)>,
)
    requires
        a.is_prefix_of(b),
        b.is_prefix_of(c),
        c.is_prefix_of(d),
    ensures
        a.is_prefix_of(d),
        b.is_prefix_of(d),
{
}

/// Membership survives extension to a longer sequence.
proof fn lemma_prefix_contains(a: Seq<(usize, usize)>, b: Seq<(usize, usize)>, x: (usize, usize))
    requires
        a.is_prefix_of(b),
        a.contains(x),
    ensures
        b.contains(x),
{
    let i = choose|i: int| 0 <= i < a.len() && a[i] == x;
    assert(b[i] == x);
}

} // verus!
