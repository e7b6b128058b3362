//! Direction and rotation geometry for the execution cursor, and a small
//! row-major coordinate enumerator.

use vstd::prelude::*;

verus! {

/// A compass heading: the way the execution cursor faces.
#[derive(Debug, Copy, Clone, PartialEq, Eq, Structural)]
pub enum Direction {
    Up,
    Right,
    Down,
    Left,
}

/// The cursor's corner bias: which end of a tied far edge is chosen.
#[derive(Debug, Copy, Clone, PartialEq, Eq, Structural)]
pub enum Rotation {
    Counter,
    Clock,
}

impl Rotation {
    /// The opposite bias.
    pub open spec fn spec_flip(self) -> Rotation {
        match self {
            Rotation::Counter => Rotation::Clock,
            Rotation::Clock => Rotation::Counter,
        }
    }

    #[must_use]
    pub fn flip(&self) -> (r: Rotation)
        ensures
            r == self.spec_flip(),
    {
        match self {
            Rotation::Counter => Rotation::Clock,
            Rotation::Clock => Rotation::Counter,
        }
    }

    pub fn toggle(&mut self)
        ensures
            *final(self) == old(self).spec_flip(),
    {
        *self = self.flip();
    }
}

impl Direction {
    /// One quarter turn: `Clock` runs Up -> Right -> Down -> Left -> Up,
    /// `Counter` the other way round.
    pub open spec fn spec_turn(self, cc: Rotation) -> Direction {
        match cc {
            Rotation::Clock => match self {
                Direction::Up => Direction::Right,
                Direction::Right => Direction::Down,
                Direction::Down => Direction::Left,
                Direction::Left => Direction::Up,
            },
            Rotation::Counter => match self {
                Direction::Up => Direction::Left,
                Direction::Left => Direction::Down,
                Direction::Down => Direction::Right,
                Direction::Right => Direction::Up,
            },
        }
    }

    #[must_use]
    pub fn turn(&self, cc: Rotation) -> (r: Direction)
        ensures
            r == self.spec_turn(cc),
    {
        match cc {
            Rotation::Clock => match self {
                Direction::Up => Direction::Right,
                Direction::Right => Direction::Down,
                Direction::Down => Direction::Left,
                Direction::Left => Direction::Up,
            },
            Rotation::Counter => match self {
                Direction::Up => Direction::Left,
                Direction::Left => Direction::Down,
                Direction::Down => Direction::Right,
                Direction::Right => Direction::Up,
            },
        }
    }

    pub fn rotate(&mut self, rotation: Rotation)
        ensures
            *final(self) == old(self).spec_turn(rotation),
    {
        *self = self.turn(rotation);
    }

    /// Where one step in this direction leads from `pos` on a grid of
    /// `size.0` columns and `size.1` rows; `None` when it leaves the grid.
    pub open spec fn spec_go(self, pos: (usize, usize), size: (usize, usize)) -> Option<(
        usize,
        usize,
    )> {
        match self {
            Direction::Right => if pos.1 < size.1 && pos.0 + 1 < size.0 {
                Some((((pos.0 + 1) as usize), pos.1))
            } else {
                None
            },
            Direction::Down => if pos.0 < size.0 && pos.1 + 1 < size.1 {
                Some((pos.0, ((pos.1 + 1) as usize)))
            } else {
                None
            },
            Direction::Left => if pos.0 >= 1 && pos.0 - 1 < size.0 && pos.1 < size.1 {
                Some((((pos.0 - 1) as usize), pos.1))
            } else {
                None
            },
            Direction::Up => if pos.1 >= 1 && pos.1 - 1 < size.1 && pos.0 < size.0 {
                Some((pos.0, ((pos.1 - 1) as usize)))
            } else {
                None
            },
        }
    }

    pub fn go(&self, pos: (usize, usize), size: (usize, usize)) -> (r: Option<(usize, usize)>)
        ensures
            r == self.spec_go(pos, size),
    {
        let (x, y): (usize, usize) = pos;
        let (w, h): (usize, usize) = size;
        match self {
            Direction::Right => if y < h && x < w && w - x > 1 {
                Some((x + 1, y))
            } else {
                None
            },
            Direction::Down => if x < w && y < h && h - y > 1 {
                Some((x, y + 1))
            } else {
                None
            },
            Direction::Left => if x >= 1 && x - 1 < w && y < h {
                Some((x - 1, y))
            } else {
                None
            },
            Direction::Up => if y >= 1 && y - 1 < h && x < w {
                Some((x, y - 1))
            } else {
                None
            },
        }
    }

    /// The coordinate component this direction runs along: x for Left and
    /// Right, y for Up and Down.
    pub open spec fn spec_axis(self, c: (usize, usize)) -> usize {
        match self {
            Direction::Left | Direction::Right => c.0,
            Direction::Up | Direction::Down => c.1,
        }
    }

    pub fn axis(&self, c: (usize, usize)) -> (r: usize)
        ensures
            r == self.spec_axis(c),
    {
        match self {
            Direction::Left | Direction::Right => c.0,
            Direction::Up | Direction::Down => c.1,
        }
    }

    /// `a` lies strictly farther than `b` along this direction.
    pub open spec fn spec_prefers(self, a: (usize, usize), b: (usize, usize)) -> bool {
        match self {
            Direction::Right | Direction::Down => self.spec_axis(a) > self.spec_axis(b),
            Direction::Left | Direction::Up => self.spec_axis(a) < self.spec_axis(b),
        }
    }

    pub fn prefers(&self, a: (usize, usize), b: (usize, usize)) -> (r: bool)
        ensures
            r == self.spec_prefers(a, b),
    {
        match self {
            Direction::Right | Direction::Down => self.axis(a) > self.axis(b),
            Direction::Left | Direction::Up => self.axis(a) < self.axis(b),
        }
    }

    /// The first coordinate, in `coords` order, lying farthest along this
    /// direction (largest axis value for Right/Down, smallest for Left/Up).
    pub fn find_max(&self, coords: &Vec<(usize, usize)>) -> (r: (usize, usize))
        requires
            coords@.len() > 0,
        ensures
            forall|j: int| 0 <= j < coords@.len() ==> !self.spec_prefers(#[trigger] coords@[j], r),
            exists|i: int|
                0 <= i < coords@.len() && coords@[i] == r && (forall|j: int|
                    0 <= j < i ==> self.spec_prefers(r, #[trigger] coords@[j])),
    {
        let mut best: (usize, usize) = coords[0];
        let ghost mut best_i: int = 0;
        let mut k: usize = 1;
        while k < coords.len()
            invariant
                1 <= k <= coords@.len(),
                0 <= best_i < k,
                coords@[best_i] == best,
                forall|j: int| 0 <= j < k ==> !self.spec_prefers(#[trigger] coords@[j], best),
                forall|j: int| 0 <= j < best_i ==> self.spec_prefers(best, #[trigger] coords@[j]),
            decreases coords@.len() - k,
        {
            let c: (usize, usize) = coords[k];
            if self.prefers(c, best) {
                best = c;
                proof {
                    best_i = k as int;
                }
            }
            k = k + 1;
        }
        best
    }
}

/// The number of values in the half-open range from `a` to `b`: zero when
/// the range is reversed.
pub open spec fn range_len(a: usize, b: usize) -> int {
    if b >= a {
        b - a
    } else {
        0
    }
}

/// All pairs `(x, y)` with `x` in `xs` and `y` in `ys`, row-major: `y` varies
/// slowest, `x` fastest. A reversed range holds no values.
pub fn iter_2d(xs: core::ops::Range<usize>, ys: core::ops::Range<usize>) -> (r: Vec<
    (usize, usize),
>)
    requires
        range_len(xs.start, xs.end) * range_len(ys.start, ys.end) <= usize::MAX,
    ensures
        r@.len() == range_len(xs.start, xs.end) * range_len(ys.start, ys.end),
        forall|i: int, j: int|
            0 <= i < range_len(xs.start, xs.end) && 0 <= j < range_len(ys.start, ys.end)
                ==> #[trigger] r@[j * range_len(xs.start, xs.end) + i] == (
            ((xs.start + i) as usize),
            ((ys.start + j) as usize),
        ),
{
    let w: usize = if xs.end >= xs.start {
        xs.end - xs.start
    } else {
        0
    };
    let h: usize = if ys.end >= ys.start {
        ys.end - ys.start
    } else {
        0
    };
    let mut r: Vec<(usize, usize)> = Vec::new();
    let mut j: usize = 0;
    while j < h
        invariant
            j <= h,
            w == range_len(xs.start, xs.end),
            h == range_len(ys.start, ys.end),
            w * h <= usize::MAX,
            r@.len() == j * w,
            forall|ii: int, jj: int|
                0 <= ii < w && 0 <= jj < j ==> #[trigger] r@[jj * w + ii] == (
                ((xs.start + ii) as usize),
                ((ys.start + jj) as usize),
            ),
        decreases h - j,
    {
        let mut i: usize = 0;
        while i < w
            invariant
                i <= w,
                j < h,
                w == range_len(xs.start, xs.end),
                h == range_len(ys.start, ys.end),
                w * h <= usize::MAX,
                r@.len() == j * w + i,
                forall|ii: int, jj: int|
                    0 <= ii < w && 0 <= jj < j ==> #[trigger] r@[jj * w + ii] == (
                    ((xs.start + ii) as usize),
                    ((ys.start + jj) as usize),
                ),
                forall|ii: int|
                    0 <= ii < i ==> #[trigger] r@[j * w + ii] == (
                    ((xs.start + ii) as usize),
                    ((ys.start + j) as usize),
                ),
            decreases w - i,
        {
            proof {
                lemma_row_major_bound(w as int, h as int, i as int, j as int);
            }
            r.push((xs.start + i, ys.start + j));
            proof {
                assert forall|ii: int, jj: int| 0 <= ii < w && 0 <= jj < j implies #[trigger] r@[jj
                    * (w as int) + ii] == (((xs.start + ii) as usize), ((ys.start + jj) as usize)) by {
                    lemma_row_major_bound(w as int, j as int, ii, jj);
                }
            }
            i = i + 1;
        }
        proof {
            assert((j + 1) * (w as int) == j * (w as int) + w) by (nonlinear_arith);
            assert forall|ii: int, jj: int| 0 <= ii < w && 0 <= jj < j + 1 implies #[trigger] r@[jj
                * (w as int) + ii] == (((xs.start + ii) as usize), ((ys.start + jj) as usize)) by {
                if jj == j {
                    assert(jj * (w as int) + ii == j * (w as int) + ii);
                    assert(r@[j * (w as int) + ii] == (
                        ((xs.start + ii) as usize),
                        ((ys.start + j) as usize),
                    ));
                }
            }
        }
        j = j + 1;
    }
    proof {
        lemma_mul_commute(h as int, w as int);
    }
    r
}

/// Multiplication commutes; stated here so callers need no nonlinear solver.
pub proof fn lemma_mul_commute(a: int, b: int)
    by (nonlinear_arith)
    ensures
        a * b == b * a,
{
}

/// The byte length of a UTF-8 sequence, announced by its leading byte:
/// `None` for a byte that can lead no sequence.
pub open spec fn spec_utf8_len(lead: u8) -> Option<usize> {
    if lead < 0x80 {
        Some(1usize)
    } else if 0xC0 <= lead && lead <= 0xDF {
        Some(2usize)
    } else if 0xE0 <= lead && lead <= 0xEF {
        Some(3usize)
    } else if 0xF0 <= lead && lead <= 0xF7 {
        Some(4usize)
    } else {
        None
    }
}

/// The byte length of the UTF-8 sequence that `lead` begins.
pub fn utf8_len(lead: u8) -> (r: Option<usize>)
    ensures
        r == spec_utf8_len(lead),
{
    if lead < 0x80 {
        Some(1)
    } else if 0xC0 <= lead && lead <= 0xDF {
        Some(2)
    } else if 0xE0 <= lead && lead <= 0xEF {
        Some(3)
    } else if 0xF0 <= lead && lead <= 0xF7 {
        Some(4)
    } else {
        None
    }
}

/// A UTF-8 continuation byte.
pub open spec fn is_continuation(b: u8) -> bool {
    0x80 <= b && b <= 0xBF
}

/// The scalar value encoded by a UTF-8 sequence of one to four bytes,
/// read by positional arithmetic on the payload bits.
pub open spec fn spec_utf8_value(s: Seq<u8>) -> int {
    if s.len() == 1 {
        s[0] as int
    } else if s.len() == 2 {
        (s[0] - 0xC0) * 0x40 + (s[1] - 0x80)
    } else if s.len() == 3 {
        (s[0] - 0xE0) * 0x1000 + (s[1] - 0x80) * 0x40 + (s[2] - 0x80)
    } else {
        (s[0] - 0xF0) * 0x40000 + (s[1] - 0x80) * 0x1000 + (s[2] - 0x80) * 0x40 + (s[3] - 0x80)
    }
}

/// A well-formed UTF-8 sequence: the length its leading byte announces,
/// continuation bytes after it, the shortest possible encoding, and a
/// Unicode scalar value (no surrogates, nothing past 0x10FFFF).
pub open spec fn spec_utf8_wf(s: Seq<u8>) -> bool {
    &&& 1 <= s.len() <= 4
    &&& spec_utf8_len(s[0]) == Some(s.len() as usize)
    &&& forall|k: int| 1 <= k < s.len() ==> is_continuation(#[trigger] s[k])
    &&& (s.len() == 2 ==> spec_utf8_value(s) >= 0x80)
    &&& (s.len() == 3 ==> spec_utf8_value(s) >= 0x800)
    &&& (s.len() == 4 ==> spec_utf8_value(s) >= 0x10000)
    &&& crate::engine::valid_code_point(spec_utf8_value(s))
}

/// Decodes one UTF-8 character from the first `len` bytes of `buf`: its
/// Unicode scalar value, or `None` exactly when those bytes are not one
/// well-formed character.
pub fn decode_utf8_char(buf: [u8; 4], len: usize) -> (r: Option<u32>)
    requires
        1 <= len <= 4,
    ensures
        match r {
            Some(u) => spec_utf8_wf(buf@.take(len as int)) && u == spec_utf8_value(
                buf@.take(len as int),
            ),
            None => !spec_utf8_wf(buf@.take(len as int)),
        },
{
    let ghost s = buf@.take(len as int);
    proof {
        assert(s.len() == len);
        assert(forall|k: int| 0 <= k < len ==> #[trigger] s[k] == buf@[k]);
    }
    let b0: u8 = buf[0];
    if len == 1 {
        if b0 < 0x80 {
            Some(b0 as u32)
        } else {
            None
        }
    } else if len == 2 {
        let b1: u8 = buf[1];
        if 0xC0 <= b0 && b0 <= 0xDF && 0x80 <= b1 && b1 <= 0xBF {
            let v: u32 = ((b0 - 0xC0) as u32) * 0x40 + ((b1 - 0x80) as u32);
            if v >= 0x80 {
                Some(v)
            } else {
                None
            }
        } else {
            None
        }
    } else if len == 3 {
        let b1: u8 = buf[1];
        let b2: u8 = buf[2];
        if 0xE0 <= b0 && b0 <= 0xEF && 0x80 <= b1 && b1 <= 0xBF && 0x80 <= b2 && b2 <= 0xBF {
            let v: u32 = ((b0 - 0xE0) as u32) * 0x1000 + ((b1 - 0x80) as u32) * 0x40 + ((b2
                - 0x80) as u32);
            if v >= 0x800 && !(0xD800 <= v && v < 0xE000) {
                Some(v)
            } else {
                None
            }
        } else {
            None
        }
    } else {
        let b1: u8 = buf[1];
        let b2: u8 = buf[2];
        let b3: u8 = buf[3];
        if 0xF0 <= b0 && b0 <= 0xF7 && 0x80 <= b1 && b1 <= 0xBF && 0x80 <= b2 && b2 <= 0xBF
            && 0x80 <= b3 && b3 <= 0xBF {
            let v: u32 = ((b0 - 0xF0) as u32) * 0x40000 + ((b1 - 0x80) as u32) * 0x1000 + ((b2
                - 0x80) as u32) * 0x40 + ((b3 - 0x80) as u32);
            if 0x10000 <= v && v <= 0x10FFFF {
                Some(v)
            } else {
                None
            }
        } else {
            None
        }
    }
}

/// An ASCII decimal digit.
pub open spec fn is_digit(b: u8) -> bool {
    0x30 <= b && b <= 0x39
}

/// The value of a string of decimal digits, most significant first.
pub open spec fn spec_digits_value(ds: Seq<u8>) -> int
    decreases ds.len(),
{
    if ds.len() == 0 {
        0
    } else {
        spec_digits_value(ds.drop_last()) * 10 + (ds.last() - 0x30)
    }
}

/// The digit string of a decimal literal: everything after an optional
/// leading sign.
pub open spec fn spec_decimal_digits(s: Seq<u8>) -> Seq<u8> {
    if s.len() >= 1 && (s[0] == 0x2D || s[0] == 0x2B) {
        s.skip(1)
    } else {
        s
    }
}

/// A decimal integer literal: an optional sign, then at least one digit.
pub open spec fn spec_decimal_wf(s: Seq<u8>) -> bool {
    &&& spec_decimal_digits(s).len() >= 1
    &&& forall|k: int|
        0 <= k < spec_decimal_digits(s).len() ==> is_digit(#[trigger] spec_decimal_digits(s)[k])
}

/// The value a decimal literal denotes.
pub open spec fn spec_decimal_value(s: Seq<u8>) -> int {
    if s.len() >= 1 && s[0] == 0x2D {
        -spec_digits_value(spec_decimal_digits(s))
    } else {
        spec_digits_value(spec_decimal_digits(s))
    }
}

/// A digit string's value is never negative.
proof fn lemma_digits_nonneg(ds: Seq<u8>)
    requires
        forall|k: int| 0 <= k < ds.len() ==> is_digit(#[trigger] ds[k]),
    ensures
        spec_digits_value(ds) >= 0,
    decreases ds.len(),
{
    if ds.len() > 0 {
        lemma_digits_nonneg(ds.drop_last());
    }
}

/// Extending a digit string never shrinks its value.
proof fn lemma_digits_prefix_le(ds: Seq<u8>, j: int)
    requires
        0 <= j <= ds.len(),
        forall|k: int| 0 <= k < ds.len() ==> is_digit(#[trigger] ds[k]),
    ensures
        spec_digits_value(ds.take(j)) <= spec_digits_value(ds),
    decreases ds.len() - j,
{
    if j < ds.len() {
        lemma_digits_prefix_le(ds, j + 1);
        let t = ds.take(j + 1);
        assert(t.drop_last() =~= ds.take(j));
        assert(t.last() == ds[j]);
        lemma_digits_nonneg(ds.take(j));
        assert(spec_digits_value(ds.take(j)) * 10 >= spec_digits_value(ds.take(j)))
            by (nonlinear_arith)
            requires
                spec_digits_value(ds.take(j)) >= 0,
        ;
    } else {
        assert(ds.take(j) =~= ds);
    }
}

/// Parses a decimal integer literal: an optional `-` or `+` sign and at
/// least one digit, denoting a value an `i64` can hold; everything else is
/// `None`.
pub fn parse_decimal(s: &[u8]) -> (r: Option<i64>)
    ensures
        match r {
            Some(v) => spec_decimal_wf(s@) && i64::MIN <= spec_decimal_value(s@) <= i64::MAX && v
                == spec_decimal_value(s@),
            None => !spec_decimal_wf(s@) || spec_decimal_value(s@) > i64::MAX
                || spec_decimal_value(s@) < i64::MIN,
        },
{
    if s.len() == 0 {
        return None;
    }
    let neg: bool = s[0] == 0x2D;
    let start: usize = if neg || s[0] == 0x2B {
        1
    } else {
        0
    };
    if s.len() == start {
        return None;
    }
    let ghost ds = spec_decimal_digits(s@);
    proof {
        assert(ds =~= s@.skip(start as int));
    }
    let limit: u64 = if neg {
        9223372036854775808
    } else {
        9223372036854775807
    };
    let mut acc: u64 = 0;
    let mut k: usize = start;
    while k < s.len()
        invariant
            start <= k <= s@.len(),
            s@.len() >= 1,
            neg == (s@[0] == 0x2D),
            start == (if s@[0] == 0x2D || s@[0] == 0x2B {
                1int
            } else {
                0int
            }),
            ds == spec_decimal_digits(s@),
            ds =~= s@.skip(start as int),
            acc <= limit,
            limit == if neg {
                9223372036854775808u64
            } else {
                9223372036854775807u64
            },
            acc == spec_digits_value(ds.take(k - start)),
            forall|j: int| 0 <= j < k - start ==> is_digit(#[trigger] ds[j]),
        decreases s@.len() - k,
    {
        let b: u8 = s[k];
        proof {
            assert(ds[k - start] == s@[k as int]);
        }
        if !(0x30 <= b && b <= 0x39) {
            proof {
                assert(!is_digit(ds[k - start]));
            }
            return None;
        }
        let d: u64 = (b - 0x30) as u64;
        if acc > (limit - d) / 10 {
            proof {
                vstd::arithmetic::div_mod::lemma_fundamental_div_mod(
                    (limit - d) as int,
                    10,
                );
                vstd::arithmetic::div_mod::lemma_mod_bound((limit - d) as int, 10);
                assert(acc * 10 + d > limit) by (nonlinear_arith)
                    requires
                        acc >= ((limit - d) as int) / 10 + 1,
                        (limit - d) as int == 10 * (((limit - d) as int) / 10) + ((limit
                            - d) as int) % 10,
                        ((limit - d) as int) % 10 < 10,
                ;
                if spec_decimal_wf(s@) {
                    let t = ds.take(k - start + 1);
                    assert(t.drop_last() =~= ds.take(k - start));
                    assert(t.last() == ds[k - start]);
                    assert(spec_digits_value(t) == acc * 10 + d);
                    assert forall|j: int| 0 <= j < ds.len() implies is_digit(
                        #[trigger] ds[j],
                    ) by {
                        assert(is_digit(spec_decimal_digits(s@)[j]));
                    }
                    lemma_digits_prefix_le(ds, k - start + 1);
                    assert(spec_digits_value(ds) > limit);
                    if neg {
                        assert(s@[0] == 0x2D);
                        assert(spec_decimal_value(s@) == -spec_digits_value(ds));
                        assert(spec_decimal_value(s@) < i64::MIN);
                    } else {
                        assert(spec_decimal_value(s@) == spec_digits_value(ds));
                        assert(spec_decimal_value(s@) > i64::MAX);
                    }
                }
            }
            return None;
        }
        proof {
            vstd::arithmetic::div_mod::lemma_fundamental_div_mod((limit - d) as int, 10);
            vstd::arithmetic::div_mod::lemma_mod_bound((limit - d) as int, 10);
            assert(acc * 10 + d <= limit) by (nonlinear_arith)
                requires
                    acc <= ((limit - d) as int) / 10,
                    (limit - d) as int == 10 * (((limit - d) as int) / 10) + ((limit - d) as int)
                        % 10,
                    ((limit - d) as int) % 10 >= 0,
            ;
            let t = ds.take(k - start + 1);
            assert(t.drop_last() =~= ds.take(k - start));
            assert(t.last() == ds[k - start]);
        }
        acc = acc * 10 + d;
        k = k + 1;
    }
    proof {
        assert(ds.take(ds.len() as int) =~= ds);
        assert(acc == spec_digits_value(ds));
        assert(spec_decimal_wf(s@));
    }
    if neg {
        if acc == 9223372036854775808 {
            Some(i64::MIN)
        } else {
            Some(-(acc as i64))
        }
    } else {
        Some(acc as i64)
    }
}

/// `a` and `b` are 4-neighbors: they differ by one in exactly one
/// coordinate.
pub open spec fn adjacent(a: (usize, usize), b: (usize, usize)) -> bool {
    (a.0 == b.0 && (a.1 + 1 == b.1 || b.1 + 1 == a.1)) || (a.1 == b.1 && (a.0 + 1 == b.0 || b.0 + 1
        == a.0))
}

/// An in-bounds 4-neighbor is one step away in one of the four directions.
pub proof fn lemma_adjacent_go(a: (usize, usize), b: (usize, usize), size: (usize, usize))
    requires
        adjacent(a, b),
        b.0 < size.0,
        b.1 < size.1,
        a.0 < size.0,
        a.1 < size.1,
    ensures
        Direction::Up.spec_go(a, size) == Some(b) || Direction::Right.spec_go(a, size) == Some(b)
            || Direction::Down.spec_go(a, size) == Some(b) || Direction::Left.spec_go(a, size)
            == Some(b),
{
}

/// A duplicate-free sequence of integers drawn from `[0, n)` has at most
/// `n` elements.
pub proof fn lemma_distinct_bounded_len(s: Seq<int>, n: int)
    requires
        s.no_duplicates(),
        0 <= n,
        forall|i: int| 0 <= i < s.len() ==> 0 <= #[trigger] s[i] < n,
    ensures
        s.len() <= n,
{
    s.unique_seq_to_set();
    vstd::set_lib::lemma_int_range(0, n);
    assert forall|x: int| s.to_set().contains(x) implies vstd::set_lib::set_int_range(
        0,
        n,
    ).contains(x) by {
        let i = choose|i: int| 0 <= i < s.len() && s[i] == x;
        assert(0 <= s[i] < n);
    }
    vstd::set_lib::lemma_len_subset(s.to_set(), vstd::set_lib::set_int_range(0, n));
}

/// A duplicate-free sequence of in-bounds coordinates has at most one entry
/// per grid cell.
pub proof fn lemma_distinct_coords_len(s: Seq<(usize, usize)>, w: int, h: int)
    requires
        s.no_duplicates(),
        0 <= w,
        0 <= h,
        forall|i: int| 0 <= i < s.len() ==> (#[trigger] s[i]).0 < w && s[i].1 < h,
    ensures
        s.len() <= w * h,
{
    let enc = s.map_values(|c: (usize, usize)| c.1 * w + c.0);
    assert(enc.len() == s.len());
    assert forall|i: int| 0 <= i < enc.len() implies 0 <= #[trigger] enc[i] < w * h by {
        lemma_row_major_bound(w, h, s[i].0 as int, s[i].1 as int);
    }
    assert(enc.no_duplicates()) by {
        assert forall|i: int, j: int|
            0 <= i < enc.len() && 0 <= j < enc.len() && i != j implies enc[i] != enc[j] by {
            if enc[i] == enc[j] {
                if s[i].0 == s[j].0 && s[i].1 == s[j].1 {
                    assert(s[i] == s[j]);
                } else {
                    crate::grid::lemma_row_major_injective(
                        w,
                        s[i].0 as int,
                        s[i].1 as int,
                        s[j].0 as int,
                        s[j].1 as int,
                    );
                }
            }
        }
    }
    lemma_distinct_bounded_len(enc, w * h);
}

/// Row-major position arithmetic: a cell inside the rectangle has a flat
/// index below the rectangle's area.
pub proof fn lemma_row_major_bound(w: int, h: int, x: int, y: int)
    by (nonlinear_arith)
    requires
        0 <= x < w,
        0 <= y < h,
    ensures
        0 <= y * w + x < w * h,
        y * w + x < h * w,
{
}

} // verus!
