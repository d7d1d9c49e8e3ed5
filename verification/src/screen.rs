//! The monochrome framebuffer: a fixed 64 x 32 grid of boolean pixels.
//! Sprite drawing XORs bits into the grid with coordinate wraparound and
//! reports whether any previously set pixel was turned off (collision).

use vstd::prelude::*;
use vstd::arithmetic::div_mod::{lemma_fundamental_div_mod, lemma_mod_bound};

use crate::config::{CHIP_8_HEIGHT, CHIP_8_WIDTH};

verus! {

/// Shape of the framebuffer: `CHIP_8_HEIGHT` rows of `CHIP_8_WIDTH` pixels.
pub open spec fn screen_wf(p: Seq<Seq<bool>>) -> bool {
    &&& p.len() == CHIP_8_HEIGHT
    &&& forall|r: int| 0 <= r < p.len() ==> (#[trigger] p[r]).len() == CHIP_8_WIDTH
}

/// The all-clear framebuffer.
pub open spec fn blank_screen() -> Seq<Seq<bool>> {
    Seq::new(CHIP_8_HEIGHT as nat, |r: int| Seq::new(CHIP_8_WIDTH as nat, |c: int| false))
}

/// Bit `lx` of a sprite row byte, counted from the most significant bit:
/// bit 0 is the leftmost pixel of the row.
pub open spec fn sprite_bit(b: u8, lx: int) -> bool {
    if lx == 0 {
        b & 0x80 != 0
    } else if lx == 1 {
        b & 0x40 != 0
    } else if lx == 2 {
        b & 0x20 != 0
    } else if lx == 3 {
        b & 0x10 != 0
    } else if lx == 4 {
        b & 0x08 != 0
    } else if lx == 5 {
        b & 0x04 != 0
    } else if lx == 6 {
        b & 0x02 != 0
    } else {
        b & 0x01 != 0
    }
}

/// Sprite cell (`ly`, `lx`) is a set bit that lands on screen cell (`r`, `c`)
/// when the sprite is drawn at (`x`, `y`); coordinates wrap at the screen
/// edges rather than clip.
pub open spec fn sprite_hits(x: int, y: int, sprite: Seq<u8>, ly: int, lx: int, r: int, c: int) -> bool {
    &&& 0 <= ly < sprite.len()
    &&& 0 <= lx < 8
    &&& sprite_bit(sprite[ly], lx)
    &&& r == (y + ly) % (CHIP_8_HEIGHT as int)
    &&& c == (x + lx) % (CHIP_8_WIDTH as int)
}

/// Some set bit of the sprite lands on screen cell (`r`, `c`).
pub open spec fn sprite_covers(x: int, y: int, sprite: Seq<u8>, r: int, c: int) -> bool {
    exists|ly: int, lx: int| #[trigger] sprite_hits(x, y, sprite, ly, lx, r, c)
}

/// Some set bit of the sprite, strictly before row `uy`, column `ux` in the
/// row-by-row, left-to-right drawing order, lands on screen cell (`r`, `c`).
pub open spec fn sprite_covers_before(
    x: int,
    y: int,
    sprite: Seq<u8>,
    uy: int,
    ux: int,
    r: int,
    c: int,
) -> bool {
    exists|ly: int, lx: int|
        (ly < uy || (ly == uy && lx < ux)) && #[trigger] sprite_hits(x, y, sprite, ly, lx, r, c)
}

/// The framebuffer after drawing the sprite at (`x`, `y`): every covered cell
/// is toggled, every other cell keeps its state.
pub open spec fn draw_sprite_spec(p: Seq<Seq<bool>>, x: int, y: int, sprite: Seq<u8>) -> Seq<
    Seq<bool>,
> {
    Seq::new(
        CHIP_8_HEIGHT as nat,
        |r: int|
            Seq::new(
                CHIP_8_WIDTH as nat,
                |c: int| p[r][c] != sprite_covers(x, y, sprite, r, c),
            ),
    )
}

/// Drawing the sprite at (`x`, `y`) turns off at least one pixel that was
/// already set.
pub open spec fn draw_sprite_collision(p: Seq<Seq<bool>>, x: int, y: int, sprite: Seq<u8>) -> bool {
    exists|r: int, c: int|
        0 <= r < CHIP_8_HEIGHT && 0 <= c < CHIP_8_WIDTH && #[trigger] sprite_covers(
            x,
            y,
            sprite,
            r,
            c,
        ) && p[r][c]
}

/// Collision restricted to the part of the sprite strictly before row `uy`,
/// column `ux`, read against the pre-draw framebuffer `p`.
pub open spec fn sprite_collides_before(
    p: Seq<Seq<bool>>,
    x: int,
    y: int,
    sprite: Seq<u8>,
    uy: int,
    ux: int,
) -> bool {
    exists|r: int, c: int|
        0 <= r < CHIP_8_HEIGHT && 0 <= c < CHIP_8_WIDTH && #[trigger] sprite_covers_before(
            x,
            y,
            sprite,
            uy,
            ux,
            r,
            c,
        ) && p[r][c]
}

/// Two in-range offsets that land on the same wrapped coordinate are equal:
/// the offsets stay below the modulus, so wrapping cannot identify them.
proof fn lemma_wrap_distinct(base: int, l1: int, l2: int, m: int)
    requires
        0 < m,
        0 <= base,
        0 <= l1 < m,
        0 <= l2 < m,
        (base + l1) % m == (base + l2) % m,
    ensures
        l1 == l2,
{
    let a = base + l1;
    let b = base + l2;
    lemma_fundamental_div_mod(a, m);
    lemma_fundamental_div_mod(b, m);
    let qa = a / m;
    let qb = b / m;
    assert(l1 - l2 == m * (qa - qb)) by (nonlinear_arith)
        requires
            a == m * qa + a % m,
            b == m * qb + b % m,
            a % m == b % m,
            a == base + l1,
            b == base + l2,
    ;
    assert(l1 == l2) by (nonlinear_arith)
        requires
            l1 - l2 == m * (qa - qb),
            -m < l1 - l2 < m,
            0 < m,
    ;
}

/// Equal covered-prefix predicates give equal prefix collision verdicts.
proof fn lemma_collides_before_iff(
    p: Seq<Seq<bool>>,
    x: int,
    y: int,
    sp: Seq<u8>,
    uy1: int,
    ux1: int,
    uy2: int,
    ux2: int,
)
    requires
        forall|r: int, c: int|
            0 <= r < CHIP_8_HEIGHT && 0 <= c < CHIP_8_WIDTH ==> (#[trigger] sprite_covers_before(
                x,
                y,
                sp,
                uy1,
                ux1,
                r,
                c,
            ) == sprite_covers_before(x, y, sp, uy2, ux2, r, c)),
    ensures
        sprite_collides_before(p, x, y, sp, uy1, ux1) == sprite_collides_before(
            p,
            x,
            y,
            sp,
            uy2,
            ux2,
        ),
{
    if sprite_collides_before(p, x, y, sp, uy1, ux1) {
        let (r, c) = choose|r: int, c: int|
            0 <= r < CHIP_8_HEIGHT && 0 <= c < CHIP_8_WIDTH && #[trigger] sprite_covers_before(
                x,
                y,
                sp,
                uy1,
                ux1,
                r,
                c,
            ) && p[r][c];
        assert(sprite_covers_before(x, y, sp, uy2, ux2, r, c) && p[r][c]);
    }
    if sprite_collides_before(p, x, y, sp, uy2, ux2) {
        let (r, c) = choose|r: int, c: int|
            0 <= r < CHIP_8_HEIGHT && 0 <= c < CHIP_8_WIDTH && #[trigger] sprite_covers_before(
                x,
                y,
                sp,
                uy2,
                ux2,
                r,
                c,
            ) && p[r][c];
        assert(sprite_covers_before(x, y, sp, uy1, ux1, r, c) && p[r][c]);
    }
}

/// Drawing a sprite twice at the same coordinates restores the framebuffer:
/// every covered cell is toggled twice. And the second draw reports a
/// collision exactly when the first draw turned some pixel on: the first
/// draw leaves a covered cell set precisely if it was unset before.
pub proof fn lemma_draw_sprite_twice(p: Seq<Seq<bool>>, x: int, y: int, sprite: Seq<u8>)
    requires
        screen_wf(p),
    ensures
        draw_sprite_spec(draw_sprite_spec(p, x, y, sprite), x, y, sprite) == p,
        draw_sprite_collision(draw_sprite_spec(p, x, y, sprite), x, y, sprite) == (exists|
            r: int,
            c: int,
        |
            0 <= r < CHIP_8_HEIGHT && 0 <= c < CHIP_8_WIDTH && #[trigger] sprite_covers(
                x,
                y,
                sprite,
                r,
                c,
            ) && !p[r][c]),
{
    let p1 = draw_sprite_spec(p, x, y, sprite);
    assert forall|r: int| 0 <= r < CHIP_8_HEIGHT implies draw_sprite_spec(p1, x, y, sprite)[r] =~= p[r] by {
    }
    assert(draw_sprite_spec(p1, x, y, sprite) =~= p);
    if draw_sprite_collision(p1, x, y, sprite) {
        let (r, c) = choose|r: int, c: int|
            0 <= r < CHIP_8_HEIGHT && 0 <= c < CHIP_8_WIDTH && #[trigger] sprite_covers(
                x,
                y,
                sprite,
                r,
                c,
            ) && p1[r][c];
        assert(p1[r][c] == !p[r][c]);
        assert(sprite_covers(x, y, sprite, r, c) && !p[r][c]);
    }
    if exists|r: int, c: int|
        0 <= r < CHIP_8_HEIGHT && 0 <= c < CHIP_8_WIDTH && #[trigger] sprite_covers(
            x,
            y,
            sprite,
            r,
            c,
        ) && !p[r][c] {
        let (r, c) = choose|r: int, c: int|
            0 <= r < CHIP_8_HEIGHT && 0 <= c < CHIP_8_WIDTH && #[trigger] sprite_covers(
                x,
                y,
                sprite,
                r,
                c,
            ) && !p[r][c];
        assert(p1[r][c]);
        assert(sprite_covers(x, y, sprite, r, c) && p1[r][c]);
    }
}

/// Test bit `lx` (from the most significant end) of a sprite row byte.
fn sprite_bit_set(b: u8, lx: usize) -> (r: bool)
    requires
        lx < 8,
    ensures
        r == sprite_bit(b, lx as int),
{
    if lx == 0 {
        b & 0x80 != 0
    } else if lx == 1 {
        b & 0x40 != 0
    } else if lx == 2 {
        b & 0x20 != 0
    } else if lx == 3 {
        b & 0x10 != 0
    } else if lx == 4 {
        b & 0x08 != 0
    } else if lx == 5 {
        b & 0x04 != 0
    } else if lx == 6 {
        b & 0x02 != 0
    } else {
        b & 0x01 != 0
    }
}

pub struct Chip8Screen {
    /// Row-major pixel storage: row `y` occupies indices
    /// `y * CHIP_8_WIDTH .. (y + 1) * CHIP_8_WIDTH`.
    pub pixels: Vec<bool>,
}

impl View for Chip8Screen {
    type V = Seq<Seq<bool>>;

    /// The framebuffer as a sequence of rows.
    open spec fn view(&self) -> Seq<Seq<bool>> {
        Seq::new(
            CHIP_8_HEIGHT as nat,
            |r: int| Seq::new(CHIP_8_WIDTH as nat, |c: int| self.pixels@[r * CHIP_8_WIDTH + c]),
        )
    }
}

impl Chip8Screen {
    /// Well-formedness: storage for the full pixel grid.
    pub open spec fn wf(&self) -> bool {
        self.pixels@.len() == CHIP_8_WIDTH * CHIP_8_HEIGHT
    }

    pub fn new() -> (r: Self)
        ensures
            r.wf(),
            r@ == blank_screen(),
    {
        let mut pixels: Vec<bool> = Vec::new();
        loop
            invariant
                pixels@.len() <= CHIP_8_WIDTH * CHIP_8_HEIGHT,
                forall|j: int| 0 <= j < pixels@.len() ==> pixels@[j] == false,
            ensures
                pixels@.len() == CHIP_8_WIDTH * CHIP_8_HEIGHT,
                forall|j: int| 0 <= j < pixels@.len() ==> pixels@[j] == false,
            decreases CHIP_8_WIDTH * CHIP_8_HEIGHT - pixels@.len(),
        {
            if pixels.len() >= CHIP_8_WIDTH * CHIP_8_HEIGHT {
                break;
            }
            pixels.push(false);
        }
        let r = Chip8Screen { pixels };
        proof {
            assert forall|row: int| 0 <= row < CHIP_8_HEIGHT implies r@[row] =~= blank_screen()[row] by {
            }
            assert(r@ =~= blank_screen());
        }
        r
    }

    /// Toggle (XOR) the pixel at column `x`, row `y`.
    pub fn set_screen(&mut self, x: usize, y: usize)
        requires
            old(self).wf(),
            x < CHIP_8_WIDTH,
            y < CHIP_8_HEIGHT,
        ensures
            final(self).wf(),
            final(self)@ == old(self)@.update(
                y as int,
                old(self)@[y as int].update(x as int, !old(self)@[y as int][x as int]),
            ),
    {
        let idx = y * CHIP_8_WIDTH + x;
        let cur = self.pixels[idx];
        self.pixels[idx] = !cur;
        proof {
            let target = old(self)@.update(
                y as int,
                old(self)@[y as int].update(x as int, !old(self)@[y as int][x as int]),
            );
            assert forall|r: int| 0 <= r < CHIP_8_HEIGHT implies self@[r] =~= target[r] by {
                assert forall|c: int| 0 <= c < CHIP_8_WIDTH implies self@[r][c] == target[r][c] by {
                    if r == y && c == x {
                    } else {
                        assert(r * CHIP_8_WIDTH + c != y as int * CHIP_8_WIDTH + x as int);
                    }
                }
            }
            assert(self@ =~= target);
        }
    }

    /// Whether the pixel at column `x`, row `y` is set.
    pub fn is_set_screen(&self, x: usize, y: usize) -> (r: bool)
        requires
            self.wf(),
            x < CHIP_8_WIDTH,
            y < CHIP_8_HEIGHT,
        ensures
            r == self@[y as int][x as int],
    {
        self.pixels[y * CHIP_8_WIDTH + x]
    }

    /// Draw an n-row sprite at column `x`, row `y` (taken modulo the screen
    /// size, so sprites wrap around the edges). Every set sprite bit toggles
    /// the pixel it lands on. Returns 1 if some pixel that was already set
    /// got toggled off, else 0.
    ///
    /// Coordinates come from byte registers, and a sprite is never taller
    /// than the screen (the instruction encodes its height in one nibble).
    pub fn chip8_screen_draw_sprite(&mut self, x: usize, y: usize, sprite: &Vec<u8>) -> (r: u8)
        requires
            old(self).wf(),
            x < 256,
            y < 256,
            sprite@.len() <= CHIP_8_HEIGHT,
        ensures
            final(self).wf(),
            final(self)@ == draw_sprite_spec(old(self)@, x as int, y as int, sprite@),
            r == if draw_sprite_collision(old(self)@, x as int, y as int, sprite@) {
                1u8
            } else {
                0u8
            },
    {
        let ghost p0 = self@;
        let ghost xi = x as int;
        let ghost yi = y as int;
        let ghost sp = sprite@;
        let mut pixel_collison: u8 = 0;
        let mut ly: usize = 0;
        while ly < sprite.len()
            invariant
                self.wf(),
                x < 256,
                y < 256,
                xi == x as int,
                yi == y as int,
                sp == sprite@,
                sp.len() <= CHIP_8_HEIGHT,
                ly <= sp.len(),
                forall|r: int, c: int|
                    0 <= r < CHIP_8_HEIGHT && 0 <= c < CHIP_8_WIDTH ==> #[trigger] self@[r][c] == (
                    p0[r][c] != sprite_covers_before(xi, yi, sp, ly as int, 0, r, c)),
                pixel_collison == if sprite_collides_before(p0, xi, yi, sp, ly as int, 0) {
                    1u8
                } else {
                    0u8
                },
                screen_wf(p0),
            decreases sp.len() - ly,
        {
            let sprite_byte = sprite[ly];
            let mut lx: usize = 0;
            while lx < 8
                invariant
                    self.wf(),
                    x < 256,
                    y < 256,
                    xi == x as int,
                    yi == y as int,
                    sp == sprite@,
                    sp.len() <= CHIP_8_HEIGHT,
                    ly < sp.len(),
                    lx <= 8,
                    sprite_byte == sp[ly as int],
                    forall|r: int, c: int|
                        0 <= r < CHIP_8_HEIGHT && 0 <= c < CHIP_8_WIDTH ==> #[trigger] self@[r][c]
                            == (p0[r][c] != sprite_covers_before(
                            xi,
                            yi,
                            sp,
                            ly as int,
                            lx as int,
                            r,
                            c,
                        )),
                    pixel_collison == if sprite_collides_before(
                        p0,
                        xi,
                        yi,
                        sp,
                        ly as int,
                        lx as int,
                    ) {
                        1u8
                    } else {
                        0u8
                    },
                    screen_wf(p0),
                decreases 8 - lx,
            {
                let ghost uy = ly as int;
                let ghost ux = lx as int;
                if sprite_bit_set(sprite_byte, lx) {
                    let px = (x + lx) % CHIP_8_WIDTH;
                    let py = (y + ly) % CHIP_8_HEIGHT;
                    proof {
                        lemma_mod_bound(yi + uy, CHIP_8_HEIGHT as int);
                        lemma_mod_bound(xi + ux, CHIP_8_WIDTH as int);
                        assert(sprite_hits(xi, yi, sp, uy, ux, py as int, px as int));
                        // no earlier sprite bit landed on this cell
                        if sprite_covers_before(xi, yi, sp, uy, ux, py as int, px as int) {
                            let (my, mx) = choose|my: int, mx: int|
                                (my < uy || (my == uy && mx < ux)) && #[trigger] sprite_hits(
                                    xi,
                                    yi,
                                    sp,
                                    my,
                                    mx,
                                    py as int,
                                    px as int,
                                );
                            lemma_wrap_distinct(yi, my, uy, CHIP_8_HEIGHT as int);
                            lemma_wrap_distinct(xi, mx, ux, CHIP_8_WIDTH as int);
                            assert(false);
                        }
                    }
                    let ghost before = self@;
                    if self.is_set_screen(px, py) {
                        pixel_collison = 1;
                    }
                    self.set_screen(px, py);
                    proof {
                        // the prefix grows by exactly the cell (py, px)
                        assert forall|r: int, c: int|
                            0 <= r < CHIP_8_HEIGHT && 0 <= c < CHIP_8_WIDTH implies (
                        #[trigger] sprite_covers_before(xi, yi, sp, uy, ux + 1, r, c) == (
                        sprite_covers_before(xi, yi, sp, uy, ux, r, c) || (r == py as int && c
                            == px as int))) by {
                            if sprite_covers_before(xi, yi, sp, uy, ux + 1, r, c) {
                                let (my, mx) = choose|my: int, mx: int|
                                    (my < uy || (my == uy && mx < ux + 1)) && #[trigger] sprite_hits(
                                        xi,
                                        yi,
                                        sp,
                                        my,
                                        mx,
                                        r,
                                        c,
                                    );
                                if my == uy && mx == ux {
                                    assert(r == py as int && c == px as int);
                                } else {
                                    assert((my < uy || (my == uy && mx < ux)) && sprite_hits(
                                        xi,
                                        yi,
                                        sp,
                                        my,
                                        mx,
                                        r,
                                        c,
                                    ));
                                }
                            }
                            if sprite_covers_before(xi, yi, sp, uy, ux, r, c) {
                                let (my, mx) = choose|my: int, mx: int|
                                    (my < uy || (my == uy && mx < ux)) && #[trigger] sprite_hits(
                                        xi,
                                        yi,
                                        sp,
                                        my,
                                        mx,
                                        r,
                                        c,
                                    );
                                assert((my < uy || (my == uy && mx < ux + 1)) && sprite_hits(
                                    xi,
                                    yi,
                                    sp,
                                    my,
                                    mx,
                                    r,
                                    c,
                                ));
                            }
                            if r == py as int && c == px as int {
                                assert((uy < uy || (uy == uy && ux < ux + 1)) && sprite_hits(
                                    xi,
                                    yi,
                                    sp,
                                    uy,
                                    ux,
                                    r,
                                    c,
                                ));
                            }
                        }
                        assert(before[py as int][px as int] == p0[py as int][px as int]);
                        // the prefix collision verdict grows by this cell's old state
                        if sprite_collides_before(p0, xi, yi, sp, uy, ux + 1) {
                            let (r, c) = choose|r: int, c: int|
                                0 <= r < CHIP_8_HEIGHT && 0 <= c < CHIP_8_WIDTH
                                    && #[trigger] sprite_covers_before(xi, yi, sp, uy, ux + 1, r, c)
                                    && p0[r][c];
                            if !(r == py as int && c == px as int) {
                                assert(sprite_covers_before(xi, yi, sp, uy, ux, r, c) && p0[r][c]);
                            }
                        }
                        if sprite_collides_before(p0, xi, yi, sp, uy, ux) {
                            let (r, c) = choose|r: int, c: int|
                                0 <= r < CHIP_8_HEIGHT && 0 <= c < CHIP_8_WIDTH
                                    && #[trigger] sprite_covers_before(xi, yi, sp, uy, ux, r, c)
                                    && p0[r][c];
                            assert(sprite_covers_before(xi, yi, sp, uy, ux + 1, r, c) && p0[r][c]);
                        }
                        if p0[py as int][px as int] {
                            assert(sprite_covers_before(xi, yi, sp, uy, ux + 1, py as int, px as int)
                                && p0[py as int][px as int]);
                        }
                        assert(sprite_collides_before(p0, xi, yi, sp, uy, ux + 1) == (
                        sprite_collides_before(p0, xi, yi, sp, uy, ux) || p0[py as int][px as int]));
                    }
                } else {
                    proof {
                        // an unset bit adds nothing to the prefix
                        assert forall|r: int, c: int|
                            0 <= r < CHIP_8_HEIGHT && 0 <= c < CHIP_8_WIDTH implies (
                        #[trigger] sprite_covers_before(xi, yi, sp, uy, ux + 1, r, c)
                            == sprite_covers_before(xi, yi, sp, uy, ux, r, c)) by {
                            if sprite_covers_before(xi, yi, sp, uy, ux + 1, r, c) {
                                let (my, mx) = choose|my: int, mx: int|
                                    (my < uy || (my == uy && mx < ux + 1)) && #[trigger] sprite_hits(
                                        xi,
                                        yi,
                                        sp,
                                        my,
                                        mx,
                                        r,
                                        c,
                                    );
                                assert((my < uy || (my == uy && mx < ux)) && sprite_hits(
                                    xi,
                                    yi,
                                    sp,
                                    my,
                                    mx,
                                    r,
                                    c,
                                ));
                            }
                            if sprite_covers_before(xi, yi, sp, uy, ux, r, c) {
                                let (my, mx) = choose|my: int, mx: int|
                                    (my < uy || (my == uy && mx < ux)) && #[trigger] sprite_hits(
                                        xi,
                                        yi,
                                        sp,
                                        my,
                                        mx,
                                        r,
                                        c,
                                    );
                                assert((my < uy || (my == uy && mx < ux + 1)) && sprite_hits(
                                    xi,
                                    yi,
                                    sp,
                                    my,
                                    mx,
                                    r,
                                    c,
                                ));
                            }
                        }
                        lemma_collides_before_iff(p0, xi, yi, sp, uy, ux + 1, uy, ux);
                    }
                }
                lx = lx + 1;
            }
            proof {
                // the prefix up to (ly, 8) is the prefix up to (ly + 1, 0)
                assert forall|r: int, c: int|
                    0 <= r < CHIP_8_HEIGHT && 0 <= c < CHIP_8_WIDTH implies (
                #[trigger] sprite_covers_before(xi, yi, sp, ly as int + 1, 0, r, c)
                    == sprite_covers_before(xi, yi, sp, ly as int, 8, r, c)) by {
                    if sprite_covers_before(xi, yi, sp, ly as int + 1, 0, r, c) {
                        let (my, mx) = choose|my: int, mx: int|
                            (my < ly as int + 1 || (my == ly as int + 1 && mx < 0))
                                && #[trigger] sprite_hits(xi, yi, sp, my, mx, r, c);
                        assert((my < ly as int || (my == ly as int && mx < 8)) && sprite_hits(
                            xi,
                            yi,
                            sp,
                            my,
                            mx,
                            r,
                            c,
                        ));
                    }
                    if sprite_covers_before(xi, yi, sp, ly as int, 8, r, c) {
                        let (my, mx) = choose|my: int, mx: int|
                            (my < ly as int || (my == ly as int && mx < 8)) && #[trigger] sprite_hits(
                                xi,
                                yi,
                                sp,
                                my,
                                mx,
                                r,
                                c,
                            );
                        assert((my < ly as int + 1 || (my == ly as int + 1 && mx < 0))
                            && sprite_hits(xi, yi, sp, my, mx, r, c));
                    }
                }
                lemma_collides_before_iff(p0, xi, yi, sp, ly as int + 1, 0, ly as int, 8);
            }
            ly = ly + 1;
        }
        proof {
            // the whole-sprite prefix is exactly the cover of the sprite
            assert forall|r: int, c: int| 0 <= r < CHIP_8_HEIGHT && 0 <= c < CHIP_8_WIDTH implies (
            #[trigger] sprite_covers_before(xi, yi, sp, sp.len() as int, 0, r, c) == sprite_covers(
                xi,
                yi,
                sp,
                r,
                c,
            )) by {
                if sprite_covers_before(xi, yi, sp, sp.len() as int, 0, r, c) {
                    let (my, mx) = choose|my: int, mx: int|
                        (my < sp.len() as int || (my == sp.len() as int && mx < 0))
                            && #[trigger] sprite_hits(xi, yi, sp, my, mx, r, c);
                    assert(sprite_hits(xi, yi, sp, my, mx, r, c));
                }
                if sprite_covers(xi, yi, sp, r, c) {
                    let (my, mx) = choose|my: int, mx: int| #[trigger] sprite_hits(
                        xi,
                        yi,
                        sp,
                        my,
                        mx,
                        r,
                        c,
                    );
                    assert((my < sp.len() as int || (my == sp.len() as int && mx < 0))
                        && sprite_hits(xi, yi, sp, my, mx, r, c));
                }
            }
            assert forall|r: int| 0 <= r < CHIP_8_HEIGHT implies self@[r] =~= draw_sprite_spec(
                p0,
                xi,
                yi,
                sp,
            )[r] by {
            }
            assert(self@ =~= draw_sprite_spec(p0, xi, yi, sp));
            // the collision flag agrees with the spec-level collision
            if sprite_collides_before(p0, xi, yi, sp, sp.len() as int, 0) {
                let (r, c) = choose|r: int, c: int|
                    0 <= r < CHIP_8_HEIGHT && 0 <= c < CHIP_8_WIDTH
                        && #[trigger] sprite_covers_before(
                        xi,
                        yi,
                        sp,
                        sp.len() as int,
                        0,
                        r,
                        c,
                    ) && p0[r][c];
                assert(sprite_covers(xi, yi, sp, r, c) && p0[r][c]);
            }
            if draw_sprite_collision(p0, xi, yi, sp) {
                let (r, c) = choose|r: int, c: int|
                    0 <= r < CHIP_8_HEIGHT && 0 <= c < CHIP_8_WIDTH && #[trigger] sprite_covers(
                        xi,
                        yi,
                        sp,
                        r,
                        c,
                    ) && p0[r][c];
                assert(sprite_covers_before(xi, yi, sp, sp.len() as int, 0, r, c) && p0[r][c]);
            }
        }
        pixel_collison
    }

    /// Reset every pixel to unset.
    pub fn clear_screen(&mut self)
        requires
            old(self).wf(),
        ensures
            final(self).wf(),
            final(self)@ == blank_screen(),
    {
        let mut j: usize = 0;
        while j < CHIP_8_WIDTH * CHIP_8_HEIGHT
            invariant
                self.pixels@.len() == CHIP_8_WIDTH * CHIP_8_HEIGHT,
                j <= CHIP_8_WIDTH * CHIP_8_HEIGHT,
                forall|k: int| 0 <= k < j ==> self.pixels@[k] == false,
            decreases CHIP_8_WIDTH * CHIP_8_HEIGHT - j,
        {
            self.pixels[j] = false;
            j = j + 1;
        }
        proof {
            assert forall|r: int| 0 <= r < CHIP_8_HEIGHT implies self@[r] =~= blank_screen()[r] by {
                assert forall|c: int| 0 <= c < CHIP_8_WIDTH implies self@[r][c] == false by {
                    assert(0 <= r * CHIP_8_WIDTH + c < CHIP_8_WIDTH * CHIP_8_HEIGHT);
                }
            }
            assert(self@ =~= blank_screen());
        }
    }
}

} // verus!
