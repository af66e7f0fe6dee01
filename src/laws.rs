use vstd::prelude::*;

use crate::chirp8::{decremented, nn, nnn, nx, op, Chirp8, STACK_SIZE};
use crate::quirks::QuirkFlags;
use crate::display::{
    cells, flips, lemma_drawn_cells_square, on_screen, same_geometry, scrolled_cell, SpritePlane,
};

verus! {

/// Scrolling right by `k` columns and then left by `k` columns gives back
/// every cell whose contents were not pushed off the right edge.
pub proof fn scroll_right_then_left(f: spec_fn(int, int) -> u8, planes: u8, k: int, r: int, c: int)
    requires
        0 <= k,
        on_screen(r, c),
        c + k < 128,
    ensures
        scrolled_cell(|rr: int, cc: int| scrolled_cell(f, planes, 0, k, rr, cc), planes, 0, -k, r, c) == f(r, c),
{
    let g = |rr: int, cc: int| scrolled_cell(f, planes, 0, k, rr, cc);
    assert(on_screen(r, c + k));
    let a = f(r, c);
    let b = f(r, c + k);
    let o: u8 = if on_screen(r, c - k) { f(r, c - k) } else { 0u8 };
    assert(g(r, c + k) == (a & planes) | (b & !planes));
    assert(g(r, c) == (o & planes) | (a & !planes));
    assert((((a & planes) | (b & !planes)) & planes) | (((o & planes) | (a & !planes)) & !planes) == a) by (bit_vector);
}

/// Scrolling down by `k` rows and then up by `k` rows gives back every cell
/// whose contents were not pushed off the bottom edge.
pub proof fn scroll_down_then_up(f: spec_fn(int, int) -> u8, planes: u8, k: int, r: int, c: int)
    requires
        0 <= k,
        on_screen(r, c),
        r + k < 64,
    ensures
        scrolled_cell(|rr: int, cc: int| scrolled_cell(f, planes, k, 0, rr, cc), planes, -k, 0, r, c) == f(r, c),
{
    let g = |rr: int, cc: int| scrolled_cell(f, planes, k, 0, rr, cc);
    assert(on_screen(r + k, c));
    let a = f(r, c);
    let b = f(r + k, c);
    let o: u8 = if on_screen(r - k, c) { f(r - k, c) } else { 0u8 };
    assert(g(r + k, c) == (a & planes) | (b & !planes));
    assert(g(r, c) == (o & planes) | (a & !planes));
    assert((((a & planes) | (b & !planes)) & planes) | (((o & planes) | (a & !planes)) & !planes) == a) by (bit_vector);
}

/// `FX1E` adds `VX` to the index register; past the address width it sets
/// `VF` to 1 and wraps the index.
#[verifier::rlimit(60)]
pub proof fn add_to_index_flags_overflow(a: Chirp8, b: Chirp8, i: int, rnd: u8)
    requires
        a.wf(),
        0 <= i < 0x10000,
        op(i) == 0xF,
        nn(i) == 0x1E,
        a.executed(&b, i, rnd),
    ensures
        a.index + a.v(nx(i)) >= 4096 ==> b.registers[15] == 1 && b.index == a.index + a.v(nx(i)) - 4096,
        a.index + a.v(nx(i)) < 4096 ==> b.registers == a.registers && b.index == a.index + a.v(nx(i)),
{
    assert(!a.stack_faults(i));
    if a.index + a.v(nx(i)) < 4096 {
        assert(b.registers@ =~= a.registers@);
    }
}

/// `FX0A` completes only when a key went from pressed to released: with no
/// key released since the last step (keys steady, or only pressed), it stays
/// on the same instruction and changes no register; otherwise `VX` gets the
/// lowest released key.
#[verifier::rlimit(60)]
pub proof fn key_wait_fires_on_release(a: Chirp8, b: Chirp8, i: int, rnd: u8)
    requires
        a.wf(),
        0 <= i < 0x10000,
        op(i) == 0xF,
        nn(i) == 0x0A,
        a.executed(&b, i, rnd),
    ensures
        (forall|k: int| 0 <= k < 16 ==> (#[trigger] a.keys_previous[k] ==> a.keys[k])) ==> b.pc == a.pc
            && b.registers == a.registers,
        (exists|k: int| 0 <= k < 16 && #[trigger] a.keys_previous[k] && !a.keys[k]) ==> {
            &&& b.pc == a.pc_next()
            &&& b.registers[nx(i)] == a.released_key()
            &&& a.keys_previous[a.released_key()] && !a.keys[a.released_key()]
            &&& forall|j: int| 0 <= j < a.released_key() ==> !(#[trigger] a.keys_previous[j] && !a.keys[j])
        },
{
    assert(!a.stack_faults(i));
    lemma_first_released(a, 0);
    if forall|k: int| 0 <= k < 16 ==> (#[trigger] a.keys_previous[k] ==> a.keys[k]) {
        assert(a.released_key() == 16);
        assert(b.registers@ =~= a.registers@);
    }
}

/// The lowest released key from `k` on is released, and none before it is.
proof fn lemma_first_released(a: Chirp8, k: int)
    requires
        0 <= k <= 16,
    ensures
        ({
            let f = crate::chirp8::first_released(a.keys, a.keys_previous, k);
            &&& k <= f <= 16
            &&& f < 16 ==> a.keys_previous[f] && !a.keys[f]
            &&& forall|j: int| k <= j < f ==> !(#[trigger] a.keys_previous[j] && !a.keys[j])
            &&& (exists|j: int| k <= j < 16 && #[trigger] a.keys_previous[j] && !a.keys[j]) ==> f < 16
        }),
    decreases 16 - k,
{
    if k < 16 {
        lemma_first_released(a, k + 1);
    }
}

/// `FX55` then `FX65` with the same index `I` and the same `X` gives back
/// `V0..VX`. With the `INC_INDEX` quirk both leave `I` at the same value,
/// `I + X + 1`, so `m` below is the machine after `FX55` with `I` set back.
#[verifier::rlimit(60)]
pub proof fn store_then_load_restores(a: Chirp8, b: Chirp8, m: Chirp8, c: Chirp8, x: int, rnd: u8)
    requires
        a.wf(),
        0 <= x < 16,
        a.executed(&b, 0xF055 + 256 * x, rnd),
        m.ram == b.ram,
        m.index == a.index,
        m.quirks == a.quirks,
        m.executed(&c, 0xF065 + 256 * x, rnd),
    ensures
        forall|k: int| 0 <= k <= x ==> #[trigger] c.registers[k] == a.registers[k],
        a.quirks.has(QuirkFlags::INC_INDEX) ==> b.index == c.index && b.index == (a.index + x + 1) % 4096,
{
    let i55 = 0xF055 + 256 * x;
    let i65 = 0xF065 + 256 * x;
    assert(nx(i55) == x && nn(i55) == 0x55 && op(i55) == 0xF);
    assert(nx(i65) == x && nn(i65) == 0x65 && op(i65) == 0xF);
    assert(!a.stack_faults(i55));
    assert(!m.stack_faults(i65));
    assert forall|k: int| 0 <= k <= x implies #[trigger] c.registers[k] == a.registers[k] by {
        let addr = (a.index + k) % 4096;
        crate::chirp8::lemma_offset(a.index as int, k, addr);
        assert(c.registers@[k] == m.ram[addr]);
        assert(b.ram@[addr] == a.registers[k]);
    }
}

/// The program counter stays in memory after every step, and stays even when
/// it was even, the return addresses on the stack are even, and a jump or call
/// goes to an even address.
#[verifier::rlimit(60)]
pub proof fn pc_stays_in_memory_and_even(a: Chirp8, b: Chirp8, rnd: u8)
    requires
        a.wf(),
        a.stepped(&b, rnd),
    ensures
        b.pc < 4096,
        ({
            let i = a.instruction();
            &&& a.pc % 2 == 0
            &&& forall|k: int| 0 <= k < a.stack@.len() ==> #[trigger] a.stack@[k] % 2 == 0
            &&& (op(i) == 1 || op(i) == 2) ==> nnn(i) % 2 == 0
            &&& op(i) == 0xB ==> a.next_pc(i) % 2 == 0
        }) ==> {
            &&& b.pc % 2 == 0
            &&& forall|k: int| 0 <= k < b.stack@.len() ==> #[trigger] b.stack@[k] % 2 == 0
        },
{
    let i = a.instruction();
    if !a.halted {
        if op(i) == 0 && nn(i) == 0xEE && a.stack@.len() > 0 {
            assert(a.stack@.last() == a.stack@[a.stack@.len() - 1]);
        }
        if a.pc % 2 == 0 && (forall|k: int| 0 <= k < a.stack@.len() ==> #[trigger] a.stack@[k] % 2 == 0) {
            let st = a.next_stack(i);
            assert forall|k: int| 0 <= k < st.len() implies #[trigger] st[k] % 2 == 0 by {
                if !a.stack_faults(i) && op(i) == 2 && k == a.stack@.len() {
                } else {
                    assert(st[k] == a.stack@[k]);
                }
            }
        }
    }
}

/// With at least one step per frame, the in-frame step counter stays below
/// the number of steps per frame.
#[verifier::rlimit(60)]
pub proof fn frame_counter_in_range(a: Chirp8, b: Chirp8, rnd: u8)
    requires
        a.wf(),
        a.steps_per_frame > 0,
        a.stepped(&b, rnd),
    ensures
        b.steps_since_frame < b.steps_per_frame,
        b.steps_per_frame == a.steps_per_frame,
{
}

/// The stack never holds more return addresses than its capacity.
#[verifier::rlimit(60)]
pub proof fn stack_within_capacity(a: Chirp8, b: Chirp8, rnd: u8)
    requires
        a.wf(),
        a.stepped(&b, rnd),
    ensures
        b.stack@.len() <= STACK_SIZE,
{
}

/// A step decrements the timers by one at the end of a frame, and never
/// below zero; only `FX15` and `FX18` load them.
#[verifier::rlimit(60)]
pub proof fn timers_saturate(a: Chirp8, b: Chirp8, rnd: u8)
    requires
        a.wf(),
        a.stepped(&b, rnd),
    ensures
        ({
            let i = a.instruction();
            &&& (a.halted || !(op(i) == 0xF && nn(i) == 0x15)) ==> b.delay_timer == decremented(a.delay_timer, a.frame_ends())
            &&& (a.halted || !(op(i) == 0xF && nn(i) == 0x18)) ==> b.sound_timer == decremented(a.sound_timer, a.frame_ends())
        }),
{
}

/// Whether every 2 by 2 square of the display holds one value.
pub open spec fn uniform_squares(a: Chirp8) -> bool {
    forall|r: int, c: int| on_screen(r, c) ==> #[trigger] a.display_buffer[r][c] == a.display_buffer[r - r % 2][c - c % 2]
}

/// Drawing the same sprite twice at the same place restores the display. In
/// low resolution, where a sprite pixel covers a 2 by 2 square, this asks that
/// the squares be uniform. `b` is `a` with the display after the first draw.
#[verifier::rlimit(60)]
pub proof fn draw_twice_restores(a: Chirp8, b: Chirp8, vx: int, vy: int, n: int, r: int, c: int)
    requires
        a.wf(),
        0 <= n < 16,
        0 <= vx < 256,
        0 <= vy < 256,
        a.high_resolution || uniform_squares(a),
        b == (Chirp8 { display_buffer: b.display_buffer, ..a }),
        forall|rr: int, cc: int| on_screen(rr, cc) ==> #[trigger] b.display_buffer[rr][cc] == a.drawn_cell(vx, vy, n, rr, cc),
        on_screen(r, c),
    ensures
        b.drawn_cell(vx, vy, n, r, c) == a.display_buffer[r][c],
{
    let ps = a.sprite_planes(vx, vy, n);
    let q = a.sprite_plane(vx, vy, n, 0, 0);
    assert(b.sprite_planes(vx, vy, n) == ps);
    assert forall|k: int| 0 <= k < ps.len() implies same_geometry(#[trigger] ps[k], q) by {}
    let tr = q.scaled(q.unscaled(r));
    let tc = q.scaled(q.unscaled(c));
    assert(on_screen(tr, tc));
    lemma_drawn_cells_square(cells(a.display_buffer), a.ram, ps, q, r, c);
    lemma_drawn_cells_square(cells(b.display_buffer), a.ram, ps, q, r, c);
    lemma_drawn_cells_square(cells(a.display_buffer), a.ram, ps, q, tr, tc);
    assert(q.scaled(q.unscaled(tr)) == tr && q.scaled(q.unscaled(tc)) == tc);
    assert(q.covers(tr, tc) == q.covers(r, c));
    assert(flips(ps, a.ram, tr, tc) == flips(ps, a.ram, r, c)) by {
        lemma_flips_square(ps, q, a.ram, r, c);
    }
    let x = flips(ps, a.ram, r, c);
    if q.covers(r, c) && ps.len() > 0 {
        let v = a.display_buffer[tr][tc];
        assert((v ^ x) ^ x == v) by (bit_vector);
        if q.scale == 2 {
            assert(tr == r - r % 2 && tc == c - c % 2);
            assert(uniform_squares(a) || a.high_resolution);
        }
    }
}

/// The planes flip a cell exactly as they flip the top-left cell of its square.
proof fn lemma_flips_square(ps: Seq<SpritePlane>, q: SpritePlane, ram: [u8; 0x1000], r: int, c: int)
    requires
        q.scale == 1 || q.scale == 2,
        forall|k: int| 0 <= k < ps.len() ==> same_geometry(#[trigger] ps[k], q),
    ensures
        flips(ps, ram, q.scaled(q.unscaled(r)), q.scaled(q.unscaled(c))) == flips(ps, ram, r, c),
    decreases ps.len(),
{
    if ps.len() > 0 {
        let rest = ps.drop_first();
        assert forall|k: int| 0 <= k < rest.len() implies same_geometry(#[trigger] rest[k], q) by {
            assert(rest[k] == ps[k + 1]);
        }
        assert(same_geometry(ps[0], q));
        lemma_flips_square(rest, q, ram, r, c);
    }
}

/// Starting coordinates wrap: a sprite drawn 128 columns or 64 rows further
/// is drawn at the same place.
pub proof fn start_coordinates_wrap(a: Chirp8, vx: int, vy: int, n: int)
    requires
        0 <= vx,
        0 <= vy,
    ensures
        a.sprite_planes(vx + 128, vy + 64, n) == a.sprite_planes(vx, vy, n),
{
    assert((vx + 128) % 128 == vx % 128 && (vx + 128) % 64 == vx % 64);
    assert((vy + 64) % 64 == vy % 64 && (vy + 64) % 32 == vy % 32);
}

/// When sprites are clipped, no cell left of or above the sprite's start
/// changes: nothing wraps around.
pub proof fn clipped_sprite_does_not_wrap(p: SpritePlane, r: int, c: int)
    requires
        p.wf(),
        !p.wrapping,
        on_screen(r, c),
        c < p.scaled(p.x0 as int) || r < p.scaled(p.y0 as int),
    ensures
        !p.covers(r, c),
{
}

/// When sprites wrap, a sprite column past the right edge lands that far
/// from the left edge, and a line past the bottom that far from the top.
pub proof fn wrapped_sprite_continues_at_edge(p: SpritePlane, l: int, px: int)
    requires
        p.wf(),
        p.wrapping,
        0 <= l < p.height,
        0 <= px < p.width,
    ensures
        p.x0 + px >= p.cols() ==> p.col_of(px) == p.scaled(p.x0 + px - p.cols()),
        p.y0 + l >= p.rows() ==> p.row_of(l) == p.scaled(p.y0 + l - p.rows()),
{
}

} // verus!
