use vstd::prelude::*;
use crate::bitboard::{Bitboard, has_bit};
use crate::square::{Square, sq_index, sq_file, sq_rank};

verus! {

broadcast use crate::square::lemma_square_index_injective;

/// The index that the magic multiplication gives an occupancy.
pub open spec fn magic_key(occupancy: u64, mask: u64, magic: u64, bits: u64) -> u64 {
    (occupancy & mask).wrapping_mul(magic) >> ((64 - bits) as u64)
}

proof fn lemma_key_bound(x: u64, b: u64)
    requires
        1 <= b <= 12,
    ensures
        x >> ((64 - b) as u64) < (1u64 << b),
        (1u64 << b) <= 4096,
{
    assert(x >> ((64 - b) as u64) < (1u64 << b) && (1u64 << b) <= 4096) by (bit_vector)
        requires
            1 <= b <= 12,
    ;
}

/// `k` steps in a direction of sign `d` (-1, 0 or 1).
pub open spec fn scaled(k: int, d: int) -> int {
    if d > 0 {
        k
    } else if d < 0 {
        -k
    } else {
        0
    }
}

/// The squares that a slider standing on file `f` and rank `r` reaches in direction
/// `(df, dr)` from its `k`-th step on: each square in turn while it is on the board, up to
/// and including the first one that `occupancy` holds.
pub open spec fn ray_set(f: int, r: int, occupancy: u64, df: int, dr: int, k: int) -> Set<nat>
    decreases 8 - k,
{
    let sf = f + scaled(k, df);
    let sr = r + scaled(k, dr);
    if k < 1 || k >= 8 || !(0 <= sf < 8 && 0 <= sr < 8) {
        Set::empty()
    } else if has_bit(occupancy, (sf + 8 * sr) as nat) {
        set![(sf + 8 * sr) as nat]
    } else {
        set![(sf + 8 * sr) as nat].union(ray_set(f, r, occupancy, df, dr, k + 1))
    }
}

/// The squares that a rook on `s` attacks when `occupancy` is occupied.
pub open spec fn rook_attack_set(s: Square, occupancy: u64) -> Set<nat> {
    let f = sq_file(s) as int;
    let r = sq_rank(s) as int;
    ray_set(f, r, occupancy, -1, 0, 1).union(ray_set(f, r, occupancy, 1, 0, 1)).union(
        ray_set(f, r, occupancy, 0, -1, 1),
    ).union(ray_set(f, r, occupancy, 0, 1, 1))
}

/// The squares that a bishop on `s` attacks when `occupancy` is occupied.
pub open spec fn bishop_attack_set(s: Square, occupancy: u64) -> Set<nat> {
    let f = sq_file(s) as int;
    let r = sq_rank(s) as int;
    ray_set(f, r, occupancy, -1, -1, 1).union(ray_set(f, r, occupancy, -1, 1, 1)).union(
        ray_set(f, r, occupancy, 1, -1, 1),
    ).union(ray_set(f, r, occupancy, 1, 1, 1))
}

/// The squares that a slider on `origin` reaches in direction `offset`, up to and including
/// the first occupied square.
pub fn ray_bitboard(origin: Square, occupancy: Bitboard, offset: (i32, i32)) -> (r: Bitboard)
    requires
        -1 <= offset.0 <= 1,
        -1 <= offset.1 <= 1,
        offset.0 != 0 || offset.1 != 0,
    ensures
        r@ == ray_set(
            sq_file(origin) as int,
            sq_rank(origin) as int,
            occupancy.0,
            offset.0 as int,
            offset.1 as int,
            1,
        ),
{
    proof {
        crate::square::lemma_file_rank(origin);
    }
    let ghost f = sq_file(origin) as int;
    let ghost rk = sq_rank(origin) as int;
    let ghost df = offset.0 as int;
    let ghost dr = offset.1 as int;
    let mut current = origin;
    let mut result = Bitboard::empty();
    let mut steps: u8 = 0;
    while steps < 8
        invariant
            steps <= 8,
            f == sq_file(origin) as int,
            rk == sq_rank(origin) as int,
            0 <= f < 8,
            0 <= rk < 8,
            -1 <= df <= 1,
            -1 <= dr <= 1,
            df != 0 || dr != 0,
            df == offset.0,
            dr == offset.1,
            sq_file(current) == f + scaled(steps as int, df),
            sq_rank(current) == rk + scaled(steps as int, dr),
            result@.union(ray_set(f, rk, occupancy.0, df, dr, steps + 1)) == ray_set(f, rk, occupancy.0, df, dr, 1),
        decreases 8 - steps,
    {
        let ghost k = steps + 1;
        match current.translated_by(offset) {
            Some(next) => {
                proof {
                    crate::square::lemma_file_rank(next);
                    crate::square::lemma_file_rank(current);
                    assert(sq_file(next) == f + scaled(k as int, df));
                    assert(sq_rank(next) == rk + scaled(k as int, dr));
                    assert(k < 8);
                    assert(sq_index(next) == sq_file(next) + 8 * sq_rank(next));
                }
                current = next;
                let ghost before = result@;
                result.insert(current);
                if occupancy.contains(current) {
                    proof {
                        assert(ray_set(f, rk, occupancy.0, df, dr, k as int) == set![sq_index(next)]);
                        assert(result@ =~= ray_set(f, rk, occupancy.0, df, dr, 1));
                    }
                    return result;
                }
                proof {
                    if k >= 8 {
                        assert(false);
                    }
                    assert(ray_set(f, rk, occupancy.0, df, dr, k as int) == set![sq_index(next)].union(ray_set(f, rk, occupancy.0, df, dr, k + 1)));
                    assert(result@.union(ray_set(f, rk, occupancy.0, df, dr, k + 1)) =~= before.union(ray_set(f, rk, occupancy.0, df, dr, k as int)));
                }
            },
            None => {
                proof {
                    assert(ray_set(f, rk, occupancy.0, df, dr, k as int) == Set::<nat>::empty());
                    assert(result@ =~= result@.union(Set::<nat>::empty()));
                }
                return result;
            },
        }
        steps = steps + 1;
    }
    proof {
        assert(ray_set(f, rk, occupancy.0, df, dr, 9) == Set::<nat>::empty());
        assert(result@ =~= result@.union(Set::<nat>::empty()));
    }
    result
}

/// The squares that a rook on `origin` attacks when `occupancy` is occupied.
pub fn generate_rook_attack_set(origin: Square, occupancy: Bitboard) -> (r: Bitboard)
    ensures
        r@ == rook_attack_set(origin, occupancy.0),
{
    ray_bitboard(origin, occupancy, (-1, 0)).union(ray_bitboard(origin, occupancy, (1, 0))).union(
        ray_bitboard(origin, occupancy, (0, -1)),
    ).union(ray_bitboard(origin, occupancy, (0, 1)))
}

/// The squares that a bishop on `origin` attacks when `occupancy` is occupied.
pub fn generate_bishop_attack_set(origin: Square, occupancy: Bitboard) -> (r: Bitboard)
    ensures
        r@ == bishop_attack_set(origin, occupancy.0),
{
    ray_bitboard(origin, occupancy, (-1, -1)).union(ray_bitboard(origin, occupancy, (-1, 1))).union(
        ray_bitboard(origin, occupancy, (1, -1)),
    ).union(ray_bitboard(origin, occupancy, (1, 1)))
}

/// The attacks of a rook (`rook`) or a bishop on `s`.
pub open spec fn slider_attack_set(rook: bool, s: Square, occupancy: u64) -> Set<nat> {
    if rook {
        rook_attack_set(s, occupancy)
    } else {
        bishop_attack_set(s, occupancy)
    }
}

/// Whether step `k` in direction `(df, dr)` from file `f`, rank `r` is on the board.
pub open spec fn step_on_board(f: int, r: int, df: int, dr: int, k: int) -> bool {
    0 <= f + scaled(k, df) < 8 && 0 <= r + scaled(k, dr) < 8
}

/// The number of the square at step `k`.
pub open spec fn step_square(f: int, r: int, df: int, dr: int, k: int) -> nat {
    (f + scaled(k, df) + 8 * (r + scaled(k, dr))) as nat
}

/// `mask` holds every square of the ray that has another square of the ray after it: the
/// squares whose occupancy can stop the slider.
pub open spec fn covers_ray(mask: u64, f: int, r: int, df: int, dr: int) -> bool {
    forall|k: int| 1 <= k && #[trigger] step_on_board(f, r, df, dr, k + 1) ==> has_bit(mask, step_square(f, r, df, dr, k))
}

/// `mask` covers every ray of the slider on `s`.
pub open spec fn covers_slider(rook: bool, mask: u64, s: Square) -> bool {
    let f = sq_file(s) as int;
    let r = sq_rank(s) as int;
    if rook {
        covers_ray(mask, f, r, -1, 0) && covers_ray(mask, f, r, 1, 0) && covers_ray(mask, f, r, 0, -1)
            && covers_ray(mask, f, r, 0, 1)
    } else {
        covers_ray(mask, f, r, -1, -1) && covers_ray(mask, f, r, -1, 1) && covers_ray(mask, f, r, 1, -1)
            && covers_ray(mask, f, r, 1, 1)
    }
}

/// A ray sees only the occupancy of the squares that a covering mask holds.
proof fn lemma_ray_masked(f: int, r: int, occupancy: u64, mask: u64, df: int, dr: int, k: int)
    requires
        covers_ray(mask, f, r, df, dr),
        1 <= k,
    ensures
        ray_set(f, r, occupancy & mask, df, dr, k) == ray_set(f, r, occupancy, df, dr, k),
    decreases 8 - k,
{
    if k < 8 && step_on_board(f, r, df, dr, k) {
        lemma_ray_masked(f, r, occupancy, mask, df, dr, k + 1);
        let n = step_square(f, r, df, dr, k);
        if step_on_board(f, r, df, dr, k + 1) {
            assert(has_bit(mask, n));
            crate::bitboard::lemma_bit_and(occupancy, mask, n as u64);
        } else {
            assert(ray_set(f, r, occupancy & mask, df, dr, k + 1) == Set::<nat>::empty());
            assert(ray_set(f, r, occupancy, df, dr, k + 1) == Set::<nat>::empty());
        }
    }
}

/// A slider sees only the occupancy of the squares that a covering mask holds.
pub proof fn lemma_slider_masked(rook: bool, s: Square, occupancy: u64, mask: u64)
    requires
        covers_slider(rook, mask, s),
    ensures
        slider_attack_set(rook, s, occupancy & mask) == slider_attack_set(rook, s, occupancy),
{
    let f = sq_file(s) as int;
    let r = sq_rank(s) as int;
    if rook {
        lemma_ray_masked(f, r, occupancy, mask, -1, 0, 1);
        lemma_ray_masked(f, r, occupancy, mask, 1, 0, 1);
        lemma_ray_masked(f, r, occupancy, mask, 0, -1, 1);
        lemma_ray_masked(f, r, occupancy, mask, 0, 1, 1);
    } else {
        lemma_ray_masked(f, r, occupancy, mask, -1, -1, 1);
        lemma_ray_masked(f, r, occupancy, mask, -1, 1, 1);
        lemma_ray_masked(f, r, occupancy, mask, 1, -1, 1);
        lemma_ray_masked(f, r, occupancy, mask, 1, 1, 1);
    }
}

/// Whether `mask` holds every square of the ray from `origin` in direction `offset` that has
/// another square of the ray after it.
fn ray_covered(origin: Square, mask: Bitboard, offset: (i32, i32)) -> (r: bool)
    requires
        -1 <= offset.0 <= 1,
        -1 <= offset.1 <= 1,
        offset.0 != 0 || offset.1 != 0,
    ensures
        r == covers_ray(mask.0, sq_file(origin) as int, sq_rank(origin) as int, offset.0 as int, offset.1 as int),
{
    proof {
        crate::square::lemma_file_rank(origin);
    }
    let ghost f = sq_file(origin) as int;
    let ghost rk = sq_rank(origin) as int;
    let ghost df = offset.0 as int;
    let ghost dr = offset.1 as int;
    let mut current = origin;
    let mut steps: u8 = 0;
    while steps < 8
        invariant
            steps <= 8,
            f == sq_file(origin) as int,
            rk == sq_rank(origin) as int,
            0 <= f < 8,
            0 <= rk < 8,
            df == offset.0 as int,
            dr == offset.1 as int,
            -1 <= df <= 1,
            -1 <= dr <= 1,
            df != 0 || dr != 0,
            sq_file(current) == f + scaled(steps as int, df),
            sq_rank(current) == rk + scaled(steps as int, dr),
            forall|k: int| 1 <= k <= steps && #[trigger] step_on_board(f, rk, df, dr, k + 1) ==> has_bit(mask.0, step_square(f, rk, df, dr, k)),
        decreases 8 - steps,
    {
        let ghost k = steps + 1;
        match current.translated_by(offset) {
            Some(next) => {
                proof {
                    crate::square::lemma_file_rank(next);
                    assert(sq_index(next) == step_square(f, rk, df, dr, k as int));
                }
                let further = next.translated_by(offset);
                if further.is_some() && !mask.contains(next) {
                    proof {
                        crate::square::lemma_file_rank(further->0);
                        assert(step_on_board(f, rk, df, dr, k + 1));
                        assert(!has_bit(mask.0, step_square(f, rk, df, dr, k as int)));
                    }
                    return false;
                }
                current = next;
            },
            None => {
                proof {
                    assert forall|j: int| 1 <= j && #[trigger] step_on_board(f, rk, df, dr, j + 1) implies has_bit(mask.0, step_square(f, rk, df, dr, j)) by {
                        assert(j + 1 <= k);
                    }
                }
                return true;
            },
        }
        steps = steps + 1;
    }
    proof {
        assert forall|j: int| 1 <= j && #[trigger] step_on_board(f, rk, df, dr, j + 1) implies has_bit(mask.0, step_square(f, rk, df, dr, j)) by {
            assert(j + 1 <= 8);
        }
    }
    true
}

/// Whether `mask` holds every square that can stop a slider on `sq`.
fn slider_covered(rook: bool, sq: Square, mask: Bitboard) -> (r: bool)
    ensures
        r == covers_slider(rook, mask.0, sq),
{
    if rook {
        ray_covered(sq, mask, (-1, 0)) && ray_covered(sq, mask, (1, 0)) && ray_covered(sq, mask, (0, -1))
            && ray_covered(sq, mask, (0, 1))
    } else {
        ray_covered(sq, mask, (-1, -1)) && ray_covered(sq, mask, (-1, 1)) && ray_covered(sq, mask, (1, -1))
            && ray_covered(sq, mask, (1, 1))
    }
}

/// The multiplier `magic` with `bits` index bits is a perfect hash for the occupancies of
/// `mask`: two of them that it sends to the same index have the same attacks.
pub open spec fn magic_sound(rook: bool, s: Square, magic: u64, bits: u64, mask: u64) -> bool {
    forall|x: u64, y: u64|
        #![trigger magic_key(x, mask, magic, bits), magic_key(y, mask, magic, bits)]
        x & mask == x && y & mask == y && magic_key(x, mask, magic, bits) == magic_key(y, mask, magic, bits)
            ==> slider_attack_set(rook, s, x) == slider_attack_set(rook, s, y)
}

/// The constants of square `s` make a correct table: the index bits are 1 to 12, the mask
/// covers the slider's rays, and the multiplier is a perfect hash for the mask.
pub open spec fn magic_correct(rook: bool, s: Square, magic: u64, bits: u64, mask: u64) -> bool {
    1 <= bits <= 12 && covers_slider(rook, mask, s) && magic_sound(rook, s, magic, bits, mask)
}

/// The step from one subset of a mask to the next larger one.
proof fn lemma_next_subset(sub: u64, mask: u64, x: u64, d: u64)
    requires
        sub & mask == sub,
        x & mask == x,
        d == sub.wrapping_sub(mask),
    ensures
        sub <= mask,
        sub < x ==> (d & mask) != 0 && sub < (d & mask) && (d & mask) <= x,
        (d & mask) & mask == (d & mask),
{
    assert(sub <= mask && (sub < x ==> (d & mask) != 0 && sub < (d & mask) && (d & mask) <= x)
        && (d & mask) & mask == (d & mask)) by (bit_vector)
        requires
            sub & mask == sub,
            x & mask == x,
            d == sub.wrapping_sub(mask),
    ;
}

/// Builds the table of one square: every subset of `mask` is walked by rays and stored at
/// the index that the multiplication gives it. The table is correct when the mask covers the
/// slider's rays and no two subsets with different attacks share an index; `valid` says
/// whether that was found.
fn compute_square(rook: bool, sq: Square, magic: u64, bits: u64, mask: u64) -> (r: (Vec<Bitboard>, bool))
    requires
        1 <= bits <= 12,
    ensures
        r.0@.len() == (1u64 << bits) as nat,
        r.1 == (covers_slider(rook, mask, sq) && magic_sound(rook, sq, magic, bits, mask)),
        r.1 ==> forall|x: u64| #![trigger magic_key(x, mask, magic, bits)] x & mask == x ==> r.0@[magic_key(x, mask, magic, bits) as int]@
            == slider_attack_set(rook, sq, x),
{
    let size: u64 = 1u64 << bits;
    proof {
        lemma_key_bound(0, bits);
    }
    let mut table: Vec<Bitboard> = Vec::new();
    let mut filled: Vec<bool> = Vec::new();
    let mut k: u64 = 0;
    while k < size
        invariant
            k <= size,
            table@.len() == k,
            filled@.len() == k,
            forall|j: int| 0 <= j < k ==> !#[trigger] filled@[j],
        decreases size - k,
    {
        table.push(Bitboard::empty());
        filled.push(false);
        k = k + 1;
    }
    let mut valid = slider_covered(rook, sq, Bitboard(mask));
    let mut sub: u64 = 0;
    let mut done = false;
    assert(0u64 & mask == 0u64) by (bit_vector);
    while !done
        invariant
            1 <= bits <= 12,
            size == 1u64 << bits,
            table@.len() == size,
            filled@.len() == size,
            sub & mask == sub,
            sub <= mask,
            valid ==> covers_slider(rook, mask, sq),
            !valid ==> (!covers_slider(rook, mask, sq) || !magic_sound(rook, sq, magic, bits, mask)),
            forall|k: int| 0 <= k < size && #[trigger] filled@[k] ==> exists|x: u64| #![trigger magic_key(x, mask, magic, bits)]
                x & mask == x && magic_key(x, mask, magic, bits) == k && table@[k]@ == slider_attack_set(rook, sq, x),
            valid ==> forall|x: u64| #![trigger magic_key(x, mask, magic, bits)] x & mask == x && (x < sub || (done && x == sub)) ==> {
                &&& filled@[magic_key(x, mask, magic, bits) as int]
                &&& table@[magic_key(x, mask, magic, bits) as int]@ == slider_attack_set(rook, sq, x)
            },
            done ==> forall|x: u64| x & mask == x ==> x <= sub,
        decreases (mask - sub) * 2 + (if done { 0int } else { 1int }),
    {
        let key = (sub & mask).wrapping_mul(magic) >> (64 - bits);
        proof {
            lemma_key_bound((sub & mask).wrapping_mul(magic), bits);
            assert(key == magic_key(sub, mask, magic, bits));
        }
        let attacks = if rook {
            generate_rook_attack_set(sq, Bitboard(sub))
        } else {
            generate_bishop_attack_set(sq, Bitboard(sub))
        };
        let ghost old_table = table@;
        let ghost old_filled = filled@;
        let ghost old_valid = valid;
        let was_filled = filled[key as usize];
        if was_filled {
            if table[key as usize].0 != attacks.0 {
                valid = false;
            }
        } else {
            table.set(key as usize, attacks);
            filled.set(key as usize, true);
        }
        let next = sub.wrapping_sub(mask) & mask;
        proof {
            lemma_next_subset(sub, mask, sub, sub.wrapping_sub(mask));
            assert(attacks@ == slider_attack_set(rook, sq, sub));
            if was_filled && old_valid && !valid {
                let x0 = choose|x: u64| #![trigger magic_key(x, mask, magic, bits)] x & mask == x && magic_key(x, mask, magic, bits)
                    == key as int && old_table[key as int]@ == slider_attack_set(rook, sq, x);
                if old_table[key as int]@ == attacks@ {
                    crate::bitboard::lemma_view_injective(old_table[key as int], attacks);
                }
                assert(!magic_sound(rook, sq, magic, bits, mask)) by {
                    assert(magic_key(x0, mask, magic, bits) == magic_key(sub, mask, magic, bits));
                }
            }
            assert forall|k: int| 0 <= k < size && #[trigger] filled@[k] implies exists|x: u64| #![trigger magic_key(x, mask, magic, bits)]
                x & mask == x && magic_key(x, mask, magic, bits) == k && table@[k]@ == slider_attack_set(rook, sq, x) by {
                if k == key as int && !was_filled {
                    assert(magic_key(sub, mask, magic, bits) == k && table@[k]@ == slider_attack_set(rook, sq, sub));
                } else {
                    assert(old_filled[k]);
                    assert(table@[k] == old_table[k]);
                }
            }
            if valid {
                assert forall|x: u64| #![trigger magic_key(x, mask, magic, bits)] x & mask == x && x <= sub implies {
                    &&& filled@[magic_key(x, mask, magic, bits) as int]
                    &&& table@[magic_key(x, mask, magic, bits) as int]@ == slider_attack_set(rook, sq, x)
                } by {
                    let kx = magic_key(x, mask, magic, bits) as int;
                    lemma_key_bound((x & mask).wrapping_mul(magic), bits);
                    if x < sub {
                        assert(old_filled[kx]);
                        assert(old_table[kx]@ == slider_attack_set(rook, sq, x));
                        if kx == key as int {
                            assert(was_filled);
                            assert(table@ == old_table);
                        } else {
                            assert(table@[kx] == old_table[kx]);
                        }
                    } else {
                        assert(x == sub);
                        assert(attacks@ == slider_attack_set(rook, sq, sub));
                        if was_filled {
                            assert(table@[kx].0 == attacks.0);
                        } else {
                            assert(table@[kx] == attacks);
                        }
                    }
                }
            }
        }
        if next == 0 {
            done = true;
            proof {
                assert forall|x: u64| x & mask == x implies x <= sub by {
                    lemma_next_subset(sub, mask, x, sub.wrapping_sub(mask));
                }
            }
        } else {
            proof {
                assert forall|x: u64| x & mask == x && x < next implies x <= sub by {
                    lemma_next_subset(sub, mask, x, sub.wrapping_sub(mask));
                }
                lemma_next_subset(next, mask, next, next.wrapping_sub(mask));
                assert(mask & mask == mask) by (bit_vector);
                lemma_next_subset(sub, mask, mask, sub.wrapping_sub(mask));
                if sub == mask {
                    assert(mask.wrapping_sub(mask) == 0);
                    assert(0u64 & mask == 0u64) by (bit_vector);
                }
                assert(sub < next);
            }
            sub = next;
        }
    }
    proof {
        if valid {
            assert forall|x: u64, y: u64|
                #![trigger magic_key(x, mask, magic, bits), magic_key(y, mask, magic, bits)]
                x & mask == x && y & mask == y && magic_key(x, mask, magic, bits) == magic_key(y, mask, magic, bits)
                    implies slider_attack_set(rook, sq, x) == slider_attack_set(rook, sq, y) by {
                assert(x <= sub);
                assert(y <= sub);
            }
        }
    }
    (table, valid)
}

/// The multipliers of the rook tables, one per square.
pub open spec fn rook_magic_values() -> Seq<u64> {
    seq![
        9259400972386469971u64, 378302682768609280, 432363709392882176, 792669819509149696,
        72066390400761862, 3170696865660274184, 1297037800784303112, 4647724711070220416,
        4621115431220971552, 9223935263835750912, 36451421809283073, 288371182435059713,
        18155170357837952, 4630263409842586640, 577023710847092737, 45317473469333539,
        4611827305877078112, 2904830830706688580, 1152992973133185794, 342560544483450920,
        108228778483778560, 282574823891480, 2891324155045679234, 1126037350074400,
        18155146737369096, 18049583955431424, 1153308569208094848, 72066392286826496,
        1776900986372352, 9223409422399963264, 5764609739238410520, 9224515531128766592,
        5875016085073297442, 1585302321930175552, 704374661713920, 5084146078588940,
        11745466994378413313, 5512828164964881408, 9225711969732920610, 9232942392284283008,
        72239288342839296, 306315145569697824, 576479445611774016, 6953593077768454216,
        287006911430672, 180781701872517248, 180706952246067208, 142010875916,
        337840929260044800, 9403691945961718400, 2328362177773175424, 140771849142400,
        5630049374437760, 10450040056571232768, 4611967510617523456, 585471421900161088,
        72077798662996233, 882706631853350929, 4900479379968131474, 1450198702706655489,
        1234550484871155714, 36310289176725537, 8804951458436, 9224570659152134278,
    ]
}

/// The multipliers of the rook tables, one per square.
fn rook_magics() -> (r: Vec<u64>)
    ensures
        r@ == rook_magic_values(),
{
    let r = vec![
        9259400972386469971u64, 378302682768609280, 432363709392882176, 792669819509149696,
        72066390400761862, 3170696865660274184, 1297037800784303112, 4647724711070220416,
        4621115431220971552, 9223935263835750912, 36451421809283073, 288371182435059713,
        18155170357837952, 4630263409842586640, 577023710847092737, 45317473469333539,
        4611827305877078112, 2904830830706688580, 1152992973133185794, 342560544483450920,
        108228778483778560, 282574823891480, 2891324155045679234, 1126037350074400,
        18155146737369096, 18049583955431424, 1153308569208094848, 72066392286826496,
        1776900986372352, 9223409422399963264, 5764609739238410520, 9224515531128766592,
        5875016085073297442, 1585302321930175552, 704374661713920, 5084146078588940,
        11745466994378413313, 5512828164964881408, 9225711969732920610, 9232942392284283008,
        72239288342839296, 306315145569697824, 576479445611774016, 6953593077768454216,
        287006911430672, 180781701872517248, 180706952246067208, 142010875916,
        337840929260044800, 9403691945961718400, 2328362177773175424, 140771849142400,
        5630049374437760, 10450040056571232768, 4611967510617523456, 585471421900161088,
        72077798662996233, 882706631853350929, 4900479379968131474, 1450198702706655489,
        1234550484871155714, 36310289176725537, 8804951458436, 9224570659152134278,
    ];
    assert(r@ =~= rook_magic_values());
    r
}

/// The number of index bits of each rook table.
pub open spec fn rook_bits_values() -> Seq<u64> {
    seq![
        12u64, 11, 11, 11,
        11, 11, 11, 12,
        11, 10, 10, 10,
        10, 10, 10, 12,
        11, 10, 10, 10,
        10, 10, 10, 12,
        11, 10, 10, 10,
        10, 10, 10, 12,
        11, 10, 10, 10,
        10, 10, 10, 12,
        11, 10, 10, 10,
        10, 10, 10, 12,
        11, 10, 10, 10,
        10, 10, 10, 12,
        12, 11, 11, 11,
        11, 11, 11, 12,
    ]
}

/// The number of index bits of each rook table.
fn rook_relevant_bits() -> (r: Vec<u64>)
    ensures
        r@ == rook_bits_values(),
{
    let r = vec![
        12u64, 11, 11, 11,
        11, 11, 11, 12,
        11, 10, 10, 10,
        10, 10, 10, 12,
        11, 10, 10, 10,
        10, 10, 10, 12,
        11, 10, 10, 10,
        10, 10, 10, 12,
        11, 10, 10, 10,
        10, 10, 10, 12,
        11, 10, 10, 10,
        10, 10, 10, 12,
        11, 10, 10, 10,
        10, 10, 10, 12,
        12, 11, 11, 11,
        11, 11, 11, 12,
    ];
    assert(r@ =~= rook_bits_values());
    r
}

/// The squares whose occupancy can stop a rook, one set per square: its rays without their last square.
pub open spec fn rook_mask_values() -> Seq<u64> {
    seq![
        282578800148862u64, 565157600297596, 1130315200595066, 2260630401190006,
        4521260802379886, 9042521604759646, 18085043209519166, 36170086419038334,
        282578800180736, 565157600328704, 1130315200625152, 2260630401218048,
        4521260802403840, 9042521604775424, 18085043209518592, 36170086419037696,
        282578808340736, 565157608292864, 1130315208328192, 2260630408398848,
        4521260808540160, 9042521608822784, 18085043209388032, 36170086418907136,
        282580897300736, 565159647117824, 1130317180306432, 2260632246683648,
        4521262379438080, 9042522644946944, 18085043175964672, 36170086385483776,
        283115671060736, 565681586307584, 1130822006735872, 2261102847592448,
        4521664529305600, 9042787892731904, 18085034619584512, 36170077829103616,
        420017753620736, 699298018886144, 1260057572672512, 2381576680245248,
        4624614895390720, 9110691325681664, 18082844186263552, 36167887395782656,
        35466950888980736, 34905104758997504, 34344362452452352, 33222877839362048,
        30979908613181440, 26493970160820224, 17522093256097792, 35607136465616896,
        9079539427579068672, 8935706818303361536, 8792156787827803136, 8505056726876686336,
        7930856604974452736, 6782456361169985536, 4485655873561051136, 9115426935197958144,
    ]
}

/// The squares whose occupancy can stop a rook, one set per square: its rays without their last square.
fn rook_relevant_masks() -> (r: Vec<u64>)
    ensures
        r@ == rook_mask_values(),
{
    let r = vec![
        282578800148862u64, 565157600297596, 1130315200595066, 2260630401190006,
        4521260802379886, 9042521604759646, 18085043209519166, 36170086419038334,
        282578800180736, 565157600328704, 1130315200625152, 2260630401218048,
        4521260802403840, 9042521604775424, 18085043209518592, 36170086419037696,
        282578808340736, 565157608292864, 1130315208328192, 2260630408398848,
        4521260808540160, 9042521608822784, 18085043209388032, 36170086418907136,
        282580897300736, 565159647117824, 1130317180306432, 2260632246683648,
        4521262379438080, 9042522644946944, 18085043175964672, 36170086385483776,
        283115671060736, 565681586307584, 1130822006735872, 2261102847592448,
        4521664529305600, 9042787892731904, 18085034619584512, 36170077829103616,
        420017753620736, 699298018886144, 1260057572672512, 2381576680245248,
        4624614895390720, 9110691325681664, 18082844186263552, 36167887395782656,
        35466950888980736, 34905104758997504, 34344362452452352, 33222877839362048,
        30979908613181440, 26493970160820224, 17522093256097792, 35607136465616896,
        9079539427579068672, 8935706818303361536, 8792156787827803136, 8505056726876686336,
        7930856604974452736, 6782456361169985536, 4485655873561051136, 9115426935197958144,
    ];
    assert(r@ =~= rook_mask_values());
    r
}

/// The multipliers of the bishop tables, one per square.
pub open spec fn bishop_magic_values() -> Seq<u64> {
    seq![
        1197960816612343840u64, 4617882883208794114, 653093423084995074, 4617386739290521616,
        14989110974533862472, 572914420221952, 4908998412701533200, 2306124760412063760,
        585476782154056016, 18017998161904128, 72392550023438368, 3458804182147399905,
        9259420651123378193, 2306970077755607104, 435029482951155712, 648887928310865920,
        1162529866810458368, 633971801333888, 650770163337013762, 423690235822100,
        577587822632894465, 10376857041717168152, 4648841011882624096, 141841941139536,
        38316060780400640, 13537191561528131, 288318389024809024, 9800396290612297738,
        216317917724155908, 290764750756774016, 6923163202255728640, 1688987399946496,
        1171222463469592576, 577596583250494016, 1165332809042758657, 157637533978067456,
        2323859615337422976, 4503883095228672, 293583075781183497, 1209219799029448834,
        4693331422714283008, 79184970449920, 13792415643078688, 1105014558976,
        450364374104806400, 2314859073283040320, 9008307524117124, 4756366364089260544,
        3458909666573025296, 4622140733466347521, 3479059935378539538, 18157336128520192,
        2449958335278022658, 35872145809408, 2287265841741824, 2308097025236406560,
        9264187854190821376, 577950457856, 288230453478983712, 7512461579728978944,
        292734285302071809, 220711703620370826, 1152925937684251661, 666541566856396826,
    ]
}

/// The multipliers of the bishop tables, one per square.
fn bishop_magics() -> (r: Vec<u64>)
    ensures
        r@ == bishop_magic_values(),
{
    let r = vec![
        1197960816612343840u64, 4617882883208794114, 653093423084995074, 4617386739290521616,
        14989110974533862472, 572914420221952, 4908998412701533200, 2306124760412063760,
        585476782154056016, 18017998161904128, 72392550023438368, 3458804182147399905,
        9259420651123378193, 2306970077755607104, 435029482951155712, 648887928310865920,
        1162529866810458368, 633971801333888, 650770163337013762, 423690235822100,
        577587822632894465, 10376857041717168152, 4648841011882624096, 141841941139536,
        38316060780400640, 13537191561528131, 288318389024809024, 9800396290612297738,
        216317917724155908, 290764750756774016, 6923163202255728640, 1688987399946496,
        1171222463469592576, 577596583250494016, 1165332809042758657, 157637533978067456,
        2323859615337422976, 4503883095228672, 293583075781183497, 1209219799029448834,
        4693331422714283008, 79184970449920, 13792415643078688, 1105014558976,
        450364374104806400, 2314859073283040320, 9008307524117124, 4756366364089260544,
        3458909666573025296, 4622140733466347521, 3479059935378539538, 18157336128520192,
        2449958335278022658, 35872145809408, 2287265841741824, 2308097025236406560,
        9264187854190821376, 577950457856, 288230453478983712, 7512461579728978944,
        292734285302071809, 220711703620370826, 1152925937684251661, 666541566856396826,
    ];
    assert(r@ =~= bishop_magic_values());
    r
}

/// The number of index bits of each bishop table.
pub open spec fn bishop_bits_values() -> Seq<u64> {
    seq![
        6u64, 5, 5, 5,
        5, 5, 5, 6,
        5, 5, 5, 5,
        5, 5, 5, 5,
        5, 5, 7, 7,
        7, 7, 5, 5,
        5, 5, 7, 9,
        9, 7, 5, 5,
        5, 5, 7, 9,
        9, 7, 5, 5,
        5, 5, 7, 7,
        7, 7, 5, 5,
        5, 5, 5, 5,
        5, 5, 5, 5,
        6, 5, 5, 5,
        5, 5, 5, 6,
    ]
}

/// The number of index bits of each bishop table.
fn bishop_relevant_bits() -> (r: Vec<u64>)
    ensures
        r@ == bishop_bits_values(),
{
    let r = vec![
        6u64, 5, 5, 5,
        5, 5, 5, 6,
        5, 5, 5, 5,
        5, 5, 5, 5,
        5, 5, 7, 7,
        7, 7, 5, 5,
        5, 5, 7, 9,
        9, 7, 5, 5,
        5, 5, 7, 9,
        9, 7, 5, 5,
        5, 5, 7, 7,
        7, 7, 5, 5,
        5, 5, 5, 5,
        5, 5, 5, 5,
        6, 5, 5, 5,
        5, 5, 5, 6,
    ];
    assert(r@ =~= bishop_bits_values());
    r
}

/// The squares whose occupancy can stop a bishop, one set per square.
pub open spec fn bishop_mask_values() -> Seq<u64> {
    seq![
        18049651735527936u64, 70506452091904, 275415828992, 1075975168,
        38021120, 8657588224, 2216338399232, 567382630219776,
        9024825867763712, 18049651735527424, 70506452221952, 275449643008,
        9733406720, 2216342585344, 567382630203392, 1134765260406784,
        4512412933816832, 9024825867633664, 18049651768822272, 70515108615168,
        2491752130560, 567383701868544, 1134765256220672, 2269530512441344,
        2256206450263040, 4512412900526080, 9024834391117824, 18051867805491712,
        637888545440768, 1135039602493440, 2269529440784384, 4539058881568768,
        1128098963916800, 2256197927833600, 4514594912477184, 9592139778506752,
        19184279556981248, 2339762086609920, 4538784537380864, 9077569074761728,
        562958610993152, 1125917221986304, 2814792987328512, 5629586008178688,
        11259172008099840, 22518341868716544, 9007336962655232, 18014673925310464,
        2216338399232, 4432676798464, 11064376819712, 22137335185408,
        44272556441600, 87995357200384, 35253226045952, 70506452091904,
        567382630219776, 1134765260406784, 2832480465846272, 5667157807464448,
        11333774449049600, 22526811443298304, 9024825867763712, 18049651735527936,
    ]
}

/// The squares whose occupancy can stop a bishop, one set per square.
fn bishop_relevant_masks() -> (r: Vec<u64>)
    ensures
        r@ == bishop_mask_values(),
{
    let r = vec![
        18049651735527936u64, 70506452091904, 275415828992, 1075975168,
        38021120, 8657588224, 2216338399232, 567382630219776,
        9024825867763712, 18049651735527424, 70506452221952, 275449643008,
        9733406720, 2216342585344, 567382630203392, 1134765260406784,
        4512412933816832, 9024825867633664, 18049651768822272, 70515108615168,
        2491752130560, 567383701868544, 1134765256220672, 2269530512441344,
        2256206450263040, 4512412900526080, 9024834391117824, 18051867805491712,
        637888545440768, 1135039602493440, 2269529440784384, 4539058881568768,
        1128098963916800, 2256197927833600, 4514594912477184, 9592139778506752,
        19184279556981248, 2339762086609920, 4538784537380864, 9077569074761728,
        562958610993152, 1125917221986304, 2814792987328512, 5629586008178688,
        11259172008099840, 22518341868716544, 9007336962655232, 18014673925310464,
        2216338399232, 4432676798464, 11064376819712, 22137335185408,
        44272556441600, 87995357200384, 35253226045952, 70506452091904,
        567382630219776, 1134765260406784, 2832480465846272, 5667157807464448,
        11333774449049600, 22526811443298304, 9024825867763712, 18049651735527936,
    ];
    assert(r@ =~= bishop_mask_values());
    r
}

/// The "magic bitboards" tables of one kind of slider: for each square, the attacks for each
/// occupancy of the squares that can stop it, found by multiplying that occupancy by a
/// constant and keeping the top bits.
#[derive(Clone, Debug)]
pub struct SlidingAttackTable {
    rook: bool,
    attack_sets: Vec<Vec<Bitboard>>,
    magics: Vec<u64>,
    relevant_bits: Vec<u64>,
    relevant_occupancy_masks: Vec<u64>,
    valid: Vec<bool>,
}

impl SlidingAttackTable {
    /// Each square has a table as long as its index bits allow; a square marked valid has a
    /// mask that covers its rays and a table that holds the attacks of every occupancy of it.
    pub closed spec fn wf(&self) -> bool {
        &&& self.attack_sets@.len() == 64
        &&& self.magics@.len() == 64
        &&& self.relevant_bits@.len() == 64
        &&& self.relevant_occupancy_masks@.len() == 64
        &&& self.valid@.len() == 64
        &&& forall|s: int|
            0 <= s < 64 ==> 1 <= #[trigger] self.relevant_bits@[s] <= 12
                && self.attack_sets@[s]@.len() == (1u64 << self.relevant_bits@[s]) as nat
        &&& forall|q: Square| #[trigger] self.valid@[sq_index(q) as int] ==> self.square_correct(q)
    }

    closed spec fn square_correct(&self, q: Square) -> bool {
        let s = sq_index(q) as int;
        let mask = self.relevant_occupancy_masks@[s];
        &&& covers_slider(self.rook, mask, q)
        &&& forall|x: u64| #![trigger magic_key(x, mask, self.magics@[s], self.relevant_bits@[s])] x & mask == x
            ==> self.attack_sets@[s]@[magic_key(x, mask, self.magics@[s], self.relevant_bits@[s]) as int]@
            == slider_attack_set(self.rook, q, x)
    }

    /// Whether these are the rook tables (else the bishop tables).
    pub closed spec fn is_rook(&self) -> bool {
        self.rook
    }

    /// Whether the table of `q` was found correct when it was built: its constants are correct
    /// (see `magic_correct`), and then the table holds the attacks of every occupancy.
    pub closed spec fn valid_at(&self, q: Square) -> bool {
        self.valid@[sq_index(q) as int]
    }

    pub fn compute_for_rook() -> (r: SlidingAttackTable)
        ensures
            r.wf(),
            r.is_rook(),
            forall|q: Square| #[trigger] r.valid_at(q) <==> magic_correct(
                true,
                q,
                rook_magic_values()[sq_index(q) as int],
                rook_bits_values()[sq_index(q) as int],
                rook_mask_values()[sq_index(q) as int],
            ),
    {
        SlidingAttackTable::compute(true, rook_magics(), rook_relevant_bits(), rook_relevant_masks())
    }

    pub fn compute_for_bishop() -> (r: SlidingAttackTable)
        ensures
            r.wf(),
            !r.is_rook(),
            forall|q: Square| #[trigger] r.valid_at(q) <==> magic_correct(
                false,
                q,
                bishop_magic_values()[sq_index(q) as int],
                bishop_bits_values()[sq_index(q) as int],
                bishop_mask_values()[sq_index(q) as int],
            ),
    {
        SlidingAttackTable::compute(
            false,
            bishop_magics(),
            bishop_relevant_bits(),
            bishop_relevant_masks(),
        )
    }

    /// Whether every square's table was found correct.
    pub fn is_valid(&self) -> (r: bool)
        requires
            self.wf(),
        ensures
            r ==> forall|q: Square| self.valid_at(q),
    {
        let mut i: usize = 0;
        while i < 64
            invariant
                self.wf(),
                i <= 64,
                forall|j: int| 0 <= j < i ==> #[trigger] self.valid@[j],
            decreases 64 - i,
        {
            if !self.valid[i] {
                return false;
            }
            i = i + 1;
        }
        proof {
            assert forall|q: Square| self.valid_at(q) by {
                assert(sq_index(q) < 64);
                assert(self.valid@[sq_index(q) as int]);
            }
        }
        true
    }

    /// The squares that the slider on `sq` attacks when `all_pieces_bitboard` is occupied:
    /// each ray up to and including its first occupied square. The table gives them; on a
    /// square whose table was not found correct, the rays are walked instead.
    pub fn get_attack_set(&self, sq: Square, all_pieces_bitboard: Bitboard) -> (r: Bitboard)
        requires
            self.wf(),
        ensures
            r@ == slider_attack_set(self.is_rook(), sq, all_pieces_bitboard.0),
    {
        let s = sq.as_u8() as usize;
        if !self.valid[s] {
            return if self.rook {
                generate_rook_attack_set(sq, all_pieces_bitboard)
            } else {
                generate_bishop_attack_set(sq, all_pieces_bitboard)
            };
        }
        self.lookup(sq, all_pieces_bitboard)
    }

    /// The table entry that the magic multiplication selects for an occupancy.
    pub fn lookup(&self, sq: Square, all_pieces_bitboard: Bitboard) -> (r: Bitboard)
        requires
            self.wf(),
        ensures
            self.valid_at(sq) ==> r@ == slider_attack_set(self.is_rook(), sq, all_pieces_bitboard.0),
    {
        let s = sq.as_u8() as usize;
        let bits = self.relevant_bits[s];
        let mask = self.relevant_occupancy_masks[s];
        let occupancy = all_pieces_bitboard.0;
        let relevant = occupancy & mask;
        let key = relevant.wrapping_mul(self.magics[s]) >> (64 - bits);
        proof {
            lemma_key_bound(relevant.wrapping_mul(self.magics@[s as int]), bits);
            if self.valid_at(sq) {
                assert(self.square_correct(sq));
                assert((relevant & mask) == relevant) by (bit_vector)
                    requires
                        relevant == occupancy & mask,
                ;
                assert(key == magic_key(relevant, mask, self.magics@[s as int], bits));
                lemma_slider_masked(self.rook, sq, all_pieces_bitboard.0, mask);
            }
        }
        self.attack_sets[s][key as usize]
    }

    /// Builds the tables from the multipliers, index bit counts and masks of each square.
    fn compute(rook: bool, magics: Vec<u64>, relevant_bits: Vec<u64>, masks: Vec<u64>) -> (r:
        SlidingAttackTable)
        requires
            magics@.len() == 64,
            relevant_bits@.len() == 64,
            masks@.len() == 64,
        ensures
            r.wf(),
            r.rook == rook,
            forall|q: Square| #[trigger] r.valid_at(q) <==> magic_correct(
                rook,
                q,
                magics@[sq_index(q) as int],
                relevant_bits@[sq_index(q) as int],
                masks@[sq_index(q) as int],
            ),
    {
        let mut attack_sets: Vec<Vec<Bitboard>> = Vec::new();
        let mut bits_used: Vec<u64> = Vec::new();
        let mut valid: Vec<bool> = Vec::new();
        let mut s: u8 = 0;
        while s < 64
            invariant
                s <= 64,
                attack_sets@.len() == s,
                bits_used@.len() == s,
                valid@.len() == s,
                relevant_bits@.len() == 64,
                masks@.len() == 64,
                magics@.len() == 64,
                forall|t: int|
                    0 <= t < s ==> 1 <= #[trigger] bits_used@[t] <= 12
                        && attack_sets@[t]@.len() == (1u64 << bits_used@[t]) as nat,
                forall|q: Square| sq_index(q) < s ==> (#[trigger] valid@[sq_index(q) as int] <==> magic_correct(
                    rook,
                    q,
                    magics@[sq_index(q) as int],
                    relevant_bits@[sq_index(q) as int],
                    masks@[sq_index(q) as int],
                )),
                forall|q: Square| sq_index(q) < s && #[trigger] valid@[sq_index(q) as int] ==> {
                    let t = sq_index(q) as int;
                    &&& covers_slider(rook, masks@[t], q)
                    &&& forall|x: u64| #![trigger magic_key(x, masks@[t], magics@[t], bits_used@[t])] x & masks@[t] == x
                        ==> attack_sets@[t]@[magic_key(x, masks@[t], magics@[t], bits_used@[t]) as int]@
                        == slider_attack_set(rook, q, x)
                },
            decreases 64 - s,
        {
            let sq = match Square::from_u8(s) {
                Some(q) => q,
                None => Square::A1,
            };
            let given = relevant_bits[s as usize];
            let in_range = 1 <= given && given <= 12;
            let bits: u64 = if in_range { given } else { 12 };
            let (table, ok) = compute_square(rook, sq, magics[s as usize], bits, masks[s as usize]);
            let ghost old_sets = attack_sets@;
            let ghost old_bits = bits_used@;
            let ghost old_valid = valid@;
            attack_sets.push(table);
            bits_used.push(bits);
            valid.push(ok && in_range);
            proof {
                assert forall|q: Square| sq_index(q) < s + 1 implies (#[trigger] valid@[sq_index(q) as int] <==> magic_correct(
                    rook,
                    q,
                    magics@[sq_index(q) as int],
                    relevant_bits@[sq_index(q) as int],
                    masks@[sq_index(q) as int],
                )) by {
                    if sq_index(q) == s {
                        assert(q == sq);
                    } else {
                        assert(valid@[sq_index(q) as int] == old_valid[sq_index(q) as int]);
                    }
                }
                assert forall|q: Square| sq_index(q) < s + 1 && #[trigger] valid@[sq_index(q) as int] implies {
                    let t = sq_index(q) as int;
                    &&& covers_slider(rook, masks@[t], q)
                    &&& forall|x: u64| #![trigger magic_key(x, masks@[t], magics@[t], bits_used@[t])] x & masks@[t] == x
                        ==> attack_sets@[t]@[magic_key(x, masks@[t], magics@[t], bits_used@[t]) as int]@
                        == slider_attack_set(rook, q, x)
                } by {
                    let t = sq_index(q) as int;
                    if t < s {
                        assert(old_valid[t]);
                        assert(attack_sets@[t] == old_sets[t]);
                        assert(bits_used@[t] == old_bits[t]);
                    } else {
                        assert(q == sq);
                        assert(attack_sets@[t] == table);
                        assert(bits_used@[t] == bits);
                    }
                }
            }
            s = s + 1;
        }
        let r = SlidingAttackTable {
            rook,
            attack_sets,
            magics,
            relevant_bits: bits_used,
            relevant_occupancy_masks: masks,
            valid,
        };
        proof {
            assert forall|q: Square| #[trigger] r.valid@[sq_index(q) as int] implies r.square_correct(q) by {
                assert(sq_index(q) < 64);
            }
        }
        r
    }
}

/// The magic lookup agrees with walking the rays: on a square whose table was found correct,
/// `looked_up` and `walked`, what `lookup` and the ray walk of the same slider return for the
/// same occupancy, are the same bitboard.
pub proof fn lemma_lookup_matches_ray_walk(
    table: SlidingAttackTable,
    sq: Square,
    occupancy: u64,
    looked_up: Bitboard,
    walked: Bitboard,
)
    requires
        table.wf(),
        table.valid_at(sq),
        table.valid_at(sq) ==> looked_up@ == slider_attack_set(table.is_rook(), sq, occupancy),
        walked@ == slider_attack_set(table.is_rook(), sq, occupancy),
    ensures
        looked_up == walked,
{
    crate::bitboard::lemma_view_injective(looked_up, walked);
}

} // verus!
