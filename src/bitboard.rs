use vstd::prelude::*;
use crate::square::{Square, sq_index, lemma_square_index_injective};

verus! {

broadcast use lemma_square_index_injective;

/// Whether bit `i` of `b` is set.
pub open spec fn has_bit(b: u64, i: nat) -> bool {
    i < 64 && (b >> (i as u64)) & 1 == 1
}

/// The numbers of the bits set in `b`.
pub open spec fn bits_of(b: u64) -> Set<nat> {
    Set::new(|i: nat| has_bit(b, i))
}

/// The numbers of a sequence of squares.
pub open spec fn square_indices(s: Seq<Square>) -> Seq<nat> {
    s.map_values(|q: Square| sq_index(q))
}

/// The numbers of a sequence of squares strictly ascend.
pub open spec fn strictly_ascending(s: Seq<Square>) -> bool {
    forall|a: int, b: int| 0 <= a < b < s.len() ==> sq_index(s[a]) < sq_index(s[b])
}

/// Bit `i` of a single-bit word.
pub proof fn lemma_bit_single(i: u64, j: u64)
    requires
        i < 64,
        j < 64,
    ensures
        ((1u64 << i) >> j) & 1 == 1 <==> i == j,
{
    assert(((1u64 << i) >> j) & 1 == 1 <==> i == j) by (bit_vector)
        requires
            i < 64,
            j < 64,
    ;
}

pub proof fn lemma_bit_or(a: u64, b: u64, i: u64)
    ensures
        ((a | b) >> i) & 1 == 1 <==> ((a >> i) & 1 == 1 || (b >> i) & 1 == 1),
{
    assert(((a | b) >> i) & 1 == 1 <==> ((a >> i) & 1 == 1 || (b >> i) & 1 == 1)) by (bit_vector);
}

pub proof fn lemma_bit_and(a: u64, b: u64, i: u64)
    ensures
        ((a & b) >> i) & 1 == 1 <==> ((a >> i) & 1 == 1 && (b >> i) & 1 == 1),
{
    assert(((a & b) >> i) & 1 == 1 <==> ((a >> i) & 1 == 1 && (b >> i) & 1 == 1)) by (bit_vector);
}

pub proof fn lemma_bit_xor(a: u64, b: u64, i: u64)
    ensures
        ((a ^ b) >> i) & 1 == 1 <==> ((a >> i) & 1 == 1) != ((b >> i) & 1 == 1),
{
    assert(((a ^ b) >> i) & 1 == 1 <==> ((a >> i) & 1 == 1) != ((b >> i) & 1 == 1)) by (bit_vector);
}

pub proof fn lemma_bit_not(a: u64, i: u64)
    requires
        i < 64,
    ensures
        ((!a) >> i) & 1 == 1 <==> !((a >> i) & 1 == 1),
{
    assert(((!a) >> i) & 1 == 1 <==> !((a >> i) & 1 == 1)) by (bit_vector)
        requires
            i < 64,
    ;
}

pub proof fn lemma_bit_zero(i: u64)
    ensures
        !((0u64 >> i) & 1 == 1),
{
    assert(!((0u64 >> i) & 1 == 1)) by (bit_vector);
}

/// A word with no bit set is zero.
pub proof fn lemma_no_bits_is_zero(a: u64)
    requires
        forall|i: nat| !has_bit(a, i),
    ensures
        a == 0,
{
    broadcast use vstd::std_specs::bits::axiom_u64_trailing_zeros;

    if a != 0 {
        let t = vstd::std_specs::bits::u64_trailing_zeros(a);
        assert(has_bit(a, t as nat));
    }
}

/// Clearing a set bit makes the word smaller.
proof fn lemma_clear_decreases(a: u64, t: u64)
    requires
        t < 64,
        (a >> t) & 1 == 1,
    ensures
        a & !(1u64 << t) < a,
{
    assert(a & !(1u64 << t) < a) by (bit_vector)
        requires
            t < 64,
            (a >> t) & 1 == 1,
    ;
}

/// A byte shifted into place holds its bits at that place.
proof fn lemma_bit_shifted_byte(x: u64, k: u64, i: u64)
    requires
        x < 256,
        k < 8,
        i < 64,
    ensures
        ((x << (8 * k)) >> i) & 1 == 1 <==> (8 * k <= i < 8 * k + 8 && (x >> ((i - 8 * k) as u64)) & 1 == 1),
{
    assert(((x << (8 * k)) >> i) & 1 == 1 <==> (8 * k <= i < 8 * k + 8 && (x >> ((i - 8 * k) as u64)) & 1
        == 1)) by (bit_vector)
        requires
            x < 256,
            k < 8,
            i < 64,
    ;
}

/// A set of squares: bit `i` is set when square `i` is in it.
#[derive(Clone, Copy, Debug, PartialEq, Eq, Hash, Structural)]
pub struct Bitboard(pub u64);

impl View for Bitboard {
    type V = Set<nat>;

    open spec fn view(&self) -> Set<nat> {
        bits_of(self.0)
    }
}

/// The grid of a rank: `#` for a set square, `.` for an empty one, file `a` first.
pub open spec fn grid_row(b: u64, rank: nat) -> Seq<char> {
    Seq::new(8, |f: int| if has_bit(b, 8 * rank + f as nat) { '#' } else { '.' })
}

/// The grids of the top `n` ranks, rank 8 first, one per line.
pub open spec fn grid_rows(b: u64, n: nat) -> Seq<char>
    decreases n,
{
    if n == 0 {
        Seq::empty()
    } else if n == 1 {
        grid_row(b, 7)
    } else {
        grid_rows(b, (n - 1) as nat) + seq!['\n'] + grid_row(b, (8 - n) as nat)
    }
}

impl Bitboard {
    pub fn empty() -> (r: Bitboard)
        ensures
            r@ == Set::<nat>::empty(),
            r.0 == 0,
    {
        proof {
            assert forall|i: nat| !has_bit(0, i) by {
                if i < 64 {
                    lemma_bit_zero(i as u64);
                }
            }
        }
        let r = Bitboard(0);
        assert(r@ =~= Set::<nat>::empty());
        r
    }

    /// The set holding only `sq`.
    pub fn single(sq: Square) -> (r: Bitboard)
        ensures
            r@ == set![sq_index(sq)],
    {
        let s = sq.as_u8() as u64;
        let r = Bitboard(1u64 << s);
        proof {
            assert forall|i: nat| has_bit(r.0, i) <==> i == sq_index(sq) by {
                if i < 64 {
                    lemma_bit_single(s, i as u64);
                }
            }
        }
        assert(r@ =~= set![sq_index(sq)]);
        r
    }

    /// The set whose rank `k` (0 for rank 1) is the byte `ranks[k]`, bit 0 being file `a`.
    pub fn from_ranks(ranks: [u8; 8]) -> (r: Bitboard)
        ensures
            forall|i: nat| #[trigger] r@.contains(i) <==> (i < 64 && (ranks[(i / 8) as int] as u64
                >> ((i % 8) as u64)) & 1 == 1),
    {
        let mut result: u64 = 0;
        let mut k: usize = 0;
        proof {
            assert forall|i: nat| !has_bit(0, i) by {
                if i < 64 {
                    lemma_bit_zero(i as u64);
                }
            }
        }
        while k < 8
            invariant
                k <= 8,
                forall|i: nat| #[trigger] has_bit(result, i) <==> (i < 8 * k && (ranks[(i / 8) as int] as u64
                    >> ((i % 8) as u64)) & 1 == 1),
            decreases 8 - k,
        {
            let x = ranks[k] as u64;
            let shifted = x << (8 * k as u64);
            let next = result | shifted;
            proof {
                assert forall|i: nat| #[trigger] has_bit(next, i) <==> (i < 8 * (k + 1) && (ranks[(i / 8) as int] as u64
                    >> ((i % 8) as u64)) & 1 == 1) by {
                    if i < 64 {
                        lemma_bit_or(result, shifted, i as u64);
                        lemma_bit_shifted_byte(x, k as u64, i as u64);
                        assert(has_bit(result, i) == (i < 8 * k && (ranks[(i / 8) as int] as u64
                            >> ((i % 8) as u64)) & 1 == 1));
                        if 8 * k <= i < 8 * k + 8 {
                            assert(i / 8 == k);
                            assert(i - 8 * k == i % 8);
                        }
                    }
                }
            }
            result = next;
            k = k + 1;
        }
        Bitboard(result)
    }

    /// Whether `sq` is in the set.
    pub fn contains(self, sq: Square) -> (r: bool)
        ensures
            r == self@.contains(sq_index(sq)),
    {
        let s = sq.as_u8() as u64;
        (self.0 >> s) & 1 == 1
    }

    /// The union of two sets.
    pub fn union(self, other: Bitboard) -> (r: Bitboard)
        ensures
            r@ == self@.union(other@),
    {
        let r = Bitboard(self.0 | other.0);
        proof {
            assert forall|i: nat| has_bit(r.0, i) <==> has_bit(self.0, i) || has_bit(other.0, i) by {
                lemma_bit_or(self.0, other.0, i as u64);
            }
        }
        assert(r@ =~= self@.union(other@));
        r
    }

    /// The intersection of two sets.
    pub fn intersection(self, other: Bitboard) -> (r: Bitboard)
        ensures
            r@ == self@.intersect(other@),
    {
        let r = Bitboard(self.0 & other.0);
        proof {
            assert forall|i: nat| has_bit(r.0, i) <==> has_bit(self.0, i) && has_bit(other.0, i) by {
                lemma_bit_and(self.0, other.0, i as u64);
            }
        }
        assert(r@ =~= self@.intersect(other@));
        r
    }

    /// The squares in exactly one of two sets.
    pub fn symmetric_difference(self, other: Bitboard) -> (r: Bitboard)
        ensures
            r@ == self@.difference(other@).union(other@.difference(self@)),
    {
        let r = Bitboard(self.0 ^ other.0);
        proof {
            assert forall|i: nat| has_bit(r.0, i) <==> has_bit(self.0, i) != has_bit(other.0, i) by {
                lemma_bit_xor(self.0, other.0, i as u64);
            }
        }
        assert(r@ =~= self@.difference(other@).union(other@.difference(self@)));
        r
    }

    /// The squares of the board that are not in the set.
    pub fn complement(self) -> (r: Bitboard)
        ensures
            forall|i: nat| #[trigger] r@.contains(i) <==> (i < 64 && !self@.contains(i)),
    {
        let r = Bitboard(!self.0);
        proof {
            assert forall|i: nat| #[trigger] r@.contains(i) <==> (i < 64 && !self@.contains(i)) by {
                if i < 64 {
                    lemma_bit_not(self.0, i as u64);
                }
            }
        }
        r
    }

    /// The squares of `self` that are not in `other`.
    pub fn without(self, other: Bitboard) -> (r: Bitboard)
        ensures
            r@ == self@.difference(other@),
    {
        let r = Bitboard(self.0 & !other.0);
        proof {
            assert forall|i: nat| has_bit(r.0, i) <==> has_bit(self.0, i) && !has_bit(other.0, i) by {
                if i < 64 {
                    lemma_bit_and(self.0, !other.0, i as u64);
                    lemma_bit_not(other.0, i as u64);
                }
            }
        }
        assert(r@ =~= self@.difference(other@));
        r
    }

    /// Whether the two sets share a square.
    pub fn intersects(self, other: Bitboard) -> (r: bool)
        ensures
            r == !self@.disjoint(other@),
    {
        let x = self.intersection(other);
        if x.0 == 0 {
            proof {
                assert forall|i: nat| !x@.contains(i) by {
                    if i < 64 {
                        lemma_bit_zero(i as u64);
                    }
                }
                assert(self@.disjoint(other@)) by {
                    assert forall|i: nat| !(self@.contains(i) && other@.contains(i)) by {
                        assert(!x@.contains(i));
                    }
                }
            }
            false
        } else {
            proof {
                if self@.disjoint(other@) {
                    assert forall|i: nat| !has_bit(x.0, i) by {
                        assert(!x@.contains(i));
                    }
                    lemma_no_bits_is_zero(x.0);
                }
            }
            true
        }
    }

    /// Whether the set is empty.
    pub fn is_empty(self) -> (r: bool)
        ensures
            r == (self@ == Set::<nat>::empty()),
    {
        if self.0 == 0 {
            proof {
                assert forall|i: nat| !has_bit(0, i) by {
                    if i < 64 {
                        lemma_bit_zero(i as u64);
                    }
                }
            }
            assert(self@ =~= Set::<nat>::empty());
            true
        } else {
            proof {
                if self@ == Set::<nat>::empty() {
                    assert forall|i: nat| !has_bit(self.0, i) by {
                        assert(!self@.contains(i));
                    }
                    lemma_no_bits_is_zero(self.0);
                }
            }
            false
        }
    }

    /// This set with `sq` added.
    pub fn with_inserted(self, sq: Square) -> (r: Bitboard)
        ensures
            r@ == self@.insert(sq_index(sq)),
    {
        let r = self.union(Bitboard::single(sq));
        assert(r@ =~= self@.insert(sq_index(sq)));
        r
    }

    /// This set with `sq` taken out.
    pub fn with_removed(self, sq: Square) -> (r: Bitboard)
        ensures
            r@ == self@.remove(sq_index(sq)),
    {
        let r = self.without(Bitboard::single(sq));
        assert(r@ =~= self@.remove(sq_index(sq)));
        r
    }

    /// Adds `sq` to the set.
    pub fn insert(&mut self, sq: Square)
        ensures
            final(self)@ == old(self)@.insert(sq_index(sq)),
    {
        *self = self.with_inserted(sq);
    }

    /// Takes `sq` out of the set.
    pub fn remove(&mut self, sq: Square)
        ensures
            final(self)@ == old(self)@.remove(sq_index(sq)),
    {
        *self = self.with_removed(sq);
    }

    /// Adds `sq` to the set when `condition` holds, without a branch.
    pub fn insert_if(&mut self, sq: Square, condition: bool)
        ensures
            final(self)@ == (if condition { old(self)@.insert(sq_index(sq)) } else { old(self)@ }),
    {
        let single = Bitboard::single(sq);
        let c: u64 = if condition { 1 } else { 0 };
        let masked = single.0 * c;
        assert(masked == if condition { single.0 } else { 0 });
        let r = Bitboard(self.0 | masked);
        proof {
            assert forall|i: nat| has_bit(single.0, i) <==> i == sq_index(sq) by {
                assert(single@.contains(i) == has_bit(single.0, i));
            }
            assert forall|i: nat| has_bit(r.0, i) <==> has_bit(self.0, i) || has_bit(masked, i) by {
                if i < 64 {
                    lemma_bit_or(self.0, masked, i as u64);
                }
            }
            assert forall|i: nat| !has_bit(0, i) by {
                if i < 64 {
                    lemma_bit_zero(i as u64);
                }
            }
            if condition {
                assert forall|i: nat| r@.contains(i) <==> self@.insert(sq_index(sq)).contains(i) by {
                    assert(has_bit(masked, i) <==> i == sq_index(sq));
                }
                assert(r@ =~= self@.insert(sq_index(sq)));
            } else {
                assert forall|i: nat| r@.contains(i) <==> self@.contains(i) by {
                    assert(!has_bit(masked, i));
                }
                assert(r@ =~= self@);
            }
        }
        *self = r;
    }

    /// The squares of the set, each once, in ascending order.
    pub fn iter(self) -> (r: Vec<Square>)
        ensures
            strictly_ascending(r@),
            square_indices(r@).to_set() == self@,
            r@.len() == self@.len(),
            r@.len() <= 64,
            self@.finite(),
    {
        broadcast use vstd::std_specs::bits::axiom_u64_trailing_zeros;

        let mut rem: u64 = self.0;
        let mut v: Vec<Square> = Vec::new();
        while rem != 0
            invariant
                forall|i: nat| #[trigger] has_bit(self.0, i) <==> (square_indices(v@).contains(i)
                    || has_bit(rem, i)),
                forall|i: nat| #[trigger] has_bit(rem, i) ==> !square_indices(v@).contains(i),
                strictly_ascending(v@),
                forall|a: int| 0 <= a < v@.len() ==> a <= sq_index(#[trigger] v@[a]) < 64,
                forall|a: int, i: nat| 0 <= a < v@.len() && #[trigger] has_bit(rem, i) ==> sq_index(
                    #[trigger] v@[a]) < i,
            decreases rem,
        {
            let t = rem.trailing_zeros();
            let t64 = t as u64;
            assert(t < 64);
            assert((rem >> t64) & 1 == 1);
            let sq = match Square::from_u8(t as u8) {
                Some(s) => s,
                None => Square::A1,
            };
            let next = rem & !(1u64 << t64);
            proof {
                lemma_clear_decreases(rem, t64);
                assert forall|i: nat| #[trigger] has_bit(next, i) <==> (has_bit(rem, i) && i != t) by {
                    if i < 64 {
                        lemma_bit_and(rem, !(1u64 << t64), i as u64);
                        lemma_bit_not(1u64 << t64, i as u64);
                        lemma_bit_single(t64, i as u64);
                    }
                }
                assert forall|i: nat| has_bit(rem, i) implies t <= i by {
                    if i < t {
                        assert((rem >> (i as u64)) & 1u64 == 0u64);
                    }
                }
                assert(has_bit(rem, t as nat));
                if v@.len() > 0 {
                    assert(sq_index(v@[v@.len() - 1]) < t);
                }
                assert forall|a: int| 0 <= a < v@.len() implies sq_index(#[trigger] v@[a]) < t by {
                    assert(has_bit(rem, t as nat));
                }
                let old_s = square_indices(v@);
                let new_s = square_indices(v@.push(sq));
                assert(new_s =~= old_s.push(t as nat));
                assert forall|i: nat| new_s.contains(i) <==> (old_s.contains(i) || i == t) by {
                    if i == t {
                        assert(new_s[old_s.len() as int] == i);
                    }
                    if old_s.contains(i) {
                        let a = choose|a: int| 0 <= a < old_s.len() && old_s[a] == i;
                        assert(new_s[a] == i);
                    }
                    if new_s.contains(i) && i != t {
                        let a = choose|a: int| 0 <= a < new_s.len() && new_s[a] == i;
                        assert(a < old_s.len());
                        assert(old_s[a] == i);
                    }
                }
            }
            v.push(sq);
            rem = next;
        }
        proof {
            assert forall|i: nat| !has_bit(0, i) by {
                if i < 64 {
                    lemma_bit_zero(i as u64);
                }
            }
            let s = square_indices(v@);
            assert(s.to_set() =~= self@);
            assert(s.no_duplicates()) by {
                assert forall|a: int, b: int| 0 <= a < s.len() && 0 <= b < s.len() && a != b implies s[a]
                    != s[b] by {
                    if a < b {
                        assert(sq_index(v@[a]) < sq_index(v@[b]));
                    } else {
                        assert(sq_index(v@[b]) < sq_index(v@[a]));
                    }
                }
            }
            s.unique_seq_to_set();
            if v@.len() > 0 {
                assert(v@.len() - 1 <= sq_index(v@[v@.len() - 1]));
            }
        }
        v
    }

    /// The number of squares in the set.
    pub fn popcount(self) -> (r: u32)
        ensures
            self@.finite(),
            r == self@.len(),
    {
        let v = self.iter();
        v.len() as u32
    }

    /// The board as eight lines of eight characters, rank 8 first: `#` for a square in the
    /// set, `.` for one out of it.
    pub fn debug_string(self) -> (r: String)
        ensures
            r@ == grid_rows(self.0, 8),
    {
        let mut s = String::new();
        let mut n: u64 = 0;
        while n < 8
            invariant
                n <= 8,
                s@ == grid_rows(self.0, n as nat),
            decreases 8 - n,
        {
            let rank = 7 - n;
            if n > 0 {
                crate::text::push_char(&mut s, '\n');
            }
            let ghost before = s@;
            let mut f: u64 = 0;
            while f < 8
                invariant
                    f <= 8,
                    rank < 8,
                    s@ == before + grid_row(self.0, rank as nat).subrange(0, f as int),
                decreases 8 - f,
            {
                let set = (self.0 >> (8 * rank + f)) & 1 == 1;
                crate::text::push_char(&mut s, if set { '#' } else { '.' });
                assert(grid_row(self.0, rank as nat).subrange(0, f + 1) =~= grid_row(self.0, rank as nat).subrange(0, f as int).push(if set { '#' } else { '.' }));
                f = f + 1;
            }
            assert(grid_row(self.0, rank as nat).subrange(0, 8) =~= grid_row(self.0, rank as nat));
            n = n + 1;
        }
        s
    }
}

/// Two bitboards with the same squares are the same word.
pub proof fn lemma_view_injective(a: Bitboard, b: Bitboard)
    requires
        a@ == b@,
    ensures
        a == b,
{
    assert forall|i: nat| !has_bit(a.0 ^ b.0, i) by {
        if i < 64 {
            lemma_bit_xor(a.0, b.0, i as u64);
            assert(a@.contains(i) == has_bit(a.0, i));
            assert(b@.contains(i) == has_bit(b.0, i));
            assert(has_bit(a.0, i) == has_bit(b.0, i));
        }
    }
    lemma_no_bits_is_zero(a.0 ^ b.0);
    let x = a.0;
    let y = b.0;
    assert(x ^ y == 0 ==> x == y) by (bit_vector);
}

/// Iterating a bitboard yields each of its squares exactly once, in ascending order, and as
/// many squares as its population count: `squares` and `count` are what `iter` and
/// `popcount` return for `b`.
pub proof fn lemma_iter_matches_popcount(b: Bitboard, squares: Seq<Square>, count: u32)
    requires
        strictly_ascending(squares),
        square_indices(squares).to_set() == b@,
        squares.len() == b@.len(),
        b@.finite(),
        count == b@.len(),
    ensures
        squares.len() == count,
        forall|i: int, j: int| 0 <= i < squares.len() && 0 <= j < squares.len() && i != j ==> squares[i]
            != squares[j],
        forall|n: nat| b@.contains(n) <==> square_indices(squares).contains(n),
{
    assert forall|i: int, j: int| 0 <= i < squares.len() && 0 <= j < squares.len() && i != j implies squares[i]
        != squares[j] by {
        if i < j {
            assert(sq_index(squares[i]) < sq_index(squares[j]));
        } else {
            assert(sq_index(squares[j]) < sq_index(squares[i]));
        }
    }
}

} // verus!
