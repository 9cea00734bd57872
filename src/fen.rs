use vstd::prelude::*;
use crate::board::{Board, BoardView, CastlingRights};
use crate::color::Color;
use crate::piece::{Piece, piece_char, kind_of_char, kind_of, color_of};
use crate::square::{
    Square, square_name, square_of_name, sq_index, sq_file, sq_rank, file_char, rank_char,
    lemma_square_index_injective,
};
use crate::text::push_char;
use vstd::string::StringExecFns;

verus! {

broadcast use lemma_square_index_injective;

/// The character of a digit `0..10`.
pub open spec fn digit_char(d: nat) -> char {
    ((d + 48) as u8) as char
}

/// The decimal text of a number, without leading zeros.
pub open spec fn decimal(n: nat) -> Seq<char>
    decreases n,
{
    if n < 10 {
        seq![digit_char(n)]
    } else {
        decimal(n / 10) + seq![digit_char(n % 10)]
    }
}

/// The FEN text of files `f..8` of rank `r`, when `run` empty squares come just before `f`.
pub open spec fn rank_text(s: Seq<Option<Piece>>, r: nat, f: nat, run: nat) -> Seq<char>
    decreases 8 - f,
{
    if f >= 8 {
        if run > 0 { seq![digit_char(run)] } else { Seq::empty() }
    } else if s[(8 * r + f) as int] is Some {
        (if run > 0 { seq![digit_char(run)] } else { Seq::empty() }) + seq![
            piece_char(s[(8 * r + f) as int]->0),
        ] + rank_text(s, r, f + 1, 0)
    } else {
        rank_text(s, r, f + 1, run + 1)
    }
}

/// The FEN text of the top `n` ranks, rank 8 first, separated by `/`.
pub open spec fn placement_text(s: Seq<Option<Piece>>, n: nat) -> Seq<char>
    decreases n,
{
    if n == 0 {
        Seq::empty()
    } else if n == 1 {
        rank_text(s, 7, 0, 0)
    } else {
        placement_text(s, (n - 1) as nat) + seq!['/'] + rank_text(s, (8 - n) as nat, 0, 0)
    }
}

/// The castling field: the letters of the rights held, in the order `KQkq`, or `-`.
pub open spec fn castling_text(w: CastlingRights, b: CastlingRights) -> Seq<char> {
    let t = (if w.kingside { seq!['K'] } else { Seq::empty() }) + (if w.queenside {
        seq!['Q']
    } else {
        Seq::empty()
    }) + (if b.kingside { seq!['k'] } else { Seq::empty() }) + (if b.queenside {
        seq!['q']
    } else {
        Seq::empty()
    });
    if t.len() == 0 { seq!['-'] } else { t }
}

/// The first three fields of the FEN text of a position: placement, side, castling.
pub open spec fn fen_head(v: BoardView) -> Seq<char> {
    placement_text(v.squares, 8) + seq![' ', if v.color_to_move == Color::White { 'w' } else { 'b' }, ' ']
        + castling_text(v.white_castling_rights, v.black_castling_rights)
}

/// The last three fields of the FEN text of a position: en passant and the two counters.
pub open spec fn fen_tail(v: BoardView) -> Seq<char> {
    (match v.en_passant_destination {
        Some(e) => square_name(e),
        None => seq!['-'],
    }) + seq![' '] + decimal(v.halfmoves_since_event as nat) + seq![' '] + decimal(
        v.fullmoves as nat,
    )
}

/// The canonical FEN text of a position.
pub open spec fn fen_of(v: BoardView) -> Seq<char> {
    fen_head(v) + seq![' '] + fen_tail(v)
}

/// Appends the decimal text of `n`.
pub fn push_decimal(s: &mut String, n: u32)
    ensures
        final(s)@ == old(s)@ + decimal(n as nat),
    decreases n,
{
    if n >= 10 {
        push_decimal(s, n / 10);
    }
    push_char(s, ((n % 10) as u8 + 48) as char);
    proof {
        assert(final(s)@ =~= old(s)@ + decimal(n as nat));
    }
}

/// Appends the FEN text of rank `r`.
fn push_rank(out: &mut String, board: &Board, r: u8)
    requires
        board.wf(),
        r < 8,
    ensures
        final(out)@ == old(out)@ + rank_text(board@.squares, r as nat, 0, 0),
{
    let ghost s = board@.squares;
    let mut f: u8 = 0;
    let mut run: u8 = 0;
    while f < 8
        invariant
            board.wf(),
            r < 8,
            f <= 8,
            run <= f,
            s == board@.squares,
            out@ + rank_text(s, r as nat, f as nat, run as nat) == old(out)@ + rank_text(s, r as nat, 0, 0),
        decreases 8 - f,
    {
        let sq = match Square::from_u8(8 * r + f) {
            Some(q) => q,
            None => Square::A1,
        };
        let ghost before = out@;
        match board.pieces().get(sq) {
            Some(p) => {
                if run > 0 {
                    push_char(out, (run + 48) as char);
                }
                push_char(out, p.as_char());
                proof {
                    let pre = if run > 0 { seq![digit_char(run as nat)] } else { Seq::<char>::empty() };
                    assert(out@ =~= before + pre + seq![piece_char(p)]);
                    assert(before + rank_text(s, r as nat, f as nat, run as nat) =~= out@ + rank_text(s, r as nat, (f + 1) as nat, 0));
                }
                run = 0;
            },
            None => {
                run = run + 1;
            },
        }
        f = f + 1;
    }
    if run > 0 {
        let ghost before = out@;
        push_char(out, (run + 48) as char);
        assert(out@ =~= before + rank_text(s, r as nat, 8, run as nat));
    } else {
        assert(out@ =~= out@ + rank_text(s, r as nat, 8, run as nat));
    }
}

/// Appends the piece placement field.
fn push_placement(out: &mut String, board: &Board)
    requires
        board.wf(),
    ensures
        final(out)@ == old(out)@ + placement_text(board@.squares, 8),
{
    let mut n: u8 = 0;
    while n < 8
        invariant
            board.wf(),
            n <= 8,
            out@ == old(out)@ + placement_text(board@.squares, n as nat),
        decreases 8 - n,
    {
        let ghost before = out@;
        if n > 0 {
            push_char(out, '/');
        }
        push_rank(out, board, 7 - n);
        proof {
            if n == 0 {
                assert(out@ =~= old(out)@ + placement_text(board@.squares, 1));
            } else {
                assert(out@ =~= old(out)@ + placement_text(board@.squares, (n + 1) as nat));
            }
        }
        n = n + 1;
    }
}

/// Appends the castling field.
fn push_castling(out: &mut String, w: CastlingRights, b: CastlingRights)
    ensures
        final(out)@ == old(out)@ + castling_text(w, b),
{
    let mut any = false;
    if w.kingside {
        push_char(out, 'K');
        any = true;
    }
    if w.queenside {
        push_char(out, 'Q');
        any = true;
    }
    if b.kingside {
        push_char(out, 'k');
        any = true;
    }
    if b.queenside {
        push_char(out, 'q');
        any = true;
    }
    if !any {
        push_char(out, '-');
    }
    assert(final(out)@ =~= old(out)@ + castling_text(w, b));
}

/// Appends the en-passant field.
fn push_en_passant(out: &mut String, e: Option<Square>)
    ensures
        final(out)@ == old(out)@ + match e {
            Some(q) => square_name(q),
            None => seq!['-'],
        },
{
    match e {
        Some(q) => {
            let name = q.name();
            push_char(out, name.as_str().get_char(0));
            push_char(out, name.as_str().get_char(1));
        },
        None => {
            push_char(out, '-');
        },
    }
    assert(final(out)@ =~= old(out)@ + match e {
        Some(q) => square_name(q),
        None => seq!['-'],
    });
}

fn push_head(out: &mut String, board: &Board)
    requires
        board.wf(),
    ensures
        final(out)@ == old(out)@ + fen_head(board@),
{
    push_placement(out, board);
    let ghost p = out@;
    push_char(out, ' ');
    push_char(out, board.color_to_move().as_char());
    push_char(out, ' ');
    let ghost q = out@;
    push_castling(out, board.white_castling_rights(), board.black_castling_rights());
    proof {
        let side = seq![' ', if board@.color_to_move == Color::White { 'w' } else { 'b' }, ' '];
        assert(q =~= p + side);
        assert(final(out)@ =~= old(out)@ + fen_head(board@));
    }
}

fn push_tail(out: &mut String, board: &Board)
    ensures
        final(out)@ == old(out)@ + fen_tail(board@),
{
    push_en_passant(out, board.en_passant_destination());
    let ghost e = out@;
    push_char(out, ' ');
    push_decimal(out, board.halfmoves_since_event());
    let ghost h = out@;
    push_char(out, ' ');
    push_decimal(out, board.fullmoves());
    proof {
        assert(final(out)@ =~= old(out)@ + fen_tail(board@));
    }
}

impl Board {
    /// The position in FEN.
    pub fn to_fen(&self) -> (r: String)
        requires
            self.wf(),
        ensures
            r@ == fen_of(self@),
    {
        let mut out = String::new();
        push_head(&mut out, self);
        push_char(&mut out, ' ');
        push_tail(&mut out, self);
        assert(out@ =~= fen_of(self@));
        out
    }
}

/// The message of a FEN that cannot be read.
fn fen_error(fen: &str, why: &str) -> (r: String)
    ensures
        r@.len() >= 13,
        r@.subrange(0, 13) == invalid_fen_prefix(),
{
    let mut s = String::new();
    let head = "Invalid fen: ";
    proof {
        reveal_strlit("Invalid fen: ");
    }
    assert(head@ =~= invalid_fen_prefix());
    s.append(head);
    let ghost start = s@;
    s.append(fen);
    s.append(" - ");
    s.append(why);
    assert(s@.subrange(0, 13) =~= invalid_fen_prefix());
    s
}

/// The start of every message of a FEN that cannot be read: "Invalid fen: ".
pub open spec fn invalid_fen_prefix() -> Seq<char> {
    seq!['I', 'n', 'v', 'a', 'l', 'i', 'd', ' ', 'f', 'e', 'n', ':', ' ']
}

/// A well-formed castling field: `-`, or one or more of the letters `KQkq`.
pub open spec fn castling_ok(t: Seq<char>) -> bool {
    t == seq!['-'] || (t.len() > 0 && forall|i: int| 0 <= i < t.len() ==> (#[trigger] t[i] == 'K' || t[i] == 'Q'
        || t[i] == 'k' || t[i] == 'q'))
}

/// A well-formed en-passant field: `-`, or the two-character name of a square.
pub open spec fn en_passant_ok(t: Seq<char>) -> bool {
    t == seq!['-'] || (t.len() == 2 && square_of_name(t) is Some)
}

/// A well-formed counter: decimal digits writing a number that fits in 32 bits.
pub open spec fn number_ok(t: Seq<char>) -> bool {
    t.len() > 0 && all_digits(t) && decimal_value(t) <= 0xFFFF_FFFF
}

/// A well-formed FEN text: six fields separated by single spaces, each well formed.
pub open spec fn fen_well_formed(t: Seq<char>) -> bool {
    let f = split_spec(t, ' ');
    &&& f.len() == 6
    &&& placement_ok(f[0])
    &&& (f[1] == seq!['w'] || f[1] == seq!['b'])
    &&& castling_ok(f[2])
    &&& en_passant_ok(f[3])
    &&& number_ok(f[4])
    &&& number_ok(f[5])
}

/// The characters of a text.
fn chars_of(s: &str) -> (r: Vec<char>)
    ensures
        r@ == s@,
{
    let n = s.unicode_len();
    let mut v: Vec<char> = Vec::new();
    let mut i: usize = 0;
    while i < n
        invariant
            n == s@.len(),
            i <= n,
            v@ == s@.subrange(0, i as int),
        decreases n - i,
    {
        v.push(s.get_char(i));
        i = i + 1;
        assert(v@ =~= s@.subrange(0, i as int));
    }
    assert(v@ =~= s@);
    v
}

/// The pieces of `s` between the separators `sep`, empty ones included.
pub open spec fn split_spec(s: Seq<char>, sep: char) -> Seq<Seq<char>>
    decreases s.len(),
{
    if s.len() == 0 {
        seq![Seq::empty()]
    } else {
        let p = split_spec(s.drop_last(), sep);
        if s.last() == sep {
            p.push(Seq::empty())
        } else {
            p.update(p.len() - 1, p.last().push(s.last()))
        }
    }
}

/// The views of a list of texts.
pub open spec fn views(v: Seq<Vec<char>>) -> Seq<Seq<char>> {
    v.map_values(|x: Vec<char>| x@)
}

proof fn lemma_split_nonempty(s: Seq<char>, sep: char)
    ensures
        split_spec(s, sep).len() >= 1,
    decreases s.len(),
{
    if s.len() > 0 {
        lemma_split_nonempty(s.drop_last(), sep);
    }
}

/// A text without the separator is one piece.
pub proof fn lemma_split_single(s: Seq<char>, sep: char)
    requires
        !s.contains(sep),
    ensures
        split_spec(s, sep) == seq![s],
    decreases s.len(),
{
    if s.len() > 0 {
        assert(!s.drop_last().contains(sep)) by {
            if s.drop_last().contains(sep) {
                let i = choose|i: int| 0 <= i < s.drop_last().len() && s.drop_last()[i] == sep;
                assert(s[i] == sep);
            }
        }
        lemma_split_single(s.drop_last(), sep);
        assert(s.last() != sep) by {
            assert(s[s.len() - 1] == s.last());
        }
        assert(s.drop_last().push(s.last()) =~= s);
        assert(split_spec(s, sep) =~= seq![s]);
    } else {
        assert(s =~= Seq::<char>::empty());
    }
}

/// Splitting two texts joined by the separator gives the pieces of each in turn.
pub proof fn lemma_split_join(a: Seq<char>, b: Seq<char>, sep: char)
    ensures
        split_spec(a + seq![sep] + b, sep) == split_spec(a, sep) + split_spec(b, sep),
    decreases b.len(),
{
    lemma_split_nonempty(a, sep);
    if b.len() == 0 {
        assert((a + seq![sep] + b).drop_last() =~= a);
        assert(split_spec(a + seq![sep] + b, sep) =~= split_spec(a, sep) + split_spec(b, sep));
    } else {
        let b2 = b.drop_last();
        lemma_split_join(a, b2, sep);
        lemma_split_nonempty(b2, sep);
        assert((a + seq![sep] + b).drop_last() =~= a + seq![sep] + b2);
        assert((a + seq![sep] + b).last() == b.last());
        assert(split_spec(a + seq![sep] + b, sep) =~= split_spec(a, sep) + split_spec(b, sep));
    }
}

/// The pieces of `text` between the separators `sep`, empty ones included.
fn split_on(text: &Vec<char>, sep: char) -> (r: Vec<Vec<char>>)
    ensures
        views(r@) == split_spec(text@, sep),
{
    let mut parts: Vec<Vec<char>> = Vec::new();
    let mut cur: Vec<char> = Vec::new();
    let mut i: usize = 0;
    proof {
        assert(text@.subrange(0, 0) =~= Seq::<char>::empty());
        assert(views(parts@).push(cur@) =~= split_spec(text@.subrange(0, 0), sep));
    }
    while i < text.len()
        invariant
            i <= text@.len(),
            views(parts@).push(cur@) == split_spec(text@.subrange(0, i as int), sep),
        decreases text@.len() - i,
    {
        let c = text[i];
        let ghost before = views(parts@).push(cur@);
        proof {
            let p = text@.subrange(0, i + 1);
            assert(p.drop_last() =~= text@.subrange(0, i as int));
            assert(p.last() == c);
        }
        if c == sep {
            let done = cur;
            parts.push(done);
            cur = Vec::new();
            proof {
                assert(views(parts@).push(cur@) =~= before.push(Seq::<char>::empty()));
            }
        } else {
            cur.push(c);
            proof {
                assert(views(parts@).push(cur@) =~= before.update(before.len() - 1, before.last().push(c)));
            }
        }
        i = i + 1;
    }
    parts.push(cur);
    proof {
        assert(text@.subrange(0, i as int) =~= text@);
        assert(views(parts@) =~= split_spec(text@, sep));
    }
    parts
}

/// Whether `text` is exactly the one character `c`.
fn is_single(text: &Vec<char>, c: char) -> (r: bool)
    ensures
        r == (text@ == seq![c]),
{
    if text.len() == 1 && text[0] == c {
        assert(text@ =~= seq![c]);
        true
    } else {
        false
    }
}

/// Whether every character is a decimal digit.
pub open spec fn all_digits(s: Seq<char>) -> bool {
    forall|i: int| 0 <= i < s.len() ==> '0' <= #[trigger] s[i] && s[i] <= '9'
}

/// The number that a text of digits writes.
pub open spec fn decimal_value(s: Seq<char>) -> int
    decreases s.len(),
{
    if s.len() == 0 {
        0
    } else {
        decimal_value(s.drop_last()) * 10 + (s.last() as int - 48)
    }
}

proof fn lemma_value_of_prefix(s: Seq<char>, i: int)
    requires
        all_digits(s),
        0 <= i <= s.len(),
    ensures
        0 <= decimal_value(s.subrange(0, i)) <= decimal_value(s),
    decreases s.len() - i,
{
    if i < s.len() {
        lemma_value_of_prefix(s, i + 1);
        let p = s.subrange(0, i + 1);
        assert(p.drop_last() =~= s.subrange(0, i));
        lemma_value_nonnegative(s.subrange(0, i));
    } else {
        assert(s.subrange(0, i) =~= s);
        lemma_value_nonnegative(s);
    }
}

proof fn lemma_value_nonnegative(s: Seq<char>)
    requires
        all_digits(s),
    ensures
        decimal_value(s) >= 0,
    decreases s.len(),
{
    if s.len() > 0 {
        assert(all_digits(s.drop_last()));
        lemma_value_nonnegative(s.drop_last());
    }
}

/// A number's decimal text is digits that write that number.
pub proof fn lemma_decimal_round_trip(n: nat)
    ensures
        all_digits(decimal(n)),
        decimal(n).len() > 0,
        decimal_value(decimal(n)) == n,
    decreases n,
{
    if n >= 10 {
        lemma_decimal_round_trip(n / 10);
        let d = decimal(n);
        assert(d.drop_last() =~= decimal(n / 10));
        assert(d.last() == digit_char(n % 10));
        assert(digit_char(n % 10) as int == (n % 10) + 48);
        assert(decimal_value(d) == decimal_value(d.drop_last()) * 10 + (d.last() as int - 48));
        assert(decimal_value(d.drop_last()) == (n / 10) as int);
        assert(n == (n / 10) * 10 + n % 10);
        assert(all_digits(d)) by {
            assert forall|i: int| 0 <= i < d.len() implies '0' <= #[trigger] d[i] && d[i] <= '9' by {
                if i < d.len() - 1 {
                    assert(d[i] == decimal(n / 10)[i]);
                }
            }
        }
    } else {
        let d = decimal(n);
        assert(d.drop_last() =~= Seq::<char>::empty());
        assert(digit_char(n) as int == n + 48);
        assert(decimal_value(Seq::<char>::empty()) == 0);
        assert(decimal_value(d) == decimal_value(d.drop_last()) * 10 + (d.last() as int - 48));
    }
}

/// Reads a decimal number that fits in 32 bits; digits only.
pub fn parse_u32(text: &Vec<char>) -> (r: Option<u32>)
    ensures
        r is Some ==> all_digits(text@) && r->0 == decimal_value(text@) && text@.len() > 0,
        text@.len() > 0 && all_digits(text@) && decimal_value(text@) <= 0xFFFF_FFFF ==> r is Some,
{
    if text.len() == 0 {
        return None;
    }
    let mut n: u64 = 0;
    let mut i: usize = 0;
    while i < text.len()
        invariant
            i <= text@.len(),
            n <= 0xFFFF_FFFF,
            n == decimal_value(text@.subrange(0, i as int)),
            all_digits(text@.subrange(0, i as int)),
        decreases text@.len() - i,
    {
        let c = text[i];
        if c < '0' || c > '9' {
            return None;
        }
        let d = (c as u32 - 48) as u64;
        proof {
            let p = text@.subrange(0, i + 1);
            assert(p.drop_last() =~= text@.subrange(0, i as int));
            assert(p.last() == c);
        }
        let next = n * 10 + d;
        if next > 0xFFFF_FFFF {
            proof {
                if all_digits(text@) {
                    lemma_value_of_prefix(text@, i + 1);
                }
            }
            return None;
        }
        n = next;
        i = i + 1;
        proof {
            assert(all_digits(text@.subrange(0, i as int)));
        }
    }
    proof {
        assert(text@.subrange(0, i as int) =~= text@);
    }
    Some(n as u32)
}

/// The first file at or after `f` of rank `r` that holds a piece, or 8.
pub open spec fn next_occupied(s: Seq<Option<Piece>>, r: nat, f: nat) -> nat
    decreases 8 - f,
{
    if f >= 8 {
        8
    } else if s[(8 * r + f) as int] is Some {
        f
    } else {
        next_occupied(s, r, f + 1)
    }
}

proof fn lemma_next_occupied(s: Seq<Option<Piece>>, r: nat, f: nat, run: nat)
    requires
        f <= 8,
    ensures
        f <= next_occupied(s, r, f) <= 8,
        forall|g: nat| f <= g < next_occupied(s, r, f) ==> #[trigger] s[(8 * r + g) as int] is None,
        next_occupied(s, r, f) < 8 ==> s[(8 * r + next_occupied(s, r, f)) as int] is Some,
        rank_text(s, r, f, run) == rank_text(s, r, next_occupied(s, r, f), (run + next_occupied(s, r, f) - f) as nat),
    decreases 8 - f,
{
    if f < 8 && s[(8 * r + f) as int] is None {
        lemma_next_occupied(s, r, f + 1, run + 1);
    }
}

/// A piece's FEN letter names it back.
proof fn lemma_piece_char_round_trip(p: Piece)
    ensures
        kind_of_char(piece_char(p)) == Some(kind_of(p)),
        ('A' <= piece_char(p) && piece_char(p) <= 'Z') == (color_of(p) == Color::White),
        !('1' <= piece_char(p) && piece_char(p) <= '8'),
{
}

/// Whether a character may stand in a rank of the placement field: a digit 1 to 8 or a piece
/// letter.
pub open spec fn rank_char_ok(c: char) -> bool {
    ('1' <= c && c <= '8') || kind_of_char(c) is Some
}

/// The number of squares that a rank text covers: each digit its value, each other
/// character one.
pub open spec fn rank_width(t: Seq<char>) -> int
    decreases t.len(),
{
    if t.len() == 0 {
        0
    } else {
        rank_width(t.drop_last()) + (if '1' <= t.last() && t.last() <= '8' { t.last() as int - 48 } else { 1 })
    }
}

/// A well-formed rank: piece letters and digits 1 to 8 covering exactly eight squares.
pub open spec fn rank_ok(t: Seq<char>) -> bool {
    (forall|i: int| 0 <= i < t.len() ==> rank_char_ok(#[trigger] t[i])) && rank_width(t) == 8
}

/// A well-formed placement field: eight well-formed ranks separated by `/`.
pub open spec fn placement_ok(t: Seq<char>) -> bool {
    let r = split_spec(t, '/');
    r.len() == 8 && forall|i: int| 0 <= i < 8 ==> rank_ok(#[trigger] r[i])
}

proof fn lemma_rank_width_prefix(t: Seq<char>, i: int)
    requires
        0 <= i <= t.len(),
    ensures
        rank_width(t.subrange(0, i)) <= rank_width(t),
    decreases t.len() - i,
{
    if i < t.len() {
        lemma_rank_width_prefix(t, i + 1);
        assert(t.subrange(0, i + 1).drop_last() =~= t.subrange(0, i));
    } else {
        assert(t.subrange(0, i) =~= t);
    }
}

/// Reads one rank of the placement field into row `row` of `pieces`: piece letters and
/// digits that count empty squares, eight squares in all.
fn parse_rank(rank: &Vec<char>, row: usize, pieces: &mut [Option<Piece>; 64], Ghost(s): Ghost<Seq<Option<Piece>>>) -> (ok: bool)
    requires
        row < 8,
    ensures
        ok == rank_ok(rank@),
        forall|i: int| 0 <= i < 64 && (i < 8 * row || i >= 8 * row + 8) ==> final(pieces)@[i] == old(pieces)@[i],
        ({
            &&& s.len() == 64
            &&& rank@ == rank_text(s, row as nat, 0, 0)
            &&& forall|g: int| 0 <= g < 8 ==> #[trigger] old(pieces)@[8 * row + g] is None
        }) ==> ok && forall|g: int| 0 <= g < 8 ==> #[trigger] final(pieces)@[8 * row + g] == s[8 * row + g],
{
    let ghost canonical = s.len() == 64 && rank@ == rank_text(s, row as nat, 0, 0)
        && forall|g: int| 0 <= g < 8 ==> #[trigger] pieces@[8 * row + g] is None;
    let mut f: usize = 0;
    let mut i: usize = 0;
    while i < rank.len()
        invariant
            row < 8,
            i <= rank@.len(),
            f <= 8,
            f == rank_width(rank@.subrange(0, i as int)),
            forall|j: int| 0 <= j < i ==> rank_char_ok(#[trigger] rank@[j]),
            canonical == (s.len() == 64 && rank@ == rank_text(s, row as nat, 0, 0)
                && forall|g: int| 0 <= g < 8 ==> #[trigger] old(pieces)@[8 * row + g] is None),
            forall|j: int| 0 <= j < 64 && (j < 8 * row || j >= 8 * row + 8) ==> pieces@[j] == old(pieces)@[j],
            canonical ==> {
                &&& rank@.subrange(i as int, rank@.len() as int) == rank_text(s, row as nat, f as nat, 0)
                &&& forall|g: int| 0 <= g < f ==> #[trigger] pieces@[8 * row + g] == s[8 * row + g]
                &&& forall|g: int| f <= g < 8 ==> #[trigger] pieces@[8 * row + g] is None
                &&& s.len() == 64
            },
        decreases rank@.len() - i,
    {
        let c = rank[i];
        let ghost rest = rank@.subrange(i as int, rank@.len() as int);
        proof {
            let p1 = rank@.subrange(0, i + 1);
            assert(p1.drop_last() =~= rank@.subrange(0, i as int));
            assert(p1.last() == c);
            lemma_rank_width_prefix(rank@, i + 1);
        }
        proof {
            lemma_next_occupied(s, row as nat, f as nat, 0);
            assert(rest.len() > 0);
            assert(rest[0] == c);
            assert(canonical ==> f < 8) by {
                if canonical && f >= 8 {
                    assert(rank_text(s, row as nat, f as nat, 0) =~= Seq::<char>::empty());
                }
            }
        }
        let ghost f0 = f;
        let ghost before = pieces@;
        if '1' <= c && c <= '8' {
            let d = (c as u32 - 48) as usize;
            proof {
                let g = next_occupied(s, row as nat, f as nat);
                assert(canonical ==> d == g - f) by {
                    if canonical {
                        if f < 8 && s[8 * row + f] is Some {
                            lemma_piece_char_round_trip(s[8 * row + f]->0);
                            assert(rest[0] == piece_char(s[8 * row + f]->0));
                        }
                        assert(g > f);
                        assert(rest[0] == digit_char((g - f) as nat));
                    }
                }
            }
            f = f + d;
            if f > 8 {
                return false;
            }
            proof {
                assert forall|j: int| 0 <= j < i + 1 implies rank_char_ok(#[trigger] rank@[j]) by {}
            }
            proof {
                assert(canonical ==> {
                    &&& rank@.subrange(i + 1, rank@.len() as int) == rank_text(s, row as nat, f as nat, 0)
                    &&& forall|g: int| 0 <= g < f ==> #[trigger] pieces@[8 * row + g] == s[8 * row + g]
                    &&& forall|g: int| f <= g < 8 ==> #[trigger] pieces@[8 * row + g] is None
                }) by {
                    if canonical {
                        let g = f as nat;
                        assert(rank@.subrange(i + 1, rank@.len() as int) =~= rest.drop_first());
                        if g < 8 {
                            assert(rest =~= seq![digit_char(d as nat)] + (seq![piece_char(s[(8 * row + g) as int]->0)] + rank_text(s, row as nat, g + 1, 0)));
                        } else {
                            assert(rest =~= seq![digit_char(d as nat)]);
                        }
                        assert forall|h: int| 0 <= h < f implies #[trigger] pieces@[8 * row + h] == s[8 * row + h] by {
                            if h >= f0 {
                                let hn = h as nat;
                                assert(f0 <= hn < next_occupied(s, row as nat, f0 as nat));
                                assert(s[(8 * (row as nat) + hn) as int] is None);
                                assert(pieces@[8 * row + h] is None);
                            }
                        }
                    }
                }
            }
        } else {
            if f >= 8 {
                return false;
            }
            match Piece::from_char(c) {
                Some(p) => {
                    proof {
                        assert forall|j: int| 0 <= j < i + 1 implies rank_char_ok(#[trigger] rank@[j]) by {}
                    }
                    proof {
                        assert(canonical ==> s[8 * row + f] == Some(p)) by {
                            if canonical {
                                assert(s[8 * row + f] is Some) by {
                                    if s[8 * row + f] is None {
                                        let g = next_occupied(s, row as nat, f as nat);
                                        assert(rest[0] == digit_char((g - f) as nat));
                                    }
                                }
                                let q = s[8 * row + f]->0;
                                lemma_piece_char_round_trip(q);
                                assert(rest =~= seq![piece_char(q)] + rank_text(s, row as nat, (f + 1) as nat, 0));
                                assert(c == piece_char(q));
                                crate::piece::lemma_piece_from_parts(q);
                                crate::piece::lemma_piece_from_parts(p);
                            }
                        }
                    }
                    pieces[8 * row + f] = Some(p);
                    proof {
                        assert(canonical ==> {
                            &&& rank@.subrange(i + 1, rank@.len() as int) == rank_text(s, row as nat, (f + 1) as nat, 0)
                            &&& forall|g: int| 0 <= g < f + 1 ==> #[trigger] pieces@[8 * row + g] == s[8 * row + g]
                            &&& forall|g: int| f + 1 <= g < 8 ==> #[trigger] pieces@[8 * row + g] is None
                        }) by {
                            if canonical {
                                let q = s[8 * row + f]->0;
                                assert(rest =~= seq![piece_char(q)] + rank_text(s, row as nat, (f + 1) as nat, 0));
                                assert(rank@.subrange(i + 1, rank@.len() as int) =~= rest.drop_first());
                                assert forall|g: int| 0 <= g < f + 1 implies #[trigger] pieces@[8 * row + g] == s[8 * row + g] by {
                                    if g < f {
                                        assert(pieces@[8 * row + g] == before[8 * row + g]);
                                    }
                                }
                                assert forall|g: int| f + 1 <= g < 8 implies #[trigger] pieces@[8 * row + g] is None by {
                                    assert(pieces@[8 * row + g] == before[8 * row + g]);
                                }
                            }
                        }
                    }
                },
                None => {
                    proof {
                        assert(!canonical) by {
                            if canonical {
                                assert(s[8 * row + f] is Some) by {
                                    if s[8 * row + f] is None {
                                        let g = next_occupied(s, row as nat, f as nat);
                                        assert(rest[0] == digit_char((g - f) as nat));
                                    }
                                }
                                lemma_piece_char_round_trip(s[8 * row + f]->0);
                                assert(rest =~= seq![piece_char(s[8 * row + f]->0)] + rank_text(s, row as nat, (f + 1) as nat, 0));
                            }
                        }
                    }
                    return false;
                },
            }
            f = f + 1;
        }
        i = i + 1;
    }
    proof {
        assert(rank@.subrange(0, i as int) =~= rank@);
    }
    if f != 8 {
        proof {
            if canonical {
                lemma_next_occupied(s, row as nat, f as nat, 0);
                assert(rank@.subrange(i as int, rank@.len() as int) =~= Seq::<char>::empty());
            }
        }
        return false;
    }
    true
}

/// The placement field splits into the texts of the ranks, rank 8 first.
proof fn lemma_split_placement(s: Seq<Option<Piece>>, n: nat)
    requires
        1 <= n <= 8,
    ensures
        split_spec(placement_text(s, n), '/') == Seq::new(n, |i: int| rank_text(s, (7 - i) as nat, 0, 0)),
    decreases n,
{
    if n == 1 {
        lemma_rank_text_has_no_slash(s, 7, 0, 0);
        lemma_split_single(rank_text(s, 7, 0, 0), '/');
        assert(split_spec(placement_text(s, n), '/') =~= Seq::new(n, |i: int| rank_text(s, (7 - i) as nat, 0, 0)));
    } else {
        lemma_split_placement(s, (n - 1) as nat);
        lemma_rank_text_has_no_slash(s, (8 - n) as nat, 0, 0);
        lemma_split_single(rank_text(s, (8 - n) as nat, 0, 0), '/');
        lemma_split_join(placement_text(s, (n - 1) as nat), rank_text(s, (8 - n) as nat, 0, 0), '/');
        assert(split_spec(placement_text(s, n), '/') =~= Seq::new(n, |i: int| rank_text(s, (7 - i) as nat, 0, 0)));
    }
}

proof fn lemma_rank_text_has_no_slash(s: Seq<Option<Piece>>, r: nat, f: nat, run: nat)
    requires
        run <= f,
        f <= 8,
    ensures
        !rank_text(s, r, f, run).contains('/'),
        !rank_text(s, r, f, run).contains(' '),
    decreases 8 - f,
{
    if f < 8 {
        if s[(8 * r + f) as int] is Some {
            lemma_rank_text_has_no_slash(s, r, f + 1, 0);
            lemma_piece_char_round_trip(s[(8 * r + f) as int]->0);
        } else {
            lemma_rank_text_has_no_slash(s, r, f + 1, run + 1);
        }
    }
}

/// Reads the piece placement field: eight ranks from the eighth down, separated by `/`,
/// each of eight squares given by piece letters and digits that count empty squares.
fn parse_placement(text: &Vec<char>) -> (r: Option<[Option<Piece>; 64]>)
    ensures
        r is Some <==> placement_ok(text@),
        (exists|s: Seq<Option<Piece>>| s.len() == 64 && #[trigger] placement_text(s, 8) == text@) ==> {
            &&& r is Some
            &&& r->0@.len() == 64
            &&& placement_text(r->0@, 8) == text@
        },
{
    let ghost canonical = exists|s: Seq<Option<Piece>>| s.len() == 64 && #[trigger] placement_text(s, 8) == text@;
    let ghost s = choose|s: Seq<Option<Piece>>| s.len() == 64 && #[trigger] placement_text(s, 8) == text@;
    let ranks = split_on(text, '/');
    proof {
        if canonical {
            lemma_split_placement(s, 8);
        }
    }
    proof {
        if canonical {
            assert(views(ranks@).len() == ranks@.len());
        }
    }
    if ranks.len() != 8 {
        return None;
    }
    let mut pieces: [Option<Piece>; 64] = [None; 64];
    let mut r: usize = 0;
    while r < 8
        invariant
            r <= 8,
            ranks@.len() == 8,
            views(ranks@) == split_spec(text@, '/'),
            forall|i: int| 0 <= i < r ==> rank_ok(#[trigger] split_spec(text@, '/')[i]),
            canonical == (exists|s: Seq<Option<Piece>>| s.len() == 64 && #[trigger] placement_text(s, 8) == text@),
            canonical ==> {
                &&& s.len() == 64
                &&& placement_text(s, 8) == text@
                &&& views(ranks@) == Seq::new(8, |i: int| rank_text(s, (7 - i) as nat, 0, 0))
                &&& forall|j: int| 8 * (8 - r) <= j < 64 ==> #[trigger] pieces@[j] == s[j]
                &&& forall|j: int| 0 <= j < 8 * (8 - r) ==> #[trigger] pieces@[j] is None
            },
        decreases 8 - r,
    {
        let row = 7 - r;
        proof {
            if canonical {
                assert(ranks@[r as int]@ == views(ranks@)[r as int]);
                assert(ranks@[r as int]@ == rank_text(s, row as nat, 0, 0));
            }
        }
        let ghost before = pieces@;
        proof {
            if canonical {
                assert forall|g: int| 0 <= g < 8 implies #[trigger] pieces@[8 * row + g] is None by {
                    assert(8 * row + g < 8 * (8 - r));
                }
            }
        }
        let ok = parse_rank(&ranks[r], row, &mut pieces, Ghost(s));
        proof {
            assert(views(ranks@)[r as int] == ranks@[r as int]@);
        }
        if !ok {
            return None;
        }
        proof {
            if canonical {
                assert forall|j: int| 8 * (8 - (r + 1)) <= j < 64 implies #[trigger] pieces@[j] == s[j] by {
                    if j < 8 * row + 8 {
                        assert(pieces@[8 * row + (j - 8 * row)] == s[8 * row + (j - 8 * row)]);
                    } else {
                        assert(pieces@[j] == before[j]);
                    }
                }
                assert forall|j: int| 0 <= j < 8 * (8 - (r + 1)) implies #[trigger] pieces@[j] is None by {
                    assert(pieces@[j] == before[j]);
                }
            }
        }
        r = r + 1;
    }
    proof {
        if canonical {
            assert(pieces@ =~= s);
        }
    }
    Some(pieces)
}

/// Whether `text` holds the character `c`.
fn has_char(text: &Vec<char>, c: char) -> (r: bool)
    ensures
        r == text@.contains(c),
{
    let mut i: usize = 0;
    while i < text.len()
        invariant
            i <= text@.len(),
            forall|j: int| 0 <= j < i ==> text@[j] != c,
        decreases text@.len() - i,
    {
        if text[i] == c {
            return true;
        }
        i = i + 1;
    }
    false
}

/// The castling field is `-` or a run of the letters `KQkq`, each at most once.
proof fn lemma_castling_text_chars(w: CastlingRights, b: CastlingRights)
    ensures
        castling_text(w, b).len() >= 1,
        forall|i: int| 0 <= i < castling_text(w, b).len() ==> {
            let c = #[trigger] castling_text(w, b)[i];
            c == 'K' || c == 'Q' || c == 'k' || c == 'q' || c == '-'
        },
        castling_text(w, b) == seq!['-'] <==> (!w.kingside && !w.queenside && !b.kingside && !b.queenside),
        !castling_text(w, b).contains(' '),
{
    if w.kingside {
        if w.queenside {
            if b.kingside {
                if b.queenside {
                    assert(castling_text(w, b) =~= seq!['K', 'Q', 'k', 'q']);
                    assert(castling_text(w, b)[0] != '-');
                } else {
                    assert(castling_text(w, b) =~= seq!['K', 'Q', 'k']);
                    assert(castling_text(w, b)[0] != '-');
                }
            } else {
                if b.queenside {
                    assert(castling_text(w, b) =~= seq!['K', 'Q', 'q']);
                    assert(castling_text(w, b)[0] != '-');
                } else {
                    assert(castling_text(w, b) =~= seq!['K', 'Q']);
                    assert(castling_text(w, b)[0] != '-');
                }
            }
        } else {
            if b.kingside {
                if b.queenside {
                    assert(castling_text(w, b) =~= seq!['K', 'k', 'q']);
                    assert(castling_text(w, b)[0] != '-');
                } else {
                    assert(castling_text(w, b) =~= seq!['K', 'k']);
                    assert(castling_text(w, b)[0] != '-');
                }
            } else {
                if b.queenside {
                    assert(castling_text(w, b) =~= seq!['K', 'q']);
                    assert(castling_text(w, b)[0] != '-');
                } else {
                    assert(castling_text(w, b) =~= seq!['K']);
                    assert(castling_text(w, b)[0] != '-');
                }
            }
        }
    } else {
        if w.queenside {
            if b.kingside {
                if b.queenside {
                    assert(castling_text(w, b) =~= seq!['Q', 'k', 'q']);
                    assert(castling_text(w, b)[0] != '-');
                } else {
                    assert(castling_text(w, b) =~= seq!['Q', 'k']);
                    assert(castling_text(w, b)[0] != '-');
                }
            } else {
                if b.queenside {
                    assert(castling_text(w, b) =~= seq!['Q', 'q']);
                    assert(castling_text(w, b)[0] != '-');
                } else {
                    assert(castling_text(w, b) =~= seq!['Q']);
                    assert(castling_text(w, b)[0] != '-');
                }
            }
        } else {
            if b.kingside {
                if b.queenside {
                    assert(castling_text(w, b) =~= seq!['k', 'q']);
                    assert(castling_text(w, b)[0] != '-');
                } else {
                    assert(castling_text(w, b) =~= seq!['k']);
                    assert(castling_text(w, b)[0] != '-');
                }
            } else {
                if b.queenside {
                    assert(castling_text(w, b) =~= seq!['q']);
                    assert(castling_text(w, b)[0] != '-');
                } else {
                    assert(castling_text(w, b) =~= seq!['-']);
                }
            }
        }
    }
}

/// `text` is `-` with no right, or letters among `KQkq`, each right held when its letter
/// appears.
pub open spec fn castling_field_means(text: Seq<char>, w: CastlingRights, b: CastlingRights) -> bool {
    if text == seq!['-'] {
        !w.kingside && !w.queenside && !b.kingside && !b.queenside
    } else {
        &&& text.len() > 0
        &&& forall|i: int| 0 <= i < text.len() ==> (#[trigger] text[i] == 'K' || text[i] == 'Q' || text[i] == 'k' || text[i] == 'q')
        &&& w.kingside == text.contains('K')
        &&& w.queenside == text.contains('Q')
        &&& b.kingside == text.contains('k')
        &&& b.queenside == text.contains('q')
    }
}

/// Reads the castling field: `-`, or letters among `KQkq`.
fn parse_castling(text: &Vec<char>) -> (r: Option<(CastlingRights, CastlingRights)>)
    ensures
        forall|w: CastlingRights, b: CastlingRights| text@ == #[trigger] castling_text(w, b) ==> r == Some((w, b)),
        r is Some ==> castling_field_means(text@, (r->0).0, (r->0).1),
        r is Some <==> castling_ok(text@),
{
    if is_single(text, '-') {
        proof {
            assert forall|w: CastlingRights, b: CastlingRights| text@ == #[trigger] castling_text(w, b) implies !w.kingside
                && !w.queenside && !b.kingside && !b.queenside by {
                lemma_castling_text_chars(w, b);
            }
        }
        return Some((CastlingRights::none(), CastlingRights::none()));
    }
    if text.len() == 0 {
        proof {
            assert forall|w: CastlingRights, b: CastlingRights| text@ != #[trigger] castling_text(w, b) by {
                lemma_castling_text_chars(w, b);
            }
        }
        return None;
    }
    let mut i: usize = 0;
    while i < text.len()
        invariant
            i <= text@.len(),
            text@ != seq!['-'],
            forall|j: int| 0 <= j < i ==> (#[trigger] text@[j] == 'K' || text@[j] == 'Q' || text@[j] == 'k' || text@[j] == 'q'),
        decreases text@.len() - i,
    {
        let c = text[i];
        if c != 'K' && c != 'Q' && c != 'k' && c != 'q' {
            proof {
                assert forall|w: CastlingRights, b: CastlingRights| text@ != #[trigger] castling_text(w, b) by {
                    lemma_castling_text_chars(w, b);
                    if text@ == castling_text(w, b) {
                        assert(text@[i as int] == c);
                        if c == '-' {
                            assert(castling_text(w, b) != seq!['-']);
                        }
                    }
                }
            }
            return None;
        }
        i = i + 1;
    }
    let w = CastlingRights { kingside: has_char(text, 'K'), queenside: has_char(text, 'Q') };
    let b = CastlingRights { kingside: has_char(text, 'k'), queenside: has_char(text, 'q') };
    proof {
        assert forall|w2: CastlingRights, b2: CastlingRights| text@ == #[trigger] castling_text(w2, b2) implies (w, b) == (w2, b2) by {
            lemma_castling_text_chars(w2, b2);
            let t = castling_text(w2, b2);
            assert(t.len() > 0);
            assert(t != seq!['-']);
            assert(t.contains('K') == w2.kingside) by {
                if w2.kingside {
                    assert(t[0] == 'K');
                }
            }
            assert(t.contains('Q') == w2.queenside) by {
                if w2.queenside {
                    let j = if w2.kingside { 1int } else { 0int };
                    assert(t[j] == 'Q');
                }
            }
            assert(t.contains('k') == b2.kingside) by {
                if b2.kingside {
                    let j = (if w2.kingside { 1int } else { 0int }) + (if w2.queenside { 1int } else { 0int });
                    assert(t[j] == 'k');
                }
            }
            assert(t.contains('q') == b2.queenside) by {
                if b2.queenside {
                    let j = (if w2.kingside { 1int } else { 0int }) + (if w2.queenside { 1int } else { 0int }) + (
                    if b2.kingside { 1int } else { 0int });
                    assert(t[j] == 'q');
                }
            }
        }
    }
    Some((w, b))
}

/// Reads the en-passant field: `-`, or the name of a square.
fn parse_en_passant(text: &Vec<char>) -> (r: Option<Option<Square>>)
    ensures
        r is Some <==> en_passant_ok(text@),
        r is Some ==> (text@ == seq!['-'] && r->0 is None) || (r->0 is Some && text@.len() == 2
            && square_of_name(text@) == Some(sq_index(r->0->0))),
        text@ == seq!['-'] ==> r == Some(None::<Square>),
        forall|e: Square| text@ == #[trigger] square_name(e) ==> r == Some(Some(e)),
{
    if is_single(text, '-') {
        proof {
            assert forall|e: Square| text@ != #[trigger] square_name(e) by {
                assert(square_name(e).len() == 2);
            }
        }
        return Some(None);
    }
    if text.len() != 2 {
        proof {
            assert forall|e: Square| text@ != #[trigger] square_name(e) by {
                assert(square_name(e).len() == 2);
            }
        }
        return None;
    }
    match (crate::square::BoardFile::from_char(text[0]), crate::square::BoardRank::from_char(text[1])) {
        (Some(f), Some(r)) => {
            let q = Square::at(f, r);
            proof {
                assert forall|e: Square| text@ == #[trigger] square_name(e) implies q == e by {
                    crate::square::lemma_file_rank(e);
                    assert(text@[0] == file_char(sq_file(e)));
                    assert(text@[1] == rank_char(sq_rank(e)));
                    assert(sq_index(e) == sq_file(e) + 8 * sq_rank(e));
                }
            }
            Some(Some(q))
        },
        _ => {
            proof {
                assert forall|e: Square| text@ != #[trigger] square_name(e) by {
                    crate::square::lemma_file_rank(e);
                }
            }
            None
        },
    }
}

/// A FEN text that `to_fen` writes for some position.
pub open spec fn is_canonical_fen(fen: Seq<char>) -> bool {
    exists|v: BoardView| v.squares.len() == 64 && #[trigger] fen_of(v) == fen
}

proof fn lemma_no_space_in_fields(v: BoardView)
    requires
        v.squares.len() == 64,
    ensures
        !placement_text(v.squares, 8).contains(' '),
        !castling_text(v.white_castling_rights, v.black_castling_rights).contains(' '),
        !(match v.en_passant_destination {
            Some(e) => square_name(e),
            None => seq!['-'],
        }).contains(' '),
        !decimal(v.halfmoves_since_event as nat).contains(' '),
        !decimal(v.fullmoves as nat).contains(' '),
{
    lemma_placement_no_space(v.squares, 8);
    lemma_decimal_round_trip(v.halfmoves_since_event as nat);
    lemma_decimal_round_trip(v.fullmoves as nat);
    lemma_castling_text_chars(v.white_castling_rights, v.black_castling_rights);
    if let Some(e) = v.en_passant_destination {
        crate::square::lemma_file_rank(e);
        assert(!square_name(e).contains(' ')) by {
            if square_name(e).contains(' ') {
                let j = choose|j: int| 0 <= j < 2 && square_name(e)[j] == ' ';
            }
        }
    }
    let h = decimal(v.halfmoves_since_event as nat);
    assert(!h.contains(' ')) by {
        if h.contains(' ') {
            let j = choose|j: int| 0 <= j < h.len() && h[j] == ' ';
        }
    }
    let f = decimal(v.fullmoves as nat);
    assert(!f.contains(' ')) by {
        if f.contains(' ') {
            let j = choose|j: int| 0 <= j < f.len() && f[j] == ' ';
        }
    }
}

proof fn lemma_placement_no_space(s: Seq<Option<Piece>>, n: nat)
    ensures
        !placement_text(s, n).contains(' '),
    decreases n,
{
    if n == 1 {
        lemma_rank_text_has_no_slash(s, 7, 0, 0);
    } else if n > 1 {
        lemma_placement_no_space(s, (n - 1) as nat);
        lemma_rank_text_has_no_slash(s, (8 - n) as nat, 0, 0);
        let t = placement_text(s, n);
        let a = placement_text(s, (n - 1) as nat);
        let b = rank_text(s, (8 - n) as nat, 0, 0);
        assert(t == a + seq!['/'] + b);
        assert(!t.contains(' ')) by {
            if t.contains(' ') {
                let j = choose|j: int| 0 <= j < t.len() && t[j] == ' ';
                if j < a.len() {
                    assert(a[j] == ' ');
                } else if j > a.len() {
                    assert(b[j - a.len() - 1] == ' ');
                }
            }
        }
    }
}

/// The six fields of a canonical FEN text.
#[verifier::rlimit(100)]
proof fn lemma_split_fen(v: BoardView)
    requires
        v.squares.len() == 64,
    ensures
        split_spec(fen_of(v), ' ') == seq![
            placement_text(v.squares, 8),
            seq![if v.color_to_move == Color::White { 'w' } else { 'b' }],
            castling_text(v.white_castling_rights, v.black_castling_rights),
            match v.en_passant_destination {
                Some(e) => square_name(e),
                None => seq!['-'],
            },
            decimal(v.halfmoves_since_event as nat),
            decimal(v.fullmoves as nat),
        ],
{
    lemma_no_space_in_fields(v);
    let p = placement_text(v.squares, 8);
    let c = seq![if v.color_to_move == Color::White { 'w' } else { 'b' }];
    let k = castling_text(v.white_castling_rights, v.black_castling_rights);
    let e = match v.en_passant_destination {
        Some(e) => square_name(e),
        None => seq!['-'],
    };
    let h = decimal(v.halfmoves_since_event as nat);
    let f = decimal(v.fullmoves as nat);
    assert(!c.contains(' ')) by {
        if c.contains(' ') {
            assert(c[0] == ' ');
        }
    }
    lemma_split_single(p, ' ');
    lemma_split_single(c, ' ');
    lemma_split_single(k, ' ');
    lemma_split_single(e, ' ');
    lemma_split_single(h, ' ');
    lemma_split_single(f, ' ');
    let t5 = h + seq![' '] + f;
    let t4 = e + seq![' '] + t5;
    let t3 = k + seq![' '] + t4;
    let t2 = c + seq![' '] + t3;
    let t1 = p + seq![' '] + t2;
    lemma_split_join(h, f, ' ');
    lemma_split_join(e, t5, ' ');
    lemma_split_join(k, t4, ' ');
    lemma_split_join(c, t3, ' ');
    lemma_split_join(p, t2, ' ');
    assert(fen_of(v) =~= t1);
    assert(split_spec(t1, ' ') =~= seq![p, c, k, e, h, f]);
}

impl Board {
    /// Reads a position in FEN: six fields separated by single spaces (placement, side to move,
    /// castling, en-passant target, half-move clock, full-move number). Any other text is
    /// refused with a message saying why. A text that `to_fen` writes is read back into a
    /// position that `to_fen` writes the same way.
    pub fn from_fen(fen: &str) -> (r: Result<Board, String>)
        ensures
            r is Ok ==> r->Ok_0.wf(),
            r is Ok <==> fen_well_formed(fen@),
            r is Err ==> r->Err_0@.len() >= 13 && r->Err_0@.subrange(0, 13) == invalid_fen_prefix(),
            is_canonical_fen(fen@) ==> r is Ok && fen_of(r->Ok_0@) == fen@,
            split_spec(fen@, ' ').len() != 6 ==> r is Err,
            r is Ok ==> ({
                let f = split_spec(fen@, ' ');
                let v = r->Ok_0@;
                &&& f.len() == 6
                &&& castling_field_means(f[2], v.white_castling_rights, v.black_castling_rights)
                &&& (f[3] == seq!['-'] && v.en_passant_destination is None) || (v.en_passant_destination is Some
                    && f[3].len() == 2 && square_of_name(f[3]) == Some(sq_index(v.en_passant_destination->0)))
                &&& (f[1] == seq!['w'] || f[1] == seq!['b'])
                &&& (v.color_to_move == Color::White <==> f[1] == seq!['w'])
                &&& all_digits(f[4]) && v.halfmoves_since_event as int == decimal_value(f[4])
                &&& all_digits(f[5]) && v.fullmoves as int == decimal_value(f[5])
            }),
    {
        let ghost canonical = is_canonical_fen(fen@);
        let ghost v = choose|v: BoardView| v.squares.len() == 64 && #[trigger] fen_of(v) == fen@;
        let ghost ep_text = match v.en_passant_destination {
            Some(e) => square_name(e),
            None => seq!['-'],
        };
        let ghost side = seq![if v.color_to_move == Color::White { 'w' } else { 'b' }];
        let chars = chars_of(fen);
        let fields = split_on(&chars, ' ');
        proof {
            assert(canonical ==> v.squares.len() == 64 && fen_of(v) == fen@);
            assert(canonical ==> views(fields@) == seq![
                placement_text(v.squares, 8),
                side,
                castling_text(v.white_castling_rights, v.black_castling_rights),
                ep_text,
                decimal(v.halfmoves_since_event as nat),
                decimal(v.fullmoves as nat),
            ]) by {
                if canonical {
                    lemma_split_fen(v);
                }
            }
            assert(views(fields@).len() == fields@.len());
        }
        if fields.len() != 6 {
            return Err(fen_error(fen, "must have 6 fields"));
        }
        proof {
            assert(canonical ==> {
                &&& fields@[0]@ == placement_text(v.squares, 8)
                &&& fields@[1]@ == side
                &&& fields@[2]@ == castling_text(v.white_castling_rights, v.black_castling_rights)
                &&& fields@[3]@ == ep_text
                &&& fields@[4]@ == decimal(v.halfmoves_since_event as nat)
                &&& fields@[5]@ == decimal(v.fullmoves as nat)
            }) by {
                if canonical {
                    assert(views(fields@)[0] == fields@[0]@);
                    assert(views(fields@)[1] == fields@[1]@);
            assert(views(fields@)[2] == fields@[2]@);
            assert(views(fields@)[3] == fields@[3]@);
                    assert(views(fields@)[2] == fields@[2]@);
                    assert(views(fields@)[3] == fields@[3]@);
                    assert(views(fields@)[4] == fields@[4]@);
                    assert(views(fields@)[5] == fields@[5]@);
                }
            }
            assert(canonical ==> exists|s: Seq<Option<Piece>>| s.len() == 64 && #[trigger] placement_text(s, 8)
                == fields@[0]@) by {
                if canonical {
                    assert(v.squares.len() == 64 && placement_text(v.squares, 8) == fields@[0]@);
                }
            }
            lemma_decimal_round_trip(v.halfmoves_since_event as nat);
            lemma_decimal_round_trip(v.fullmoves as nat);
        }
        let pieces = match parse_placement(&fields[0]) {
            Some(p) => p,
            None => return Err(fen_error(fen, "invalid piece placement")),
        };
        let to_move = if is_single(&fields[1], 'w') {
            Color::White
        } else if is_single(&fields[1], 'b') {
            Color::Black
        } else {
            return Err(fen_error(fen, "side to move must be 'w' or 'b'"));
        };
        proof {
            assert(canonical ==> to_move == v.color_to_move) by {
                if canonical && v.color_to_move == Color::Black {
                    assert(side[0] == 'b');
                    assert(fields@[1]@ != seq!['w']) by {
                        assert(fields@[1]@[0] == 'b');
                    }
                }
            }
        }
        let (white, black) = match parse_castling(&fields[2]) {
            Some(c) => c,
            None => return Err(fen_error(fen, "unrecognised castling field")),
        };
        let en_passant = match parse_en_passant(&fields[3]) {
            Some(e) => e,
            None => return Err(fen_error(fen, "invalid en passant square")),
        };
        proof {
            assert(canonical ==> en_passant == v.en_passant_destination) by {
                if canonical {
                    if let Some(e) = v.en_passant_destination {
                        assert(fields@[3]@ == square_name(e));
                    }
                }
            }
        }
        let halfmoves = match parse_u32(&fields[4]) {
            Some(n) => n,
            None => return Err(fen_error(fen, "halfmoves not a number")),
        };
        let fullmoves = match parse_u32(&fields[5]) {
            Some(n) => n,
            None => return Err(fen_error(fen, "fullmoves not a number")),
        };
        let board = Board::new(&pieces, to_move, en_passant, white, black, halfmoves, fullmoves);
        proof {
            assert(views(fields@)[1] == fields@[1]@);
            assert(views(fields@)[2] == fields@[2]@);
            assert(views(fields@)[3] == fields@[3]@);
            assert(views(fields@)[4] == fields@[4]@);
            assert(views(fields@)[5] == fields@[5]@);
            assert(canonical ==> fen_of(board@) == fen@) by {
                if canonical {
                    assert(fen_of(board@) =~= fen_of(v));
                }
            }
        }
        Ok(board)
    }
}


} // verus!
