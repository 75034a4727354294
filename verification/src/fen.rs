//! Reading a position from Forsyth-Edwards Notation, as bytes.
use vstd::prelude::*;
use vstd::string::StringSliceAdditionalSpecFns;
use crate::bitboard::on_board;
use crate::board::{Board, BoardModel, lemma_add_consistent};
use crate::movegen::lemma_typed_legal_moves_defined;
use crate::pieces::occupies;
use crate::piece::{Color, Move, Piece, PieceType};

verus! {

/// The pieces of `s` separated by `sep`, as `str::split` gives them: n separators
/// give n + 1 pieces.
pub open spec fn split(s: Seq<u8>, sep: u8) -> Seq<Seq<u8>>
    decreases s.len(),
{
    if s.len() == 0 {
        seq![Seq::empty()]
    } else {
        let prev = split(s.drop_last(), sep);
        if s.last() == sep {
            prev.push(Seq::empty())
        } else {
            prev.update(prev.len() - 1, prev.last().push(s.last()))
        }
    }
}

/// As `split`, without the last piece when it is empty (`str::split_terminator`).
pub open spec fn split_terminator(s: Seq<u8>, sep: u8) -> Seq<Seq<u8>> {
    let parts = split(s, sep);
    if parts.last().len() == 0 {
        parts.drop_last()
    } else {
        parts
    }
}

/// The non-empty pieces of `parts`, in order.
pub open spec fn non_empty(parts: Seq<Seq<u8>>) -> Seq<Seq<u8>>
    decreases parts.len(),
{
    if parts.len() == 0 {
        parts
    } else {
        let prev = non_empty(parts.drop_last());
        if parts.last().len() > 0 {
            prev.push(parts.last())
        } else {
            prev
        }
    }
}

/// The byte ranges `ranges` of `s`, as sequences.
pub open spec fn spans(s: Seq<u8>, ranges: Seq<(usize, usize)>) -> Seq<Seq<u8>> {
    Seq::new(ranges.len(), |i: int| s.subrange(ranges[i].0 as int, ranges[i].1 as int))
}

/// Where a scan stands: still going, refused, or at an input on which reading
/// would stop the program (a piece placed past the eighth file, whose square
/// `pos_to_idx` refuses, or a file counter past 255, which overflows a `u8`).
#[derive(Debug, Clone, Copy, PartialEq, Eq, Structural)]
pub enum Scan {
    Going,
    Rejected,
    Panicked,
}

/// The kind and color a FEN letter stands for: lower case for Black.
pub open spec fn piece_of(c: u8) -> Option<(PieceType, Color)> {
    if c == 112 {
        Some((PieceType::Pawn, Color::Black))
    } else if c == 80 {
        Some((PieceType::Pawn, Color::White))
    } else if c == 110 {
        Some((PieceType::Knight, Color::Black))
    } else if c == 78 {
        Some((PieceType::Knight, Color::White))
    } else if c == 98 {
        Some((PieceType::Bishop, Color::Black))
    } else if c == 66 {
        Some((PieceType::Bishop, Color::White))
    } else if c == 114 {
        Some((PieceType::Rook, Color::Black))
    } else if c == 82 {
        Some((PieceType::Rook, Color::White))
    } else if c == 113 {
        Some((PieceType::Queen, Color::Black))
    } else if c == 81 {
        Some((PieceType::Queen, Color::White))
    } else if c == 107 {
        Some((PieceType::King, Color::Black))
    } else if c == 75 {
        Some((PieceType::King, Color::White))
    } else {
        None
    }
}

/// Reading one rank of the placement, the `rank`-th from the top: each letter
/// places a piece on the next file, each digit 1 to 8 skips that many files,
/// anything else refuses the rank. Gives the state, the file reached and the
/// pieces placed.
pub open spec fn scan_row(row: Seq<u8>, rank: int) -> (Scan, int, Seq<Piece>)
    decreases row.len(),
{
    if row.len() == 0 {
        (Scan::Going, 0, Seq::empty())
    } else {
        let prev = scan_row(row.drop_last(), rank);
        let c = row.last();
        let file = prev.1;
        if prev.0 != Scan::Going {
            prev
        } else {
            match piece_of(c) {
                Some(kc) => if file >= 8 {
                    (Scan::Panicked, file, prev.2)
                } else {
                    (
                        Scan::Going,
                        file + 1,
                        prev.2.push(
                            Piece { tp: kc.0, pos: ((7 - rank) as u8, file as u8), col: kc.1 },
                        ),
                    )
                },
                None => if 49 <= c <= 56 {
                    if file + (c - 48) > 255 {
                        (Scan::Panicked, file, prev.2)
                    } else {
                        (Scan::Going, file + (c - 48), prev.2)
                    }
                } else {
                    (Scan::Rejected, file, prev.2)
                },
            }
        }
    }
}

/// The number of files a placement rank covers: a digit from 1 to 8 covers as
/// many files as it says, any other byte one file.
pub open spec fn rank_width(row: Seq<u8>) -> int
    decreases row.len(),
{
    if row.len() == 0 {
        0
    } else {
        rank_width(row.drop_last()) + if 49 <= row.last() <= 56 {
            row.last() - 48
        } else {
            1
        }
    }
}

/// A byte a placement rank may hold: a piece letter or a digit from 1 to 8.
pub open spec fn rank_byte(c: u8) -> bool {
    piece_of(c) is Some || 49 <= c <= 56
}

/// Reading the first `n` ranks: each must reach exactly the eighth file.
pub open spec fn scan_rows(rows: Seq<Seq<u8>>, n: int) -> (Scan, Seq<Piece>)
    decreases n,
{
    if n <= 0 {
        (Scan::Going, Seq::empty())
    } else {
        let prev = scan_rows(rows, n - 1);
        if prev.0 != Scan::Going {
            prev
        } else {
            let row = scan_row(rows[n - 1], n - 1);
            if row.0 != Scan::Going {
                (row.0, prev.1)
            } else if row.1 != 8 {
                (Scan::Rejected, prev.1)
            } else {
                (Scan::Going, prev.1 + row.2)
            }
        }
    }
}

/// An ASCII decimal digit.
pub open spec fn is_digit(c: u8) -> bool {
    48 <= c <= 57
}

/// The value of a string of decimal digits.
pub open spec fn digits_value(d: Seq<u8>) -> int
    decreases d.len(),
{
    if d.len() == 0 {
        0
    } else {
        digits_value(d.drop_last()) * 10 + (d.last() - 48)
    }
}

/// The digits of an unsigned number: `t` without a leading `+`.
pub open spec fn unsigned_digits(t: Seq<u8>) -> Seq<u8> {
    if t.len() > 0 && t[0] == 43 {
        t.drop_first()
    } else {
        t
    }
}

/// Every byte of `d` is a decimal digit.
pub open spec fn all_digits(d: Seq<u8>) -> bool {
    forall|i: int| 0 <= i < d.len() ==> is_digit(#[trigger] d[i])
}

/// The unsigned number `t` spells, as `str::parse` reads it: an optional `+`,
/// then one or more decimal digits, with a value at most `max`.
pub open spec fn parse_unsigned(t: Seq<u8>, max: int) -> Option<int> {
    let d = unsigned_digits(t);
    if d.len() > 0 && all_digits(d) && digits_value(d) <= max {
        Some(digits_value(d))
    } else {
        None
    }
}

/// The sections of a FEN record, split at spaces.
pub open spec fn fen_sections(s: Seq<u8>) -> Seq<Seq<u8>> {
    split_terminator(s, 32)
}

/// The ranks of the placement section, split at slashes, empty ones dropped.
pub open spec fn fen_rows(s: Seq<u8>) -> Seq<Seq<u8>> {
    non_empty(split_terminator(fen_sections(s)[0], 47))
}

/// Reading the record would stop the program: a rank places a piece past the
/// eighth file or counts past 255 files before any refusal.
pub open spec fn fen_panics(s: Seq<u8>) -> bool {
    &&& fen_sections(s).len() > 0
    &&& fen_rows(s).len() == 8
    &&& scan_rows(fen_rows(s), 8).0 == Scan::Panicked
}

/// A board with the pieces of `ps` added in order.
pub open spec fn add_all(b: BoardModel, ps: Seq<Piece>) -> BoardModel
    decreases ps.len(),
{
    if ps.len() == 0 {
        b
    } else {
        add_all(b, ps.drop_last()).add(ps.last())
    }
}

/// The position a FEN record describes, or `None` when it is refused. The
/// record needs a placement of exactly eight non-empty ranks, each reaching
/// the eighth file; a side-to-move section whose first byte is `w` exactly when
/// the full-move number is odd; castling and en passant sections (not read);
/// a half-move clock that fits a `u8`; and a full-move number n that fits a
/// `u32`. The board has the placed pieces and n - 1 unknown moves played.
pub open spec fn fen_model(s: Seq<u8>) -> Option<BoardModel> {
    let sections = fen_sections(s);
    if sections.len() == 0 {
        None
    } else if fen_rows(s).len() != 8 {
        None
    } else if scan_rows(fen_rows(s), 8).0 != Scan::Going {
        None
    } else if sections.len() < 6 || sections[1].len() == 0 {
        None
    } else {
        match (parse_unsigned(sections[4], 255), parse_unsigned(sections[5], 4294967295)) {
            (Some(_), Some(n)) => if (n % 2 == 1) != (sections[1][0] == 119) {
                None
            } else {
                let placed = add_all(BoardModel::empty(), scan_rows(fen_rows(s), 8).1);
                Some(
                    BoardModel {
                        moves: Seq::new(
                            if n >= 1 {
                                (n - 1) as nat
                            } else {
                                0
                            },
                            |i: int| Move::placeholder(),
                        ),
                        ..placed
                    },
                )
            },
            _ => None,
        }
    }
}

/// Adding a range to a list of ranges adds its bytes to the spans.
proof fn lemma_spans_push(s: Seq<u8>, ranges: Seq<(usize, usize)>, r: (usize, usize))
    ensures
        spans(s, ranges.push(r)) == spans(s, ranges).push(s.subrange(r.0 as int, r.1 as int)),
{
    assert(spans(s, ranges.push(r)) =~= spans(s, ranges).push(s.subrange(r.0 as int, r.1 as int)));
}

/// The ranges of the pieces of `s[lo..hi]` split at `sep`, without a last empty piece.
fn split_terminator_ranges(s: &[u8], lo: usize, hi: usize, sep: u8) -> (r: Vec<(usize, usize)>)
    requires
        lo <= hi <= s@.len(),
    ensures
        spans(s@, r@) == split_terminator(s@.subrange(lo as int, hi as int), sep),
        forall|i: int| 0 <= i < r@.len() ==> lo <= (#[trigger] r@[i]).0 <= r@[i].1 <= hi,
{
    let mut parts: Vec<(usize, usize)> = Vec::new();
    let mut start = lo;
    let mut i = lo;
    assert(s@.subrange(lo as int, lo as int) =~= Seq::<u8>::empty());
    assert(spans(s@, parts@) =~= Seq::<Seq<u8>>::empty());
    while i < hi
        invariant
            lo <= start <= i <= hi <= s@.len(),
            forall|k: int| 0 <= k < parts@.len() ==> lo <= (#[trigger] parts@[k]).0 <= parts@[k].1 <= hi,
            split(s@.subrange(lo as int, i as int), sep) == spans(s@, parts@).push(
                s@.subrange(start as int, i as int),
            ),
        decreases hi - i,
    {
        let ghost t = s@.subrange(lo as int, i + 1);
        assert(t.drop_last() =~= s@.subrange(lo as int, i as int));
        assert(t.last() == s@[i as int]);
        if s[i] == sep {
            proof {
                lemma_spans_push(s@, parts@, (start, i));
                assert(s@.subrange(i + 1, i + 1) =~= Seq::<u8>::empty());
            }
            parts.push((start, i));
            start = i + 1;
        } else {
            assert(s@.subrange(start as int, i + 1) =~= s@.subrange(start as int, i as int).push(
                s@[i as int],
            ));
        }
        i = i + 1;
    }
    if start < hi {
        proof {
            lemma_spans_push(s@, parts@, (start, hi));
        }
        parts.push((start, hi));
    } else {
        assert(s@.subrange(start as int, hi as int) =~= Seq::<u8>::empty());
        assert(spans(s@, parts@).push(s@.subrange(start as int, hi as int)).drop_last() =~= spans(
            s@,
            parts@,
        ));
    }
    parts
}

/// The non-empty ranges of `ranges`, in order.
fn non_empty_ranges(s: &[u8], ranges: &Vec<(usize, usize)>) -> (r: Vec<(usize, usize)>)
    requires
        forall|i: int| 0 <= i < ranges@.len() ==> (#[trigger] ranges@[i]).0 <= ranges@[i].1 <= s@.len(),
    ensures
        spans(s@, r@) == non_empty(spans(s@, ranges@)),
        forall|i: int| 0 <= i < r@.len() ==> (#[trigger] r@[i]).0 <= r@[i].1 <= s@.len(),
{
    let mut out: Vec<(usize, usize)> = Vec::new();
    let mut i: usize = 0;
    assert(spans(s@, out@) =~= non_empty(spans(s@, ranges@.take(0))));
    while i < ranges.len()
        invariant
            i <= ranges@.len(),
            forall|k: int| 0 <= k < ranges@.len() ==> (#[trigger] ranges@[k]).0 <= ranges@[k].1 <= s@.len(),
            forall|k: int| 0 <= k < out@.len() ==> (#[trigger] out@[k]).0 <= out@[k].1 <= s@.len(),
            spans(s@, out@) == non_empty(spans(s@, ranges@.take(i as int))),
        decreases ranges@.len() - i,
    {
        let ghost sp = spans(s@, ranges@.take(i + 1));
        assert(sp.drop_last() =~= spans(s@, ranges@.take(i as int)));
        assert(sp.last() == s@.subrange(ranges@[i as int].0 as int, ranges@[i as int].1 as int));
        let (a, b) = ranges[i];
        if a < b {
            proof {
                lemma_spans_push(s@, out@, (a, b));
            }
            out.push((a, b));
        }
        i = i + 1;
    }
    assert(ranges@.take(ranges@.len() as int) =~= ranges@);
    out
}

/// Reads one rank, `s[a..b]`, the `rank`-th from the top, adding its pieces to `placed`.
fn scan_row_exec(s: &[u8], a: usize, b: usize, rank: u8, placed: &mut Vec<Piece>) -> (r: (
    Scan,
    u16,
))
    requires
        a <= b <= s@.len(),
        rank < 8,
        forall|i: int| 0 <= i < old(placed)@.len() ==> on_board(#[trigger] old(placed)@[i].pos),
    ensures
        ({
            let spec_r = scan_row(s@.subrange(a as int, b as int), rank as int);
            &&& r.0 == spec_r.0
            &&& r.0 == Scan::Going ==> r.1 == spec_r.1 && final(placed)@ == old(placed)@ + spec_r.2
        }),
        forall|i: int| 0 <= i < final(placed)@.len() ==> on_board(#[trigger] final(placed)@[i].pos),
{
    let mut state = Scan::Going;
    let mut file: u16 = 0;
    let mut i = a;
    let ghost start = placed@;
    assert(s@.subrange(a as int, a as int) =~= Seq::<u8>::empty());
    assert(start + Seq::<Piece>::empty() =~= start);
    while i < b
        invariant
            a <= i <= b <= s@.len(),
            rank < 8,
            file <= 255,
            forall|k: int| 0 <= k < placed@.len() ==> on_board(#[trigger] placed@[k].pos),
            ({
                let spec_r = scan_row(s@.subrange(a as int, i as int), rank as int);
                &&& state == spec_r.0
                &&& state == Scan::Going ==> file == spec_r.1 && placed@ == start + spec_r.2
            }),
        decreases b - i,
    {
        let ghost t = s@.subrange(a as int, i + 1);
        assert(t.drop_last() =~= s@.subrange(a as int, i as int));
        assert(t.last() == s@[i as int]);
        if state == Scan::Going {
            let c = s[i];
            let kind: Option<(PieceType, Color)> = if c == 112 {
                Some((PieceType::Pawn, Color::Black))
            } else if c == 80 {
                Some((PieceType::Pawn, Color::White))
            } else if c == 110 {
                Some((PieceType::Knight, Color::Black))
            } else if c == 78 {
                Some((PieceType::Knight, Color::White))
            } else if c == 98 {
                Some((PieceType::Bishop, Color::Black))
            } else if c == 66 {
                Some((PieceType::Bishop, Color::White))
            } else if c == 114 {
                Some((PieceType::Rook, Color::Black))
            } else if c == 82 {
                Some((PieceType::Rook, Color::White))
            } else if c == 113 {
                Some((PieceType::Queen, Color::Black))
            } else if c == 81 {
                Some((PieceType::Queen, Color::White))
            } else if c == 107 {
                Some((PieceType::King, Color::Black))
            } else if c == 75 {
                Some((PieceType::King, Color::White))
            } else {
                None
            };
            match kind {
                Some((tp, col)) => {
                    if file >= 8 {
                        state = Scan::Panicked;
                    } else {
                        let ghost before = placed@;
                        placed.push(Piece { tp: tp, pos: (7 - rank, file as u8), col: col });
                        assert(placed@ == start + scan_row(t, rank as int).2) by {
                            assert(before == start + scan_row(t.drop_last(), rank as int).2);
                        }
                        file = file + 1;
                    }
                },
                None => {
                    if 49 <= c && c <= 56 {
                        if file + (c as u16 - 48) > 255 {
                            state = Scan::Panicked;
                        } else {
                            file = file + (c as u16 - 48);
                        }
                    } else {
                        state = Scan::Rejected;
                    }
                },
            }
        }
        i = i + 1;
    }
    (state, file)
}

/// Reads the first `n` ranks given as ranges of `s`.
fn scan_rows_exec(s: &[u8], rows: &Vec<(usize, usize)>, n: usize) -> (r: (Scan, Vec<Piece>))
    requires
        n <= rows@.len(),
        n <= 8,
        forall|i: int| 0 <= i < rows@.len() ==> (#[trigger] rows@[i]).0 <= rows@[i].1 <= s@.len(),
    ensures
        r.0 == scan_rows(spans(s@, rows@), n as int).0,
        r.0 == Scan::Going ==> r.1@ == scan_rows(spans(s@, rows@), n as int).1,
        forall|i: int| 0 <= i < r.1@.len() ==> on_board(#[trigger] r.1@[i].pos),
{
    let mut state = Scan::Going;
    let mut placed: Vec<Piece> = Vec::new();
    let mut k: usize = 0;
    while k < n
        invariant
            k <= n <= rows@.len(),
            n <= 8,
            forall|i: int| 0 <= i < rows@.len() ==> (#[trigger] rows@[i]).0 <= rows@[i].1 <= s@.len(),
            forall|i: int| 0 <= i < placed@.len() ==> on_board(#[trigger] placed@[i].pos),
            state == scan_rows(spans(s@, rows@), k as int).0,
            state == Scan::Going ==> placed@ == scan_rows(spans(s@, rows@), k as int).1,
        decreases n - k,
    {
        if state == Scan::Going {
            let (a, b) = rows[k];
            assert(spans(s@, rows@)[k as int] == s@.subrange(a as int, b as int));
            let (row_state, file) = scan_row_exec(s, a, b, k as u8, &mut placed);
            if row_state != Scan::Going {
                state = row_state;
            } else if file != 8 {
                state = Scan::Rejected;
            }
        }
        k = k + 1;
    }
    (state, placed)
}

/// A string of digits has a value at least that of each of its prefixes.
proof fn lemma_digits_value_prefix(d: Seq<u8>, k: int)
    requires
        0 <= k <= d.len(),
        all_digits(d),
    ensures
        digits_value(d.take(k)) <= digits_value(d),
        0 <= digits_value(d),
    decreases d.len(),
{
    if d.len() > 0 {
        if k == d.len() {
            assert(d.take(k) =~= d);
            lemma_digits_value_prefix(d.drop_last(), 0);
        } else {
            assert(d.drop_last().take(k) =~= d.take(k));
            lemma_digits_value_prefix(d.drop_last(), k);
        }
    } else {
        assert(d.take(k) =~= d);
    }
}

/// The unsigned number `s[a..b]` spells (see `parse_unsigned`).
fn parse_unsigned_exec(s: &[u8], a: usize, b: usize, max: u64) -> (r: Option<u64>)
    requires
        a <= b <= s@.len(),
        max <= 4294967295,
    ensures
        r is Some <==> parse_unsigned(s@.subrange(a as int, b as int), max as int) is Some,
        r matches Some(x) ==> parse_unsigned(s@.subrange(a as int, b as int), max as int) == Some(
            x as int,
        ),
{
    let ghost t = s@.subrange(a as int, b as int);
    let mut i = a;
    if a < b && s[a] == 43 {
        i = a + 1;
    }
    let ghost d = s@.subrange(i as int, b as int);
    assert(d =~= unsigned_digits(t));
    if i == b {
        return None;
    }
    let start = i;
    let mut acc: u64 = 0;
    assert(d.take(0) =~= Seq::<u8>::empty());
    while i < b
        invariant
            a <= start <= i <= b <= s@.len(),
            start < b,
            max <= 4294967295,
            d == s@.subrange(start as int, b as int),
            t == s@.subrange(a as int, b as int),
            d == unsigned_digits(t),
            forall|k: int| 0 <= k < i - start ==> is_digit(#[trigger] d[k]),
            acc == digits_value(d.take(i - start)),
            acc <= max,
        decreases b - i,
    {
        let c = s[i];
        assert(d[i - start] == c);
        if c < 48 || c > 57 {
            assert(!is_digit(d[i - start]));
            return None;
        }
        assert(d.take(i - start + 1).drop_last() =~= d.take(i - start));
        assert(d.take(i - start + 1).last() == c);
        let next: u64 = acc * 10 + (c as u64 - 48);
        if next > max {
            proof {
                if all_digits(d) {
                    lemma_digits_value_prefix(d, i - start + 1);
                }
            }
            return None;
        }
        acc = next;
        i = i + 1;
    }
    assert(d.take(d.len() as int) =~= d);
    Some(acc)
}

/// Pieces on the board, each of a kind, no two on one square.
pub open spec fn placeable(ps: Seq<Piece>) -> bool {
    &&& forall|i: int| 0 <= i < ps.len() ==> on_board(#[trigger] ps[i].pos)
    &&& forall|i: int| 0 <= i < ps.len() ==> (#[trigger] ps[i]).tp != PieceType::Unknown
    &&& forall|i: int, j: int| 0 <= i < ps.len() && 0 <= j < ps.len() && i != j ==> #[trigger] ps[i].pos
        != #[trigger] ps[j].pos
}

/// Adding placeable pieces one by one to the empty board gives a sound board
/// with no moves, whose occupied squares are those of the pieces.
pub proof fn lemma_add_all_sound(ps: Seq<Piece>)
    requires
        placeable(ps),
    ensures
        add_all(BoardModel::empty(), ps).sound(),
        add_all(BoardModel::empty(), ps).moves == Seq::<Move>::empty(),
        forall|pos: (u8, u8)|
            occupies(add_all(BoardModel::empty(), ps).white, pos) || occupies(
                add_all(BoardModel::empty(), ps).black,
                pos,
            ) ==> exists|i: int| 0 <= i < ps.len() && #[trigger] ps[i].pos == pos,
    decreases ps.len(),
{
    if ps.len() == 0 {
        crate::board::lemma_empty_sound();
    } else {
        let q = ps.drop_last();
        assert(placeable(q)) by {
            assert forall|i: int, j: int| 0 <= i < q.len() && 0 <= j < q.len() && i != j implies #[trigger] q[i].pos
                != #[trigger] q[j].pos by {
                assert(q[i] == ps[i] && q[j] == ps[j]);
            }
        }
        lemma_add_all_sound(q);
        let prev = add_all(BoardModel::empty(), q);
        let p = ps.last();
        assert(!occupies(prev.white, p.pos) && !occupies(prev.black, p.pos)) by {
            if occupies(prev.white, p.pos) || occupies(prev.black, p.pos) {
                let i = choose|i: int| 0 <= i < q.len() && #[trigger] q[i].pos == p.pos;
                assert(ps[i].pos == ps[ps.len() - 1].pos);
            }
        }
        assert(on_board(ps[ps.len() - 1].pos));
        assert(ps[ps.len() - 1].tp != PieceType::Unknown);
        lemma_add_consistent(prev, p);
        let cur = add_all(BoardModel::empty(), ps);
        assert forall|pos: (u8, u8)|
            occupies(cur.white, pos) || occupies(cur.black, pos) implies exists|i: int|
            0 <= i < ps.len() && #[trigger] ps[i].pos == pos by {
            crate::board::lemma_occupies_remove_insert(prev.side(p.col), p, p, pos);
            if pos == p.pos {
                assert(ps[ps.len() - 1].pos == pos);
            } else {
                let i = choose|i: int| 0 <= i < q.len() && #[trigger] q[i].pos == pos;
                assert(ps[i].pos == pos);
            }
        }
    }
}

/// The pieces a rank places stand on that rank, of a kind, at increasing files
/// below the file reached.
pub proof fn lemma_scan_row_places(row: Seq<u8>, rank: int)
    requires
        0 <= rank < 8,
    ensures
        ({
            let r = scan_row(row, rank);
            &&& 0 <= r.1
            &&& forall|i: int|
                0 <= i < r.2.len() ==> (#[trigger] r.2[i]).pos.0 == 7 - rank && r.2[i].pos.1 < r.1
                    && r.2[i].pos.1 < 8 && r.2[i].tp != PieceType::Unknown
            &&& forall|i: int, j: int|
                0 <= i < j < r.2.len() ==> (#[trigger] r.2[i]).pos.1 < (#[trigger] r.2[j]).pos.1
        }),
    decreases row.len(),
{
    if row.len() > 0 {
        lemma_scan_row_places(row.drop_last(), rank);
    }
}

/// The pieces the first `n` ranks place stand on the board, of a kind, no two
/// on one square, on ranks from 8 - n up.
pub proof fn lemma_scan_rows_places(rows: Seq<Seq<u8>>, n: int)
    requires
        0 <= n <= 8,
    ensures
        scan_rows(rows, n).0 == Scan::Going ==> placeable(scan_rows(rows, n).1),
        scan_rows(rows, n).0 == Scan::Going ==> forall|i: int|
            0 <= i < scan_rows(rows, n).1.len() ==> 8 - n <= (#[trigger] scan_rows(rows, n).1[i]).pos.0,
    decreases n,
{
    if n > 0 {
        lemma_scan_rows_places(rows, n - 1);
        let prev = scan_rows(rows, n - 1);
        let row = scan_row(rows[n - 1], n - 1);
        lemma_scan_row_places(rows[n - 1], n - 1);
        if prev.0 == Scan::Going && row.0 == Scan::Going && row.1 == 8 {
            let all = prev.1 + row.2;
            assert(scan_rows(rows, n).1 == all);
            assert forall|i: int| 0 <= i < all.len() implies on_board(#[trigger] all[i].pos) && all[i].tp
                != PieceType::Unknown && 8 - n <= all[i].pos.0 by {
                if i < prev.1.len() {
                    assert(all[i] == prev.1[i]);
                } else {
                    assert(all[i] == row.2[i - prev.1.len()]);
                }
            }
            assert forall|i: int, j: int| 0 <= i < all.len() && 0 <= j < all.len() && i != j implies #[trigger] all[i].pos
                != #[trigger] all[j].pos by {
                if i < prev.1.len() {
                    assert(all[i] == prev.1[i]);
                } else {
                    assert(all[i] == row.2[i - prev.1.len()]);
                }
                if j < prev.1.len() {
                    assert(all[j] == prev.1[j]);
                } else {
                    assert(all[j] == row.2[j - prev.1.len()]);
                }
                if i >= prev.1.len() && j >= prev.1.len() {
                    if i < j {
                        assert(row.2[i - prev.1.len()].pos.1 < row.2[j - prev.1.len()].pos.1);
                    } else {
                        assert(row.2[j - prev.1.len()].pos.1 < row.2[i - prev.1.len()].pos.1);
                    }
                }
            }
        }
    }
}

/// A position read from FEN is sound.
pub proof fn lemma_fen_model_sound(s: Seq<u8>)
    requires
        fen_model(s) is Some,
    ensures
        fen_model(s).unwrap().sound(),
{
    lemma_scan_rows_places(fen_rows(s), 8);
    let ps = scan_rows(fen_rows(s), 8).1;
    lemma_add_all_sound(ps);
    let placed = add_all(BoardModel::empty(), ps);
    let m = fen_model(s).unwrap();
    assert(m.white == placed.white && m.black == placed.black);
    assert forall|k: int| 0 <= k < m.moves.len() implies crate::board::move_on_board(
        #[trigger] m.moves[k],
    ) by {
        assert(m.moves[k] == Move::placeholder());
    }
}

impl Board {
    /// Reads a position from a FEN record given as bytes (see `fen_model`).
    pub fn from_fen_bytes(s: &[u8]) -> (r: Option<Board>)
        requires
            !fen_panics(s@),
        ensures
            match fen_model(s@) {
                Some(m) => r is Some && r.unwrap()@ == m,
                None => r is None,
            },
            r matches Some(b) ==> b@.wf() && b@.sound() && b@.legal_moves_defined(),
    {
        let sections = split_terminator_ranges(s, 0, s.len(), 32);
        assert(s@.subrange(0, s@.len() as int) =~= s@);
        if sections.len() == 0 {
            return None;
        }
        let (a0, b0) = sections[0];
        assert(fen_sections(s@)[0] == s@.subrange(a0 as int, b0 as int));
        let all_rows = split_terminator_ranges(s, a0, b0, 47);
        let rows = non_empty_ranges(s, &all_rows);
        if rows.len() != 8 {
            return None;
        }
        let (state, placed) = scan_rows_exec(s, &rows, 8);
        if state != Scan::Going {
            return None;
        }
        if sections.len() < 6 {
            return None;
        }
        let (a1, b1) = sections[1];
        assert(fen_sections(s@)[1] == s@.subrange(a1 as int, b1 as int));
        if a1 == b1 {
            return None;
        }
        let turn = s[a1];
        assert(fen_sections(s@)[1][0] == turn);
        let (a4, b4) = sections[4];
        assert(fen_sections(s@)[4] == s@.subrange(a4 as int, b4 as int));
        if parse_unsigned_exec(s, a4, b4, 255).is_none() {
            return None;
        }
        let (a5, b5) = sections[5];
        assert(fen_sections(s@)[5] == s@.subrange(a5 as int, b5 as int));
        let moves = match parse_unsigned_exec(s, a5, b5, 4294967295) {
            Some(n) => n,
            None => {
                return None;
            },
        };
        assert(parse_unsigned(fen_sections(s@)[5], 4294967295) == Some(moves as int));
        assert(parse_unsigned(fen_sections(s@)[4], 255) is Some);
        if (moves % 2 == 1) != (turn == 119) {
            return None;
        }
        let mut board = Board::empty();
        let mut i: usize = 0;
        while i < placed.len()
            invariant
                i <= placed@.len(),
                forall|k: int| 0 <= k < placed@.len() ==> on_board(#[trigger] placed@[k].pos),
                board@ == add_all(BoardModel::empty(), placed@.take(i as int)),
                board@.wf(),
            decreases placed@.len() - i,
        {
            assert(placed@.take(i + 1).drop_last() =~= placed@.take(i as int));
            assert(placed@.take(i + 1).last() == placed@[i as int]);
            board.add_piece(placed[i]);
            i = i + 1;
        }
        assert(placed@.take(placed@.len() as int) =~= placed@);
        let count: u32 = if moves >= 1 {
            (moves - 1) as u32
        } else {
            0
        };
        board.set_unknown_history(count);
        proof {
            lemma_fen_model_sound(s@);
            lemma_typed_legal_moves_defined(board@);
        }
        Some(board)
    }

    /// Reads a position from a FEN record (see `fen_model`, over the record's
    /// UTF-8 bytes).
    pub fn from_fen(fen_str: &str) -> (r: Option<Board>)
        requires
            !fen_panics(fen_str.spec_bytes()),
        ensures
            match fen_model(fen_str.spec_bytes()) {
                Some(m) => r is Some && r.unwrap()@ == m,
                None => r is None,
            },
            r matches Some(b) ==> b@.wf() && b@.sound() && b@.legal_moves_defined(),
    {
        Board::from_fen_bytes(fen_str.as_bytes())
    }
}

/// The kind of piece that starts on file `f` of a back rank.
pub open spec fn back_rank_kind(f: int) -> PieceType {
    if f == 0 || f == 7 {
        PieceType::Rook
    } else if f == 1 || f == 6 {
        PieceType::Knight
    } else if f == 2 || f == 5 {
        PieceType::Bishop
    } else if f == 3 {
        PieceType::Queen
    } else {
        PieceType::King
    }
}

/// The 32 pieces of the starting position in the order a FEN record lists them:
/// Black's back rank, Black's pawns, White's pawns, White's back rank, each from
/// the a-file to the h-file.
pub open spec fn start_pieces() -> Seq<Piece> {
    Seq::new(
        32,
        |i: int|
            if i < 8 {
                Piece { tp: back_rank_kind(i), pos: (7, i as u8), col: Color::Black }
            } else if i < 16 {
                Piece { tp: PieceType::Pawn, pos: (6, (i - 8) as u8), col: Color::Black }
            } else if i < 24 {
                Piece { tp: PieceType::Pawn, pos: (1, (i - 16) as u8), col: Color::White }
            } else {
                Piece { tp: back_rank_kind(i - 24), pos: (0, (i - 24) as u8), col: Color::White }
            },
    )
}

/// The starting position, White to play.
pub open spec fn start_position() -> BoardModel {
    add_all(BoardModel::empty(), start_pieces())
}

/// The pieces of the starting position stand on the board, of a kind, no two on
/// one square.
pub proof fn lemma_start_pieces_placeable()
    ensures
        placeable(start_pieces()),
{
    let ps = start_pieces();
    assert forall|i: int| 0 <= i < ps.len() implies on_board(#[trigger] ps[i].pos) && ps[i].tp
        != PieceType::Unknown && ps[i].pos.0 == (if i < 8 {
        7int
    } else if i < 16 {
        6int
    } else if i < 24 {
        1int
    } else {
        0int
    }) && ps[i].pos.1 == (if i < 8 {
        i
    } else if i < 16 {
        i - 8
    } else if i < 24 {
        i - 16
    } else {
        i - 24
    }) by {}
    assert forall|i: int, j: int| 0 <= i < ps.len() && 0 <= j < ps.len() && i != j implies #[trigger] ps[i].pos
        != #[trigger] ps[j].pos by {}
}

impl Default for Board {
    /// The starting position: the board of the FEN record
    /// `rnbqkbnr/pppppppp/8/8/8/8/PPPPPPPP/RNBQKBNR w KQkq - 0 1`.
    fn default() -> (r: Board)
        ensures
            r@ == start_position(),
            r@.wf(),
            r@.sound(),
            r@.legal_moves_defined(),
    {
        proof {
            lemma_start_text();
            lemma_start_record();
            lemma_fen_model_sound(start_record());
        }
        match Board::from_fen("rnbqkbnr/pppppppp/8/8/8/8/PPPPPPPP/RNBQKBNR w KQkq - 0 1") {
            Some(b) => b,
            None => Board::empty(),
        }
    }
}

/// `split` has at least one piece.
proof fn lemma_split_len(s: Seq<u8>, sep: u8)
    ensures
        split(s, sep).len() >= 1,
    decreases s.len(),
{
    if s.len() > 0 {
        lemma_split_len(s.drop_last(), sep);
    }
}

/// Without a separator, `split` gives the whole sequence.
proof fn lemma_split_none(s: Seq<u8>, sep: u8)
    requires
        !s.contains(sep),
    ensures
        split(s, sep) == seq![s],
    decreases s.len(),
{
    if s.len() > 0 {
        assert(!s.drop_last().contains(sep)) by {
            if s.drop_last().contains(sep) {
                let k = choose|k: int| 0 <= k < s.drop_last().len() && s.drop_last()[k] == sep;
                assert(s[k] == sep);
            }
        }
        lemma_split_none(s.drop_last(), sep);
        assert(s.last() != sep) by {
            assert(s[s.len() - 1] == s.last());
        }
        assert(s.drop_last().push(s.last()) =~= s);
        assert(seq![s.drop_last()].update(0, s.drop_last().push(s.last())) =~= seq![s]);
    } else {
        assert(s =~= Seq::<u8>::empty());
    }
}

/// Splitting at a separator splits the two sides apart.
proof fn lemma_split_join(a: Seq<u8>, b: Seq<u8>, sep: u8)
    ensures
        split(a + seq![sep] + b, sep) == split(a, sep) + split(b, sep),
    decreases b.len(),
{
    lemma_split_len(a, sep);
    if b.len() == 0 {
        assert((a + seq![sep] + b).drop_last() =~= a);
        assert(a + seq![sep] + b =~= a.push(sep));
        assert(split(a, sep).push(Seq::empty()) =~= split(a, sep) + seq![Seq::<u8>::empty()]);
    } else {
        let b1 = b.drop_last();
        lemma_split_join(a, b1, sep);
        lemma_split_len(b1, sep);
        let whole = a + seq![sep] + b;
        assert(whole.drop_last() =~= a + seq![sep] + b1);
        assert(whole.last() == b.last());
        assert(b.drop_last() == b1);
        let x = split(a, sep);
        let y = split(b1, sep);
        if b.last() == sep {
            assert((x + y).push(Seq::empty()) =~= x + y.push(Seq::empty()));
        } else {
            assert((x + y).update((x + y).len() - 1, (x + y).last().push(b.last())) =~= x + y.update(
                y.len() - 1,
                y.last().push(b.last()),
            ));
        }
    }
}

/// The non-empty pieces of pieces that are all non-empty are those pieces.
proof fn lemma_non_empty_all(parts: Seq<Seq<u8>>)
    requires
        forall|i: int| 0 <= i < parts.len() ==> (#[trigger] parts[i]).len() > 0,
    ensures
        non_empty(parts) == parts,
    decreases parts.len(),
{
    if parts.len() > 0 {
        lemma_non_empty_all(parts.drop_last());
        assert(parts[parts.len() - 1].len() > 0);
        assert(parts.drop_last().push(parts.last()) =~= parts);
    }
}

/// The bytes of the FEN record of the starting position,
/// `rnbqkbnr/pppppppp/8/8/8/8/PPPPPPPP/RNBQKBNR w KQkq - 0 1`.
pub open spec fn start_record() -> Seq<u8> {
    seq![114u8, 110, 98, 113, 107, 98, 110, 114, 47, 112, 112, 112, 112, 112, 112, 112, 112, 47, 56, 47, 56, 47, 56, 47, 56, 47, 80, 80, 80, 80, 80, 80, 80, 80, 47, 82, 78, 66, 81, 75, 66, 78, 82, 32, 119, 32, 75, 81, 107, 113, 32, 45, 32, 48, 32, 49]
}

/// A concatenation holds a byte only when one of its sides does.
proof fn lemma_concat_lacks(a: Seq<u8>, b: Seq<u8>, x: u8)
    requires
        !a.contains(x),
        !b.contains(x),
    ensures
        !(a + b).contains(x),
{
    if (a + b).contains(x) {
        let k = choose|k: int| 0 <= k < (a + b).len() && (a + b)[k] == x;
        if k < a.len() {
            assert(a[k] == x);
        } else {
            assert(b[k - a.len()] == x);
        }
    }
}

/// A sequence whose bytes all differ from `x` lacks `x`.
proof fn lemma_lacks(s: Seq<u8>, x: u8)
    requires
        forall|i: int| 0 <= i < s.len() ==> s[i] != x,
    ensures
        !s.contains(x),
{
}

/// The placement section of the starting record.
pub open spec fn start_placement() -> Seq<u8> {
    seq![114u8, 110, 98, 113, 107, 98, 110, 114, 47, 112, 112, 112, 112, 112, 112, 112, 112, 47, 56, 47, 56, 47, 56, 47, 56, 47, 80, 80, 80, 80, 80, 80, 80, 80, 47, 82, 78, 66, 81, 75, 66, 78, 82]
}

/// The sections of the starting record.
proof fn lemma_start_sections()
    ensures
        fen_sections(start_record()) == seq![
            start_placement(),
            seq![119u8],
            seq![75u8, 81, 107, 113],
            seq![45u8],
            seq![48u8],
            seq![49u8],
        ],
{
    let p = start_placement();
    let w = seq![119u8];
    let c = seq![75u8, 81, 107, 113];
    let e = seq![45u8];
    let h = seq![48u8];
    let f = seq![49u8];
    let a1 = p + seq![32u8] + w;
    let a2 = a1 + seq![32u8] + c;
    let a3 = a2 + seq![32u8] + e;
    let a4 = a3 + seq![32u8] + h;
    let a5 = a4 + seq![32u8] + f;
    assert(start_record() =~= a5);
    lemma_split_join(a4, f, 32);
    lemma_split_join(a3, h, 32);
    lemma_split_join(a2, e, 32);
    lemma_split_join(a1, c, 32);
    lemma_split_join(p, w, 32);
    lemma_lacks(p, 32);
    lemma_lacks(w, 32);
    lemma_lacks(c, 32);
    lemma_lacks(e, 32);
    lemma_lacks(h, 32);
    lemma_lacks(f, 32);
    lemma_split_none(p, 32);
    lemma_split_none(w, 32);
    lemma_split_none(c, 32);
    lemma_split_none(e, 32);
    lemma_split_none(h, 32);
    lemma_split_none(f, 32);
    assert(split(a5, 32) =~= seq![p, w, c, e, h, f]);
}

/// The ranks of the starting record's placement, from the eighth down.
pub open spec fn start_rows() -> Seq<Seq<u8>> {
    seq![
        seq![114u8, 110, 98, 113, 107, 98, 110, 114],
        seq![112u8, 112, 112, 112, 112, 112, 112, 112],
        seq![56u8],
        seq![56u8],
        seq![56u8],
        seq![56u8],
        seq![80u8, 80, 80, 80, 80, 80, 80, 80],
        seq![82u8, 78, 66, 81, 75, 66, 78, 82],
    ]
}

/// The ranks of the starting record.
proof fn lemma_start_rows()
    ensures
        fen_rows(start_record()) == start_rows(),
{
    lemma_start_sections();
    let r = start_rows();
    let a1 = r[0] + seq![47u8] + r[1];
    let a2 = a1 + seq![47u8] + r[2];
    let a3 = a2 + seq![47u8] + r[3];
    let a4 = a3 + seq![47u8] + r[4];
    let a5 = a4 + seq![47u8] + r[5];
    let a6 = a5 + seq![47u8] + r[6];
    let a7 = a6 + seq![47u8] + r[7];
    assert(start_placement() =~= a7);
    lemma_split_join(a6, r[7], 47);
    lemma_split_join(a5, r[6], 47);
    lemma_split_join(a4, r[5], 47);
    lemma_split_join(a3, r[4], 47);
    lemma_split_join(a2, r[3], 47);
    lemma_split_join(a1, r[2], 47);
    lemma_split_join(r[0], r[1], 47);
    assert forall|k: int| 0 <= k < 8 implies !(#[trigger] r[k]).contains(47) && r[k].len() > 0 by {
        lemma_lacks(r[k], 47);
    }
    lemma_split_none(r[0], 47);
    lemma_split_none(r[1], 47);
    lemma_split_none(r[2], 47);
    lemma_split_none(r[3], 47);
    lemma_split_none(r[4], 47);
    lemma_split_none(r[5], 47);
    lemma_split_none(r[6], 47);
    lemma_split_none(r[7], 47);
    assert(split(a7, 47) =~= r);
    lemma_non_empty_all(r);
}

/// How rank 0 of the starting record reads.
proof fn lemma_start_row_0()
    ensures
        scan_row(start_rows()[0], 0) == (Scan::Going, 8int, start_pieces().subrange(0, 8)),
{
    reveal_with_fuel(scan_row, 9);
    assert(scan_row(start_rows()[0], 0).2 =~= start_pieces().subrange(0, 8));
}

/// How rank 1 of the starting record reads.
proof fn lemma_start_row_1()
    ensures
        scan_row(start_rows()[1], 1) == (Scan::Going, 8int, start_pieces().subrange(8, 16)),
{
    reveal_with_fuel(scan_row, 9);
    assert(scan_row(start_rows()[1], 1).2 =~= start_pieces().subrange(8, 16));
}

/// How rank 6 of the starting record reads.
proof fn lemma_start_row_6()
    ensures
        scan_row(start_rows()[6], 6) == (Scan::Going, 8int, start_pieces().subrange(16, 24)),
{
    reveal_with_fuel(scan_row, 9);
    assert(scan_row(start_rows()[6], 6).2 =~= start_pieces().subrange(16, 24));
}

/// How rank 7 of the starting record reads.
proof fn lemma_start_row_7()
    ensures
        scan_row(start_rows()[7], 7) == (Scan::Going, 8int, start_pieces().subrange(24, 32)),
{
    reveal_with_fuel(scan_row, 9);
    assert(scan_row(start_rows()[7], 7).2 =~= start_pieces().subrange(24, 32));
}

/// The empty ranks of the starting record read as eight empty files.
proof fn lemma_start_row_empty(k: int)
    requires
        2 <= k < 6,
    ensures
        scan_row(start_rows()[k], k) == (Scan::Going, 8int, Seq::<Piece>::empty()),
{
    reveal_with_fuel(scan_row, 2);
    assert(start_rows()[k] == seq![56u8]);
}

/// The starting record's ranks place the pieces of the starting position.
proof fn lemma_start_scan()
    ensures
        scan_rows(start_rows(), 8) == (Scan::Going, start_pieces()),
{
    lemma_start_row_0();
    lemma_start_row_1();
    lemma_start_row_empty(2);
    lemma_start_row_empty(3);
    lemma_start_row_empty(4);
    lemma_start_row_empty(5);
    lemma_start_row_6();
    lemma_start_row_7();
    reveal_with_fuel(scan_rows, 9);
    let s = start_pieces();
    assert(scan_rows(start_rows(), 8).1 =~= s.subrange(0, 8) + s.subrange(8, 16) + Seq::<Piece>::empty()
        + Seq::<Piece>::empty() + Seq::<Piece>::empty() + Seq::<Piece>::empty() + s.subrange(16, 24)
        + s.subrange(24, 32));
    assert(scan_rows(start_rows(), 8).1 =~= s);
}

/// The starting record is read without stopping the program, and describes the
/// starting position with White to play and no moves played.
pub proof fn lemma_start_record()
    ensures
        !fen_panics(start_record()),
        fen_model(start_record()) == Some(start_position()),
{
    lemma_start_sections();
    lemma_start_rows();
    lemma_start_scan();
    lemma_start_pieces_placeable();
    lemma_add_all_sound(start_pieces());
    let sections = fen_sections(start_record());
    assert(sections[4] == seq![48u8]);
    assert(sections[5] == seq![49u8]);
    assert(unsigned_digits(seq![48u8]) == seq![48u8]);
    assert(unsigned_digits(seq![49u8]) == seq![49u8]);
    assert(digits_value(seq![48u8]) == 0) by {
        assert(seq![48u8].drop_last() =~= Seq::<u8>::empty());
        assert(seq![48u8].last() == 48u8);
        assert(digits_value(Seq::<u8>::empty()) == 0);
    }
    assert(digits_value(seq![49u8]) == 1) by {
        assert(seq![49u8].drop_last() =~= Seq::<u8>::empty());
        assert(seq![49u8].last() == 49u8);
        assert(digits_value(Seq::<u8>::empty()) == 0);
    }
    assert(parse_unsigned(sections[5], 4294967295) == Some(1int));
    assert(parse_unsigned(sections[4], 255) == Some(0int));
    let m = fen_model(start_record()).unwrap();
    assert(m.moves =~= Seq::<Move>::empty());
}

/// The UTF-8 bytes of the starting record's text are `start_record()`.
proof fn lemma_start_text()
    ensures
        "rnbqkbnr/pppppppp/8/8/8/8/PPPPPPPP/RNBQKBNR w KQkq - 0 1".spec_bytes() == start_record(),
{
    reveal_strlit("rnbqkbnr/pppppppp/8/8/8/8/PPPPPPPP/RNBQKBNR w KQkq - 0 1");
    let s = "rnbqkbnr/pppppppp/8/8/8/8/PPPPPPPP/RNBQKBNR w KQkq - 0 1";
    assert(vstd::string::is_ascii(s));
    vstd::string::is_ascii_spec_bytes(s);
    assert(s.spec_bytes() =~= start_record());
}

} // verus!
