//! Pieces: a name and the offsets of the cells that a piece standing on a cell attacks.
//!
//! A piece is described by base moves; each base move `(x, y)` stands for all eight
//! of its images under the symmetries of the square.
use vstd::prelude::*;
use crate::grid::{Coord, coords_view};
use crate::text::{
    NumberError, chars_of, find_char, find_char_in, lemma_find_char, parse_i32, parse_i32_in,
    split_all, split_once, trim, trim_range, lemma_trim_ignores_white_space,
    lemma_find_char_push_other,
};

verus! {

broadcast use {vstd::string::group_string_axioms, vstd::seq_lib::group_to_multiset_ensures};

/// The eight images of `(x, y)` under the symmetries of the square, in the order a
/// piece lists them.
pub open spec fn symmetric_images(b: (int, int)) -> Seq<(int, int)> {
    let x = b.0;
    let y = b.1;
    seq![(x, y), (x, -y), (-x, y), (-x, -y), (y, x), (y, -x), (-y, x), (-y, -x)]
}

/// `s` with repeated values left out, keeping the first occurrence of each.
pub open spec fn distinct_in_order<A>(s: Seq<A>) -> Seq<A>
    decreases s.len(),
{
    if s.len() == 0 {
        s
    } else {
        let rest = distinct_in_order(s.drop_last());
        if rest.contains(s.last()) {
            rest
        } else {
            rest.push(s.last())
        }
    }
}

/// The moves of a piece built from `base`: for each base move in turn, its distinct
/// symmetric images.
pub open spec fn piece_moves(base: Seq<(int, int)>) -> Seq<(int, int)>
    decreases base.len(),
{
    if base.len() == 0 {
        Seq::empty()
    } else {
        piece_moves(base.drop_last()) + distinct_in_order(symmetric_images(base.last()))
    }
}

/// Whether every component of every base move can be negated within `i32`.
pub open spec fn negatable(base: Seq<Coord>) -> bool {
    forall|i: int| 0 <= i < base.len() ==> base[i].x != i32::MIN && base[i].y != i32::MIN
}

/// The piece that a lookup falls back to: a knight.
pub open spec fn fallback_piece() -> (Seq<char>, Seq<(int, int)>) {
    (seq!['K', 'n', 'i', 'g', 'h', 't'], piece_moves(seq![(1int, 2int)]))
}

/// `distinct_in_order` keeps exactly the values of `s`.
pub proof fn lemma_distinct_in_order_contains<A>(s: Seq<A>, a: A)
    ensures
        distinct_in_order(s).contains(a) <==> s.contains(a),
    decreases s.len(),
{
    if s.len() > 0 {
        let init = s.drop_last();
        let rest = distinct_in_order(init);
        lemma_distinct_in_order_contains(init, a);
        assert(s.contains(a) <==> (init.contains(a) || a == s.last())) by {
            if init.contains(a) {
                let i = choose|i: int| 0 <= i < init.len() && init[i] == a;
                assert(s[i] == a);
            }
            if a == s.last() {
                assert(s[s.len() - 1] == a);
            }
            if s.contains(a) {
                let i = choose|i: int| 0 <= i < s.len() && s[i] == a;
                if i < s.len() - 1 {
                    assert(init[i] == a);
                }
            }
        }
        if !rest.contains(s.last()) {
            let pushed = rest.push(s.last());
            assert(pushed.contains(a) <==> (rest.contains(a) || a == s.last())) by {
                if rest.contains(a) {
                    let i = choose|i: int| 0 <= i < rest.len() && rest[i] == a;
                    assert(pushed[i] == a);
                }
                if a == s.last() {
                    assert(pushed[rest.len() as int] == a);
                }
                if pushed.contains(a) {
                    let i = choose|i: int| 0 <= i < pushed.len() && pushed[i] == a;
                    if i < rest.len() {
                        assert(rest[i] == a);
                    }
                }
            }
        }
    }
}

/// `distinct_in_order` never repeats a value.
pub proof fn lemma_distinct_in_order_no_duplicates<A>(s: Seq<A>)
    ensures
        distinct_in_order(s).no_duplicates(),
    decreases s.len(),
{
    if s.len() > 0 {
        lemma_distinct_in_order_no_duplicates(s.drop_last());
    }
}

/// The images of an image of `b` are images of `b`: the symmetries of the square form
/// a group.
proof fn lemma_images_closed(b: (int, int), j: int, k: int)
    requires
        0 <= j < 8,
        0 <= k < 8,
    ensures
        symmetric_images(b).contains(symmetric_images(symmetric_images(b)[j])[k]),
{
    let s = symmetric_images(b);
    let x = symmetric_images(s[j])[k];
    assert(x == s[0] || x == s[1] || x == s[2] || x == s[3] || x == s[4] || x == s[5] || x
        == s[6] || x == s[7]);
    if x == s[0] {
        assert(s[0] == x);
    } else if x == s[1] {
        assert(s[1] == x);
    } else if x == s[2] {
        assert(s[2] == x);
    } else if x == s[3] {
        assert(s[3] == x);
    } else if x == s[4] {
        assert(s[4] == x);
    } else if x == s[5] {
        assert(s[5] == x);
    } else if x == s[6] {
        assert(s[6] == x);
    } else {
        assert(s[7] == x);
    }
}

/// A piece's moves are closed under the symmetries of the square: with a move, each
/// of its rotations and reflections is a move too.
pub proof fn lemma_piece_moves_symmetric(base: Seq<(int, int)>, m: (int, int), k: int)
    requires
        piece_moves(base).contains(m),
        0 <= k < 8,
    ensures
        piece_moves(base).contains(symmetric_images(m)[k]),
    decreases base.len(),
{
    let init = base.drop_last();
    let head = piece_moves(init);
    let tail = distinct_in_order(symmetric_images(base.last()));
    let all = piece_moves(base);
    assert(all == head + tail);
    let i = choose|i: int| 0 <= i < all.len() && all[i] == m;
    let target = symmetric_images(m)[k];
    if i < head.len() {
        assert(head[i] == m);
        lemma_piece_moves_symmetric(init, m, k);
        let w = choose|w: int| 0 <= w < head.len() && head[w] == target;
        assert(all[w] == target);
    } else {
        assert(tail[i - head.len()] == m);
        lemma_distinct_in_order_contains(symmetric_images(base.last()), m);
        let j = choose|j: int| 0 <= j < 8 && symmetric_images(base.last())[j] == m;
        lemma_images_closed(base.last(), j, k);
        lemma_distinct_in_order_contains(symmetric_images(base.last()), target);
        let w = choose|w: int| 0 <= w < tail.len() && tail[w] == target;
        assert(all[head.len() + w] == target);
    }
}

/// A piece that can move by `m` can move back: `(-m.0, -m.1)` is a move of it too.
pub proof fn lemma_piece_moves_reversible(base: Seq<(int, int)>, m: (int, int))
    requires
        piece_moves(base).contains(m),
    ensures
        piece_moves(base).contains((-m.0, -m.1)),
{
    lemma_piece_moves_symmetric(base, m, 3);
}

/// A piece's moves are the symmetric images of its base moves, and nothing else.
proof fn lemma_piece_moves_contains(base: Seq<(int, int)>, m: (int, int))
    ensures
        piece_moves(base).contains(m) <==> exists|i: int|
            0 <= i < base.len() && #[trigger] symmetric_images(base[i]).contains(m),
    decreases base.len(),
{
    if base.len() > 0 {
        let init = base.drop_last();
        let head = piece_moves(init);
        let tail = distinct_in_order(symmetric_images(base.last()));
        let all = piece_moves(base);
        assert(all == head + tail);
        lemma_piece_moves_contains(init, m);
        lemma_distinct_in_order_contains(symmetric_images(base.last()), m);
        if all.contains(m) {
            let k = choose|k: int| 0 <= k < all.len() && all[k] == m;
            if k < head.len() {
                assert(head[k] == m);
                let i = choose|i: int|
                    0 <= i < init.len() && #[trigger] symmetric_images(init[i]).contains(m);
                assert(base[i] == init[i]);
            } else {
                assert(tail[k - head.len()] == m);
                assert(symmetric_images(base[base.len() - 1]).contains(m));
            }
        }
        if exists|i: int| 0 <= i < base.len() && #[trigger] symmetric_images(base[i]).contains(m) {
            let i = choose|i: int|
                0 <= i < base.len() && #[trigger] symmetric_images(base[i]).contains(m);
            if i < base.len() - 1 {
                assert(init[i] == base[i]);
                assert(head.contains(m));
                let k = choose|k: int| 0 <= k < head.len() && head[k] == m;
                assert(all[k] == m);
            } else {
                assert(tail.contains(m));
                let k = choose|k: int| 0 <= k < tail.len() && tail[k] == m;
                assert(all[head.len() + k] == m);
            }
        }
    }
}

/// The moves of a piece are exactly the eight images of each base move `(x, y)` under
/// the symmetries of the square: `(±x, ±y)` and `(±y, ±x)`.
pub proof fn lemma_piece_moves_are_the_eight_images(base: Seq<(int, int)>, m: (int, int))
    ensures
        forall|i: int|
            #![trigger base[i]]
            0 <= i < base.len() ==> {
                let x = base[i].0;
                let y = base[i].1;
                &&& piece_moves(base).contains((x, y))
                &&& piece_moves(base).contains((x, -y))
                &&& piece_moves(base).contains((-x, y))
                &&& piece_moves(base).contains((-x, -y))
                &&& piece_moves(base).contains((y, x))
                &&& piece_moves(base).contains((y, -x))
                &&& piece_moves(base).contains((-y, x))
                &&& piece_moves(base).contains((-y, -x))
            },
        piece_moves(base).contains(m) <==> exists|i: int|
            #![trigger base[i]]
            0 <= i < base.len() && {
                let x = base[i].0;
                let y = base[i].1;
                ||| m == (x, y)
                ||| m == (x, -y)
                ||| m == (-x, y)
                ||| m == (-x, -y)
                ||| m == (y, x)
                ||| m == (y, -x)
                ||| m == (-y, x)
                ||| m == (-y, -x)
            },
{
    assert forall|i: int|
        #![trigger base[i]]
        0 <= i < base.len() implies {
            let x = base[i].0;
            let y = base[i].1;
            &&& piece_moves(base).contains((x, y))
            &&& piece_moves(base).contains((x, -y))
            &&& piece_moves(base).contains((-x, y))
            &&& piece_moves(base).contains((-x, -y))
            &&& piece_moves(base).contains((y, x))
            &&& piece_moves(base).contains((y, -x))
            &&& piece_moves(base).contains((-y, x))
            &&& piece_moves(base).contains((-y, -x))
        } by {
        let images = symmetric_images(base[i]);
        assert forall|k: int| 0 <= k < 8 implies piece_moves(base).contains(#[trigger] images[k]) by {
            assert(images.contains(images[k]));
            lemma_piece_moves_contains(base, images[k]);
        }
        assert(piece_moves(base).contains(images[0]));
        assert(piece_moves(base).contains(images[1]));
        assert(piece_moves(base).contains(images[2]));
        assert(piece_moves(base).contains(images[3]));
        assert(piece_moves(base).contains(images[4]));
        assert(piece_moves(base).contains(images[5]));
        assert(piece_moves(base).contains(images[6]));
        assert(piece_moves(base).contains(images[7]));
    }
    lemma_piece_moves_contains(base, m);
    if piece_moves(base).contains(m) {
        let i = choose|i: int|
            0 <= i < base.len() && #[trigger] symmetric_images(base[i]).contains(m);
        let images = symmetric_images(base[i]);
        let k = choose|k: int| 0 <= k < images.len() && images[k] == m;
        assert(images[k] == m);
    }
    if exists|i: int|
        #![trigger base[i]]
        0 <= i < base.len() && {
            let x = base[i].0;
            let y = base[i].1;
            ||| m == (x, y)
            ||| m == (x, -y)
            ||| m == (-x, y)
            ||| m == (-x, -y)
            ||| m == (y, x)
            ||| m == (y, -x)
            ||| m == (-y, x)
            ||| m == (-y, -x)
        } {
        let i = choose|i: int|
            #![trigger base[i]]
            0 <= i < base.len() && {
                let x = base[i].0;
                let y = base[i].1;
                ||| m == (x, y)
                ||| m == (x, -y)
                ||| m == (-x, y)
                ||| m == (-x, -y)
                ||| m == (y, x)
                ||| m == (y, -x)
                ||| m == (-y, x)
                ||| m == (-y, -x)
            };
        let images = symmetric_images(base[i]);
        assert(images[0] == m || images[1] == m || images[2] == m || images[3] == m || images[4]
            == m || images[5] == m || images[6] == m || images[7] == m);
        assert(images.contains(m));
        assert(symmetric_images(base[i]).contains(m));
    }
}

#[derive(Debug)]
pub struct Piece {
    pub name: String,
    moves: Vec<Coord>,
}

impl View for Piece {
    /// The piece's name and its moves.
    type V = (Seq<char>, Seq<(int, int)>);

    closed spec fn view(&self) -> (Seq<char>, Seq<(int, int)>) {
        (self.name@, coords_view(self.moves@))
    }
}

impl Clone for Piece {
    fn clone(&self) -> (r: Piece)
        ensures
            r@ == self@,
    {
        let moves = self.moves.clone();
        assert(moves@ =~= self.moves@);
        Piece { name: self.name.clone(), moves }
    }
}

/// Whether `v` already holds `c`.
fn contains_coord(v: &Vec<Coord>, c: Coord) -> (r: bool)
    ensures
        r == coords_view(v@).contains(c@),
{
    let mut i: usize = 0;
    while i < v.len()
        invariant
            i <= v.len(),
            forall|k: int| 0 <= k < i ==> v@[k]@ != c@,
        decreases v.len() - i,
    {
        if v[i] == c {
            assert(coords_view(v@)[i as int] == c@);
            return true;
        }
        i += 1;
    }
    false
}

impl Piece {
    /// A piece with the given name whose moves are the symmetric images of `base_moves`.
    pub fn new(name: &str, base_moves: &[Coord]) -> (piece: Piece)
        requires
            negatable(base_moves@),
        ensures
            piece@.0 == name@,
            piece@.1 == piece_moves(coords_view(base_moves@)),
    {
        let mut piece = Piece { name: name.to_string(), moves: Vec::new() };
        let mut i: usize = 0;
        while i < base_moves.len()
            invariant
                i <= base_moves.len(),
                negatable(base_moves@),
                piece.name@ == name@,
                coords_view(piece.moves@) == piece_moves(coords_view(base_moves@.take(i as int))),
            decreases base_moves.len() - i,
        {
            piece.build_moves(&base_moves[i]);
            proof {
                let taken = coords_view(base_moves@.take(i + 1));
                assert(taken.drop_last() =~= coords_view(base_moves@.take(i as int)));
                assert(taken.last() == base_moves@[i as int]@);
            }
            i += 1;
        }
        assert(base_moves@.take(base_moves@.len() as int) =~= base_moves@);
        piece
    }

    /// Appends the distinct symmetric images of `base_move` to the moves.
    fn build_moves(&mut self, base_move: &Coord)
        requires
            base_move.x != i32::MIN,
            base_move.y != i32::MIN,
        ensures
            final(self).name@ == old(self).name@,
            coords_view(final(self).moves@) == coords_view(old(self).moves@) + distinct_in_order(
                symmetric_images(base_move@),
            ),
    {
        let x = base_move.x;
        let y = base_move.y;
        let neg_x = -x;
        let neg_y = -y;
        let images: Vec<Coord> = vec![
            Coord::new(x, y),
            Coord::new(x, neg_y),
            Coord::new(neg_x, y),
            Coord::new(neg_x, neg_y),
            Coord::new(y, x),
            Coord::new(y, neg_x),
            Coord::new(neg_y, x),
            Coord::new(neg_y, neg_x),
        ];
        assert(coords_view(images@) =~= symmetric_images(base_move@));
        let mut move_set: Vec<Coord> = Vec::new();
        let mut k: usize = 0;
        while k < images.len()
            invariant
                k <= images.len(),
                coords_view(move_set@) == distinct_in_order(coords_view(images@).take(k as int)),
            decreases images.len() - k,
        {
            let image = images[k];
            let seen = contains_coord(&move_set, image);
            proof {
                let taken = coords_view(images@).take(k + 1);
                assert(taken.drop_last() =~= coords_view(images@).take(k as int));
                assert(taken.last() == image@);
            }
            if !seen {
                move_set.push(image);
                assert(coords_view(move_set@) =~= distinct_in_order(coords_view(images@).take(k + 1)));
            }
            k += 1;
        }
        assert(coords_view(images@).take(8) =~= coords_view(images@));
        let ghost old_moves = self.moves@;
        self.moves.append(&mut move_set);
        assert(coords_view(self.moves@) =~= coords_view(old_moves) + distinct_in_order(
            symmetric_images(base_move@),
        ));
    }

    /// The offsets of the cells this piece attacks.
    pub fn moves(&self) -> (r: &[Coord])
        ensures
            coords_view(r@) == self@.1,
    {
        self.moves.as_slice()
    }

    /// The first piece of `piece_list` named `name`; a knight when there is none.
    pub fn from_name(name: &str, piece_list: &[Piece]) -> (piece: Piece)
        ensures
            (exists|i: int| 0 <= i < piece_list@.len() && piece_list@[i]@.0 == name@) ==> (exists|
                i: int,
            |
                0 <= i < piece_list@.len() && piece_list@[i]@.0 == name@ && piece@
                    == piece_list@[i]@ && forall|k: int|
                    0 <= k < i ==> piece_list@[k]@.0 != name@),
            !(exists|i: int| 0 <= i < piece_list@.len() && piece_list@[i]@.0 == name@) ==> piece@
                == fallback_piece(),
    {
        let wanted = name.to_string();
        let mut i: usize = 0;
        while i < piece_list.len()
            invariant
                i <= piece_list.len(),
                wanted@ == name@,
                forall|k: int| 0 <= k < i ==> piece_list@[k]@.0 != name@,
            decreases piece_list.len() - i,
        {
            if wanted == piece_list[i].name {
                let found = piece_list[i].clone();
                return found;
            }
            i += 1;
        }
        let knight_moves = vec![Coord::new(1, 2)];
        let knight = Piece::new("Knight", knight_moves.as_slice());
        proof {
            reveal_strlit("Knight");
            assert(coords_view(knight_moves@) =~= seq![(1int, 2int)]);
            assert(knight@.0 =~= fallback_piece().0);
        }
        knight
    }
}

// ---------------------------------------------------------------------------
// The piece list format.
//
// A piece list is text with one piece per line, `name: x,y; x,y; ...`. Text from a
// `#` to the end of its line is a comment; white space around a line and around each
// number is ignored. Lines that are blank or hold no `:`, and parts between `;` that
// hold no `,`, are skipped.
// ---------------------------------------------------------------------------
/// A base move `x,y`, or nothing when the part holds no `,`.
pub open spec fn parse_move(part: Seq<char>) -> Result<Option<(int, int)>, NumberError> {
    match split_once(part, ',') {
        None => Ok(None),
        Some((xs, ys)) => match parse_i32(trim(xs)) {
            Err(e) => Err(e),
            Ok(x) => match parse_i32(trim(ys)) {
                Err(e) => Err(e),
                Ok(y) => Ok(Some((x, y))),
            },
        },
    }
}

/// The base moves of the parts, in order; the first bad number decides the error.
pub open spec fn parse_moves(parts: Seq<Seq<char>>) -> Result<Seq<(int, int)>, NumberError>
    decreases parts.len(),
{
    if parts.len() == 0 {
        Ok(Seq::empty())
    } else {
        match parse_move(parts[0]) {
            Err(e) => Err(e),
            Ok(m) => match parse_moves(parts.drop_first()) {
                Err(e) => Err(e),
                Ok(rest) => Ok(
                    match m {
                        Some(p) => seq![p] + rest,
                        None => rest,
                    },
                ),
            },
        }
    }
}

/// The line without its comment.
pub open spec fn strip_comment(line: Seq<char>) -> Seq<char> {
    match split_once(line, '#') {
        Some((before, _)) => before,
        None => line,
    }
}

/// The piece a line describes: its name and base moves, or nothing.
pub open spec fn parse_line(line: Seq<char>) -> Result<
    Option<(Seq<char>, Seq<(int, int)>)>,
    NumberError,
> {
    let body = trim(strip_comment(line));
    if body.len() == 0 {
        Ok(None)
    } else {
        match split_once(body, ':') {
            None => Ok(None),
            Some((name, rest)) => match parse_moves(split_all(rest, ';')) {
                Err(e) => Err(e),
                Ok(moves) => Ok(Some((name, moves))),
            },
        }
    }
}

/// The pieces the lines describe, in order; the first bad number decides the error.
pub open spec fn parse_lines(lines: Seq<Seq<char>>) -> Result<
    Seq<(Seq<char>, Seq<(int, int)>)>,
    NumberError,
>
    decreases lines.len(),
{
    if lines.len() == 0 {
        Ok(Seq::empty())
    } else {
        match parse_line(lines[0]) {
            Err(e) => Err(e),
            Ok(entry) => match parse_lines(lines.drop_first()) {
                Err(e) => Err(e),
                Ok(rest) => Ok(
                    match entry {
                        Some(p) => seq![p] + rest,
                        None => rest,
                    },
                ),
            },
        }
    }
}

/// A carriage return at the end of a line, as a Windows line ending leaves it, does not
/// change what the line describes.
pub proof fn lemma_line_ignores_carriage_return(line: Seq<char>)
    ensures
        parse_line(line.push('\r')) == parse_line(line),
{
    let t = line.push('\r');
    lemma_find_char_push_other(line, '#', '\r');
    match find_char(line, '#') {
        Some(i) => {
            lemma_find_char(line, '#');
            assert(t.take(i) =~= line.take(i));
            assert(strip_comment(t) == strip_comment(line));
        },
        None => {
            assert(strip_comment(t) == t);
            lemma_trim_ignores_white_space(line, '\r');
        },
    }
}

/// Lines that differ only by carriage returns at their ends describe the same pieces:
/// a piece list with Windows line endings reads as the same list with Unix ones.
pub proof fn lemma_lines_ignore_carriage_returns(lines: Seq<Seq<char>>, crlf: Seq<Seq<char>>)
    requires
        crlf.len() == lines.len(),
        forall|i: int|
            0 <= i < lines.len() ==> #[trigger] crlf[i] == lines[i] || crlf[i] == lines[i].push(
                '\r',
            ),
    ensures
        parse_lines(crlf) == parse_lines(lines),
    decreases lines.len(),
{
    if lines.len() > 0 {
        if crlf[0] != lines[0] {
            lemma_line_ignores_carriage_return(lines[0]);
        }
        assert forall|i: int| 0 <= i < lines.len() - 1 implies #[trigger] crlf.drop_first()[i]
            == lines.drop_first()[i] || crlf.drop_first()[i] == lines.drop_first()[i].push('\r') by {
            assert(crlf[i + 1] == crlf.drop_first()[i]);
        }
        lemma_lines_ignore_carriage_returns(lines.drop_first(), crlf.drop_first());
    }
}

/// The names and base moves that a piece list describes.
pub open spec fn parse_piece_list(content: Seq<char>) -> Result<
    Seq<(Seq<char>, Seq<(int, int)>)>,
    NumberError,
> {
    parse_lines(split_all(content, '\n'))
}

/// The piece built from a name and base moves.
pub open spec fn entry_piece(entry: (Seq<char>, Seq<(int, int)>)) -> (Seq<char>, Seq<(int, int)>) {
    (entry.0, piece_moves(entry.1))
}

/// No component of these base moves is `i32::MIN`.
pub open spec fn base_moves_negatable(moves: Seq<(int, int)>) -> bool {
    forall|i: int| 0 <= i < moves.len() ==> moves[i].0 != i32::MIN && moves[i].1 != i32::MIN
}

/// Every piece that is built before the first bad number, if any, has negatable base
/// moves.
pub open spec fn lines_negatable(lines: Seq<Seq<char>>) -> bool
    decreases lines.len(),
{
    if lines.len() == 0 {
        true
    } else {
        match parse_line(lines[0]) {
            Err(_) => true,
            Ok(None) => lines_negatable(lines.drop_first()),
            Ok(Some(entry)) => base_moves_negatable(entry.1) && lines_negatable(lines.drop_first()),
        }
    }
}

/// The views of a sequence of pieces.
pub open spec fn views_of_pieces(pieces: Seq<Piece>) -> Seq<(Seq<char>, Seq<(int, int)>)> {
    pieces.map_values(|p: Piece| p@)
}

/// The pieces built from a sequence of names and base moves.
pub open spec fn entry_pieces(entries: Seq<(Seq<char>, Seq<(int, int)>)>) -> Seq<
    (Seq<char>, Seq<(int, int)>),
> {
    entries.map_values(|e: (Seq<char>, Seq<(int, int)>)| entry_piece(e))
}

/// Prepends parsed values to the result of parsing what follows them.
pub open spec fn prepend_parsed<A>(done: Seq<A>, rest: Result<Seq<A>, NumberError>) -> Result<
    Seq<A>,
    NumberError,
> {
    match rest {
        Ok(items) => Ok(done + items),
        Err(e) => Err(e),
    }
}

/// Splitting at the first separator: one piece, then the pieces of the rest.
proof fn lemma_split_all_step(s: Seq<char>, c: char, i: int)
    requires
        find_char(s, c) == Some(i),
    ensures
        0 <= i < s.len(),
        split_all(s, c) == seq![s.take(i)] + split_all(s.skip(i + 1), c),
{
    lemma_find_char(s, c);
}

/// The base move that `chars[lo..hi]` describes.
fn parse_move_in(chars: &Vec<char>, lo: usize, hi: usize) -> (r: Result<Option<Coord>, NumberError>)
    requires
        lo <= hi <= chars@.len(),
    ensures
        match parse_move(chars@.subrange(lo as int, hi as int)) {
            Ok(None) => r == Ok::<Option<Coord>, NumberError>(None),
            Ok(Some(m)) => r matches Ok(Some(c)) && c@ == m,
            Err(e) => r == Err::<Option<Coord>, NumberError>(e),
        },
{
    let ghost part = chars@.subrange(lo as int, hi as int);
    match find_char_in(chars, lo, hi, ',') {
        None => Ok(None),
        Some(comma) => {
            proof {
                lemma_find_char(part, ',');
                assert(part.take(comma - lo) =~= chars@.subrange(lo as int, comma as int));
                assert(part.skip(comma - lo + 1) =~= chars@.subrange(comma + 1, hi as int));
            }
            let (xa, xb) = trim_range(chars, lo, comma);
            let x = match parse_i32_in(chars, xa, xb) {
                Ok(v) => v,
                Err(e) => {
                    return Err(e);
                },
            };
            let (ya, yb) = trim_range(chars, comma + 1, hi);
            let y = match parse_i32_in(chars, ya, yb) {
                Ok(v) => v,
                Err(e) => {
                    return Err(e);
                },
            };
            Ok(Some(Coord::new(x, y)))
        },
    }
}

/// The base moves that the `;`-separated parts of `chars[lo..hi]` describe.
fn parse_moves_in(chars: &Vec<char>, lo: usize, hi: usize) -> (r: Result<Vec<Coord>, NumberError>)
    requires
        lo <= hi <= chars@.len(),
    ensures
        match parse_moves(split_all(chars@.subrange(lo as int, hi as int), ';')) {
            Ok(moves) => r matches Ok(v) && coords_view(v@) == moves,
            Err(e) => r == Err::<Vec<Coord>, NumberError>(e),
        },
{
    let ghost whole = parse_moves(split_all(chars@.subrange(lo as int, hi as int), ';'));
    let mut moves: Vec<Coord> = Vec::new();
    let mut start = lo;
    loop
        invariant
            lo <= start <= hi <= chars@.len(),
            whole == parse_moves(split_all(chars@.subrange(lo as int, hi as int), ';')),
            whole == prepend_parsed(
                coords_view(moves@),
                parse_moves(split_all(chars@.subrange(start as int, hi as int), ';')),
            ),
        decreases hi - start,
    {
        let ghost rest = chars@.subrange(start as int, hi as int);
        let semicolon = find_char_in(chars, start, hi, ';');
        let end = match semicolon {
            Some(sc) => sc,
            None => hi,
        };
        let ghost parts = split_all(rest, ';');
        proof {
            match find_char(rest, ';') {
                Some(i) => {
                    lemma_split_all_step(rest, ';', i);
                    assert(rest.take(i) =~= chars@.subrange(start as int, end as int));
                    assert(rest.skip(i + 1) =~= chars@.subrange(end + 1, hi as int));
                },
                None => {
                    assert(parts == seq![rest]);
                    assert(rest =~= chars@.subrange(start as int, end as int));
                },
            }
            assert(parts[0] == chars@.subrange(start as int, end as int));
        }
        let ghost old_view = coords_view(moves@);
        let parsed = parse_move_in(chars, start, end);
        match parsed {
            Err(e) => {
                return Err(e);
            },
            Ok(Some(m)) => {
                moves.push(m);
                assert(coords_view(moves@) =~= old_view + seq![m@]);
            },
            Ok(None) => {},
        }
        let ghost after = parts.drop_first();
        proof {
            match parse_moves(after) {
                Ok(items) => {
                    match parse_move(parts[0]) {
                        Ok(Some(p)) => {
                            assert(old_view + (seq![p] + items) =~= coords_view(moves@) + items);
                        },
                        _ => {},
                    }
                },
                Err(_) => {},
            }
        }
        match semicolon {
            Some(sc) => {
                assert(after =~= split_all(chars@.subrange(sc + 1, hi as int), ';'));
                start = sc + 1;
            },
            None => {
                proof {
                    assert(after =~= Seq::<Seq<char>>::empty());
                    assert(coords_view(moves@) + Seq::<(int, int)>::empty() =~= coords_view(moves@));
                }
                return Ok(moves);
            },
        }
    }
}

/// Where the name and the moves of line `chars[lo..hi]` stand: the start of the name,
/// the `:` after it and the end of the moves; nothing when the line describes no piece.
fn line_fields_in(chars: &Vec<char>, lo: usize, hi: usize) -> (r: Option<(usize, usize, usize)>)
    requires
        lo <= hi <= chars@.len(),
    ensures
        ({
            let body = trim(strip_comment(chars@.subrange(lo as int, hi as int)));
            match r {
                None => body.len() == 0 || split_once(body, ':') is None,
                Some((a, colon, b)) => body.len() > 0 && lo <= a <= colon < b <= hi && split_once(
                    body,
                    ':',
                ) == Some((chars@.subrange(a as int, colon as int), chars@.subrange(colon + 1, b as int))),
            }
        }),
{
    let ghost line = chars@.subrange(lo as int, hi as int);
    let body_end = match find_char_in(chars, lo, hi, '#') {
        Some(h) => h,
        None => hi,
    };
    proof {
        lemma_find_char(line, '#');
        assert(strip_comment(line) =~= chars@.subrange(lo as int, body_end as int));
    }
    let (a, b) = trim_range(chars, lo, body_end);
    let ghost body = chars@.subrange(a as int, b as int);
    if a == b {
        assert(body.len() == 0);
        return None;
    }
    let colon = match find_char_in(chars, a, b, ':') {
        Some(c) => c,
        None => {
            return None;
        },
    };
    proof {
        lemma_find_char(body, ':');
        assert(body.take(colon - a) =~= chars@.subrange(a as int, colon as int));
        assert(body.skip(colon - a + 1) =~= chars@.subrange(colon + 1, b as int));
    }
    Some((a, colon, b))
}

/// The piece that line `chars[lo..hi]` of `content` describes.
fn parse_line_in(content: &str, chars: &Vec<char>, lo: usize, hi: usize) -> (r: Result<
    Option<Piece>,
    NumberError,
>)
    requires
        chars@ == content@,
        lo <= hi <= chars@.len(),
        match parse_line(chars@.subrange(lo as int, hi as int)) {
            Ok(Some(entry)) => base_moves_negatable(entry.1),
            _ => true,
        },
    ensures
        match parse_line(chars@.subrange(lo as int, hi as int)) {
            Ok(None) => r matches Ok(None),
            Ok(Some(entry)) => r matches Ok(Some(p)) && p@ == entry_piece(entry),
            Err(e) => r matches Err(e2) && e2 == e,
        },
{
    let (a, colon, b) = match line_fields_in(chars, lo, hi) {
        Some(f) => f,
        None => {
            return Ok(None);
        },
    };
    let base = match parse_moves_in(chars, colon + 1, b) {
        Ok(v) => v,
        Err(e) => {
            return Err(e);
        },
    };
    let name = content.substring_char(a, colon);
    proof {
        assert forall|i: int| 0 <= i < base@.len() implies base@[i].x != i32::MIN && base@[i].y
            != i32::MIN by {
            assert(coords_view(base@)[i] == base@[i]@);
        }
    }
    let piece = Piece::new(name, base.as_slice());
    Ok(Some(piece))
}

/// Whether the piece that line `chars[lo..hi]` describes, if any, has negatable base
/// moves: `None` when the line holds a bad number.
fn line_negatable_in(chars: &Vec<char>, lo: usize, hi: usize) -> (r: Option<bool>)
    requires
        lo <= hi <= chars@.len(),
    ensures
        match parse_line(chars@.subrange(lo as int, hi as int)) {
            Err(_) => r is None,
            Ok(None) => r == Some(true),
            Ok(Some(entry)) => r == Some(base_moves_negatable(entry.1)),
        },
{
    let (_a, colon, b) = match line_fields_in(chars, lo, hi) {
        Some(f) => f,
        None => {
            return Some(true);
        },
    };
    let base = match parse_moves_in(chars, colon + 1, b) {
        Ok(v) => v,
        Err(_) => {
            return None;
        },
    };
    let ghost moves = coords_view(base@);
    assert(parse_line(chars@.subrange(lo as int, hi as int)) matches Ok(Some(entry)) && entry.1
        == moves);
    let mut i: usize = 0;
    while i < base.len()
        invariant
            i <= base@.len(),
            moves == coords_view(base@),
            parse_line(chars@.subrange(lo as int, hi as int)) matches Ok(Some(entry)) && entry.1
                == moves,
            forall|k: int| 0 <= k < i ==> moves[k].0 != i32::MIN && moves[k].1 != i32::MIN,
        decreases base@.len() - i,
    {
        assert(moves[i as int] == base@[i as int]@);
        if base[i].x == i32::MIN || base[i].y == i32::MIN {
            assert(!base_moves_negatable(moves));
            return Some(false);
        }
        i += 1;
    }
    Some(true)
}

impl Piece {
    /// The pieces that a piece list describes, in order, or the first bad number's error.
    pub fn build_piece_list(content: &str) -> (r: Result<Vec<Piece>, NumberError>)
        requires
            lines_negatable(split_all(content@, '\n')),
        ensures
            match parse_piece_list(content@) {
                Ok(entries) => r matches Ok(pieces) && views_of_pieces(pieces@) == entry_pieces(
                    entries,
                ),
                Err(e) => r matches Err(e2) && e2 == e,
            },
    {
        let chars = chars_of(content);
        let n = chars.len();
        let mut pieces: Vec<Piece> = Vec::new();
        let ghost mut done: Seq<(Seq<char>, Seq<(int, int)>)> = Seq::empty();
        let mut start: usize = 0;
        assert(chars@.subrange(0, n as int) =~= content@);
        loop
            invariant
                start <= n == chars@.len(),
                chars@ == content@,
                parse_piece_list(content@) == prepend_parsed(
                    done,
                    parse_lines(split_all(chars@.subrange(start as int, n as int), '\n')),
                ),
                lines_negatable(split_all(chars@.subrange(start as int, n as int), '\n')),
                views_of_pieces(pieces@) == entry_pieces(done),
            decreases n - start,
        {
            let ghost rest = chars@.subrange(start as int, n as int);
            let ghost lines = split_all(rest, '\n');
            let newline = find_char_in(&chars, start, n, '\n');
            let end = match newline {
                Some(nl) => nl,
                None => n,
            };
            proof {
                match find_char(rest, '\n') {
                    Some(i) => {
                        lemma_split_all_step(rest, '\n', i);
                        assert(rest.take(i) =~= chars@.subrange(start as int, end as int));
                        assert(rest.skip(i + 1) =~= chars@.subrange(end + 1, n as int));
                    },
                    None => {
                        assert(lines == seq![rest]);
                        assert(rest =~= chars@.subrange(start as int, end as int));
                    },
                }
                assert(lines[0] == chars@.subrange(start as int, end as int));
            }
            let ghost after = lines.drop_first();
            let ghost old_done = done;
            let parsed = parse_line_in(content, &chars, start, end);
            match parsed {
                Err(e) => {
                    return Err(e);
                },
                Ok(Some(piece)) => {
                    let ghost entry = parse_line(lines[0])->Ok_0->Some_0;
                    let ghost before = pieces@;
                    assert(views_of_pieces(before).len() == before.len());
                    pieces.push(piece);
                    proof {
                        done = done.push(entry);
                        assert(views_of_pieces(pieces@) =~= entry_pieces(done)) by {
                            assert(pieces@ =~= before.push(piece));
                            assert(piece@ == entry_piece(entry));
                            assert forall|i: int| 0 <= i < pieces@.len() implies #[trigger] views_of_pieces(
                                pieces@,
                            )[i] == entry_pieces(done)[i] by {
                                assert(before.len() == old_done.len());
                                if i < before.len() {
                                    assert(views_of_pieces(before)[i] == entry_pieces(old_done)[i]);
                                    assert(pieces@[i] == before[i]);
                                    assert(done[i] == old_done[i]);
                                } else {
                                    assert(pieces@[i] == piece);
                                    assert(done[i] == entry);
                                }
                            }
                        }
                    }
                },
                Ok(None) => {},
            }
            proof {
                match parse_lines(after) {
                    Ok(items) => {
                        match parse_line(lines[0]) {
                            Ok(Some(p)) => {
                                assert(old_done + (seq![p] + items) =~= done + items);
                            },
                            _ => {},
                        }
                    },
                    Err(_) => {},
                }
            }
            match newline {
                Some(nl) => {
                    assert(after =~= split_all(chars@.subrange(nl + 1, n as int), '\n'));
                    start = nl + 1;
                },
                None => {
                    proof {
                        assert(after =~= Seq::<Seq<char>>::empty());
                        assert(done + Seq::<(Seq<char>, Seq<(int, int)>)>::empty() =~= done);
                    }
                    return Ok(pieces);
                },
            }
        }
    }
}

impl Piece {
    /// Whether every piece that a piece list describes before its first bad number, if
    /// any, has base moves whose components can be negated: the condition on which
    /// `build_piece_list` builds the list.
    pub fn piece_list_is_negatable(content: &str) -> (r: bool)
        ensures
            r == lines_negatable(split_all(content@, '\n')),
    {
        let chars = chars_of(content);
        let n = chars.len();
        let mut start: usize = 0;
        assert(chars@.subrange(0, n as int) =~= content@);
        loop
            invariant
                start <= n == chars@.len(),
                chars@ == content@,
                lines_negatable(split_all(content@, '\n')) == lines_negatable(
                    split_all(chars@.subrange(start as int, n as int), '\n'),
                ),
            decreases n - start,
        {
            let ghost rest = chars@.subrange(start as int, n as int);
            let ghost lines = split_all(rest, '\n');
            let newline = find_char_in(&chars, start, n, '\n');
            let end = match newline {
                Some(nl) => nl,
                None => n,
            };
            proof {
                match find_char(rest, '\n') {
                    Some(i) => {
                        lemma_split_all_step(rest, '\n', i);
                        assert(rest.take(i) =~= chars@.subrange(start as int, end as int));
                        assert(rest.skip(i + 1) =~= chars@.subrange(end + 1, n as int));
                    },
                    None => {
                        assert(lines == seq![rest]);
                        assert(rest =~= chars@.subrange(start as int, end as int));
                    },
                }
                assert(lines[0] == chars@.subrange(start as int, end as int));
            }
            let ghost after = lines.drop_first();
            match line_negatable_in(&chars, start, end) {
                None => {
                    return true;
                },
                Some(false) => {
                    return false;
                },
                Some(true) => {},
            }
            match newline {
                Some(nl) => {
                    assert(after =~= split_all(chars@.subrange(nl + 1, n as int), '\n'));
                    start = nl + 1;
                },
                None => {
                    assert(after =~= Seq::<Seq<char>>::empty());
                    assert(lines_negatable(after));
                    return true;
                },
            }
        }
    }
}

// ---------------------------------------------------------------------------
// Sorted piece names.
// ---------------------------------------------------------------------------
/// Whether text `a` sorts strictly before text `b`, as `str` orders them: by the first
/// differing character's code point, and a proper prefix before the longer text.
pub open spec fn text_less(a: Seq<char>, b: Seq<char>) -> bool
    decreases a.len(),
{
    if a.len() == 0 {
        b.len() > 0
    } else if b.len() == 0 {
        false
    } else if a[0] != b[0] {
        (a[0] as int) < (b[0] as int)
    } else {
        text_less(a.drop_first(), b.drop_first())
    }
}

/// Each text is not after any later one.
pub open spec fn texts_sorted(s: Seq<Seq<char>>) -> bool {
    forall|i: int, j: int| 0 <= i < j < s.len() ==> !text_less(#[trigger] s[j], #[trigger] s[i])
}

/// The text of each string.
pub open spec fn string_views(v: Seq<String>) -> Seq<Seq<char>> {
    v.map_values(|s: String| s@)
}

/// The name of each piece.
pub open spec fn piece_names(pieces: Seq<Piece>) -> Seq<Seq<char>> {
    pieces.map_values(|p: Piece| p@.0)
}

/// No text sorts before itself.
pub proof fn lemma_text_less_irreflexive(a: Seq<char>)
    ensures
        !text_less(a, a),
    decreases a.len(),
{
    if a.len() > 0 {
        lemma_text_less_irreflexive(a.drop_first());
    }
}

/// The order of texts is transitive.
pub proof fn lemma_text_less_transitive(a: Seq<char>, b: Seq<char>, c: Seq<char>)
    requires
        text_less(a, b),
        text_less(b, c),
    ensures
        text_less(a, c),
    decreases a.len(),
{
    if a.len() > 0 && a[0] == b[0] && b[0] == c[0] {
        lemma_text_less_transitive(a.drop_first(), b.drop_first(), c.drop_first());
    }
}

/// Of two different texts, one sorts before the other.
pub proof fn lemma_text_less_total(a: Seq<char>, b: Seq<char>)
    requires
        a != b,
    ensures
        text_less(a, b) || text_less(b, a),
    decreases a.len(),
{
    if a.len() > 0 && b.len() > 0 && a[0] == b[0] {
        if a.drop_first() == b.drop_first() {
            assert(a =~= seq![a[0]] + a.drop_first());
            assert(b =~= seq![b[0]] + b.drop_first());
        }
        lemma_text_less_total(a.drop_first(), b.drop_first());
    } else if a.len() > 0 && b.len() > 0 {
        assert((a[0] as int) != (b[0] as int));
    } else if a.len() == 0 && b.len() == 0 {
        assert(a =~= b);
    }
}

/// Two texts that agree up to position `k` and differ there are ordered by the code
/// points of their characters at `k`.
pub proof fn lemma_text_less_at_first_difference(a: Seq<char>, b: Seq<char>, k: int)
    requires
        0 <= k < a.len(),
        k < b.len(),
        a.take(k) == b.take(k),
        a[k] != b[k],
    ensures
        text_less(a, b) <==> (a[k] as int) < (b[k] as int),
        text_less(b, a) <==> (b[k] as int) < (a[k] as int),
    decreases k,
{
    if k > 0 {
        assert(a[0] == a.take(k)[0] && b[0] == b.take(k)[0]);
        assert(a.drop_first().take(k - 1) =~= a.take(k).drop_first());
        assert(b.drop_first().take(k - 1) =~= b.take(k).drop_first());
        lemma_text_less_at_first_difference(a.drop_first(), b.drop_first(), k - 1);
    }
}

/// A text sorts before every longer text that starts with it, and never after it.
pub proof fn lemma_text_less_proper_prefix(a: Seq<char>, b: Seq<char>)
    requires
        a.len() < b.len(),
        b.take(a.len() as int) == a,
    ensures
        text_less(a, b),
        !text_less(b, a),
    decreases a.len(),
{
    if a.len() > 0 {
        assert(a[0] == b.take(a.len() as int)[0]);
        assert(b.drop_first().take(a.len() - 1) =~= a.drop_first());
        lemma_text_less_proper_prefix(a.drop_first(), b.drop_first());
    }
}

proof fn lemma_insert_sorted(s: Seq<Seq<char>>, x: Seq<char>, pos: int)
    requires
        texts_sorted(s),
        0 <= pos <= s.len(),
        forall|k: int| 0 <= k < pos ==> !text_less(x, #[trigger] s[k]),
        pos == s.len() || text_less(x, s[pos]),
    ensures
        texts_sorted(s.insert(pos, x)),
{
    let t = s.insert(pos, x);
    assert forall|i: int, j: int| 0 <= i < j < t.len() implies !text_less(
        #[trigger] t[j],
        #[trigger] t[i],
    ) by {
        if i == pos {
            let k = j - 1;
            assert(t[j] == s[k]);
            if text_less(s[k], x) {
                lemma_text_less_transitive(s[k], x, s[pos]);
                if k == pos {
                    lemma_text_less_irreflexive(s[pos]);
                } else {
                    assert(!text_less(s[k], s[pos]));
                }
            }
        } else if j == pos {
            assert(t[i] == s[i]);
        } else {
            let si = if i < pos { i } else { i - 1 };
            let sj = if j < pos { j } else { j - 1 };
            assert(t[i] == s[si]);
            assert(t[j] == s[sj]);
        }
    }
}

/// Whether text `a` sorts strictly before text `b`.
fn text_less_exec(a: &Vec<char>, b: &Vec<char>) -> (r: bool)
    ensures
        r == text_less(a@, b@),
{
    let mut i: usize = 0;
    assert(a@.skip(0) =~= a@ && b@.skip(0) =~= b@);
    while i < a.len() && i < b.len() && a[i] == b[i]
        invariant
            i <= a@.len(),
            i <= b@.len(),
            text_less(a@, b@) == text_less(a@.skip(i as int), b@.skip(i as int)),
        decreases a@.len() - i,
    {
        assert(a@.skip(i as int).drop_first() =~= a@.skip(i + 1));
        assert(b@.skip(i as int).drop_first() =~= b@.skip(i + 1));
        i += 1;
    }
    if i == a.len() {
        i < b.len()
    } else if i == b.len() {
        false
    } else {
        assert(a@.skip(i as int)[0] == a@[i as int] && b@.skip(i as int)[0] == b@[i as int]);
        a[i] < b[i]
    }
}

impl Piece {
    /// The names of the pieces, sorted as `str` orders text.
    pub fn get_all_piece_types(piece_list: &[Piece]) -> (names: Vec<String>)
        ensures
            string_views(names@).to_multiset() == piece_names(piece_list@).to_multiset(),
            texts_sorted(string_views(names@)),
    {
        let mut names: Vec<String> = Vec::new();
        let mut keys: Vec<Vec<char>> = Vec::new();
        let mut i: usize = 0;
        assert(piece_names(piece_list@).take(0) =~= Seq::<Seq<char>>::empty());
        assert(string_views(names@) =~= Seq::<Seq<char>>::empty());
        while i < piece_list.len()
            invariant
                i <= piece_list@.len(),
                keys@.len() == names@.len(),
                forall|k: int| 0 <= k < keys@.len() ==> (#[trigger] keys@[k])@ == names@[k]@,
                texts_sorted(string_views(names@)),
                string_views(names@).to_multiset() == piece_names(piece_list@).take(
                    i as int,
                ).to_multiset(),
            decreases piece_list@.len() - i,
        {
            let name = piece_list[i].name.clone();
            let key = chars_of(name.as_str());
            let ghost views = string_views(names@);
            let mut pos: usize = 0;
            while pos < keys.len() && !text_less_exec(&key, &keys[pos])
                invariant
                    pos <= keys@.len(),
                    keys@.len() == names@.len(),
                    forall|k: int| 0 <= k < keys@.len() ==> (#[trigger] keys@[k])@ == names@[k]@,
                    views == string_views(names@),
                    key@ == name@,
                    forall|k: int| 0 <= k < pos ==> !text_less(key@, #[trigger] views[k]),
                decreases keys@.len() - pos,
            {
                assert(views[pos as int] == keys@[pos as int]@);
                pos += 1;
            }
            proof {
                if pos < keys@.len() {
                    assert(views[pos as int] == keys@[pos as int]@);
                }
                lemma_insert_sorted(views, name@, pos as int);
            }
            let ghost old_names = names@;
            let ghost old_keys = keys@;
            names.insert(pos, name);
            keys.insert(pos, key);
            proof {
                assert(string_views(names@) =~= views.insert(pos as int, name@)) by {
                    assert forall|k: int| 0 <= k < names@.len() implies #[trigger] string_views(
                        names@,
                    )[k] == views.insert(pos as int, name@)[k] by {
                        if k < pos {
                            assert(names@[k] == old_names[k]);
                        } else if k > pos {
                            assert(names@[k] == old_names[k - 1]);
                        }
                    }
                }
                assert forall|k: int| 0 <= k < keys@.len() implies (#[trigger] keys@[k])@
                    == names@[k]@ by {
                    if k < pos {
                        assert(keys@[k] == old_keys[k] && names@[k] == old_names[k]);
                    } else if k > pos {
                        assert(keys@[k] == old_keys[k - 1] && names@[k] == old_names[k - 1]);
                    }
                }
                assert(piece_names(piece_list@).take(i + 1) =~= piece_names(piece_list@).take(
                    i as int,
                ).push(name@));
                assert(views.insert(pos as int, name@).to_multiset() == views.to_multiset().insert(
                    name@,
                ));
                assert(piece_names(piece_list@).take(i as int).push(name@).to_multiset()
                    == piece_names(piece_list@).take(i as int).to_multiset().insert(name@));
            }
            i += 1;
        }
        assert(piece_names(piece_list@).take(piece_list@.len() as int) =~= piece_names(piece_list@));
        names
    }
}

} // verus!
