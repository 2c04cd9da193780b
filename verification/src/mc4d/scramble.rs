//! Magic Cube 4D log files: reading a scramble, writing a solution.
use vstd::prelude::*;

use super::order::{mc4d_order, mc4d_twist_order};
use super::twist::{
    layered_twist_effect,
    layered_twist_of,
    mc4d_twist_for,
    mc4d_twist_for_exec,
    mc4d_twist_text,
    parse_mc4d_twist,
    Mc4dTwist,
};
use crate::sim::common::element::{Elem, TransformByElem};
use crate::sim::common::twist::Twist;
use crate::util::text::{
    after_lines,
    bytes_equal,
    decimal,
    join_lines,
    line_at,
    lines_from,
    next_line,
    push_bytes,
    push_decimal,
    read_line,
    split_words,
    words,
};

verus! {

broadcast use Elem::lemma_with_id;

/// Why a log file could not be read.
#[derive(Debug, Copy, Clone, PartialEq, Eq, Structural)]
pub enum Mc4dLogError {
    /// The file is empty.
    MissingHeader,
    /// The first line is not a Magic Cube 4D header.
    BadHeader,
    /// The log version is not 3.
    UnsupportedLogVersion,
    /// The puzzle is not the 3x3x3x3.
    UnsupportedPuzzle,
    /// The line after the view matrix is not `*`.
    MissingSeparator,
    /// A twist is not three comma-separated numbers.
    BadMove,
    /// A twist names a sticker that stands for no twist.
    BadTwist,
}

/// `MagicCube4D`
pub open spec fn magic_word() -> Seq<u8> {
    seq![77u8, 97u8, 103u8, 105u8, 99u8, 67u8, 117u8, 98u8, 101u8, 52u8, 68u8]
}

/// `3`: the log version, and the number of layers of the puzzle.
pub open spec fn three_word() -> Seq<u8> {
    seq![51u8]
}

/// `{4,3,3}`: the Schläfli symbol of the hypercube.
pub open spec fn schlafli_word() -> Seq<u8> {
    seq![123u8, 52u8, 44u8, 51u8, 44u8, 51u8, 125u8]
}

/// Whether `m|`, which ends the scramble of a log file, starts at `i`.
pub open spec fn marker_at(s: Seq<u8>, i: int) -> bool {
    0 <= i && i + 1 < s.len() && s[i] == 109 && s[i + 1] == 124
}

/// Where the last `m|` below `n` starts.
pub open spec fn last_marker(s: Seq<u8>, n: nat) -> Option<int>
    decreases n,
{
    if n == 0 {
        None
    } else if marker_at(s, n - 1) {
        Some(n - 1)
    } else {
        last_marker(s, (n - 1) as nat)
    }
}

/// The text before the last `m|`, or all of it.
pub open spec fn scramble_part(s: Seq<u8>) -> Seq<u8> {
    match last_marker(s, s.len()) {
        Some(i) => s.subrange(0, i),
        None => s,
    }
}

/// A word without its trailing dots.
pub open spec fn trim_dots(w: Seq<u8>) -> Seq<u8>
    decreases w.len(),
{
    if w.len() > 0 && w.last() == 46 {
        trim_dots(w.drop_last())
    } else {
        w
    }
}

/// The twists written as `words`, once trailing dots are trimmed and empty
/// words dropped; `None` if one is not a twist.
pub open spec fn parse_moves(words: Seq<Seq<u8>>) -> Option<Seq<Mc4dTwist>>
    decreases words.len(),
{
    if words.len() == 0 {
        Some(seq![])
    } else {
        let w = trim_dots(words.last());
        match parse_moves(words.drop_last()) {
            Some(ms) => if w.len() == 0 {
                Some(ms)
            } else {
                match parse_mc4d_twist(w) {
                    Some(m) => Some(ms.push(m)),
                    None => None,
                }
            },
            None => None,
        }
    }
}

/// What a log file holds: the scramble state word, the four lines of the
/// view matrix, and the twists of the scramble.
pub open spec fn parse_log(s: Seq<u8>) -> Result<(Seq<u8>, Seq<u8>, Seq<Mc4dTwist>), Mc4dLogError> {
    let t = scramble_part(s);
    let segments = words(line_at(t, 0));
    let p1 = next_line(t, 0);
    let p5 = after_lines(t, p1, 4);
    let p6 = next_line(t, p5);
    if t.len() == 0 {
        Err(Mc4dLogError::MissingHeader)
    } else if segments.len() != 6 || segments[0] != magic_word() {
        Err(Mc4dLogError::BadHeader)
    } else if segments[1] != three_word() {
        Err(Mc4dLogError::UnsupportedLogVersion)
    } else if segments[4] != schlafli_word() || segments[5] != three_word() {
        Err(Mc4dLogError::UnsupportedPuzzle)
    } else if p5 >= t.len() || line_at(t, p5) != seq![42u8] {
        Err(Mc4dLogError::MissingSeparator)
    } else {
        match parse_moves(words(t.subrange(p6, t.len() as int))) {
            Some(moves) => Ok((segments[2], join_lines(lines_from(t, p1, 4)), moves)),
            None => Err(Mc4dLogError::BadMove),
        }
    }
}

/// Whether every twist names a sticker that stands for a twist.
pub open spec fn stickers_valid(order: Seq<Option<Twist>>, moves: Seq<Mc4dTwist>) -> bool {
    forall|i: int|
        0 <= i < moves.len() ==> (#[trigger] moves[i]).sticker < order.len() && order[moves[i].sticker as int] is Some
}

/// The twists of the puzzle that the first `n` log file twists amount to,
/// and the orientation of the puzzle after them.
pub open spec fn scramble_upto(order: Seq<Option<Twist>>, moves: Seq<Mc4dTwist>, n: nat) -> (Seq<Twist>, Elem)
    decreases n,
{
    if n == 0 {
        (seq![], Elem::with_id(0))
    } else {
        let prev = scramble_upto(order, moves, (n - 1) as nat);
        let m = moves[n - 1];
        let effect = layered_twist_effect(layered_twist_of(m, order[m.sticker as int]->0), prev.1);
        (prev.0 + effect.0, effect.1)
    }
}

/// Separator before the `n`th twist written: a line feed before every
/// tenth, a space otherwise.
pub open spec fn twist_separator(n: int) -> Seq<u8> {
    if n % 10 == 0 {
        seq![10u8]
    } else {
        seq![32u8]
    }
}

/// Twist texts written one after the other, the first being the `start`th
/// twist written.
pub open spec fn twist_list_text(items: Seq<Seq<u8>>, start: int) -> Seq<u8>
    decreases items.len(),
{
    if items.len() == 0 {
        seq![]
    } else {
        twist_list_text(items.drop_last(), start) + twist_separator(start + items.len() - 1) + items.last()
    }
}

/// Texts of the log file twists of a solution, seen from the orientation
/// `offset`; `None` if a twist has no log file form.
pub open spec fn solution_texts(order: Seq<Option<Twist>>, offset: Elem, twists: Seq<Twist>) -> Option<
    Seq<Seq<u8>>,
>
    decreases twists.len(),
{
    if twists.len() == 0 {
        Some(seq![])
    } else {
        match (
            solution_texts(order, offset, twists.drop_last()),
            mc4d_twist_for(order, twists.last().transformed_by(offset)),
        ) {
            (Some(ts), Some(m)) => Some(ts.push(mc4d_twist_text(m))),
            _ => None,
        }
    }
}

/// A log file: the header, the view matrix, the scramble, `m|`, the
/// solution and a final dot.
pub open spec fn log_text(
    state: Seq<u8>,
    view: Seq<u8>,
    moves: Seq<Seq<u8>>,
    solution: Seq<Seq<u8>>,
) -> Seq<u8> {
    magic_word() + seq![32u8] + three_word() + seq![32u8] + state + seq![32u8] + decimal(solution.len())
        + seq![32u8] + schlafli_word() + seq![32u8] + three_word() + seq![10u8] + view + seq![10u8, 42u8]
        + twist_list_text(moves, 0) + seq![32u8, 109u8, 124u8] + twist_list_text(solution, moves.len() as int)
        + seq![46u8]
}

/// A scramble read from a Magic Cube 4D log file.
pub struct Mc4dScramble {
    scramble_state: Vec<u8>,
    view_matrix: Vec<u8>,
    mc4d_scramble: Vec<Mc4dTwist>,
    scramble: Vec<Twist>,
    puzzle_offset_from_scramble: Elem,
}

impl Mc4dScramble {
    /// The scramble state word of the header.
    pub closed spec fn spec_state(&self) -> Seq<u8> {
        self.scramble_state@
    }

    /// The view matrix: the four lines after the header.
    pub closed spec fn spec_view(&self) -> Seq<u8> {
        self.view_matrix@
    }

    /// The twists of the scramble, as the log file writes them.
    pub closed spec fn spec_moves(&self) -> Seq<Mc4dTwist> {
        self.mc4d_scramble@
    }

    /// The twists of the scramble.
    pub closed spec fn spec_scramble(&self) -> Seq<Twist> {
        self.scramble@
    }

    /// The orientation of the puzzle after the scramble.
    pub closed spec fn spec_offset(&self) -> Elem {
        self.puzzle_offset_from_scramble
    }

    /// Whether the scramble is what the twists of the log file amount to.
    pub closed spec fn wf(&self) -> bool {
        &&& stickers_valid(mc4d_order(), self.mc4d_scramble@)
        &&& scramble_upto(mc4d_order(), self.mc4d_scramble@, self.mc4d_scramble@.len())
            == (self.scramble@, self.puzzle_offset_from_scramble)
    }

    /// Reads a log file. Everything after the last `m|` (the solution of a
    /// solved log file) is ignored.
    pub fn from_bytes(s: &[u8]) -> (r: Result<Mc4dScramble, Mc4dLogError>)
        ensures
            match parse_log(s@) {
                Err(e) => r == Err::<Mc4dScramble, Mc4dLogError>(e),
                Ok(log) => if stickers_valid(mc4d_order(), log.2) {
                    r matches Ok(sc) && sc.wf() && sc.spec_state() == log.0 && sc.spec_view() == log.1
                        && sc.spec_moves() == log.2
                } else {
                    r == Err::<Mc4dScramble, Mc4dLogError>(Mc4dLogError::BadTwist)
                },
            },
    {
        let (scramble_state, view_matrix, mc4d_scramble) = match read_log_parts(s) {
            Ok(parts) => parts,
            Err(e) => {
                return Err(e);
            },
        };
        let ghost log = (scramble_state@, view_matrix@, mc4d_scramble@);
        assert(parse_log(s@) == Ok::<(Seq<u8>, Seq<u8>, Seq<Mc4dTwist>), Mc4dLogError>(log));
        let order = mc4d_twist_order();
        let mut i: usize = 0;
        while i < mc4d_scramble.len()
            invariant
                i <= mc4d_scramble.len(),
                order@ == mc4d_order(),
                log.2 == mc4d_scramble@,
                parse_log(s@) == Ok::<(Seq<u8>, Seq<u8>, Seq<Mc4dTwist>), Mc4dLogError>(log),
                stickers_valid(order@, mc4d_scramble@.take(i as int)),
            decreases mc4d_scramble.len() - i,
        {
            let m = mc4d_scramble[i];
            if m.sticker >= order.len() || order[m.sticker].is_none() {
                proof {
                    assert(mc4d_scramble@[i as int] == m);
                }
                return Err(Mc4dLogError::BadTwist);
            }
            proof {
                assert forall|k: int| 0 <= k < i + 1 implies (#[trigger] mc4d_scramble@.take(i + 1)[k]).sticker
                    < order@.len() && order@[mc4d_scramble@.take(i + 1)[k].sticker as int] is Some by {
                    if k < i {
                        assert(mc4d_scramble@.take(i + 1)[k] == mc4d_scramble@.take(i as int)[k]);
                    }
                }
            }
            i = i + 1;
        }
        proof {
            assert(mc4d_scramble@.take(mc4d_scramble.len() as int) == mc4d_scramble@);
        }
        let mut scramble: Vec<Twist> = Vec::new();
        let mut puzzle_offset = Elem::new(0);
        let mut j: usize = 0;
        while j < mc4d_scramble.len()
            invariant
                j <= mc4d_scramble.len(),
                order@ == mc4d_order(),
                stickers_valid(order@, mc4d_scramble@),
                scramble_upto(order@, mc4d_scramble@, j as nat) == (scramble@, puzzle_offset),
            decreases mc4d_scramble.len() - j,
        {
            let m = mc4d_scramble[j];
            proof {
                assert(mc4d_scramble@[j as int] == m);
            }
            let lt = m.to_layered_twist(&order);
            let ts = lt.to_twists(&mut puzzle_offset);
            let ts_slice = ts.as_slice();
            let mut k: usize = 0;
            let ghost before = scramble@;
            while k < ts_slice.len()
                invariant
                    k <= ts_slice.len(),
                    scramble@ == before + ts_slice@.take(k as int),
                decreases ts_slice.len() - k,
            {
                scramble.push(ts_slice[k]);
                k = k + 1;
                proof {
                    assert(ts_slice@.take(k as int) == ts_slice@.take(k - 1).push(ts_slice@[k - 1]));
                }
            }
            proof {
                assert(ts_slice@.take(ts_slice.len() as int) == ts_slice@);
            }
            j = j + 1;
        }
        Ok(Mc4dScramble { scramble_state, view_matrix, mc4d_scramble, scramble, puzzle_offset_from_scramble: puzzle_offset })
    }

    /// The twists of the scramble.
    pub fn scramble(&self) -> (r: &[Twist])
        ensures
            r@ == self.spec_scramble(),
    {
        self.scramble.as_slice()
    }

    /// A log file of the scramble followed by `solve_twists`, marked solved
    /// if `solved`; `None` if a twist of the solution has no log file form.
    pub fn to_string(&self, solved: bool, solve_twists: Vec<Twist>) -> (r: Option<Vec<u8>>)
        ensures
            match solution_texts(mc4d_order(), self.spec_offset().inverse(), solve_twists@) {
                Some(sol) => r matches Some(text) && text@ == log_text(
                    if solved {
                        three_word()
                    } else {
                        self.spec_state()
                    },
                    self.spec_view(),
                    self.spec_moves().map_values(|m: Mc4dTwist| mc4d_twist_text(m)),
                    sol,
                ),
                None => r is None,
            },
    {
        let order = mc4d_twist_order();
        let offset = self.puzzle_offset_from_scramble.inv();
        let mut sol_texts: Vec<Vec<u8>> = Vec::new();
        let mut i: usize = 0;
        proof {
            assert(solve_twists@.take(0) =~= Seq::<Twist>::empty());
        }
        while i < solve_twists.len()
            invariant
                i <= solve_twists.len(),
                order@ == mc4d_order(),
                offset == self.spec_offset().inverse(),
                sol_texts.len() == i,
                solution_texts(order@, offset, solve_twists@.take(i as int)) matches Some(ts) && ts.len()
                    == sol_texts.len() && forall|k: int| 0 <= k < ts.len() ==> #[trigger] ts[k] == sol_texts[k]@,
            decreases solve_twists.len() - i,
        {
            let t = offset.transform(solve_twists[i]);
            proof {
                assert(solve_twists@.take(i + 1).drop_last() == solve_twists@.take(i as int));
                assert(solve_twists@.take(i + 1).last() == solve_twists@[i as int]);
            }
            match mc4d_twist_for_exec(&order, t) {
                Some(m) => {
                    let mut text: Vec<u8> = Vec::new();
                    m.write_to(&mut text);
                    sol_texts.push(text);
                },
                None => {
                    proof {
                        lemma_solution_texts_none(order@, offset, solve_twists@, i + 1);
                    }
                    return None;
                },
            }
            i = i + 1;
        }
        proof {
            assert(solve_twists@.take(solve_twists.len() as int) == solve_twists@);
            let sol = solution_texts(order@, offset, solve_twists@)->0;
            assert(sol =~= byte_views(sol_texts@));
        }
        let state = if solved {
            vec![51u8]
        } else {
            self.scramble_state.clone()
        };
        proof {
            if solved {
                assert(state@ == three_word());
            }
        }
        Some(write_log(state.as_slice(), self.view_matrix.as_slice(), &self.mc4d_scramble, &sol_texts))
    }
}

/// The scramble state word, the view matrix and the twists of a log file.
fn read_log_parts(s: &[u8]) -> (r: Result<(Vec<u8>, Vec<u8>, Vec<Mc4dTwist>), Mc4dLogError>)
    ensures
        match parse_log(s@) {
            Err(e) => r matches Err(f) && f == e,
            Ok(log) => r matches Ok(parts) && parts.0@ == log.0 && parts.1@ == log.1 && parts.2@ == log.2,
        },
{
    let t = vstd::slice::slice_subrange(s, 0, scramble_end(s));
    if t.len() == 0 {
        return Err(Mc4dLogError::MissingHeader);
    }
    let (header, p1) = read_line(t, 0);
    let segments = split_words(header.as_slice());
    let ghost segs = words(line_at(t@, 0));
    proof {
        assert(segments.len() == segs.len());
    }
    let magic: [u8; 11] = [77, 97, 103, 105, 99, 67, 117, 98, 101, 52, 68];
    let three: [u8; 1] = [51];
    let schlafli: [u8; 7] = [123, 52, 44, 51, 44, 51, 125];
    proof {
        assert(magic@ == magic_word());
        assert(three@ == three_word());
        assert(schlafli@ == schlafli_word());
    }
    if segments.len() != 6 || !bytes_equal(segments[0].as_slice(), &magic) {
        proof {
            if segments.len() == 6 {
                assert(segments[0]@ == segs[0]);
            }
        }
        return Err(Mc4dLogError::BadHeader);
    }
    proof {
        assert(segments[0]@ == segs[0]);
        assert(segments[1]@ == segs[1]);
        assert(segments[2]@ == segs[2]);
        assert(segments[4]@ == segs[4]);
        assert(segments[5]@ == segs[5]);
    }
    if !bytes_equal(segments[1].as_slice(), &three) {
        return Err(Mc4dLogError::UnsupportedLogVersion);
    }
    if !bytes_equal(segments[4].as_slice(), &schlafli) || !bytes_equal(segments[5].as_slice(), &three) {
        return Err(Mc4dLogError::UnsupportedPuzzle);
    }
    let scramble_state = segments[2].clone();
    let (view_matrix, p5) = read_view(t, p1);
    if p5 >= t.len() {
        return Err(Mc4dLogError::MissingSeparator);
    }
    let (star_line, p6) = read_line(t, p5);
    let star: [u8; 1] = [42];
    proof {
        assert(star@ == seq![42u8]);
    }
    if !bytes_equal(star_line.as_slice(), &star) {
        return Err(Mc4dLogError::MissingSeparator);
    }
    let rest = vstd::slice::slice_subrange(t, p6, t.len());
    let tokens = split_words(rest);
    proof {
        assert(tokens@.map_values(|w: Vec<u8>| w@) =~= words(t@.subrange(p6 as int, t.len() as int)));
    }
    let mc4d_scramble = match read_moves(&tokens) {
        Some(m) => m,
        None => {
            return Err(Mc4dLogError::BadMove);
        },
    };
    Ok((scramble_state, view_matrix, mc4d_scramble))
}

/// The bytes of each vector.
pub open spec fn byte_views(v: Seq<Vec<u8>>) -> Seq<Seq<u8>> {
    v.map_values(|b: Vec<u8>| b@)
}

/// Writes a log file: the header, the view matrix, the scramble, `m|`, the
/// solution and a final dot.
fn write_log(state: &[u8], view: &[u8], moves: &Vec<Mc4dTwist>, solution: &Vec<Vec<u8>>) -> (r: Vec<u8>)
    ensures
        r@ == log_text(
            state@,
            view@,
            moves@.map_values(|m: Mc4dTwist| mc4d_twist_text(m)),
            byte_views(solution@),
        ),
{
    let magic: [u8; 11] = [77, 97, 103, 105, 99, 67, 117, 98, 101, 52, 68];
    let three: [u8; 1] = [51];
    let schlafli: [u8; 7] = [123, 52, 44, 51, 44, 51, 125];
    proof {
        assert(magic@ == magic_word());
        assert(three@ == three_word());
        assert(schlafli@ == schlafli_word());
    }
    let mut out: Vec<u8> = Vec::new();
    push_bytes(&mut out, &magic);
    out.push(32);
    push_bytes(&mut out, &three);
    out.push(32);
    push_bytes(&mut out, state);
    out.push(32);
    push_decimal(&mut out, solution.len() as u64);
    out.push(32);
    push_bytes(&mut out, &schlafli);
    out.push(32);
    push_bytes(&mut out, &three);
    out.push(10);
    push_bytes(&mut out, view);
    out.push(10);
    out.push(42);
    let ghost head = out@;
    proof {
        assert(head =~= magic_word() + seq![32u8] + three_word() + seq![32u8] + state@ + seq![32u8] + decimal(
            byte_views(solution@).len(),
        ) + seq![32u8] + schlafli_word() + seq![32u8] + three_word() + seq![10u8] + view@ + seq![10u8, 42u8]);
    }
    push_move_list(&mut out, moves);
    out.push(32);
    out.push(109);
    out.push(124);
    push_text_list(&mut out, solution, moves.len());
    out.push(46);
    proof {
        let mv = moves@.map_values(|m: Mc4dTwist| mc4d_twist_text(m));
        assert(out@ =~= log_text(state@, view@, mv, byte_views(solution@)));
    }
    out
}

/// Appends the texts of log file twists, the first being the first twist
/// written.
fn push_move_list(out: &mut Vec<u8>, moves: &Vec<Mc4dTwist>)
    ensures
        final(out)@ == old(out)@ + twist_list_text(moves@.map_values(|m: Mc4dTwist| mc4d_twist_text(m)), 0),
{
    let ghost texts = moves@.map_values(|m: Mc4dTwist| mc4d_twist_text(m));
    let ghost head = out@;
    let mut n: usize = 0;
    proof {
        assert(texts.take(0) =~= Seq::<Seq<u8>>::empty());
        assert(out@ =~= head + twist_list_text(texts.take(0), 0));
    }
    while n < moves.len()
        invariant
            n <= moves.len(),
            texts == moves@.map_values(|m: Mc4dTwist| mc4d_twist_text(m)),
            out@ == head + twist_list_text(texts.take(n as int), 0),
        decreases moves.len() - n,
    {
        if n % 10 == 0 {
            out.push(10);
        } else {
            out.push(32);
        }
        moves[n].write_to(out);
        proof {
            assert(texts.take(n + 1).drop_last() == texts.take(n as int));
            assert(texts.take(n + 1).last() == mc4d_twist_text(moves@[n as int]));
        }
        n = n + 1;
    }
    proof {
        assert(texts.take(moves.len() as int) == texts);
    }
}

/// Appends twist texts, the first being the `start`th twist written.
fn push_text_list(out: &mut Vec<u8>, texts: &Vec<Vec<u8>>, start: usize)
    ensures
        final(out)@ == old(out)@ + twist_list_text(byte_views(texts@), start as int),
{
    let ghost items = byte_views(texts@);
    let ghost head = out@;
    let mut k: usize = 0;
    proof {
        assert(items.take(0) =~= Seq::<Seq<u8>>::empty());
        assert(out@ =~= head + twist_list_text(items.take(0), start as int));
    }
    while k < texts.len()
        invariant
            k <= texts.len(),
            items == byte_views(texts@),
            out@ == head + twist_list_text(items.take(k as int), start as int),
        decreases texts.len() - k,
    {
        if ((start as u128) + (k as u128)) % 10 == 0 {
            out.push(10);
        } else {
            out.push(32);
        }
        push_bytes(out, texts[k].as_slice());
        proof {
            assert(items.take(k + 1).drop_last() == items.take(k as int));
            assert(items.take(k + 1).last() == texts@[k as int]@);
        }
        k = k + 1;
    }
    proof {
        assert(items.take(texts.len() as int) == items);
    }
}

/// Once a twist has no log file form, no longer solution has one.
proof fn lemma_solution_texts_none(order: Seq<Option<Twist>>, offset: Elem, twists: Seq<Twist>, n: int)
    requires
        0 < n <= twists.len(),
        mc4d_twist_for(order, twists[n - 1].transformed_by(offset)) is None,
    ensures
        solution_texts(order, offset, twists) is None,
    decreases twists.len() - n,
{
    if n < twists.len() {
        lemma_solution_texts_none(order, offset, twists.drop_last(), n);
        assert(twists.drop_last()[n - 1] == twists[n - 1]);
    } else {
        assert(twists.last() == twists[n - 1]);
    }
}

/// Where the scramble part of a log file ends: at the last `m|`, or at the
/// end.
fn scramble_end(s: &[u8]) -> (r: usize)
    ensures
        r <= s.len(),
        s@.subrange(0, r as int) == scramble_part(s@),
{
    let mut n = s.len();
    while n > 0
        invariant
            n <= s.len(),
            last_marker(s@, s.len() as nat) == last_marker(s@, n as nat),
        decreases n,
    {
        let i = n - 1;
        if i + 1 < s.len() && s[i] == 109 && s[i + 1] == 124 {
            return i;
        }
        n = i;
    }
    proof {
        assert(s@.subrange(0, s.len() as int) == s@);
    }
    s.len()
}

/// The view matrix: up to four lines from `p`, joined with line feeds, and
/// where the text after them starts.
fn read_view(t: &[u8], p: usize) -> (r: (Vec<u8>, usize))
    requires
        p <= t.len(),
    ensures
        r.0@ == join_lines(lines_from(t@, p as int, 4)),
        r.1 == after_lines(t@, p as int, 4),
        r.1 <= t.len(),
{
    let mut view: Vec<u8> = Vec::new();
    let mut q = p;
    let mut k: usize = 0;
    let ghost mut parts: Seq<Seq<u8>> = seq![];
    while k < 4 && q < t.len()
        invariant
            k <= 4,
            q <= t.len(),
            parts.len() == k,
            view@ == join_lines(parts),
            parts + lines_from(t@, q as int, (4 - k) as nat) == lines_from(t@, p as int, 4),
            after_lines(t@, q as int, (4 - k) as nat) == after_lines(t@, p as int, 4),
        decreases 4 - k,
    {
        let (line, next) = read_line(t, q);
        if k > 0 {
            view.push(10);
        }
        let mut i: usize = 0;
        let ghost start = view@;
        while i < line.len()
            invariant
                i <= line.len(),
                view@ == start + line@.take(i as int),
            decreases line.len() - i,
        {
            view.push(line[i]);
            i = i + 1;
            proof {
                assert(line@.take(i as int) == line@.take(i - 1).push(line@[i - 1]));
            }
        }
        proof {
            assert(line@.take(line.len() as int) == line@);
            let np = parts.push(line@);
            assert(np.drop_last() == parts);
            if k > 0 {
                assert(join_lines(np) == join_lines(parts) + seq![10u8] + line@);
            } else {
                assert(join_lines(np) == line@);
            }
            assert(lines_from(t@, q as int, (4 - k) as nat) == seq![line@] + lines_from(
                t@,
                next as int,
                (4 - k - 1) as nat,
            ));
            assert(np + lines_from(t@, next as int, (4 - k - 1) as nat) =~= parts + lines_from(
                t@,
                q as int,
                (4 - k) as nat,
            ));
            parts = np;
        }
        q = next;
        k = k + 1;
    }
    proof {
        assert(lines_from(t@, q as int, (4 - k) as nat) == Seq::<Seq<u8>>::empty());
        assert(parts + Seq::<Seq<u8>>::empty() == parts);
    }
    (view, q)
}

/// A word without its trailing dots.
fn trim_dots_exec(w: &[u8]) -> (r: &[u8])
    ensures
        r@ == trim_dots(w@),
{
    let mut e = w.len();
    proof {
        assert(w@.take(w.len() as int) == w@);
    }
    while e > 0 && w[e - 1] == 46
        invariant
            e <= w.len(),
            trim_dots(w@) == trim_dots(w@.take(e as int)),
        decreases e,
    {
        proof {
            assert(w@.take(e as int).drop_last() == w@.take(e - 1));
        }
        e = e - 1;
    }
    proof {
        assert(w@.take(w.len() as int) == w@);
    }
    vstd::slice::slice_subrange(w, 0, e)
}

/// The twists written as `tokens`; `None` if one is not a twist.
fn read_moves(tokens: &Vec<Vec<u8>>) -> (r: Option<Vec<Mc4dTwist>>)
    ensures
        match parse_moves(tokens@.map_values(|w: Vec<u8>| w@)) {
            Some(ms) => r matches Some(v) && v@ == ms,
            None => r is None,
        },
{
    let ghost ws = tokens@.map_values(|w: Vec<u8>| w@);
    let mut moves: Vec<Mc4dTwist> = Vec::new();
    let mut i: usize = 0;
    proof {
        assert(ws.take(0) =~= Seq::<Seq<u8>>::empty());
        assert(moves@ =~= Seq::<Mc4dTwist>::empty());
    }
    while i < tokens.len()
        invariant
            i <= tokens.len(),
            ws == tokens@.map_values(|w: Vec<u8>| w@),
            parse_moves(ws.take(i as int)) == Some(moves@),
        decreases tokens.len() - i,
    {
        let w = trim_dots_exec(tokens[i].as_slice());
        proof {
            assert(ws.take(i + 1).drop_last() == ws.take(i as int));
            assert(ws.take(i + 1).last() == tokens[i as int]@);
        }
        if w.len() > 0 {
            match Mc4dTwist::from_bytes(w) {
                Some(m) => {
                    moves.push(m);
                },
                None => {
                    proof {
                        lemma_parse_moves_none(ws, i + 1);
                    }
                    return None;
                },
            }
        }
        i = i + 1;
    }
    proof {
        assert(ws.take(tokens.len() as int) == ws);
    }
    Some(moves)
}

/// Once a word is not a twist, no longer list of words is read.
proof fn lemma_parse_moves_none(ws: Seq<Seq<u8>>, n: int)
    requires
        0 < n <= ws.len(),
        parse_moves(ws.take(n)) is None,
    ensures
        parse_moves(ws) is None,
    decreases ws.len() - n,
{
    if n < ws.len() {
        assert(ws.take(n + 1).drop_last() == ws.take(n));
        lemma_parse_moves_none(ws, n + 1);
    } else {
        assert(ws.take(n) == ws);
    }
}

} // verus!
