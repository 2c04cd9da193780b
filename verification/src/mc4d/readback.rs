//! Reading back a written log file.
use vstd::prelude::*;

use super::scramble::{
    last_marker,
    log_text,
    magic_word,
    marker_at,
    parse_log,
    parse_moves,
    schlafli_word,
    scramble_part,
    three_word,
    trim_dots,
    twist_list_text,
    twist_separator,
    Mc4dLogError,
};
use super::twist::{lemma_mc4d_twist_text_reads_back, mc4d_twist_text, multiplier_abs, Mc4dTwist};
use crate::util::text::{
    lemma_lines_from_lines,
    lemma_line_no_lf,
    lemma_words_no_space,
    after_lines,
    decimal,
    is_digit,
    is_space,
    join_lines,
    lemma_ascii_no_space,
    space_len,
    lemma_decimal_digits,
    lemma_line_end_at,
    lemma_words_word,
    lemma_words_word_then,
    line_at,
    line_end,
    lines_from,
    next_line,
    no_space,
    signed_decimal,
    words,
};

verus! {

/// The bytes of a log file twist: digits, commas and a minus sign, ending in
/// a digit.
proof fn lemma_twist_text_bytes(m: Mc4dTwist)
    ensures
        mc4d_twist_text(m).len() > 0,
        no_space(mc4d_twist_text(m)),
        forall|i: int|
            0 <= i < mc4d_twist_text(m).len() ==> (#[trigger] mc4d_twist_text(m)[i] != 109 && mc4d_twist_text(m)[i]
                != 46),
        is_digit(mc4d_twist_text(m).last()),
{
    let a = decimal(m.sticker as nat);
    let b = signed_decimal(m.multiplier as int);
    let c = decimal(m.layer_mask as nat);
    let t = mc4d_twist_text(m);
    lemma_decimal_digits(m.sticker as nat);
    lemma_decimal_digits(m.layer_mask as nat);
    lemma_decimal_digits(multiplier_abs(m.multiplier));
    assert(t == a + seq![44u8] + b + seq![44u8] + c);
    assert forall|i: int| 0 <= i < t.len() implies !is_space(#[trigger] t[i]) && t[i] < 128 && t[i] != 109 && t[i] != 46 by {
        if i < a.len() {
            assert(t[i] == a[i]);
            assert(is_digit(a[i]));
        } else if i == a.len() {
        } else if i < a.len() + 1 + b.len() {
            assert(t[i] == b[i - a.len() - 1]);
            if m.multiplier < 0 {
                let d = decimal(multiplier_abs(m.multiplier));
                if i > a.len() + 1 {
                    assert(b[i - a.len() - 1] == d[i - a.len() - 2]);
                    assert(is_digit(d[i - a.len() - 2]));
                }
            } else {
                assert(is_digit(b[i - a.len() - 1]));
            }
        } else if i == a.len() + 1 + b.len() {
        } else {
            assert(t[i] == c[i - a.len() - 2 - b.len()]);
            assert(is_digit(c[i - a.len() - 2 - b.len()]));
        }
    }
    lemma_ascii_no_space(t);
    assert(t.last() == c.last());
    assert(is_digit(c[c.len() - 1]));
}

/// Texts written one after another with separators hold no `m`.
proof fn lemma_list_text_bytes(items: Seq<Seq<u8>>, start: int)
    requires
        forall|k: int, i: int| 0 <= k < items.len() && 0 <= i < items[k].len() ==> #[trigger] items[k][i] != 109,
    ensures
        forall|j: int| 0 <= j < twist_list_text(items, start).len() ==> #[trigger] twist_list_text(items, start)[j] != 109,
    decreases items.len(),
{
    if items.len() > 0 {
        let prev = twist_list_text(items.drop_last(), start);
        let sep = twist_separator(start + items.len() - 1);
        let last = items.last();
        lemma_list_text_bytes(items.drop_last(), start);
        let l = twist_list_text(items, start);
        assert(l == prev + sep + last);
        assert forall|j: int| 0 <= j < l.len() implies #[trigger] l[j] != 109 by {
            if j < prev.len() {
                assert(l[j] == prev[j]);
            } else if j < prev.len() + sep.len() {
                assert(l[j] == sep[j - prev.len()]);
            } else {
                assert(l[j] == last[j - prev.len() - sep.len()]);
                assert(items[items.len() - 1][j - prev.len() - sep.len()] != 109);
            }
        }
    }
}

/// Texts written one after another: the first with its separator in front,
/// then the rest.
proof fn lemma_list_front(items: Seq<Seq<u8>>, start: int)
    requires
        items.len() > 0,
    ensures
        twist_list_text(items, start) == twist_separator(start) + items[0] + twist_list_text(
            items.drop_first(),
            start + 1,
        ),
    decreases items.len(),
{
    if items.len() == 1 {
        assert(items.drop_last() == Seq::<Seq<u8>>::empty());
        assert(items.drop_first() == Seq::<Seq<u8>>::empty());
        assert(twist_list_text(items.drop_last(), start) == Seq::<u8>::empty());
        assert(twist_list_text(items.drop_first(), start + 1) == Seq::<u8>::empty());
    } else {
        lemma_list_front(items.drop_last(), start);
        assert(items.drop_last().drop_first() == items.drop_first().drop_last());
        assert(items.drop_last()[0] == items[0]);
        assert(items.drop_first().last() == items.last());
        assert(twist_list_text(items.drop_first(), start + 1) == twist_list_text(items.drop_first().drop_last(), start + 1)
            + twist_separator(start + 1 + items.drop_first().len() - 1) + items.drop_first().last());
    }
}

/// The words of texts written one after another, with a space after.
#[verifier::spinoff_prover]
proof fn lemma_words_list(items: Seq<Seq<u8>>, k: int)
    requires
        items.len() > 0,
        forall|i: int| 0 <= i < items.len() ==> (#[trigger] items[i]).len() > 0 && no_space(items[i]),
    ensures
        words(items[0] + twist_list_text(items.drop_first(), k) + seq![32u8]) == items,
    decreases items.len(),
{
    let rest = items.drop_first();
    assert(items[0].len() > 0 && no_space(items[0]));
    if items.len() == 1 {
        assert(rest == Seq::<Seq<u8>>::empty());
        assert(twist_list_text(rest, k) == Seq::<u8>::empty());
        assert(items[0] + twist_list_text(rest, k) + seq![32u8] == items[0] + seq![32u8] + Seq::<u8>::empty());
        lemma_words_word_then(items[0], 32, Seq::<u8>::empty());
        assert(words(Seq::<u8>::empty()) == Seq::<Seq<u8>>::empty());
        assert(seq![items[0]] == items);
    } else {
        lemma_list_front(rest, k);
        let sep = twist_separator(k);
        let tail = rest[0] + twist_list_text(rest.drop_first(), k + 1) + seq![32u8];
        assert(items[0] + twist_list_text(rest, k) + seq![32u8] == items[0] + sep + tail);
        assert(sep == seq![sep[0]]);
        assert(is_space(sep[0]));
        lemma_words_word_then(items[0], sep[0], tail);
        assert forall|i: int| 0 <= i < rest.len() implies (#[trigger] rest[i]).len() > 0 && no_space(rest[i]) by {
            assert(rest[i] == items[i + 1]);
        }
        lemma_words_list(rest, k + 1);
        assert(seq![items[0]] + rest == items);
    }
}

/// The twists written as texts read back as the twists.
proof fn lemma_parse_moves_texts(ms: Seq<Mc4dTwist>)
    ensures
        parse_moves(ms.map_values(|m: Mc4dTwist| mc4d_twist_text(m))) == Some(ms),
    decreases ms.len(),
{
    let ts = ms.map_values(|m: Mc4dTwist| mc4d_twist_text(m));
    if ms.len() > 0 {
        lemma_parse_moves_texts(ms.drop_last());
        assert(ts.drop_last() == ms.drop_last().map_values(|m: Mc4dTwist| mc4d_twist_text(m)));
        let m = ms.last();
        assert(ts.last() == mc4d_twist_text(m));
        lemma_twist_text_bytes(m);
        let t = mc4d_twist_text(m);
        assert(t[t.len() - 1] != 46);
        assert(trim_dots(t) == t);
        lemma_mc4d_twist_text_reads_back(m);
        assert(ms.drop_last().push(m) == ms);
    } else {
        assert(ts == Seq::<Seq<u8>>::empty());
        assert(ms == Seq::<Mc4dTwist>::empty());
    }
}

/// The last `m|` below `n` starts at `i` when none starts after it.
proof fn lemma_last_marker_at(s: Seq<u8>, i: int, n: nat)
    requires
        marker_at(s, i),
        i < n,
        forall|j: int| i < j < n ==> !#[trigger] marker_at(s, j),
    ensures
        last_marker(s, n) == Some(i),
    decreases n,
{
    if n - 1 > i {
        assert(!marker_at(s, n - 1));
        lemma_last_marker_at(s, i, (n - 1) as nat);
    }
}

/// Reading a line of a text that ends at a line feed.
proof fn lemma_line_at(s: Seq<u8>, p: int, l: Seq<u8>)
    requires
        0 <= p,
        p + l.len() < s.len(),
        s.subrange(p, p + l.len()) == l,
        s[p + l.len()] == 10,
        forall|i: int| 0 <= i < l.len() ==> #[trigger] l[i] != 10,
        l.len() > 0 ==> l[l.len() - 1] != 13,
    ensures
        line_at(s, p) == l,
        next_line(s, p) == p + l.len() + 1,
{
    assert forall|i: int| p <= i < p + l.len() implies s[i] != 10 by {
        assert(s[i] == l[i - p]);
    }
    lemma_line_end_at(s, p, p + l.len());
    if l.len() > 0 {
        assert(l.last() == l[l.len() - 1]);
    }
}

/// The header line of a written log file, and its words.
#[verifier::spinoff_prover]
proof fn lemma_header_words(state: Seq<u8>, count: Seq<u8>)
    requires
        state.len() > 0,
        no_space(state),
        count.len() > 0,
        forall|i: int| 0 <= i < count.len() ==> is_digit(#[trigger] count[i]),
    ensures
        ({
            let h = magic_word() + seq![32u8] + three_word() + seq![32u8] + state + seq![32u8] + count + seq![32u8]
                + schlafli_word() + seq![32u8] + three_word();
            &&& words(h) == seq![magic_word(), three_word(), state, count, schlafli_word(), three_word()]
            &&& forall|i: int| 0 <= i < h.len() ==> #[trigger] h[i] != 10 && h[i] != 13
        }),
{
    let h = magic_word() + seq![32u8] + three_word() + seq![32u8] + state + seq![32u8] + count + seq![32u8]
        + schlafli_word() + seq![32u8] + three_word();
    assert forall|i: int| 0 <= i < h.len() implies #[trigger] h[i] != 10 && h[i] != 13 by {
        let s1 = magic_word() + seq![32u8] + three_word() + seq![32u8];
        let s2 = s1 + state + seq![32u8];
        if i < s1.len() {
        } else if i < s1.len() + state.len() {
            assert(h[i] == state[i - s1.len()]);
            assert(state.skip(i - s1.len())[0] == state[i - s1.len()]);
            assert(space_len(state.skip(i - s1.len())) == 0);
        } else if i < s2.len() {
        } else if i < s2.len() + count.len() {
            assert(h[i] == count[i - s2.len()]);
            assert(is_digit(count[i - s2.len()]));
        } else {
        }
    }
    assert forall|i: int| 0 <= i < three_word().len() implies #[trigger] three_word()[i] < 128 && !is_space(three_word()[i]) by {}
    assert forall|i: int| 0 <= i < schlafli_word().len() implies #[trigger] schlafli_word()[i] < 128 && !is_space(schlafli_word()[i]) by {}
    assert forall|i: int| 0 <= i < magic_word().len() implies #[trigger] magic_word()[i] < 128 && !is_space(magic_word()[i]) by {}
    lemma_ascii_no_space(three_word());
    lemma_ascii_no_space(schlafli_word());
    lemma_ascii_no_space(magic_word());
    lemma_words_word(three_word());
    lemma_words_word_then(schlafli_word(), 32, three_word());
    assert forall|i: int| 0 <= i < count.len() implies #[trigger] count[i] < 128 && !is_space(count[i]) by {
        assert(is_digit(count[i]));
    }
    lemma_ascii_no_space(count);
    let t4 = schlafli_word() + seq![32u8] + three_word();
    let t3 = count + seq![32u8] + t4;
    let t2 = state + seq![32u8] + t3;
    let t1 = three_word() + seq![32u8] + t2;
    lemma_words_word_then(count, 32, t4);
    lemma_words_word_then(state, 32, t3);
    lemma_words_word_then(three_word(), 32, t2);
    lemma_words_word_then(magic_word(), 32, t1);
    assert(h == magic_word() + seq![32u8] + t1);
}

/// The four lines of the view matrix of a written log file.
proof fn lemma_view_lines(s: Seq<u8>, q0: int, view_lines: Seq<Seq<u8>>)
    requires
        0 <= q0,
        view_lines.len() == 4,
        forall|k: int, i: int|
            0 <= k < 4 && 0 <= i < view_lines[k].len() ==> #[trigger] view_lines[k][i] != 10,
        forall|k: int| 0 <= k < 4 && view_lines[k].len() > 0 ==> #[trigger] view_lines[k][view_lines[k].len() - 1] != 13,
        q0 + join_lines(view_lines).len() < s.len(),
        s.subrange(q0, q0 + join_lines(view_lines).len()) == join_lines(view_lines),
        s[q0 + join_lines(view_lines).len()] == 10,
    ensures
        lines_from(s, q0, 4) == view_lines,
        after_lines(s, q0, 4) == q0 + join_lines(view_lines).len() + 1,
{
    let l0 = view_lines[0];
    let l1 = view_lines[1];
    let l2 = view_lines[2];
    let l3 = view_lines[3];
    let view = join_lines(view_lines);
    assert(view == l0 + seq![10u8] + l1 + seq![10u8] + l2 + seq![10u8] + l3) by {
        let v1 = seq![l0];
        let v2 = seq![l0, l1];
        let v3 = seq![l0, l1, l2];
        assert(view_lines == seq![l0, l1, l2, l3]);
        assert(join_lines(v1) == l0);
        assert(v2.drop_last() == v1 && v2.last() == l1);
        assert(join_lines(v2) == l0 + seq![10u8] + l1);
        assert(v3.drop_last() == v2 && v3.last() == l2);
        assert(join_lines(v3) == l0 + seq![10u8] + l1 + seq![10u8] + l2);
        assert(view_lines.drop_last() == v3 && view_lines.last() == l3);
    }
    let q1: int = q0 + l0.len() + 1;
    let q2: int = q1 + l1.len() + 1;
    let q3: int = q2 + l2.len() + 1;
    let q4: int = q3 + l3.len() + 1;
    assert(s.subrange(q0, q0 + l0.len()) == l0) by {
        assert(s.subrange(q0, q0 + l0.len()) == view.subrange(0, l0.len() as int));
    }
    assert(s[q0 + l0.len()] == 10) by {
        assert(s[q0 + l0.len()] == view[l0.len() as int]);
    }
    assert(s.subrange(q1, q1 + l1.len()) == l1) by {
        assert(s.subrange(q1, q1 + l1.len()) == view.subrange(q1 - q0, q1 - q0 + l1.len()));
    }
    assert(s[q1 + l1.len()] == 10) by {
        assert(s[q1 + l1.len()] == view[q1 - q0 + l1.len()]);
    }
    assert(s.subrange(q2, q2 + l2.len()) == l2) by {
        assert(s.subrange(q2, q2 + l2.len()) == view.subrange(q2 - q0, q2 - q0 + l2.len()));
    }
    assert(s[q2 + l2.len()] == 10) by {
        assert(s[q2 + l2.len()] == view[q2 - q0 + l2.len()]);
    }
    assert(s.subrange(q3, q3 + l3.len()) == l3) by {
        assert(s.subrange(q3, q3 + l3.len()) == view.subrange(q3 - q0, q3 - q0 + l3.len()));
    }
    lemma_line_at(s, q0, l0);
    lemma_line_at(s, q1, l1);
    lemma_line_at(s, q2, l2);
    lemma_line_at(s, q3, l3);
    assert(lines_from(s, q4, 0) == Seq::<Seq<u8>>::empty());
    assert(lines_from(s, q3, 1) == seq![l3]);
    assert(lines_from(s, q2, 2) == seq![l2, l3]);
    assert(lines_from(s, q1, 3) == seq![l1, l2, l3]);
    assert(lines_from(s, q0, 4) == seq![l0, l1, l2, l3]);
    assert(seq![l0, l1, l2, l3] == view_lines);
    assert(after_lines(s, q4, 0) == q4);
    assert(after_lines(s, q3, 1) == q4);
    assert(after_lines(s, q2, 2) == q4);
    assert(after_lines(s, q1, 3) == q4);
}

/// The scramble part of a written log file ends at its `m|`.
proof fn lemma_written_scramble_part(a: Seq<u8>, solution: Seq<Mc4dTwist>, n: int)
    ensures
        ({
            let st = solution.map_values(|m: Mc4dTwist| mc4d_twist_text(m));
            scramble_part(a + seq![109u8, 124u8] + twist_list_text(st, n) + seq![46u8]) == a
        }),
{
    let st = solution.map_values(|m: Mc4dTwist| mc4d_twist_text(m));
    let tail = twist_list_text(st, n);
    let t = a + seq![109u8, 124u8] + tail + seq![46u8];
    assert forall|k: int, i: int| 0 <= k < st.len() && 0 <= i < st[k].len() implies #[trigger] st[k][i] != 109 by {
        lemma_twist_text_bytes(solution[k]);
        assert(st[k] == mc4d_twist_text(solution[k]));
    }
    lemma_list_text_bytes(st, n);
    assert forall|j: int| a.len() < j < t.len() implies !#[trigger] marker_at(t, j) by {
        if j == a.len() + 1 {
            assert(t[j] == 124);
        } else if j < a.len() + 2 + tail.len() {
            assert(t[j] == tail[j - a.len() - 2]);
        } else {
            assert(t[j] == 46);
        }
    }
    assert(marker_at(t, a.len() as int));
    lemma_last_marker_at(t, a.len() as int, t.len());
    assert(t.subrange(0, a.len() as int) == a);
}

/// Reading back a log file written by
/// [`super::scramble::Mc4dScramble::to_string`] gives back its state word,
/// its view matrix and the twists of its scramble: for a state word without
/// spaces, a view matrix of four lines without line feeds, none ending with a
/// carriage return, and a scramble of at least one twist.
/// The texts of twists are nonempty words.
proof fn lemma_texts_are_words(moves: Seq<Mc4dTwist>)
    ensures
        ({
            let mt = moves.map_values(|m: Mc4dTwist| mc4d_twist_text(m));
            forall|i: int| 0 <= i < mt.len() ==> (#[trigger] mt[i]).len() > 0 && no_space(mt[i])
        }),
{
    let mt = moves.map_values(|m: Mc4dTwist| mc4d_twist_text(m));
    assert forall|i: int| 0 <= i < mt.len() implies (#[trigger] mt[i]).len() > 0 && no_space(mt[i]) by {
        lemma_twist_text_bytes(moves[i]);
    }
}

#[verifier::spinoff_prover]
#[verifier::rlimit(80)]
pub proof fn lemma_log_reads_back(
    state: Seq<u8>,
    view_lines: Seq<Seq<u8>>,
    moves: Seq<Mc4dTwist>,
    solution: Seq<Mc4dTwist>,
)
    requires
        state.len() > 0,
        no_space(state),
        view_lines.len() == 4,
        forall|k: int, i: int|
            0 <= k < 4 && 0 <= i < view_lines[k].len() ==> #[trigger] view_lines[k][i] != 10,
        forall|k: int| 0 <= k < 4 && view_lines[k].len() > 0 ==> #[trigger] view_lines[k][view_lines[k].len() - 1] != 13,
        moves.len() > 0,
    ensures
        parse_log(
            log_text(
                state,
                join_lines(view_lines),
                moves.map_values(|m: Mc4dTwist| mc4d_twist_text(m)),
                solution.map_values(|m: Mc4dTwist| mc4d_twist_text(m)),
            ),
        ) == Ok::<(Seq<u8>, Seq<u8>, Seq<Mc4dTwist>), Mc4dLogError>((state, join_lines(view_lines), moves)),
{
    let mt = moves.map_values(|m: Mc4dTwist| mc4d_twist_text(m));
    let st = solution.map_values(|m: Mc4dTwist| mc4d_twist_text(m));
    let view = join_lines(view_lines);
    let count = decimal(st.len());
    lemma_decimal_digits(st.len());
    let h = magic_word() + seq![32u8] + three_word() + seq![32u8] + state + seq![32u8] + count + seq![32u8]
        + schlafli_word() + seq![32u8] + three_word();
    lemma_list_front(mt, 0);
    assert(twist_separator(0) == seq![10u8]);
    let rest = mt[0] + twist_list_text(mt.drop_first(), 1) + seq![32u8];
    let a = h + seq![10u8] + view + seq![10u8, 42u8, 10u8] + rest;
    assert(a == h + seq![10u8] + view + seq![10u8, 42u8] + twist_list_text(mt, 0) + seq![32u8]);
    let t = a + seq![109u8, 124u8] + twist_list_text(st, mt.len() as int) + seq![46u8];
    assert(t =~= log_text(state, view, mt, st));
    lemma_written_scramble_part(a, solution, mt.len() as int);
    lemma_header_words(state, count);
    assert(a.subrange(0, h.len() as int) == h);
    lemma_line_at(a, 0, h);
    let q0: int = h.len() as int + 1;
    let q4: int = q0 + view.len() + 1;
    assert(a.subrange(q0, q0 + view.len()) == view);
    lemma_view_lines(a, q0, view_lines);
    assert(a.subrange(q4, q4 + 1) == seq![42u8]);
    lemma_line_at(a, q4, seq![42u8]);
    assert(a.subrange(q4 + 2, a.len() as int) == rest);
    lemma_texts_are_words(moves);
    lemma_words_list(mt, 1);
    lemma_parse_moves_texts(moves);
}


/// The four lines of the view matrix of log file `s`.
pub open spec fn log_view_lines(s: Seq<u8>) -> Seq<Seq<u8>> {
    let t = scramble_part(s);
    lines_from(t, next_line(t, 0), 4)
}

/// A log file read and written back, with no solution, reads back the same
/// state word, view matrix and scramble twists. This holds for every log file
/// with at least one scramble twist whose view matrix lines do not end with a
/// carriage return (reading drops one such byte at the end of a line).
#[verifier::spinoff_prover]
pub proof fn lemma_log_round_trip(s: Seq<u8>)
    requires
        parse_log(s) is Ok,
        parse_log(s)->Ok_0.2.len() > 0,
        forall|j: int|
            0 <= j < 4 && (#[trigger] log_view_lines(s)[j]).len() > 0 ==> log_view_lines(s)[j][log_view_lines(s)[j].len()
                - 1] != 13,
    ensures
        ({
            let log = parse_log(s)->Ok_0;
            parse_log(
                log_text(
                    log.0,
                    log.1,
                    log.2.map_values(|m: Mc4dTwist| mc4d_twist_text(m)),
                    Seq::<Mc4dTwist>::empty().map_values(|m: Mc4dTwist| mc4d_twist_text(m)),
                ),
            ) == Ok::<(Seq<u8>, Seq<u8>, Seq<Mc4dTwist>), Mc4dLogError>(log)
        }),
{
    let t = scramble_part(s);
    let segs = words(line_at(t, 0));
    let p1 = next_line(t, 0);
    let log = parse_log(s)->Ok_0;
    lemma_words_no_space(line_at(t, 0));
    assert(segs[2].len() > 0 && no_space(segs[2]));
    assert(t.len() > 0);
    lemma_line_no_lf(t, 0);
    lemma_lines_from_lines(t, p1, 4);
    let vl = lines_from(t, p1, 4);
    assert(log.0 == segs[2]);
    assert(log.1 == join_lines(vl));
    assert(vl == log_view_lines(s));
    lemma_log_reads_back(segs[2], vl, log.2, Seq::<Mc4dTwist>::empty());
}

} // verus!
