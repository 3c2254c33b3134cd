//! Properties of the key square and of the cipher that relate several
//! values or calls, proved over the specifications of `cipherer` and
//! `stream`.
use crate::cipherer::{
    alphabet, canonical, cell, has_letter_index, is_bijection, is_full_square, substitute, target_cells, PlayfairOutcome, is_square_letter,
    key_square, lemma_letter_index_injective, letter_index, place_all, place_step, positions_of,
    symbols_of, Cipherer, LETTER_A,
};
use vstd::arithmetic::div_mod::{
    lemma_fundamental_div_mod, lemma_fundamental_div_mod_converse_div,
    lemma_fundamental_div_mod_converse_mod, lemma_mod_pos_bound,
};
use vstd::prelude::*;
use crate::stream::{cipher_stream, hands_out, read_outcome};
use vstd::relations::injective_on;
use vstd::set_lib::{lemma_int_range, lemma_map_size, lemma_subset_equality, set_int_range};

verus! {

/// Distinct letters of the square, at most 25 of them.
pub open spec fn distinct_square_letters(sq: Seq<u8>) -> bool {
    &&& sq.len() <= 25
    &&& forall|p: int| 0 <= p < sq.len() ==> is_square_letter(#[trigger] sq[p])
    &&& forall|p: int, q: int| 0 <= p < q < sq.len() ==> sq[p] != sq[q]
}

/// Placing letters keeps them distinct letters of the square.
proof fn lemma_place_all_distinct(acc: Seq<u8>, s: Seq<u8>)
    requires
        distinct_square_letters(acc),
    ensures
        distinct_square_letters(place_all(acc, s)),
    decreases s.len(),
{
    if s.len() > 0 {
        match place_step(acc, s[0]) {
            None => {},
            Some(next) => {
                lemma_place_all_distinct(next, s.drop_first());
            },
        }
    }
}

/// Twenty-five distinct letters of the square hold every letter of it.
proof fn lemma_full_square_covers(sq: Seq<u8>)
    requires
        distinct_square_letters(sq),
        sq.len() == 25,
    ensures
        forall|c: u8| is_square_letter(c) ==> #[trigger] sq.contains(c),
{
    let f = |p: int| letter_index(sq[p]);
    let cells = set_int_range(0, 25);
    lemma_int_range(0, 25);
    assert forall|p: int, q: int|
        cells.contains(p) && cells.contains(q) && #[trigger] f(p) == #[trigger] f(q) implies p
        == q by {
        lemma_letter_index_injective(sq[p], sq[q]);
    }
    assert(injective_on(f, cells));
    let image = cells.map(f);
    lemma_map_size(cells, image, f);
    assert forall|i: int| #[trigger] image.contains(i) implies cells.contains(i) by {
        let p = choose|p: int| cells.contains(p) && f(p) == i;
        lemma_letter_index_injective(sq[p], sq[p]);
    }
    lemma_subset_equality(image, cells);
    assert forall|c: u8| is_square_letter(c) implies #[trigger] sq.contains(c) by {
        lemma_letter_index_injective(c, c);
        assert(image.contains(letter_index(c)));
        let p = choose|p: int| cells.contains(p) && f(p) == letter_index(c);
        lemma_letter_index_injective(sq[p], c);
    }
}

/// A key square with 25 letters is complete: it holds each letter of the
/// square once.
pub proof fn lemma_key_square_full(key: Seq<u8>)
    requires
        key_square(key).len() == 25,
    ensures
        is_full_square(key_square(key)),
{
    lemma_place_all_distinct(Seq::empty(), key + alphabet());
}

/// In a complete square, the cell of a letter holds that letter, and no
/// other cell does.
pub proof fn lemma_cell_of_letter(sq: Seq<u8>, c: u8)
    requires
        is_full_square(sq),
        is_square_letter(c),
    ensures
        0 <= cell(sq, c) < 25,
        sq[cell(sq, c)] == c,
        forall|p: int| 0 <= p < 25 && sq[p] == c ==> p == cell(sq, c),
{
    lemma_full_square_covers(sq);
    assert(sq.contains(c));
    assert(canonical(c) == c);
}

/// For every complete key square, the cell-to-letter and letter-to-cell
/// tables are inverse bijections: each cell holds one letter and each letter
/// has one cell.
pub proof fn lemma_square_bijection(sq: Seq<u8>)
    requires
        is_full_square(sq),
    ensures
        is_bijection(symbols_of(sq), positions_of(sq)),
{
    lemma_full_square_covers(sq);
    let symbols = symbols_of(sq);
    let positions = positions_of(sq);
    assert forall|p: int| 0 <= p < 25 implies is_square_letter(#[trigger] symbols[p])
        && positions[letter_index(symbols[p])] == p by {
        let i = letter_index(sq[p]);
        lemma_letter_index_injective(sq[p], sq[p]);
        assert(has_letter_index(sq, i));
        let q = choose|q: int| 0 <= q < sq.len() && letter_index(sq[q]) == i;
        lemma_letter_index_injective(sq[p], sq[q]);
    }
    assert forall|i: int| 0 <= i < 25 implies #[trigger] positions[i] < 25 && letter_index(
        symbols[positions[i] as int],
    ) == i by {
        let c = (if i >= 9 {
            i + 1
        } else {
            i
        } + LETTER_A) as u8;
        assert(is_square_letter(c) && letter_index(c) == i);
        assert(sq.contains(c));
        let p = choose|p: int| 0 <= p < sq.len() && sq[p] == c;
        assert(has_letter_index(sq, i));
    }
}

/// The row and column of the cell in row `r` and column `c`.
proof fn lemma_cell_coords(r: int, c: int)
    requires
        0 <= r < 5,
        0 <= c < 5,
    ensures
        (r * 5 + c) / 5 == r,
        (r * 5 + c) % 5 == c,
{
    lemma_fundamental_div_mod_converse_div(r * 5 + c, 5, r, c);
    lemma_fundamental_div_mod_converse_mod(r * 5 + c, 5, r, c);
}

/// Every cell lies in one of the five rows and columns.
proof fn lemma_cell_split(p: int)
    requires
        0 <= p < 25,
    ensures
        0 <= p / 5 < 5,
        0 <= p % 5 < 5,
        p == p / 5 * 5 + p % 5,
{
    lemma_fundamental_div_mod(p, 5);
    lemma_mod_pos_bound(p, 5);
    lemma_cell_coords(p / 5, p % 5);
}

/// A step of `d` along a row or column of five, wrapping round.
proof fn lemma_wrap(c: int, d: int)
    requires
        0 <= c < 5,
        0 <= d < 5,
    ensures
        (c + d) % 5 == if c + d >= 5 {
            c + d - 5
        } else {
            c + d
        },
{
    if c + d >= 5 {
        lemma_fundamental_div_mod_converse_mod(c + d, 5, 1, c + d - 5);
    } else {
        lemma_fundamental_div_mod_converse_mod(c + d, 5, 0, c + d);
    }
}

/// Moving two distinct cells one way and then back returns them, and the
/// moved cells are distinct cells of the grid.
proof fn lemma_cells_invert(pa: int, pb: int)
    requires
        0 <= pa < 25,
        0 <= pb < 25,
        pa != pb,
    ensures
        0 <= target_cells(pa, pb, false).0 < 25,
        0 <= target_cells(pa, pb, false).1 < 25,
        target_cells(pa, pb, false).0 != target_cells(pa, pb, false).1,
        target_cells(target_cells(pa, pb, false).0, target_cells(pa, pb, false).1, true) == (
            pa,
            pb,
        ),
{
    lemma_cell_split(pa);
    lemma_cell_split(pb);
    let (r1, c1, r2, c2) = (pa / 5, pa % 5, pb / 5, pb % 5);
    let (q1, q2) = target_cells(pa, pb, false);
    if r1 == r2 {
        lemma_wrap(c1, 1);
        lemma_wrap(c2, 1);
        let (d1, d2) = ((c1 + 1) % 5, (c2 + 1) % 5);
        lemma_cell_coords(r1, d1);
        lemma_cell_coords(r2, d2);
        lemma_wrap(d1, 4);
        lemma_wrap(d2, 4);
        assert(q1 == r1 * 5 + d1 && q2 == r2 * 5 + d2);
    } else if c1 == c2 {
        lemma_wrap(r1, 1);
        lemma_wrap(r2, 1);
        let (s1, s2) = ((r1 + 1) % 5, (r2 + 1) % 5);
        lemma_cell_coords(s1, c1);
        lemma_cell_coords(s2, c2);
        lemma_wrap(s1, 4);
        lemma_wrap(s2, 4);
        assert(q1 == s1 * 5 + c1 && q2 == s2 * 5 + c2);
    } else {
        lemma_cell_coords(r1, c2);
        lemma_cell_coords(r2, c1);
        lemma_cell_coords(r1, c1);
        lemma_cell_coords(r2, c2);
        assert(q1 == r1 * 5 + c2 && q2 == r2 * 5 + c1);
    }
}

/// Decoding undoes encoding: two different letters of a complete square
/// encode to two different letters, a normal pair, which decode to the
/// first two.
pub proof fn lemma_substitution_inverts(sq: Seq<u8>, a: u8, b: u8)
    requires
        is_full_square(sq),
        is_square_letter(a),
        is_square_letter(b),
        a != b,
    ensures
        substitute(sq, a, b, false) is Normal,
        is_square_letter(substitute(sq, a, b, false).pair().0),
        is_square_letter(substitute(sq, a, b, false).pair().1),
        substitute(sq, a, b, false).pair().0 != substitute(sq, a, b, false).pair().1,
        substitute(
            sq,
            substitute(sq, a, b, false).pair().0,
            substitute(sq, a, b, false).pair().1,
            true,
        ) == PlayfairOutcome::Normal((a, b)),
{
    lemma_cell_of_letter(sq, a);
    lemma_cell_of_letter(sq, b);
    let pa = cell(sq, a);
    let pb = cell(sq, b);
    lemma_cells_invert(pa, pb);
    let t = target_cells(pa, pb, false);
    assert(substitute(sq, a, b, false).pair() == (sq[t.0], sq[t.1]));
    let x = sq[t.0];
    let y = sq[t.1];
    lemma_cell_of_letter(sq, x);
    lemma_cell_of_letter(sq, y);
    assert(cell(sq, x) == t.0);
    assert(cell(sq, y) == t.1);
}

/// Building a key square twice from one keyword gives the same tables:
/// both builds' cell-to-letter and letter-to-cell tables are those of the
/// keyword's square.
pub proof fn lemma_build_deterministic(key: Seq<u8>, first: Cipherer, second: Cipherer)
    requires
        first@ == key_square(key),
        first.symbol_at() == symbols_of(first@),
        first.position_of() == positions_of(first@),
        second@ == key_square(key),
        second.symbol_at() == symbols_of(second@),
        second.position_of() == positions_of(second@),
    ensures
        first.symbol_at() == second.symbol_at(),
        first.position_of() == second.position_of(),
{
}

/// Text that the cipher gives back unchanged after a round trip: lowercase
/// letters but `j`, with no letter twice in a row.
pub open spec fn is_plain_text(t: Seq<u8>) -> bool {
    &&& forall|i: int| 0 <= i < t.len() ==> is_square_letter(#[trigger] t[i])
    &&& forall|i: int| 0 <= i < t.len() - 1 ==> #[trigger] t[i] != t[i + 1]
}

proof fn lemma_round_trip_in(sq: Seq<u8>, text: Seq<u8>)
    requires
        is_full_square(sq),
        is_plain_text(text),
        text.len() % 2 == 0,
    ensures
        cipher_stream(sq, cipher_stream(sq, text, false), true) == text,
    decreases text.len(),
{
    if text.len() > 0 {
        let (a, b) = (text[0], text[1]);
        assert(a != b);
        lemma_substitution_inverts(sq, a, b);
        let (x, y) = substitute(sq, a, b, false).pair();
        let rest = text.skip(2);
        assert(is_plain_text(rest)) by {
            assert forall|i: int| 0 <= i < rest.len() - 1 implies #[trigger] rest[i] != rest[i
                + 1] by {
                assert(rest[i] == text[i + 2] && rest[i + 1] == text[i + 3]);
            }
        }
        lemma_round_trip_in(sq, rest);
        let encoded = cipher_stream(sq, text, false);
        assert(encoded == seq![x, y] + cipher_stream(sq, rest, false));
        assert(encoded.skip(2) =~= cipher_stream(sq, rest, false));
        assert(cipher_stream(sq, encoded, true) == seq![a, b] + rest);
        assert(seq![a, b] + rest =~= text);
    }
}

/// Round trip: in a complete key square, decoding the encoding of an
/// even-length text of lowercase letters but `j`, with no letter twice in a
/// row, gives the text back.
pub proof fn lemma_round_trip(key: Seq<u8>, text: Seq<u8>)
    requires
        key_square(key).len() == 25,
        is_plain_text(text),
        text.len() % 2 == 0,
    ensures
        cipher_stream(key_square(key), cipher_stream(key_square(key), text, false), true) == text,
{
    lemma_key_square_full(key);
    lemma_round_trip_in(key_square(key), text);
}

/// The bytes handed out by a run of reads, in order: read `i` wrote into
/// `bufs[i]` and returned `counts[i]`.
pub open spec fn joined(bufs: Seq<Seq<u8>>, counts: Seq<int>) -> Seq<u8>
    decreases bufs.len(),
{
    if bufs.len() == 0 || counts.len() == 0 {
        Seq::empty()
    } else {
        joined(bufs.drop_last(), counts.drop_last()) + bufs.last().take(counts.last())
    }
}

proof fn lemma_joined_prefix(outputs: Seq<Seq<u8>>, bufs: Seq<Seq<u8>>, counts: Seq<int>)
    requires
        bufs.len() == counts.len(),
        outputs.len() == bufs.len() + 1,
        forall|i: int|
            0 <= i < bufs.len() ==> hands_out(
                #[trigger] outputs[i],
                outputs[i + 1],
                bufs[i],
                counts[i],
            ),
    ensures
        joined(bufs, counts) + outputs.last() == outputs[0],
    decreases bufs.len(),
{
    if bufs.len() > 0 {
        let k = bufs.len() - 1;
        lemma_joined_prefix(outputs.drop_last(), bufs.drop_last(), counts.drop_last());
        assert(hands_out(outputs[k], outputs[k + 1], bufs[k], counts[k]));
        assert(outputs[k] =~= bufs[k].take(counts[k]) + outputs[k + 1]);
        assert(joined(bufs, counts) + outputs.last() =~= joined(
            bufs.drop_last(),
            counts.drop_last(),
        ) + outputs[k]);
    }
}

/// Buffer-size independence: reads of a stream into buffers of any sizes,
/// carried on until the stream is drained, hand out together exactly the
/// bytes that one read into a buffer large enough for the whole output
/// gives. `outputs[i]` is what the stream had yet to hand out before read
/// `i`, which wrote into `bufs[i]` and returned `counts[i]`.
pub proof fn lemma_buffer_size_independence<E>(
    outputs: Seq<Seq<u8>>,
    bufs: Seq<Seq<u8>>,
    counts: Seq<int>,
    whole: Seq<u8>,
    whole_after: Seq<u8>,
    whole_count: usize,
)
    requires
        bufs.len() == counts.len(),
        outputs.len() == bufs.len() + 1,
        forall|i: int|
            0 <= i < bufs.len() ==> hands_out(
                #[trigger] outputs[i],
                outputs[i + 1],
                bufs[i],
                counts[i],
            ),
        outputs.last().len() == 0,
        whole.len() >= outputs[0].len(),
        read_outcome(outputs[0], whole_after, whole.len(), whole, Ok::<usize, E>(whole_count)),
    ensures
        joined(bufs, counts) == whole.take(whole_count as int),
{
    lemma_joined_prefix(outputs, bufs, counts);
    assert(joined(bufs, counts) =~= joined(bufs, counts) + outputs.last());
}

} // verus!
