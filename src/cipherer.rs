use vstd::prelude::*;
use vstd::relations::injective_on;
use vstd::set_lib::{lemma_int_range, lemma_map_size, lemma_subset_equality, set_int_range};

verus! {

/// ASCII codes of the letters that the cipher's rules name.
pub const LETTER_A: u8 = 97;
pub const LETTER_I: u8 = 105;
pub const LETTER_J: u8 = 106;
pub const LETTER_Q: u8 = 113;
pub const LETTER_X: u8 = 120;
pub const LETTER_Z: u8 = 122;
pub const UPPER_A: u8 = 65;
pub const UPPER_Z: u8 = 90;

/// Marks, in the positions of a key square, a letter that has no cell.
pub const EMPTY: usize = 25;

/// The lowercase form of an ASCII letter; `None` for every other byte.
pub open spec fn lower_spec(c: u8) -> Option<u8> {
    if LETTER_A <= c <= LETTER_Z {
        Some(c)
    } else if UPPER_A <= c <= UPPER_Z {
        Some((c + 32) as u8)
    } else {
        None
    }
}

/// Grid index of a lowercase letter among the 25 letters of the square:
/// letters from `j` on move down by one, so that `j` shares the index of `i`.
pub open spec fn letter_index(c: u8) -> int {
    if c >= LETTER_J {
        c - LETTER_A - 1
    } else {
        c - LETTER_A
    }
}

/// Index under which a byte is looked up in the square: letters in either
/// case as above, and every other byte as if it were `x`.
pub open spec fn position_spec(c: u8) -> int {
    match lower_spec(c) {
        Some(l) => letter_index(l),
        None => letter_index(LETTER_X),
    }
}

/// The letters that can stand in the square: lowercase ASCII letters but `j`.
pub open spec fn is_square_letter(c: u8) -> bool {
    LETTER_A <= c <= LETTER_Z && c != LETTER_J
}

/// The letter of the square that a byte stands for: letters fold to
/// lowercase, `j` reads as `i`, and any other byte reads as `x`.
pub open spec fn canonical(c: u8) -> u8 {
    match lower_spec(c) {
        Some(l) => if l == LETTER_J {
            LETTER_I
        } else {
            l
        },
        None => LETTER_X,
    }
}

/// The letter that a byte of the keyword contributes to the square, or `None`
/// for a non-letter, which ends the construction.
pub open spec fn key_letter(c: u8) -> Option<u8> {
    match lower_spec(c) {
        Some(l) => Some(canonical(l)),
        None => None,
    }
}

/// One byte of the construction applied to the letters placed so far: `None`
/// when the construction stops there (the square is full, or the byte is no
/// letter); otherwise the placed letters, with this one appended unless it is
/// already there.
pub open spec fn place_step(acc: Seq<u8>, b: u8) -> Option<Seq<u8>> {
    if acc.len() >= 25 {
        None
    } else {
        match key_letter(b) {
            None => None,
            Some(c) => Some(
                if acc.contains(c) {
                    acc
                } else {
                    acc.push(c)
                },
            ),
        }
    }
}

/// The letters placed after the bytes of `s`, in order, starting from `acc`.
pub open spec fn place_all(acc: Seq<u8>, s: Seq<u8>) -> Seq<u8>
    decreases s.len(),
{
    if s.len() == 0 {
        acc
    } else {
        match place_step(acc, s[0]) {
            None => acc,
            Some(next) => place_all(next, s.drop_first()),
        }
    }
}

/// The lowercase alphabet, `a` to `z`.
pub open spec fn alphabet() -> Seq<u8> {
    Seq::new(26, |i: int| (LETTER_A + i) as u8)
}

/// The letters of the key square built from `key`, by grid position: the
/// keyword followed by the alphabet, placed letter by letter.
pub open spec fn key_square(key: Seq<u8>) -> Seq<u8> {
    place_all(Seq::empty(), key + alphabet())
}

/// A complete key square: the 25 letters, each once.
pub open spec fn is_full_square(sq: Seq<u8>) -> bool {
    &&& sq.len() == 25
    &&& forall|p: int| 0 <= p < 25 ==> is_square_letter(#[trigger] sq[p])
    &&& forall|p: int, q: int| 0 <= p < q < 25 ==> sq[p] != sq[q]
}

/// The letters of the square `sq`, by cell, with zero in the cells it leaves
/// empty.
pub open spec fn symbols_of(sq: Seq<u8>) -> Seq<u8> {
    Seq::new(
        25,
        |p: int|
            if p < sq.len() {
                sq[p]
            } else {
                0
            },
    )
}

/// Whether some cell of `sq` holds the letter with index `i`.
pub open spec fn has_letter_index(sq: Seq<u8>, i: int) -> bool {
    exists|p: int| 0 <= p < sq.len() && letter_index(sq[p]) == i
}

/// The cell of each letter of the square `sq`, by letter index, or `EMPTY`
/// for a letter it does not hold.
pub open spec fn positions_of(sq: Seq<u8>) -> Seq<usize> {
    Seq::new(
        25,
        |i: int|
            if has_letter_index(sq, i) {
                (choose|p: int| 0 <= p < sq.len() && letter_index(sq[p]) == i) as usize
            } else {
                EMPTY
            },
    )
}

/// `symbol_at` (cell to letter) and `position_of` (letter index to cell)
/// are inverse bijections between the 25 cells and the 25 letters.
pub open spec fn is_bijection(symbol_at: Seq<u8>, position_of: Seq<usize>) -> bool {
    &&& symbol_at.len() == 25
    &&& position_of.len() == 25
    &&& forall|p: int|
        0 <= p < 25 ==> is_square_letter(#[trigger] symbol_at[p]) && position_of[letter_index(
            symbol_at[p],
        )] == p
    &&& forall|i: int|
        0 <= i < 25 ==> #[trigger] position_of[i] < 25 && letter_index(
            symbol_at[position_of[i] as int],
        ) == i
}

/// The grid position of the cell that holds the letter `c` stands for.
pub open spec fn cell(sq: Seq<u8>, c: u8) -> int {
    choose|p: int| 0 <= p < sq.len() && sq[p] == canonical(c)
}

/// The position one column over within the same row, wrapping round
/// (to the left when `reverse`).
pub open spec fn row_step(p: int, reverse: bool) -> int {
    p / 5 * 5 + (p % 5 + if reverse {
        4int
    } else {
        1int
    }) % 5
}

/// The position one row over within the same column, wrapping round
/// (upwards when `reverse`).
pub open spec fn column_step(p: int, reverse: bool) -> int {
    (p / 5 + if reverse {
        4int
    } else {
        1int
    }) % 5 * 5 + p % 5
}

/// The cells that the cells `pa` and `pb` (distinct) go to: in one row each
/// moves a column, in one column each moves a row, and otherwise each keeps
/// its row and takes the other's column.
pub open spec fn target_cells(pa: int, pb: int, reverse: bool) -> (int, int) {
    if pa / 5 == pb / 5 {
        (row_step(pa, reverse), row_step(pb, reverse))
    } else if pa % 5 == pb % 5 {
        (column_step(pa, reverse), column_step(pb, reverse))
    } else {
        (pa / 5 * 5 + pb % 5, pb / 5 * 5 + pa % 5)
    }
}

/// The letters in the target cells of `pa` and `pb`.
pub open spec fn substitute_cells(sq: Seq<u8>, pa: int, pb: int, reverse: bool) -> (u8, u8) {
    let t = target_cells(pa, pb, reverse);
    (sq[t.0], sq[t.1])
}

/// The Playfair substitution of the pair `(a, b)` in the square `sq`. When
/// both stand for the same letter, the second is replaced by the filler `x`,
/// or `q` when that letter is `x`. Two letters in one row each move a column,
/// two in one column each move a row, and otherwise each keeps its row and
/// takes the other's column. The outcome is `Duplicate` exactly when the two
/// bytes are equal.
pub open spec fn substitute(sq: Seq<u8>, a: u8, b: u8, reverse: bool) -> PlayfairOutcome {
    let pa = cell(sq, a);
    let q = cell(sq, b);
    let pb = if q != pa {
        q
    } else if sq[pa] == LETTER_X {
        cell(sq, LETTER_Q)
    } else {
        cell(sq, LETTER_X)
    };
    let pair = substitute_cells(sq, pa, pb, reverse);
    if a == b {
        PlayfairOutcome::Duplicate(pair)
    } else {
        PlayfairOutcome::Normal(pair)
    }
}

/// What the substitution of one pair gives: the substituted pair, and
/// whether the two input bytes were equal.
#[derive(PartialEq, Eq, Debug, Clone, Copy)]
pub enum PlayfairOutcome {
    Normal((u8, u8)),
    Duplicate((u8, u8)),
}

impl PlayfairOutcome {
    /// The substituted pair, whatever the variant.
    pub open spec fn pair(self) -> (u8, u8) {
        match self {
            PlayfairOutcome::Normal(p) => p,
            PlayfairOutcome::Duplicate(p) => p,
        }
    }

    /// The substituted pair.
    pub fn unwrap(&self) -> (r: (u8, u8))
        ensures
            r == self.pair(),
    {
        match self {
            Self::Normal((x, y)) => (*x, *y),
            Self::Duplicate((x, y)) => (*x, *y),
        }
    }

    /// Whether the two input bytes were equal, so that only the first of
    /// them is used up.
    pub fn is_duplicate(&self) -> (r: bool)
        ensures
            r == (*self is Duplicate),
    {
        !matches!(self, Self::Normal(_))
    }
}

/// ASCII case folding of letters; `None` for a non-letter.
fn lowercase(chr: u8) -> (r: Option<u8>)
    ensures
        r == lower_spec(chr),
{
    if LETTER_A <= chr && chr <= LETTER_Z {
        Some(chr)
    } else if UPPER_A <= chr && chr <= UPPER_Z {
        Some(chr + 32)
    } else {
        None
    }
}

/// The letter index under which `chr` is looked up in the square.
fn get_position(chr: u8) -> (r: usize)
    ensures
        r == position_spec(chr),
        r < 25,
{
    if let Some(chr_) = lowercase(chr) {
        if chr_ >= LETTER_J {
            (chr_ - 1 - LETTER_A) as usize
        } else {
            (chr_ - LETTER_A) as usize
        }
    } else {
        (LETTER_X - LETTER_A - 1) as usize
    }
}

/// The conditions that hold of the arrays of a key square while it is built
/// and after: the first `filled` cells hold distinct letters, each recorded
/// at its letter's index in `positions`; the other cells are zero; and every
/// index of `positions` is either `EMPTY` or the cell of its letter.
spec fn grid_inv(letters: Seq<u8>, positions: Seq<usize>, filled: int) -> bool {
    &&& letters.len() == 25
    &&& positions.len() == 25
    &&& 0 <= filled <= 25
    &&& forall|p: int|
        0 <= p < filled ==> is_square_letter(#[trigger] letters[p]) && positions[letter_index(
            letters[p],
        )] == p
    &&& forall|p: int| filled <= p < 25 ==> #[trigger] letters[p] == 0
    &&& forall|i: int|
        0 <= i < 25 ==> #[trigger] positions[i] == EMPTY || (positions[i] < filled
            && letter_index(letters[positions[i] as int]) == i)
}

/// `letter_index` maps the letters of the square one to one onto 0 to 24.
pub(crate) proof fn lemma_letter_index_injective(a: u8, b: u8)
    requires
        is_square_letter(a),
        is_square_letter(b),
    ensures
        0 <= letter_index(a) < 25,
        letter_index(a) == letter_index(b) ==> a == b,
{
}

/// Places one byte of the construction into the arrays; returns whether the
/// construction goes on.
fn place_letter(letters: &mut [u8; 25], positions: &mut [usize; 25], filled: &mut usize, b: u8) -> (go: bool)
    requires
        grid_inv(old(letters)@, old(positions)@, *old(filled) as int),
    ensures
        grid_inv(final(letters)@, final(positions)@, *final(filled) as int),
        match place_step(old(letters)@.take(*old(filled) as int), b) {
            None => !go && final(letters)@.take(*final(filled) as int) == old(letters)@.take(
                *old(filled) as int,
            ),
            Some(next) => go && final(letters)@.take(*final(filled) as int) == next,
        },
{
    let ghost acc = letters@.take(*filled as int);
    if *filled == 25 {
        return false;
    }
    let chr = match lowercase(b) {
        Some(l) => if l == LETTER_J {
            LETTER_I
        } else {
            l
        },
        None => return false,
    };
    assert(key_letter(b) == Some(chr));
    let ind = get_position(chr);
    assert(ind == letter_index(chr));
    proof {
        lemma_letter_index_injective(chr, chr);
    }
    if positions[ind] != EMPTY {
        proof {
            let p = positions@[ind as int] as int;
            lemma_letter_index_injective(letters@[p], chr);
            assert(acc[p] == chr);
        }
        return true;
    }
    assert(!acc.contains(chr)) by {
        if acc.contains(chr) {
            let p = choose|p: int| 0 <= p < acc.len() && acc[p] == chr;
            assert(letters@[p] == chr);
        }
    }
    let c = *filled;
    letters[c] = chr;
    positions[ind] = c;
    *filled = c + 1;
    proof {
        assert forall|i: int| 0 <= i < 25 implies #[trigger] positions@[i] == EMPTY || (
        positions@[i] < *filled && letter_index(letters@[positions@[i] as int]) == i) by {
            if i != ind {
                let p = old(positions)@[i];
                if p != EMPTY {
                    assert(old(letters)@[p as int] == letters@[p as int]);
                }
            }
        }
        assert forall|p: int| 0 <= p < *filled implies is_square_letter(#[trigger] letters@[p])
            && positions@[letter_index(letters@[p])] == p by {
            if p < c {
                lemma_letter_index_injective(letters@[p], chr);
            }
        }
        assert(letters@.take(*filled as int) =~= acc.push(chr));
    }
    true
}

/// The cell one column over, within the row of `p`.
fn row_shift(p: usize, reverse: bool) -> (r: usize)
    requires
        p < 25,
    ensures
        r == row_step(p as int, reverse),
        r < 25,
{
    if reverse {
        if p % 5 == 0 {
            p + 4
        } else {
            p - 1
        }
    } else {
        if p % 5 == 4 {
            p - 4
        } else {
            p + 1
        }
    }
}

/// The cell one row over, within the column of `p`.
fn column_shift(p: usize, reverse: bool) -> (r: usize)
    requires
        p < 25,
    ensures
        r == column_step(p as int, reverse),
        r < 25,
{
    if reverse {
        if p < 5 {
            p + 20
        } else {
            p - 5
        }
    } else {
        if p >= 20 {
            p - 20
        } else {
            p + 5
        }
    }
}

/// The cell in the row of `p` and the column of `q`.
fn corner(p: usize, q: usize) -> (r: usize)
    requires
        p < 25,
        q < 25,
    ensures
        r == p / 5 * 5 + q % 5,
        r < 25,
{
    assert(p / 5 * 5 + q % 5 < 25) by (nonlinear_arith)
        requires
            p < 25,
    ;
    p / 5 * 5 + q % 5
}

/// The arrays of a key square follow from the letters placed in it.
proof fn lemma_grid_determined(letters: Seq<u8>, positions: Seq<usize>, filled: int)
    requires
        grid_inv(letters, positions, filled),
    ensures
        letters == symbols_of(letters.take(filled)),
        positions == positions_of(letters.take(filled)),
{
    let sq = letters.take(filled);
    assert(letters =~= symbols_of(sq));
    assert forall|i: int| 0 <= i < 25 implies #[trigger] positions[i] == positions_of(sq)[i] by {
        if has_letter_index(sq, i) {
            let p = choose|p: int| 0 <= p < sq.len() && letter_index(sq[p]) == i;
            assert(positions[letter_index(letters[p])] == p);
        } else if positions[i] != EMPTY {
            assert(letter_index(sq[positions[i] as int]) == i);
        }
    }
    assert(positions =~= positions_of(sq));
}

/// When all 25 cells are filled, every letter has its cell.
proof fn lemma_full_grid(letters: Seq<u8>, positions: Seq<usize>)
    requires
        grid_inv(letters, positions, 25),
    ensures
        forall|i: int| 0 <= i < 25 ==> #[trigger] positions[i] < 25,
{
    let f = |p: int| letter_index(letters[p]);
    let cells = set_int_range(0, 25);
    lemma_int_range(0, 25);
    assert forall|p: int, q: int| cells.contains(p) && cells.contains(q) && #[trigger] f(p) == #[trigger] f(q) implies p == q by {
        assert(positions[letter_index(letters[p])] == p);
        assert(positions[letter_index(letters[q])] == q);
    }
    assert(injective_on(f, cells));
    let image = cells.map(f);
    lemma_map_size(cells, image, f);
    assert forall|i: int| #[trigger] image.contains(i) implies cells.contains(i) by {
        let p = choose|p: int| cells.contains(p) && f(p) == i;
        lemma_letter_index_injective(letters[p], letters[p]);
    }
    lemma_subset_equality(image, cells);
    assert forall|i: int| 0 <= i < 25 implies #[trigger] positions[i] < 25 by {
        assert(cells.contains(i));
        assert(image.contains(i));
        let p = choose|p: int| cells.contains(p) && f(p) == i;
        assert(positions[letter_index(letters[p])] == p);
    }
}

/// A 5x5 Playfair key square. Cells are numbered 0 to 24 row by row;
/// `letters_mtx` gives the letter in each cell and `positions_mtx` the cell
/// of each letter, by its `letter_index`.
pub struct Cipherer {
    letters_mtx: [u8; 25],
    positions_mtx: [usize; 25],
    filled: usize,
}

impl Cipherer {
    #[verifier::type_invariant]
    closed spec fn inv(&self) -> bool {
        &&& grid_inv(self.letters_mtx@, self.positions_mtx@, self.filled as int)
        &&& self.filled == 25 ==> forall|i: int|
            0 <= i < 25 ==> #[trigger] self.positions_mtx@[i] < 25
    }

    /// The letter in each cell, row by row (zero in a cell left empty).
    pub closed spec fn symbol_at(&self) -> Seq<u8> {
        self.letters_mtx@
    }

    /// The cell of each letter, by `letter_index` (`EMPTY` for a letter
    /// without one).
    pub closed spec fn position_of(&self) -> Seq<usize> {
        self.positions_mtx@
    }

    /// Builds the key square of `key`: the bytes of the keyword, then the
    /// alphabet, each placed in the next free cell unless its letter already
    /// has one, until all 25 cells are filled. A non-letter byte ends the
    /// construction where it stands, and the square then stays incomplete.
    pub fn with(key: &[u8]) -> (r: Self)
        ensures
            r@ == key_square(key@),
            r.symbol_at() == symbols_of(r@),
            r.position_of() == positions_of(r@),
            r@.len() == 25 ==> is_bijection(r.symbol_at(), r.position_of()),
    {
        let mut letters_mtx = [0u8; 25];
        let mut positions_mtx = [EMPTY; 25];
        let mut filled: usize = 0;
        let ghost s = key@ + alphabet();
        let ghost target = key_square(key@);
        assert(letters_mtx@.take(0) =~= Seq::<u8>::empty());
        assert(s.skip(0) =~= s);
        let mut go = true;
        let mut i: usize = 0;
        while go && i < key.len()
            invariant
                grid_inv(letters_mtx@, positions_mtx@, filled as int),
                0 <= i <= key.len(),
                s == key@ + alphabet(),
                target == place_all(Seq::empty(), s),
                go ==> place_all(letters_mtx@.take(filled as int), s.skip(i as int)) == target,
                !go ==> letters_mtx@.take(filled as int) == target,
            decreases key.len() - i,
        {
            assert(s.skip(i as int)[0] == key@[i as int]);
            assert(s.skip(i as int).drop_first() =~= s.skip(i + 1));
            go = place_letter(&mut letters_mtx, &mut positions_mtx, &mut filled, key[i]);
            i += 1;
        }
        let mut c: u8 = LETTER_A;
        while go && c <= LETTER_Z
            invariant
                grid_inv(letters_mtx@, positions_mtx@, filled as int),
                LETTER_A <= c <= LETTER_Z + 1,
                s == key@ + alphabet(),
                go ==> place_all(
                    letters_mtx@.take(filled as int),
                    s.skip(key@.len() + c - LETTER_A),
                ) == target,
                !go ==> letters_mtx@.take(filled as int) == target,
            decreases LETTER_Z + 1 - c,
        {
            assert(s.skip(key@.len() + c - LETTER_A)[0] == c);
            assert(s.skip(key@.len() + c - LETTER_A).drop_first() =~= s.skip(
                key@.len() + c + 1 - LETTER_A,
            ));
            go = place_letter(&mut letters_mtx, &mut positions_mtx, &mut filled, c);
            c += 1;
        }
        if go {
            assert(s.skip(key@.len() + 26int) =~= Seq::<u8>::empty());
        }
        proof {
            lemma_grid_determined(letters_mtx@, positions_mtx@, filled as int);
            if filled == 25 {
                lemma_full_grid(letters_mtx@, positions_mtx@);
            }
        }
        Self { letters_mtx, positions_mtx, filled }
    }
}

impl Cipherer {
    /// In a complete square, the cell of a byte is found through the
    /// positions array.
    proof fn lemma_cell(&self, c: u8)
        requires
            self.inv(),
            self@.len() == 25,
        ensures
            0 <= position_spec(c) < 25,
            cell(self@, c) == self.positions_mtx@[position_spec(c)],
            is_full_square(self@),
    {
        let sq = self@;
        let i = position_spec(c);
        lemma_letter_index_injective(canonical(c), canonical(c));
        assert(i == letter_index(canonical(c)));
        let p = self.positions_mtx@[i] as int;
        assert(self.positions_mtx@[i] < 25);
        lemma_letter_index_injective(sq[p], canonical(c));
        assert(sq[p] == canonical(c));
        let q = cell(sq, c);
        lemma_letter_index_injective(sq[q], canonical(c));
        assert(self.positions_mtx@[letter_index(self.letters_mtx@[q])] == q);
        assert forall|a: int, b: int| 0 <= a < b < 25 implies sq[a] != sq[b] by {
            assert(self.positions_mtx@[letter_index(self.letters_mtx@[a])] == a);
            assert(self.positions_mtx@[letter_index(self.letters_mtx@[b])] == b);
        }
    }

    fn substitute_cells(&self, pa: usize, pb: usize, reverse: bool) -> (r: (u8, u8))
        requires
            self@.len() == 25,
            pa < 25,
            pb < 25,
        ensures
            r == substitute_cells(self@, pa as int, pb as int, reverse),
    {
        proof {
            use_type_invariant(self);
            assert(self@ =~= self.letters_mtx@);
        }
        if pa / 5 == pb / 5 {
            (self.letters_mtx[row_shift(pa, reverse)], self.letters_mtx[row_shift(pb, reverse)])
        } else if pa % 5 == pb % 5 {
            (
                self.letters_mtx[column_shift(pa, reverse)],
                self.letters_mtx[column_shift(pb, reverse)],
            )
        } else {
            (self.letters_mtx[corner(pa, pb)], self.letters_mtx[corner(pb, pa)])
        }
    }

    /// Whether all 25 cells are filled, so that the square can cipher.
    pub fn is_complete(&self) -> (r: bool)
        ensures
            r == (self@.len() == 25),
    {
        proof {
            use_type_invariant(self);
        }
        self.filled == 25
    }

    /// Substitutes the pair `(chr1, chr2)` in this square, encoding, or
    /// decoding when `reverse`.
    pub fn cipher(&self, chr1: u8, chr2: u8, reverse: bool) -> (r: PlayfairOutcome)
        requires
            self@.len() == 25,
        ensures
            r == substitute(self@, chr1, chr2, reverse),
    {
        proof {
            use_type_invariant(self);
            self.lemma_cell(chr1);
            self.lemma_cell(chr2);
            self.lemma_cell(LETTER_Q);
            self.lemma_cell(LETTER_X);
        }
        let ghost sq = self@;
        let chr1_pos = self.positions_mtx[get_position(chr1)];
        let other_pos = self.positions_mtx[get_position(chr2)];
        let chr2_pos = if other_pos != chr1_pos {
            other_pos
        } else if self.letters_mtx[chr1_pos] == LETTER_X {
            self.positions_mtx[get_position(LETTER_Q)]
        } else {
            self.positions_mtx[get_position(LETTER_X)]
        };
        assert(chr1_pos == cell(sq, chr1));
        assert(chr2_pos != chr1_pos);
        let pair = self.substitute_cells(chr1_pos, chr2_pos, reverse);
        if chr1 == chr2 {
            PlayfairOutcome::Duplicate(pair)
        } else {
            PlayfairOutcome::Normal(pair)
        }
    }
}

impl View for Cipherer {
    type V = Seq<u8>;

    /// The letters placed in the square, by grid position.
    closed spec fn view(&self) -> Seq<u8> {
        self.letters_mtx@.take(self.filled as int)
    }
}

} // verus!
