//! A bitboard representing the occupancy of the 15 by 15 board.
use crate::util::pos::{Pos, CELLS};
use vstd::prelude::*;
use vstd::set_lib::{lemma_int_range, lemma_len_subset, set_int_range};

verus! {

broadcast use crate::util::pos::group_pos;

/// After each operation the bits above the 225 used are cleared by an
/// AND with this mask on the final 64 bit word (225 = 3 * 64 + 33).
pub const FINAL_WORD_MASK: u64 = 0x1ffffffff;

/// Bit `j` of the word `w`.
pub open spec fn bit64(w: u64, j: u64) -> bool {
    (w >> j) & 1u64 == 1u64
}

/// Bit `i` of four words laid out from the least significant bit of
/// the first word.
pub open spec fn raw_bit(b: [u64; 4], i: int) -> bool {
    0 <= i < 256 && bit64(b[i / 64], (i % 64) as u64)
}

proof fn lemma_bit_and(a: u64, b: u64, j: u64)
    requires
        j < 64,
    ensures
        bit64(a & b, j) == (bit64(a, j) && bit64(b, j)),
        bit64(a | b, j) == (bit64(a, j) || bit64(b, j)),
        bit64(a ^ b, j) == (bit64(a, j) != bit64(b, j)),
        bit64(!a, j) == !bit64(a, j),
{
    assert((((a & b) >> j) & 1u64 == 1u64 <==> ((a >> j) & 1u64 == 1u64 && (b >> j) & 1u64 == 1u64))
        && (((a | b) >> j) & 1u64 == 1u64 <==> ((a >> j) & 1u64 == 1u64 || (b >> j) & 1u64 == 1u64))
        && (((a ^ b) >> j) & 1u64 == 1u64 <==> ((a >> j) & 1u64 == 1u64) != ((b >> j) & 1u64 == 1u64))
        && (((!a) >> j) & 1u64 == 1u64 <==> !((a >> j) & 1u64 == 1u64))) by (bit_vector)
        requires
            j < 64,
    ;
}

proof fn lemma_bit_single(x: u64, j: u64, i: u64)
    requires
        j < 64,
        i < 64,
    ensures
        bit64(x | (1u64 << j), i) == (i == j || bit64(x, i)),
        bit64(x & !(1u64 << j), i) == (i != j && bit64(x, i)),
        (x & (1u64 << j) != 0) == bit64(x, j),
{
    assert(((((x | (1u64 << j)) >> i) & 1u64 == 1u64) == (i == j || (x >> i) & 1u64 == 1u64))
        && ((((x & !(1u64 << j)) >> i) & 1u64 == 1u64) == (i != j && (x >> i) & 1u64 == 1u64))
        && (((x & (1u64 << j)) != 0) == ((x >> j) & 1u64 == 1u64))) by (bit_vector)
        requires
            j < 64,
            i < 64,
    ;
}

proof fn lemma_bit_zero(j: u64)
    ensures
        !bit64(0, j),
{
    assert((0u64 >> j) & 1u64 != 1u64) by (bit_vector);
}

proof fn lemma_bit_mask(x: u64, j: u64)
    requires
        j < 64,
    ensures
        bit64(x & FINAL_WORD_MASK, j) == (j < 33 && bit64(x, j)),
        x & FINAL_WORD_MASK < 0x2_0000_0000,
        x < 0x2_0000_0000 && j >= 33 ==> !bit64(x, j),
{
    assert(((((x & 0x1ffffffffu64) >> j) & 1u64 == 1u64) == (j < 33 && (x >> j) & 1u64 == 1u64))
        && (x & 0x1ffffffffu64 < 0x2_0000_0000u64)
        && (x < 0x2_0000_0000u64 && j >= 33 ==> (x >> j) & 1u64 != 1u64)) by (bit_vector)
        requires
            j < 64,
    ;
}

proof fn lemma_bit_nonzero(x: u64)
    requires
        x != 0,
    ensures
        exists|j: u64| j < 64 && #[trigger] bit64(x, j),
        x < 0x2_0000_0000 ==> exists|j: u64| j < 33 && #[trigger] bit64(x, j),
{
    vstd::std_specs::bits::axiom_u64_trailing_zeros(x);
    let t = vstd::std_specs::bits::u64_trailing_zeros(x) as u64;
    assert(bit64(x, t));
    if x < 0x2_0000_0000 {
        lemma_bit_mask(x, t);
    }
}

/// The words after shifting four words `m` bits towards the most
/// significant end, numbering bits as in [`raw_bit`].
pub open spec fn shl_word(b: [u64; 4], m: int, w: int) -> u64 {
    let q = m / 64;
    let k = (m % 64) as u64;
    let main: u64 = if w >= q { b[w - q] << k } else { 0 };
    let carry: u64 = if k > 0 && w >= q + 1 { b[w - q - 1] >> ((64 - k) as u64) } else { 0 };
    main | carry
}

/// The words after shifting four words `m` bits towards the least
/// significant end.
pub open spec fn shr_word(b: [u64; 4], m: int, w: int) -> u64 {
    let q = m / 64;
    let k = (m % 64) as u64;
    let main: u64 = if w + q < 4 { b[w + q] >> k } else { 0 };
    let carry: u64 = if k > 0 && w + q + 1 < 4 { b[w + q + 1] << ((64 - k) as u64) } else { 0 };
    main | carry
}

proof fn lemma_shl_bits(x: u64, y: u64, k: u64, j: u64)
    requires
        0 < k < 64,
        j < 64,
    ensures
        bit64(x << k, j) == (j >= k && bit64(x, (j - k) as u64)),
        bit64(y >> ((64 - k) as u64), j) == (j < k && bit64(y, (j + 64 - k) as u64)),
{
    if j >= k {
        let d: u64 = (j - k) as u64;
        assert(((x << k) >> j) & 1u64 == (x >> d) & 1u64) by (bit_vector)
            requires
                d + k == j,
                k < 64,
                j < 64,
        ;
    } else {
        assert(((x << k) >> j) & 1u64 == 0u64) by (bit_vector)
            requires
                j < k,
                k < 64,
        ;
    }
    let s: u64 = (64 - k) as u64;
    if j < k {
        let d: u64 = (j + 64 - k) as u64;
        assert(((y >> s) >> j) & 1u64 == (y >> d) & 1u64) by (bit_vector)
            requires
                d == j + s,
                d < 64,
        ;
    } else {
        assert(((y >> s) >> j) & 1u64 == 0u64) by (bit_vector)
            requires
                j + s >= 64,
                j < 64,
                s < 64,
        ;
    }
}

proof fn lemma_shr_bits(x: u64, y: u64, k: u64, j: u64)
    requires
        0 < k < 64,
        j < 64,
    ensures
        bit64(x >> k, j) == (j + k < 64 && bit64(x, (j + k) as u64)),
        bit64(y << ((64 - k) as u64), j) == (j + k >= 64 && bit64(y, (j + k - 64) as u64)),
{
    if j + k < 64 {
        let d: u64 = (j + k) as u64;
        assert(((x >> k) >> j) & 1u64 == (x >> d) & 1u64) by (bit_vector)
            requires
                d == j + k,
                d < 64,
        ;
    } else {
        assert(((x >> k) >> j) & 1u64 == 0u64) by (bit_vector)
            requires
                j + k >= 64,
                j < 64,
                k < 64,
        ;
    }
    let s: u64 = (64 - k) as u64;
    if j >= s {
        let d: u64 = (j - s) as u64;
        assert(((y << s) >> j) & 1u64 == (y >> d) & 1u64) by (bit_vector)
            requires
                d + s == j,
                j < 64,
        ;
    } else {
        assert(((y << s) >> j) & 1u64 == 0u64) by (bit_vector)
            requires
                j < s,
                s < 64,
        ;
    }
}

proof fn lemma_shift_zero(x: u64)
    ensures
        x << 0u64 == x,
        x >> 0u64 == x,
        x | 0 == x,
        0u64 | x == x,
{
    assert(x << 0u64 == x && x >> 0u64 == x && x | 0 == x && 0u64 | x == x) by (bit_vector);
}

/// Bit `g` of the words shifted `m` towards the most significant end is
/// bit `g - m` of the given words.
proof fn lemma_shl_word_bit(b: [u64; 4], m: int, g: int)
    requires
        0 <= m < 256,
        0 <= g < 256,
    ensures
        bit64(shl_word(b, m, g / 64), (g % 64) as u64) == (g >= m && raw_bit(b, g - m)),
{
    let w = g / 64;
    let j = (g % 64) as u64;
    let q = m / 64;
    let k = (m % 64) as u64;
    let main: u64 = if w >= q { b[w - q] << k } else { 0 };
    let carry: u64 = if k > 0 && w >= q + 1 { b[w - q - 1] >> ((64 - k) as u64) } else { 0 };
    lemma_bit_and(main, carry, j);
    lemma_bit_zero(j);
    if k == 0 {
        if w >= q {
            lemma_shift_zero(b[w - q]);
        }
    } else {
        if w >= q {
            lemma_shl_bits(b[w - q], 0, k, j);
        }
        if w >= q + 1 {
            lemma_shl_bits(0, b[w - q - 1], k, j);
        }
    }
}

/// Bit `g` of the words shifted `m` towards the least significant end is
/// bit `g + m` of the given words.
proof fn lemma_shr_word_bit(b: [u64; 4], m: int, g: int)
    requires
        0 <= m < 256,
        0 <= g < 256,
    ensures
        bit64(shr_word(b, m, g / 64), (g % 64) as u64) == raw_bit(b, g + m),
{
    let w = g / 64;
    let j = (g % 64) as u64;
    let q = m / 64;
    let k = (m % 64) as u64;
    let main: u64 = if w + q < 4 { b[w + q] >> k } else { 0 };
    let carry: u64 = if k > 0 && w + q + 1 < 4 { b[w + q + 1] << ((64 - k) as u64) } else { 0 };
    lemma_bit_and(main, carry, j);
    lemma_bit_zero(j);
    if k == 0 {
        if w + q < 4 {
            lemma_shift_zero(b[w + q]);
        }
    } else {
        if w + q < 4 {
            lemma_shr_bits(b[w + q], 0, k, j);
        }
        if w + q + 1 < 4 {
            lemma_shr_bits(0, b[w + q + 1], k, j);
        }
    }
}

/// A scrabble board has 15 * 15 = 225 squares, held in the low bits of
/// four 64 bit words (256 bits). Using integer types allows for efficient
/// move generation, validation and scoring.
#[derive(Default, Clone, Copy, PartialEq, Eq, Debug)]
pub struct BitBoard {
    boards: [u64; 4],
}

impl BitBoard {
    #[verifier::type_invariant]
    spec fn inv(self) -> bool {
        self.boards[3] < 0x2_0000_0000
    }

    /// The set of squares (numbered `0..225`) whose bit is set.
    pub closed spec fn view(&self) -> Set<int> {
        Set::new(|i: int| 0 <= i < 225 && raw_bit(self.boards, i))
    }

    /// Only squares of the board can be in a bitboard.
    pub broadcast proof fn lemma_view_bounded(b: BitBoard)
        ensures
            #![trigger b@]
            b@.subset_of(set_int_range(0, 225)),
            b@.finite(),
    {
        lemma_int_range(0, 225);
        lemma_len_subset(b@, set_int_range(0, 225));
    }

    /// An empty bitboard.
    pub fn zero() -> (b: BitBoard)
        ensures
            b@ == Set::<int>::empty(),
    {
        let b = BitBoard { boards: [0, 0, 0, 0] };
        proof {
            assert forall|i: int| 0 <= i < 256 implies !raw_bit(b.boards, i) by {
                lemma_bit_zero((i % 64) as u64);
            }
            assert(b@ =~= Set::<int>::empty());
        }
        b
    }

    /// The four words holding the bits, least significant square first.
    pub closed spec fn spec_words(&self) -> [u64; 4] {
        self.boards
    }

    /// A bitboard from its four words; the last holds the squares from
    /// 192, in its 33 low bits.
    pub fn from_words(words: [u64; 4]) -> (b: BitBoard)
        requires
            words[3] < 0x2_0000_0000,
        ensures
            b.spec_words() == words,
            b@ == Set::new(|i: int| 0 <= i < 225 && raw_bit(words, i)),
    {
        BitBoard { boards: words }
    }

    /// Gets the four words holding the bits.
    pub fn words(&self) -> (r: [u64; 4])
        ensures
            r == self.spec_words(),
            self@ == Set::new(|i: int| 0 <= i < 225 && raw_bit(r, i)),
            r[3] < 0x2_0000_0000,
    {
        proof {
            use_type_invariant(self);
        }
        self.boards
    }

    /// Gets the bit at `pos`. `true` if the bit is set.
    pub fn is_set(&self, pos: Pos) -> (r: bool)
        ensures
            r == self@.contains(pos@),
    {
        let idx = pos.index();
        let w = self.boards[idx / 64];
        let j: u64 = (idx % 64) as u64;
        proof {
            lemma_bit_single(w, j, j);
        }
        (w & (1u64 << j)) != 0
    }

    /// Sets the bit at `pos` to 1.
    pub fn set(&mut self, pos: Pos)
        ensures
            final(self)@ == old(self)@.insert(pos@),
    {
        proof {
            use_type_invariant(&*self);
        }
        let idx = pos.index();
        let wi = idx / 64;
        let j: u64 = (idx % 64) as u64;
        let mut boards = self.boards;
        boards[wi] = boards[wi] | (1u64 << j);
        proof {
            let old_b = self.boards;
            assert forall|i: int| 0 <= i < 256 implies raw_bit(boards, i) == (i == idx || raw_bit(old_b, i)) by {
                if i / 64 == wi {
                    lemma_bit_single(old_b[wi as int], j, (i % 64) as u64);
                }
            }
            if wi == 3 {
                let nb: u64 = boards[3];
                let ob: u64 = old_b[3];
                assert(nb < 0x2_0000_0000) by (bit_vector)
                    requires
                        nb == ob | (1u64 << j),
                        ob < 0x2_0000_0000,
                        j < 33,
                ;
            }
        }
        *self = BitBoard { boards };
        assert(self@ =~= old(self)@.insert(pos@));
    }

    /// Sets the bit at `pos` to 0.
    pub fn clear(&mut self, pos: Pos)
        ensures
            final(self)@ == old(self)@.remove(pos@),
    {
        proof {
            use_type_invariant(&*self);
        }
        let idx = pos.index();
        let wi = idx / 64;
        let j: u64 = (idx % 64) as u64;
        let mut boards = self.boards;
        boards[wi] = boards[wi] & !(1u64 << j);
        proof {
            let old_b = self.boards;
            assert forall|i: int| 0 <= i < 256 implies raw_bit(boards, i) == (i != idx && raw_bit(old_b, i)) by {
                if i / 64 == wi {
                    lemma_bit_single(old_b[wi as int], j, (i % 64) as u64);
                }
            }
            if wi == 3 {
                let nb: u64 = boards[3];
                let ob: u64 = old_b[3];
                assert(nb < 0x2_0000_0000) by (bit_vector)
                    requires
                        nb == ob & !(1u64 << j),
                        ob < 0x2_0000_0000,
                ;
            }
        }
        *self = BitBoard { boards };
        assert(self@ =~= old(self)@.remove(pos@));
    }
}


/// The squares directly after (`+ m`) those of `s` that stay on the board.
pub open spec fn shifted_up(s: Set<int>, m: int) -> Set<int> {
    Set::new(|i: int| 0 <= i < 225 && i >= m && s.contains(i - m))
}

/// The squares directly before (`- m`) those of `s`.
pub open spec fn shifted_down(s: Set<int>, m: int) -> Set<int> {
    Set::new(|i: int| 0 <= i < 225 && s.contains(i + m))
}

/// All squares of the board.
pub open spec fn all_squares() -> Set<int> {
    set_int_range(0, 225)
}

/// The squares of column `c`.
pub open spec fn column(c: int) -> Set<int> {
    Set::new(|i: int| 0 <= i < 225 && i % 15 == c)
}

/// The squares of row `r`.
pub open spec fn row(r: int) -> Set<int> {
    Set::new(|i: int| 0 <= i < 225 && i / 15 == r)
}

fn shl_word_exec(b: &[u64; 4], m: usize, w: usize) -> (r: u64)
    requires
        m < 256,
        w < 4,
    ensures
        r == shl_word(*b, m as int, w as int),
{
    let q = m / 64;
    let k: u64 = (m % 64) as u64;
    let main: u64 = if w >= q { b[w - q] << k } else { 0 };
    let carry: u64 = if k > 0 && w >= q + 1 { b[w - q - 1] >> (64 - k) } else { 0 };
    main | carry
}

fn shr_word_exec(b: &[u64; 4], m: usize, w: usize) -> (r: u64)
    requires
        m < 256,
        w < 4,
    ensures
        r == shr_word(*b, m as int, w as int),
{
    let q = m / 64;
    let k: u64 = (m % 64) as u64;
    let main: u64 = if w + q < 4 { b[w + q] >> k } else { 0 };
    let carry: u64 = if k > 0 && w + q + 1 < 4 { b[w + q + 1] << (64 - k) } else { 0 };
    main | carry
}

impl BitBoard {
    /// The words of the bitboard `a & b`.
    pub closed spec fn spec_and(self, rhs: BitBoard) -> BitBoard {
        BitBoard {
            boards: [
                self.boards[0] & rhs.boards[0],
                self.boards[1] & rhs.boards[1],
                self.boards[2] & rhs.boards[2],
                self.boards[3] & rhs.boards[3],
            ],
        }
    }

    /// The words of the bitboard `a | b`.
    pub closed spec fn spec_or(self, rhs: BitBoard) -> BitBoard {
        BitBoard {
            boards: [
                self.boards[0] | rhs.boards[0],
                self.boards[1] | rhs.boards[1],
                self.boards[2] | rhs.boards[2],
                self.boards[3] | rhs.boards[3],
            ],
        }
    }

    /// The words of the bitboard `a ^ b`.
    pub closed spec fn spec_xor(self, rhs: BitBoard) -> BitBoard {
        BitBoard {
            boards: [
                self.boards[0] ^ rhs.boards[0],
                self.boards[1] ^ rhs.boards[1],
                self.boards[2] ^ rhs.boards[2],
                self.boards[3] ^ rhs.boards[3],
            ],
        }
    }

    /// The words of the bitboard `!a`.
    pub closed spec fn spec_not(self) -> BitBoard {
        BitBoard {
            boards: [
                !self.boards[0],
                !self.boards[1],
                !self.boards[2],
                !self.boards[3] & FINAL_WORD_MASK,
            ],
        }
    }

    /// The words of the bitboard `a << n`.
    pub closed spec fn spec_shl(self, n: usize) -> BitBoard {
        let m = (n % 256) as int;
        BitBoard {
            boards: [
                shl_word(self.boards, m, 0),
                shl_word(self.boards, m, 1),
                shl_word(self.boards, m, 2),
                shl_word(self.boards, m, 3) & FINAL_WORD_MASK,
            ],
        }
    }

    /// The words of the bitboard `a >> n`.
    pub closed spec fn spec_shr(self, n: usize) -> BitBoard {
        let m = (n % 256) as int;
        BitBoard {
            boards: [
                shr_word(self.boards, m, 0),
                shr_word(self.boards, m, 1),
                shr_word(self.boards, m, 2),
                shr_word(self.boards, m, 3) & FINAL_WORD_MASK,
            ],
        }
    }

    /// A bitboard is its words: boards with the same words are equal.
    pub proof fn lemma_words_determine(a: BitBoard, b: BitBoard)
        requires
            a.spec_words() == b.spec_words(),
        ensures
            a == b,
    {
    }

    /// Two bitboards with the same squares, and nothing set above the last
    /// square (as [`BitBoard::words`] promises of every bitboard), are
    /// equal.
    pub proof fn lemma_view_determines(a: BitBoard, b: BitBoard)
        requires
            a.spec_words()[3] < 0x2_0000_0000,
            b.spec_words()[3] < 0x2_0000_0000,
            a@ == b@,
        ensures
            a == b,
    {
        assert forall|w: int| 0 <= w < 4 implies a.boards[w] == b.boards[w] by {
            let x = a.boards[w];
            let y = b.boards[w];
            if x != y {
                assert(x != y ==> x ^ y != 0) by (bit_vector);
                lemma_bit_nonzero(x ^ y);
                let j = choose|j: u64| j < 64 && #[trigger] bit64(x ^ y, j);
                lemma_bit_and(x, y, j);
                let i = 64 * w + j;
                assert(i / 64 == w && i % 64 == j);
                if i < 225 {
                    assert(a@.contains(i) == raw_bit(a.boards, i));
                    assert(b@.contains(i) == raw_bit(b.boards, i));
                } else {
                    lemma_bit_mask(x, j);
                    lemma_bit_mask(y, j);
                }
            }
        }
        assert(a.boards =~= b.boards);
    }

    /// The words of the results of the bitwise operations: word by word for
    /// `&`, `|` and `^`; for `!`, with the bits above the last square
    /// cleared; for shifts by `n`, the four words moved `n % 256` bits, the
    /// last one masked likewise.
    pub proof fn lemma_op_words(a: BitBoard, b: BitBoard, n: usize)
        ensures
            a.spec_and(b).spec_words() == [
                a.spec_words()[0] & b.spec_words()[0],
                a.spec_words()[1] & b.spec_words()[1],
                a.spec_words()[2] & b.spec_words()[2],
                a.spec_words()[3] & b.spec_words()[3],
            ],
            a.spec_or(b).spec_words() == [
                a.spec_words()[0] | b.spec_words()[0],
                a.spec_words()[1] | b.spec_words()[1],
                a.spec_words()[2] | b.spec_words()[2],
                a.spec_words()[3] | b.spec_words()[3],
            ],
            a.spec_xor(b).spec_words() == [
                a.spec_words()[0] ^ b.spec_words()[0],
                a.spec_words()[1] ^ b.spec_words()[1],
                a.spec_words()[2] ^ b.spec_words()[2],
                a.spec_words()[3] ^ b.spec_words()[3],
            ],
            a.spec_not().spec_words() == [
                !a.spec_words()[0],
                !a.spec_words()[1],
                !a.spec_words()[2],
                !a.spec_words()[3] & FINAL_WORD_MASK,
            ],
            a.spec_shl(n).spec_words() == [
                shl_word(a.spec_words(), (n % 256) as int, 0),
                shl_word(a.spec_words(), (n % 256) as int, 1),
                shl_word(a.spec_words(), (n % 256) as int, 2),
                shl_word(a.spec_words(), (n % 256) as int, 3) & FINAL_WORD_MASK,
            ],
            a.spec_shr(n).spec_words() == [
                shr_word(a.spec_words(), (n % 256) as int, 0),
                shr_word(a.spec_words(), (n % 256) as int, 1),
                shr_word(a.spec_words(), (n % 256) as int, 2),
                shr_word(a.spec_words(), (n % 256) as int, 3) & FINAL_WORD_MASK,
            ],
    {
    }

    /// The squares of `a & b` are those of both.
    pub broadcast proof fn lemma_spec_and(a: BitBoard, b: BitBoard)
        ensures
            #[trigger] a.spec_and(b)@ == a@.intersect(b@),
    {
        let r = a.spec_and(b);
        assert forall|i: int| 0 <= i < 256 implies raw_bit(r.boards, i) == (raw_bit(a.boards, i)
            && raw_bit(b.boards, i)) by {
            lemma_bit_and(a.boards[i / 64], b.boards[i / 64], (i % 64) as u64);
        }
        assert(r@ =~= a@.intersect(b@));
    }

    /// The squares of `a | b` are those of either.
    pub broadcast proof fn lemma_spec_or(a: BitBoard, b: BitBoard)
        ensures
            #[trigger] a.spec_or(b)@ == a@.union(b@),
    {
        let r = a.spec_or(b);
        assert forall|i: int| 0 <= i < 256 implies raw_bit(r.boards, i) == (raw_bit(a.boards, i)
            || raw_bit(b.boards, i)) by {
            lemma_bit_and(a.boards[i / 64], b.boards[i / 64], (i % 64) as u64);
        }
        assert(r@ =~= a@.union(b@));
    }

    /// The squares of `a ^ b` are those of exactly one.
    pub broadcast proof fn lemma_spec_xor(a: BitBoard, b: BitBoard)
        ensures
            #[trigger] a.spec_xor(b)@ == a@.difference(b@).union(b@.difference(a@)),
    {
        let r = a.spec_xor(b);
        assert forall|i: int| 0 <= i < 256 implies raw_bit(r.boards, i) == (raw_bit(a.boards, i)
            != raw_bit(b.boards, i)) by {
            lemma_bit_and(a.boards[i / 64], b.boards[i / 64], (i % 64) as u64);
        }
        assert(r@ =~= a@.difference(b@).union(b@.difference(a@)));
    }

    /// The squares of `!a` are the squares of the board not in `a`.
    pub broadcast proof fn lemma_spec_not(a: BitBoard)
        ensures
            #[trigger] a.spec_not()@ == all_squares().difference(a@),
    {
        let r = a.spec_not();
        assert forall|i: int| 0 <= i < 225 implies raw_bit(r.boards, i) == !raw_bit(a.boards, i) by {
            let j = (i % 64) as u64;
            lemma_bit_and(a.boards[i / 64], 0, j);
            if i / 64 == 3 {
                lemma_bit_mask(!a.boards[3], j);
            }
        }
        assert(r@ =~= all_squares().difference(a@));
    }

    /// The squares of `a << n` are those of `a` moved `n % 256` forward.
    pub broadcast proof fn lemma_spec_shl(a: BitBoard, n: usize)
        ensures
            #[trigger] a.spec_shl(n)@ == shifted_up(a@, (n % 256) as int),
    {
        let m = (n % 256) as int;
        let r = a.spec_shl(n);
        assert forall|i: int| 0 <= i < 225 implies raw_bit(r.boards, i) == (i >= m && raw_bit(
            a.boards,
            i - m,
        )) by {
            lemma_shl_word_bit(a.boards, m, i);
            if i / 64 == 3 {
                lemma_bit_mask(shl_word(a.boards, m, 3), (i % 64) as u64);
            }
        }
        assert(r@ =~= shifted_up(a@, m));
    }

    /// The squares of `a >> n` are those of `a` moved `n % 256` back.
    proof fn lemma_spec_shr(a: BitBoard, n: usize)
        requires
            a.inv(),
        ensures
            a.spec_shr(n)@ == shifted_down(a@, (n % 256) as int),
    {
        let m = (n % 256) as int;
        let r = a.spec_shr(n);
        assert forall|i: int| 0 <= i < 225 implies raw_bit(r.boards, i) == raw_bit(a.boards, i + m)
            by {
            lemma_shr_word_bit(a.boards, m, i);
            if i / 64 == 3 {
                lemma_bit_mask(shr_word(a.boards, m, 3), (i % 64) as u64);
            }
        }
        assert forall|i: int| 0 <= i < 225 implies (#[trigger] r@.contains(i)) == shifted_down(a@, m).contains(i) by {
            if raw_bit(a.boards, i + m) && i + m >= 225 {
                lemma_bit_mask(a.boards[3], ((i + m) % 64) as u64);
            }
        }
        assert(r@ =~= shifted_down(a@, m));
    }

    /// Keeps the squares that are in both.
    pub fn and(self, rhs: BitBoard) -> (r: BitBoard)
        ensures
            r == self.spec_and(rhs),
            r@ == self@.intersect(rhs@),
    {
        proof {
            use_type_invariant(&self);
            let x = self.boards[3];
            let y = rhs.boards[3];
            assert(x < 0x2_0000_0000 ==> x & y < 0x2_0000_0000) by (bit_vector);
        }
        let r = BitBoard {
            boards: [
                self.boards[0] & rhs.boards[0],
                self.boards[1] & rhs.boards[1],
                self.boards[2] & rhs.boards[2],
                self.boards[3] & rhs.boards[3],
            ],
        };
        proof {
            BitBoard::lemma_spec_and(self, rhs);
        }
        r
    }

    /// Keeps the squares that are in either.
    pub fn or(self, rhs: BitBoard) -> (r: BitBoard)
        ensures
            r == self.spec_or(rhs),
            r@ == self@.union(rhs@),
    {
        proof {
            use_type_invariant(&self);
            use_type_invariant(&rhs);
            let x = self.boards[3];
            let y = rhs.boards[3];
            assert(x < 0x2_0000_0000 && y < 0x2_0000_0000 ==> x | y < 0x2_0000_0000) by (bit_vector);
        }
        let r = BitBoard {
            boards: [
                self.boards[0] | rhs.boards[0],
                self.boards[1] | rhs.boards[1],
                self.boards[2] | rhs.boards[2],
                self.boards[3] | rhs.boards[3],
            ],
        };
        proof {
            BitBoard::lemma_spec_or(self, rhs);
        }
        r
    }

    /// Keeps the squares that are in exactly one.
    pub fn xor(self, rhs: BitBoard) -> (r: BitBoard)
        ensures
            r == self.spec_xor(rhs),
            r@ == self@.difference(rhs@).union(rhs@.difference(self@)),
    {
        proof {
            use_type_invariant(&self);
            use_type_invariant(&rhs);
            let x = self.boards[3];
            let y = rhs.boards[3];
            assert(x < 0x2_0000_0000 && y < 0x2_0000_0000 ==> x ^ y < 0x2_0000_0000) by (bit_vector);
        }
        let r = BitBoard {
            boards: [
                self.boards[0] ^ rhs.boards[0],
                self.boards[1] ^ rhs.boards[1],
                self.boards[2] ^ rhs.boards[2],
                self.boards[3] ^ rhs.boards[3],
            ],
        };
        proof {
            BitBoard::lemma_spec_xor(self, rhs);
        }
        r
    }

    /// The squares of the board that are not in `self`.
    pub fn not(self) -> (r: BitBoard)
        ensures
            r == self.spec_not(),
            r@ == all_squares().difference(self@),
    {
        proof {
            lemma_bit_mask(!self.boards[3], 0);
        }
        let r = BitBoard {
            boards: [!self.boards[0], !self.boards[1], !self.boards[2], !self.boards[3] & FINAL_WORD_MASK],
        };
        proof {
            BitBoard::lemma_spec_not(self);
        }
        r
    }

    /// Moves every square `n % 256` places forward (towards the bottom
    /// right), dropping those that leave the board.
    pub fn shl(self, n: usize) -> (r: BitBoard)
        ensures
            r == self.spec_shl(n),
            r@ == shifted_up(self@, (n % 256) as int),
    {
        let m = n % 256;
        let b = self.boards;
        let w3 = shl_word_exec(&b, m, 3);
        proof {
            lemma_bit_mask(w3, 0);
        }
        let r = BitBoard {
            boards: [shl_word_exec(&b, m, 0), shl_word_exec(&b, m, 1), shl_word_exec(&b, m, 2), w3 & FINAL_WORD_MASK],
        };
        proof {
            BitBoard::lemma_spec_shl(self, n);
        }
        r
    }

    /// Moves every square `n % 256` places back (towards the top left),
    /// dropping those that leave the board.
    pub fn shr(self, n: usize) -> (r: BitBoard)
        ensures
            r == self.spec_shr(n),
            r@ == shifted_down(self@, (n % 256) as int),
    {
        proof {
            use_type_invariant(&self);
        }
        let m = n % 256;
        let b = self.boards;
        let w3 = shr_word_exec(&b, m, 3);
        proof {
            lemma_bit_mask(w3, 0);
        }
        let r = BitBoard {
            boards: [shr_word_exec(&b, m, 0), shr_word_exec(&b, m, 1), shr_word_exec(&b, m, 2), w3 & FINAL_WORD_MASK],
        };
        proof {
            BitBoard::lemma_spec_shr(self, n);
        }
        r
    }

    /// Checks whether all the bits are set to zero.
    pub fn is_zero(&self) -> (r: bool)
        ensures
            r == (self@ == Set::<int>::empty()),
    {
        proof {
            use_type_invariant(self);
        }
        let r = self.boards[0] == 0 && self.boards[1] == 0 && self.boards[2] == 0 && self.boards[3] == 0;
        proof {
            if r {
                assert forall|i: int| 0 <= i < 256 implies !raw_bit(self.boards, i) by {
                    lemma_bit_zero((i % 64) as u64);
                }
                assert(self@ =~= Set::<int>::empty());
            } else {
                let w: int = if self.boards[0] != 0 { 0 } else if self.boards[1] != 0 { 1 } else if self.boards[2] != 0 { 2 } else { 3 };
                lemma_bit_nonzero(self.boards[w]);
                let j = choose|j: u64| j < 64 && #[trigger] bit64(self.boards[w], j) && (w == 3 ==> j < 33);
                let g = 64 * w + j;
                assert(g / 64 == w && g % 64 == j);
                assert(self@.contains(g));
            }
        }
        r
    }

    /// Checks whether the current board and `other` have any square in
    /// common.
    pub fn intersects(&self, other: &Self) -> (r: bool)
        ensures
            r == !self@.disjoint(other@),
    {
        let both = self.and(*other);
        let z = both.is_zero();
        proof {
            if z {
                assert forall|i: int| !(self@.contains(i) && other@.contains(i)) by {
                    assert(!both@.contains(i));
                }
            } else {
                if self@.disjoint(other@) {
                    assert(both@ =~= Set::<int>::empty());
                }
            }
        }
        !z
    }

    /// Counts the number of squares that are set on the board.
    pub fn bit_count(&self) -> (r: usize)
        ensures
            r == self@.len(),
    {
        let mut count: usize = 0;
        let mut i: usize = 0;
        proof {
            assert(Set::new(|x: int| self@.contains(x) && x < 0) =~= Set::<int>::empty());
        }
        while i < CELLS
            invariant
                i <= 225,
                count <= i,
                count == Set::new(|x: int| self@.contains(x) && x < i).len(),
                Set::new(|x: int| self@.contains(x) && x < i).finite(),
            decreases 225 - i,
        {
            let ghost before = Set::new(|x: int| self@.contains(x) && x < i);
            let ghost after = Set::new(|x: int| self@.contains(x) && x < i + 1);
            if self.is_set(Pos::from_usize(i)) {
                proof {
                    assert(after =~= before.insert(i as int));
                }
                count = count + 1;
            } else {
                proof {
                    assert(after =~= before);
                }
            }
            i = i + 1;
        }
        proof {
            BitBoard::lemma_view_bounded(*self);
            assert(Set::new(|x: int| self@.contains(x) && x < 225) =~= self@);
        }
        count
    }

    /// Creates a bitboard with exactly the squares of `positions`.
    pub fn from_positions(positions: &[Pos]) -> (b: BitBoard)
        ensures
            forall|i: int| #[trigger] b@.contains(i) <==> exists|k: int| 0 <= k < positions@.len() && (#[trigger] positions@[k])@ == i,
    {
        let mut b = BitBoard::zero();
        let mut k: usize = 0;
        while k < positions.len()
            invariant
                k <= positions@.len(),
                forall|i: int| #[trigger] b@.contains(i) <==> exists|j: int| 0 <= j < k && (#[trigger] positions@[j])@ == i,
            decreases positions@.len() - k,
        {
            b.set(positions[k]);
            k = k + 1;
            assert forall|i: int| #[trigger] b@.contains(i) implies exists|j: int| 0 <= j < k && (#[trigger] positions@[j])@ == i by {
                if i == positions@[k - 1]@ {
                    assert(positions@[k - 1]@ == i);
                }
            }
        }
        b
    }

    /// A full bitboard.
    pub fn full() -> (b: BitBoard)
        ensures
            b@ == all_squares(),
    {
        let z = BitBoard::zero();
        let b = z.not();
        assert(b@ =~= all_squares());
        b
    }

    /// Only the squares of column `c`.
    fn column_board(c: usize) -> (b: BitBoard)
        requires
            c < 15,
        ensures
            b@ == column(c as int),
    {
        let mut b = BitBoard::zero();
        let mut r: usize = 0;
        while r < 15
            invariant
                r <= 15,
                c < 15,
                b@ == Set::new(|i: int| 0 <= i < 15 * r && i % 15 == c),
            decreases 15 - r,
        {
            let p = Pos::from_usize(r * 15 + c);
            b.set(p);
            r = r + 1;
            assert(b@ =~= Set::new(|i: int| 0 <= i < 15 * r && i % 15 == c));
        }
        assert(b@ =~= column(c as int));
        b
    }

    /// Only the left column.
    pub fn left_col() -> (b: BitBoard)
        ensures
            b@ == column(0),
    {
        Self::column_board(0)
    }

    /// Only the right column.
    pub fn right_col() -> (b: BitBoard)
        ensures
            b@ == column(14),
    {
        Self::column_board(14)
    }

    /// Only the top row.
    pub fn top_row() -> (b: BitBoard)
        ensures
            b@ == row(0),
    {
        let mut b = BitBoard::zero();
        let mut c: usize = 0;
        while c < 15
            invariant
                c <= 15,
                b@ == Set::new(|i: int| 0 <= i < c),
            decreases 15 - c,
        {
            b.set(Pos::from_usize(c));
            c = c + 1;
            assert(b@ =~= Set::new(|i: int| 0 <= i < c));
        }
        assert(b@ =~= row(0));
        b
    }

    /// Only the bottom row.
    pub fn bottom_row() -> (b: BitBoard)
        ensures
            b@ == row(14),
    {
        let b = Self::top_row().shl(210);
        assert(b@ =~= row(14));
        b
    }
}


/// Whether square `i` has a square of `s` directly to its right in the
/// same row.
pub open spec fn has_right(s: Set<int>, i: int) -> bool {
    i % 15 != 14 && s.contains(i + 1)
}

/// Whether square `i` has a square of `s` directly to its left in the
/// same row.
pub open spec fn has_left(s: Set<int>, i: int) -> bool {
    i % 15 != 0 && s.contains(i - 1)
}

/// The squares directly above a square of `s`.
pub open spec fn north_of(s: Set<int>) -> Set<int> {
    Set::new(|i: int| 0 <= i < 225 && s.contains(i + 15))
}

/// The squares directly below a square of `s`.
pub open spec fn south_of(s: Set<int>) -> Set<int> {
    Set::new(|i: int| 0 <= i < 225 && s.contains(i - 15))
}

/// The squares directly left of a square of `s`, in the same row.
pub open spec fn west_of(s: Set<int>) -> Set<int> {
    Set::new(|i: int| 0 <= i < 225 && has_right(s, i))
}

/// The squares directly right of a square of `s`, in the same row.
pub open spec fn east_of(s: Set<int>) -> Set<int> {
    Set::new(|i: int| 0 <= i < 225 && has_left(s, i))
}

/// The squares of `s` that end a horizontal run of two or more squares:
/// those with a neighbour on exactly one side in their row.
pub open spec fn word_ends(s: Set<int>) -> Set<int> {
    Set::new(|i: int| s.contains(i) && has_right(s, i) != has_left(s, i))
}

impl BitBoard {
    /// Calculates the squares that start or end a horizontal word of two or
    /// more letters: occupied squares with an occupied neighbour on exactly
    /// one side in their row. Vertical words are found by first swapping
    /// rows and columns of the occupancy.
    pub fn words_h(self) -> (r: BitBoard)
        ensures
            r@ == word_ends(self@),
    {
        let starts_h = self.shr(1).and(Self::right_col().not());
        let ends_h = self.shl(1).and(Self::left_col().not());
        let r = self.and(starts_h.xor(ends_h));
        proof {
            BitBoard::lemma_view_bounded(self);
            assert(r@ =~= word_ends(self@));
        }
        r
    }

    /// Calculates the set of tiles with no tile to the immediate left.
    pub fn word_starts_h(self) -> (r: BitBoard)
        ensures
            r@ == Set::new(|i: int| self@.contains(i) && !has_left(self@, i)),
    {
        let r = self.and(self.shl(1).not().or(Self::left_col()));
        proof {
            BitBoard::lemma_view_bounded(self);
            assert(r@ =~= Set::new(|i: int| self@.contains(i) && !has_left(self@, i)));
        }
        r
    }

    /// Calculates the set of tiles with no tile to the immediate right.
    pub fn word_ends_h(self) -> (r: BitBoard)
        ensures
            r@ == Set::new(|i: int| self@.contains(i) && !has_right(self@, i)),
    {
        let r = self.and(self.shr(1).not().or(Self::right_col()));
        proof {
            BitBoard::lemma_view_bounded(self);
            assert(r@ =~= Set::new(|i: int| self@.contains(i) && !has_right(self@, i)));
        }
        r
    }

    /// Gets the set of squares that are directly above.
    pub fn north(self) -> (r: BitBoard)
        ensures
            r@ == north_of(self@),
    {
        let r = self.shr(15);
        assert(r@ =~= north_of(self@));
        r
    }

    /// Gets the set of squares that are directly below.
    pub fn south(self) -> (r: BitBoard)
        ensures
            r@ == south_of(self@),
    {
        let r = self.shl(15);
        proof {
            BitBoard::lemma_view_bounded(self);
            assert(r@ =~= south_of(self@));
        }
        r
    }

    /// Gets the set of squares that are directly to the left.
    pub fn west(self) -> (r: BitBoard)
        ensures
            r@ == west_of(self@),
    {
        let r = self.and(Self::left_col().not()).shr(1);
        assert(r@ =~= west_of(self@));
        r
    }

    /// Gets the set of squares that are directly to the right.
    pub fn east(self) -> (r: BitBoard)
        ensures
            r@ == east_of(self@),
    {
        let r = self.and(Self::right_col().not()).shl(1);
        proof {
            BitBoard::lemma_view_bounded(self);
            assert(r@ =~= east_of(self@));
        }
        r
    }

    /// Gets the squares next to a square of `self` in one of the four
    /// orthogonal directions, that are not themselves in `self`.
    pub fn neighbours(self) -> (r: BitBoard)
        ensures
            r@ == north_of(self@).union(south_of(self@)).union(west_of(self@)).union(
                east_of(self@),
            ).difference(self@),
    {
        self.north().or(self.south()).or(self.west()).or(self.east()).and(self.not())
    }

    /// Gets the squares directly above or below a square of `self` that
    /// are not themselves in `self`.
    pub fn above_or_below(self) -> (r: BitBoard)
        ensures
            r@ == north_of(self@).union(south_of(self@)).difference(self@),
    {
        self.north().or(self.south()).and(self.not())
    }

    /// Iterates over the squares in increasing order.
    pub fn iter(self) -> (b: Bits)
        ensures
            b@ == self@,
    {
        Bits::from_board(self)
    }

    /// Iterates over the squares in decreasing order.
    pub fn iter_reverse(self) -> (b: ReverseBits)
        ensures
            b@ == self@,
    {
        ReverseBits::from_board(self)
    }
}

impl core::ops::BitAnd for BitBoard {
    type Output = BitBoard;

    fn bitand(self, rhs: BitBoard) -> (r: BitBoard) {
        self.and(rhs)
    }
}

impl vstd::std_specs::ops::BitAndSpecImpl for BitBoard {
    open spec fn obeys_bitand_spec() -> bool {
        true
    }

    open spec fn bitand_req(self, rhs: BitBoard) -> bool {
        true
    }

    open spec fn bitand_spec(self, rhs: BitBoard) -> BitBoard {
        self.spec_and(rhs)
    }
}

impl core::ops::BitOr for BitBoard {
    type Output = BitBoard;

    fn bitor(self, rhs: BitBoard) -> (r: BitBoard) {
        self.or(rhs)
    }
}

impl vstd::std_specs::ops::BitOrSpecImpl for BitBoard {
    open spec fn obeys_bitor_spec() -> bool {
        true
    }

    open spec fn bitor_req(self, rhs: BitBoard) -> bool {
        true
    }

    open spec fn bitor_spec(self, rhs: BitBoard) -> BitBoard {
        self.spec_or(rhs)
    }
}

impl core::ops::BitXor for BitBoard {
    type Output = BitBoard;

    fn bitxor(self, rhs: BitBoard) -> (r: BitBoard) {
        self.xor(rhs)
    }
}

impl vstd::std_specs::ops::BitXorSpecImpl for BitBoard {
    open spec fn obeys_bitxor_spec() -> bool {
        true
    }

    open spec fn bitxor_req(self, rhs: BitBoard) -> bool {
        true
    }

    open spec fn bitxor_spec(self, rhs: BitBoard) -> BitBoard {
        self.spec_xor(rhs)
    }
}

impl core::ops::Not for BitBoard {
    type Output = BitBoard;

    fn not(self) -> (r: BitBoard) {
        BitBoard::not(self)
    }
}

impl vstd::std_specs::ops::NotSpecImpl for BitBoard {
    open spec fn obeys_not_spec() -> bool {
        true
    }

    open spec fn not_req(self) -> bool {
        true
    }

    open spec fn not_spec(self) -> BitBoard {
        self.spec_not()
    }
}

impl core::ops::Shl<usize> for BitBoard {
    type Output = BitBoard;

    fn shl(self, rhs: usize) -> (r: BitBoard) {
        BitBoard::shl(self, rhs)
    }
}

impl vstd::std_specs::ops::ShlSpecImpl<usize> for BitBoard {
    open spec fn obeys_shl_spec() -> bool {
        true
    }

    open spec fn shl_req(self, rhs: usize) -> bool {
        true
    }

    open spec fn shl_spec(self, rhs: usize) -> BitBoard {
        self.spec_shl(rhs)
    }
}

impl core::ops::Shr<usize> for BitBoard {
    type Output = BitBoard;

    fn shr(self, rhs: usize) -> (r: BitBoard) {
        BitBoard::shr(self, rhs)
    }
}

impl vstd::std_specs::ops::ShrSpecImpl<usize> for BitBoard {
    open spec fn obeys_shr_spec() -> bool {
        true
    }

    open spec fn shr_req(self, rhs: usize) -> bool {
        true
    }

    open spec fn shr_spec(self, rhs: usize) -> BitBoard {
        self.spec_shr(rhs)
    }
}

/// Used to iterate over the squares of a [`BitBoard`] in increasing order.
#[derive(Clone, Copy, Debug)]
pub struct Bits {
    boards: [u64; 4],
    word_idx: usize,
}

impl Bits {
    #[verifier::type_invariant]
    spec fn inv(self) -> bool {
        &&& self.word_idx <= 4
        &&& self.boards[3] < 0x2_0000_0000
        &&& forall|w: int| 0 <= w < self.word_idx ==> self.boards[w] == 0
    }

    /// The squares not yet visited.
    pub closed spec fn view(&self) -> Set<int> {
        Set::new(|i: int| 0 <= i < 225 && raw_bit(self.boards, i))
    }

    /// Only squares of the board are visited.
    pub broadcast proof fn lemma_bounded(b: Bits)
        ensures
            #![trigger b@]
            b@.subset_of(set_int_range(0, 225)),
            b@.finite(),
    {
        lemma_int_range(0, 225);
        lemma_len_subset(b@, set_int_range(0, 225));
    }

    /// Starts visiting the squares of `bb`.
    pub fn from_board(bb: BitBoard) -> (b: Bits)
        ensures
            b@ == bb@,
    {
        proof {
            use_type_invariant(&bb);
        }
        let b = Bits { boards: bb.boards, word_idx: 0 };
        assert(b@ =~= bb@);
        b
    }

    /// Visits the smallest remaining square.
    #[verifier::loop_isolation(false)]
    #[verifier::spinoff_prover]
    #[verifier::rlimit(40)]
    pub fn next(&mut self) -> (r: Option<Pos>)
        ensures
            r is None <==> old(self)@ == Set::<int>::empty(),
            r is None ==> final(self)@ == old(self)@,
            r matches Some(p) ==> {
                &&& old(self)@.contains(p@)
                &&& forall|q: int| #[trigger] old(self)@.contains(q) ==> p@ <= q
                &&& final(self)@ == old(self)@.remove(p@)
            },
    {
        proof {
            use_type_invariant(&*self);
        }
        let ghost orig = self.boards;
        let mut wi = self.word_idx;
        while wi < 4
            invariant
                self.boards == orig,
                self.word_idx <= wi <= 4,
                orig[3] < 0x2_0000_0000,
                forall|w: int| 0 <= w < wi ==> orig[w] == 0,
            decreases 4 - wi,
        {
            let word = self.boards[wi];
            if word != 0 {
                let tz = word.trailing_zeros();
                proof {
                    vstd::std_specs::bits::axiom_u64_trailing_zeros(word);
                }
                let tz64: u64 = tz as u64;
                let mut boards = self.boards;
                boards[wi] = word & !(1u64 << tz64);
                let idx: usize = (tz as usize) + 64 * wi;
                proof {
                    assert(bit64(word, tz64));
                    if wi == 3 {
                        lemma_bit_mask(word, tz64);
                        let nb: u64 = boards[3];
                        assert(nb < 0x2_0000_0000) by (bit_vector)
                            requires
                                nb == word & !(1u64 << tz64),
                                word < 0x2_0000_0000,
                        ;
                    }
                    assert(idx / 64 == wi && idx % 64 == tz64);
                    assert forall|i: int| 0 <= i < 256 implies raw_bit(boards, i) == (i != idx && raw_bit(orig, i)) by {
                        if i / 64 == wi {
                            lemma_bit_single(word, tz64, (i % 64) as u64);
                        }
                    }
                    assert forall|q: int| #[trigger] old(self)@.contains(q) implies idx <= q by {
                        if q < idx {
                            if q / 64 < wi {
                                lemma_bit_zero((q % 64) as u64);
                            } else {
                                let j = (q % 64) as u64;
                                assert(j < tz64);
                                assert((word >> j) & 1u64 == 0u64);
                            }
                        }
                    }
                    assert(forall|w: int| 0 <= w < wi ==> boards[w] == 0);
                }
                proof {
                    if wi == 3 {
                        assert(tz64 < 33);
                    }
                    assert(old(self)@.contains(idx as int));
                }
                let p = Pos::from_usize(idx);
                *self = Bits { boards, word_idx: wi };
                proof {
                    assert(self@ =~= old(self)@.remove(idx as int));
                }
                return Some(p);
            }
            wi = wi + 1;
        }
        proof {
            assert forall|i: int| 0 <= i < 256 implies !raw_bit(orig, i) by {
                lemma_bit_zero((i % 64) as u64);
            }
            assert(self@ =~= Set::<int>::empty());
        }
        *self = Bits { boards: self.boards, word_idx: 4 };
        None
    }
}

/// Used to iterate over the squares of a [`BitBoard`] in decreasing order.
#[derive(Clone, Copy, Debug)]
pub struct ReverseBits {
    boards: [u64; 4],
    word_idx: usize,
}

impl ReverseBits {
    #[verifier::type_invariant]
    spec fn inv(self) -> bool {
        &&& self.word_idx <= 4
        &&& self.boards[3] < 0x2_0000_0000
        &&& forall|w: int| 4 - self.word_idx <= w < 4 ==> self.boards[w] == 0
    }

    /// The squares not yet visited.
    pub closed spec fn view(&self) -> Set<int> {
        Set::new(|i: int| 0 <= i < 225 && raw_bit(self.boards, i))
    }

    /// Starts visiting the squares of `bb`.
    pub fn from_board(bb: BitBoard) -> (b: ReverseBits)
        ensures
            b@ == bb@,
    {
        proof {
            use_type_invariant(&bb);
        }
        let b = ReverseBits { boards: bb.boards, word_idx: 0 };
        assert(b@ =~= bb@);
        b
    }

    /// Visits the largest remaining square.
    #[verifier::loop_isolation(false)]
    #[verifier::spinoff_prover]
    #[verifier::rlimit(40)]
    pub fn next(&mut self) -> (r: Option<Pos>)
        ensures
            r is None <==> old(self)@ == Set::<int>::empty(),
            r is None ==> final(self)@ == old(self)@,
            r matches Some(p) ==> {
                &&& old(self)@.contains(p@)
                &&& forall|q: int| #[trigger] old(self)@.contains(q) ==> q <= p@
                &&& final(self)@ == old(self)@.remove(p@)
            },
    {
        proof {
            use_type_invariant(&*self);
        }
        let ghost orig = self.boards;
        let mut wi = self.word_idx;
        while wi < 4
            invariant
                self.boards == orig,
                self.word_idx <= wi <= 4,
                orig[3] < 0x2_0000_0000,
                forall|w: int| 4 - wi <= w < 4 ==> orig[w] == 0,
            decreases 4 - wi,
        {
            let w = 3 - wi;
            let word = self.boards[w];
            if word != 0 {
                let lz = word.leading_zeros();
                proof {
                    vstd::std_specs::bits::axiom_u64_leading_zeros(word);
                }
                let top: u64 = 63 - (lz as u64);
                let mut boards = self.boards;
                boards[w] = word & !(1u64 << top);
                let idx: usize = (top as usize) + 64 * w;
                proof {
                    assert(((word >> top) & 1u64) != 0u64 ==> ((word >> top) & 1u64) == 1u64) by (bit_vector);
                    assert(bit64(word, top));
                    if w == 3 {
                        lemma_bit_mask(word, top);
                        let nb: u64 = boards[3];
                        assert(nb < 0x2_0000_0000) by (bit_vector)
                            requires
                                nb == word & !(1u64 << top),
                                word < 0x2_0000_0000,
                        ;
                    }
                    assert(idx / 64 == w && idx % 64 == top);
                    assert forall|i: int| 0 <= i < 256 implies raw_bit(boards, i) == (i != idx && raw_bit(orig, i)) by {
                        if i / 64 == w {
                            lemma_bit_single(word, top, (i % 64) as u64);
                        }
                    }
                    assert forall|q: int| #[trigger] old(self)@.contains(q) implies q <= idx by {
                        if q > idx {
                            if q / 64 > w {
                                lemma_bit_zero((q % 64) as u64);
                            } else {
                                let j = (q % 64) as u64;
                                assert(j > top);
                                assert((word >> j) & 1u64 == 0u64);
                            }
                        }
                    }
                    assert(forall|v: int| 4 - wi <= v < 4 ==> boards[v] == 0);
                }
                proof {
                    if w == 3 {
                        assert(top < 33);
                    }
                    assert(old(self)@.contains(idx as int));
                }
                let p = Pos::from_usize(idx);
                *self = ReverseBits { boards, word_idx: wi };
                proof {
                    assert(self@ =~= old(self)@.remove(idx as int));
                }
                return Some(p);
            }
            wi = wi + 1;
        }
        proof {
            assert forall|i: int| 0 <= i < 256 implies !raw_bit(orig, i) by {
                lemma_bit_zero((i % 64) as u64);
            }
            assert(self@ =~= Set::<int>::empty());
        }
        *self = ReverseBits { boards: self.boards, word_idx: 4 };
        None
    }
}

/// Facts about the squares of bitboards.
pub broadcast group group_bitboard {
    BitBoard::lemma_view_bounded,
    BitBoard::lemma_spec_and,
    BitBoard::lemma_spec_or,
    BitBoard::lemma_spec_xor,
    BitBoard::lemma_spec_not,
    BitBoard::lemma_spec_shl,
    Bits::lemma_bounded,
}

} // verus!
