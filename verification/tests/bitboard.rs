use scrabble::util::bitboard::{BitBoard, FINAL_WORD_MASK};
use scrabble::util::pos::Pos;

#[test]
fn not() {
    let bb = BitBoard::from_words([
        0x00ff_00ff_00ff_00ff_u64,
        0xaa00_aa00_aa00_aa00_u64,
        0x00ff_00ff_00ff_00ff_u64,
        0xaa00_aa00_aa00_aa00_u64 & FINAL_WORD_MASK,
    ]);
    let not_bb = !bb;
    assert_eq!(
        not_bb.words(),
        [
            0xff00_ff00_ff00_ff00_u64,
            0x55ff_55ff_55ff_55ff_u64,
            0xff00_ff00_ff00_ff00_u64,
            0x55ff_55ff_55ff_55ff_u64 & FINAL_WORD_MASK,
        ]
    );
}

#[test]
fn shift() {
    assert_eq!(BitBoard::top_row() << (15 * 14), BitBoard::bottom_row());
    assert_eq!(BitBoard::left_col() << 14, BitBoard::right_col());
}

#[test]
fn or() {
    let bb = BitBoard::from_words([
        0xaa00_aa00_aa00_aa00_u64,
        0x00bb_00bb_00bb_00bb_u64,
        0xaa00_aa00_aa00_aa00_u64,
        0x00bb_00bb_00bb_00bb_u64 & FINAL_WORD_MASK,
    ]);
    let other = BitBoard::from_words([
        0x00aa_00aa_00aa_00aa_u64,
        0xbb00_bb00_bb00_bb00_u64,
        0x00aa_00aa_00aa_00aa_u64,
        0xbb00_bb00_bb00_bb00_u64 & FINAL_WORD_MASK,
    ]);
    let or = bb | other;
    assert_eq!(
        or.words(),
        [
            0xaaaa_aaaa_aaaa_aaaa_u64,
            0xbbbb_bbbb_bbbb_bbbb_u64,
            0xaaaa_aaaa_aaaa_aaaa_u64,
            0xbbbb_bbbb_bbbb_bbbb_u64 & FINAL_WORD_MASK,
        ]
    );
}

#[test]
fn and() {
    let bb = BitBoard::from_words([
        0xaa00_aa00_aa00_aa00_u64,
        0x00bb_00bb_00bb_00bb_u64,
        0xaa00_aa00_aa00_aa00_u64,
        0x00bb_00bb_00bb_00bb_u64 & FINAL_WORD_MASK,
    ]);
    let other = BitBoard::from_words([
        0xaa00_aa00_aa00_aa00_u64,
        0x00bb_00bb_00bb_00bb_u64,
        0xaa00_aa00_aa00_aa00_u64,
        0x00bb_00bb_00bb_00bb_u64 & FINAL_WORD_MASK,
    ]);
    let and = bb & other;
    assert_eq!(and, bb);
}

#[test]
fn bits() {
    let mut bb = BitBoard::default();
    for pos in Pos::iter() {
        bb.set(pos);
        assert!(bb.is_set(pos));

        bb.clear(pos);
        assert!(bb.is_zero());
    }
}
