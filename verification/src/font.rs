//! The compositor's 5-by-7 bitmap font.
use vstd::prelude::*;

verus! {

/// ASCII upper case of a byte.
pub open spec fn upper(b: u8) -> u8 {
    if 0x61 <= b <= 0x7a {
        (b - 32) as u8
    } else {
        b
    }
}

/// The seven rows of a character's glyph, five pixels each with the
/// leftmost in bit 4; letters are drawn in upper case and a character the
/// font lacks is drawn as `?`.
pub open spec fn glyph_spec(byte: u8) -> Seq<u8> {
    match upper(byte) {
        48 => seq![14u8, 17, 19, 21, 25, 17, 14],
        49 => seq![4u8, 12, 4, 4, 4, 4, 14],
        50 => seq![14u8, 17, 1, 2, 4, 8, 31],
        51 => seq![30u8, 1, 1, 14, 1, 1, 30],
        52 => seq![2u8, 6, 10, 18, 31, 2, 2],
        53 => seq![31u8, 16, 16, 30, 1, 1, 30],
        54 => seq![14u8, 16, 16, 30, 17, 17, 14],
        55 => seq![31u8, 1, 2, 4, 8, 8, 8],
        56 => seq![14u8, 17, 17, 14, 17, 17, 14],
        57 => seq![14u8, 17, 17, 15, 1, 1, 14],
        65 => seq![14u8, 17, 17, 31, 17, 17, 17],
        66 => seq![30u8, 17, 17, 30, 17, 17, 30],
        67 => seq![15u8, 16, 16, 16, 16, 16, 15],
        68 => seq![30u8, 17, 17, 17, 17, 17, 30],
        69 => seq![31u8, 16, 16, 30, 16, 16, 31],
        70 => seq![31u8, 16, 16, 30, 16, 16, 16],
        71 => seq![15u8, 16, 16, 23, 17, 17, 15],
        72 => seq![17u8, 17, 17, 31, 17, 17, 17],
        73 => seq![31u8, 4, 4, 4, 4, 4, 31],
        74 => seq![7u8, 2, 2, 2, 18, 18, 12],
        75 => seq![17u8, 18, 20, 24, 20, 18, 17],
        76 => seq![16u8, 16, 16, 16, 16, 16, 31],
        77 => seq![17u8, 27, 21, 21, 17, 17, 17],
        78 => seq![17u8, 25, 21, 19, 17, 17, 17],
        79 => seq![14u8, 17, 17, 17, 17, 17, 14],
        80 => seq![30u8, 17, 17, 30, 16, 16, 16],
        81 => seq![14u8, 17, 17, 17, 21, 18, 13],
        82 => seq![30u8, 17, 17, 30, 20, 18, 17],
        83 => seq![15u8, 16, 16, 14, 1, 1, 30],
        84 => seq![31u8, 4, 4, 4, 4, 4, 4],
        85 => seq![17u8, 17, 17, 17, 17, 17, 14],
        86 => seq![17u8, 17, 17, 17, 17, 10, 4],
        87 => seq![17u8, 17, 17, 21, 21, 21, 10],
        88 => seq![17u8, 17, 10, 4, 10, 17, 17],
        89 => seq![17u8, 17, 10, 4, 4, 4, 4],
        90 => seq![31u8, 1, 2, 4, 8, 16, 31],
        32 => seq![0u8, 0, 0, 0, 0, 0, 0],
        45 => seq![0u8, 0, 0, 31, 0, 0, 0],
        46 => seq![0u8, 0, 0, 0, 0, 6, 6],
        58 => seq![0u8, 6, 6, 0, 6, 6, 0],
        47 => seq![1u8, 2, 2, 4, 8, 8, 16],
        62 => seq![16u8, 8, 4, 2, 4, 8, 16],
        63 => seq![14u8, 17, 1, 2, 4, 0, 4],
        _ => seq![14u8, 17, 1, 2, 4, 0, 4],
    }
}

pub fn glyph(byte: u8) -> (r: [u8; 7])
    ensures
        r@ == glyph_spec(byte),
{
    let c = if 0x61 <= byte && byte <= 0x7a {
        byte - 32
    } else {
        byte
    };
    let r: [u8; 7] = match c {
        48 => [14, 17, 19, 21, 25, 17, 14],
        49 => [4, 12, 4, 4, 4, 4, 14],
        50 => [14, 17, 1, 2, 4, 8, 31],
        51 => [30, 1, 1, 14, 1, 1, 30],
        52 => [2, 6, 10, 18, 31, 2, 2],
        53 => [31, 16, 16, 30, 1, 1, 30],
        54 => [14, 16, 16, 30, 17, 17, 14],
        55 => [31, 1, 2, 4, 8, 8, 8],
        56 => [14, 17, 17, 14, 17, 17, 14],
        57 => [14, 17, 17, 15, 1, 1, 14],
        65 => [14, 17, 17, 31, 17, 17, 17],
        66 => [30, 17, 17, 30, 17, 17, 30],
        67 => [15, 16, 16, 16, 16, 16, 15],
        68 => [30, 17, 17, 17, 17, 17, 30],
        69 => [31, 16, 16, 30, 16, 16, 31],
        70 => [31, 16, 16, 30, 16, 16, 16],
        71 => [15, 16, 16, 23, 17, 17, 15],
        72 => [17, 17, 17, 31, 17, 17, 17],
        73 => [31, 4, 4, 4, 4, 4, 31],
        74 => [7, 2, 2, 2, 18, 18, 12],
        75 => [17, 18, 20, 24, 20, 18, 17],
        76 => [16, 16, 16, 16, 16, 16, 31],
        77 => [17, 27, 21, 21, 17, 17, 17],
        78 => [17, 25, 21, 19, 17, 17, 17],
        79 => [14, 17, 17, 17, 17, 17, 14],
        80 => [30, 17, 17, 30, 16, 16, 16],
        81 => [14, 17, 17, 17, 21, 18, 13],
        82 => [30, 17, 17, 30, 20, 18, 17],
        83 => [15, 16, 16, 14, 1, 1, 30],
        84 => [31, 4, 4, 4, 4, 4, 4],
        85 => [17, 17, 17, 17, 17, 17, 14],
        86 => [17, 17, 17, 17, 17, 10, 4],
        87 => [17, 17, 17, 21, 21, 21, 10],
        88 => [17, 17, 10, 4, 10, 17, 17],
        89 => [17, 17, 10, 4, 4, 4, 4],
        90 => [31, 1, 2, 4, 8, 16, 31],
        32 => [0, 0, 0, 0, 0, 0, 0],
        45 => [0, 0, 0, 31, 0, 0, 0],
        46 => [0, 0, 0, 0, 0, 6, 6],
        58 => [0, 6, 6, 0, 6, 6, 0],
        47 => [1, 2, 2, 4, 8, 8, 16],
        62 => [16, 8, 4, 2, 4, 8, 16],
        63 => [14, 17, 1, 2, 4, 0, 4],
        _ => [14, 17, 1, 2, 4, 0, 4],
    };
    proof {
        assert(r@ =~= glyph_spec(byte));
    }
    r
}

/// The font: each character it draws has the five-by-seven bitmap below,
/// row by row from the top with the leftmost pixel in bit 4, and a lower
/// case letter is drawn as its capital.
#[verifier::rlimit(60)]
pub proof fn law_font_bitmaps()
    ensures
        glyph_spec('0' as u8) == seq![14u8, 17, 19, 21, 25, 17, 14],
        glyph_spec('1' as u8) == seq![4u8, 12, 4, 4, 4, 4, 14],
        glyph_spec('2' as u8) == seq![14u8, 17, 1, 2, 4, 8, 31],
        glyph_spec('3' as u8) == seq![30u8, 1, 1, 14, 1, 1, 30],
        glyph_spec('4' as u8) == seq![2u8, 6, 10, 18, 31, 2, 2],
        glyph_spec('5' as u8) == seq![31u8, 16, 16, 30, 1, 1, 30],
        glyph_spec('6' as u8) == seq![14u8, 16, 16, 30, 17, 17, 14],
        glyph_spec('7' as u8) == seq![31u8, 1, 2, 4, 8, 8, 8],
        glyph_spec('8' as u8) == seq![14u8, 17, 17, 14, 17, 17, 14],
        glyph_spec('9' as u8) == seq![14u8, 17, 17, 15, 1, 1, 14],
        glyph_spec('A' as u8) == seq![14u8, 17, 17, 31, 17, 17, 17],
        glyph_spec('B' as u8) == seq![30u8, 17, 17, 30, 17, 17, 30],
        glyph_spec('C' as u8) == seq![15u8, 16, 16, 16, 16, 16, 15],
        glyph_spec('D' as u8) == seq![30u8, 17, 17, 17, 17, 17, 30],
        glyph_spec('E' as u8) == seq![31u8, 16, 16, 30, 16, 16, 31],
        glyph_spec('F' as u8) == seq![31u8, 16, 16, 30, 16, 16, 16],
        glyph_spec('G' as u8) == seq![15u8, 16, 16, 23, 17, 17, 15],
        glyph_spec('H' as u8) == seq![17u8, 17, 17, 31, 17, 17, 17],
        glyph_spec('I' as u8) == seq![31u8, 4, 4, 4, 4, 4, 31],
        glyph_spec('J' as u8) == seq![7u8, 2, 2, 2, 18, 18, 12],
        glyph_spec('K' as u8) == seq![17u8, 18, 20, 24, 20, 18, 17],
        glyph_spec('L' as u8) == seq![16u8, 16, 16, 16, 16, 16, 31],
        glyph_spec('M' as u8) == seq![17u8, 27, 21, 21, 17, 17, 17],
        glyph_spec('N' as u8) == seq![17u8, 25, 21, 19, 17, 17, 17],
        glyph_spec('O' as u8) == seq![14u8, 17, 17, 17, 17, 17, 14],
        glyph_spec('P' as u8) == seq![30u8, 17, 17, 30, 16, 16, 16],
        glyph_spec('Q' as u8) == seq![14u8, 17, 17, 17, 21, 18, 13],
        glyph_spec('R' as u8) == seq![30u8, 17, 17, 30, 20, 18, 17],
        glyph_spec('S' as u8) == seq![15u8, 16, 16, 14, 1, 1, 30],
        glyph_spec('T' as u8) == seq![31u8, 4, 4, 4, 4, 4, 4],
        glyph_spec('U' as u8) == seq![17u8, 17, 17, 17, 17, 17, 14],
        glyph_spec('V' as u8) == seq![17u8, 17, 17, 17, 17, 10, 4],
        glyph_spec('W' as u8) == seq![17u8, 17, 17, 21, 21, 21, 10],
        glyph_spec('X' as u8) == seq![17u8, 17, 10, 4, 10, 17, 17],
        glyph_spec('Y' as u8) == seq![17u8, 17, 10, 4, 4, 4, 4],
        glyph_spec('Z' as u8) == seq![31u8, 1, 2, 4, 8, 16, 31],
        glyph_spec(' ' as u8) == seq![0u8, 0, 0, 0, 0, 0, 0],
        glyph_spec('-' as u8) == seq![0u8, 0, 0, 31, 0, 0, 0],
        glyph_spec('.' as u8) == seq![0u8, 0, 0, 0, 0, 6, 6],
        glyph_spec(':' as u8) == seq![0u8, 6, 6, 0, 6, 6, 0],
        glyph_spec('/' as u8) == seq![1u8, 2, 2, 4, 8, 8, 16],
        glyph_spec('>' as u8) == seq![16u8, 8, 4, 2, 4, 8, 16],
        glyph_spec('?' as u8) == seq![14u8, 17, 1, 2, 4, 0, 4],
        glyph_spec('a' as u8) == seq![14u8, 17, 17, 31, 17, 17, 17],
        glyph_spec('b' as u8) == seq![30u8, 17, 17, 30, 17, 17, 30],
        glyph_spec('c' as u8) == seq![15u8, 16, 16, 16, 16, 16, 15],
        glyph_spec('d' as u8) == seq![30u8, 17, 17, 17, 17, 17, 30],
        glyph_spec('e' as u8) == seq![31u8, 16, 16, 30, 16, 16, 31],
        glyph_spec('f' as u8) == seq![31u8, 16, 16, 30, 16, 16, 16],
        glyph_spec('g' as u8) == seq![15u8, 16, 16, 23, 17, 17, 15],
        glyph_spec('h' as u8) == seq![17u8, 17, 17, 31, 17, 17, 17],
        glyph_spec('i' as u8) == seq![31u8, 4, 4, 4, 4, 4, 31],
        glyph_spec('j' as u8) == seq![7u8, 2, 2, 2, 18, 18, 12],
        glyph_spec('k' as u8) == seq![17u8, 18, 20, 24, 20, 18, 17],
        glyph_spec('l' as u8) == seq![16u8, 16, 16, 16, 16, 16, 31],
        glyph_spec('m' as u8) == seq![17u8, 27, 21, 21, 17, 17, 17],
        glyph_spec('n' as u8) == seq![17u8, 25, 21, 19, 17, 17, 17],
        glyph_spec('o' as u8) == seq![14u8, 17, 17, 17, 17, 17, 14],
        glyph_spec('p' as u8) == seq![30u8, 17, 17, 30, 16, 16, 16],
        glyph_spec('q' as u8) == seq![14u8, 17, 17, 17, 21, 18, 13],
        glyph_spec('r' as u8) == seq![30u8, 17, 17, 30, 20, 18, 17],
        glyph_spec('s' as u8) == seq![15u8, 16, 16, 14, 1, 1, 30],
        glyph_spec('t' as u8) == seq![31u8, 4, 4, 4, 4, 4, 4],
        glyph_spec('u' as u8) == seq![17u8, 17, 17, 17, 17, 17, 14],
        glyph_spec('v' as u8) == seq![17u8, 17, 17, 17, 17, 10, 4],
        glyph_spec('w' as u8) == seq![17u8, 17, 17, 21, 21, 21, 10],
        glyph_spec('x' as u8) == seq![17u8, 17, 10, 4, 10, 17, 17],
        glyph_spec('y' as u8) == seq![17u8, 17, 10, 4, 4, 4, 4],
        glyph_spec('z' as u8) == seq![31u8, 1, 2, 4, 8, 16, 31],
{
}

/// A character the font does not draw is drawn as a question mark.
pub proof fn law_unknown_is_question_mark(b: u8)
    requires
        !('0' as u8 <= b <= '9' as u8),
        !('A' as u8 <= b <= 'Z' as u8),
        !('a' as u8 <= b <= 'z' as u8),
        b != ' ' as u8 && b != '-' as u8 && b != '.' as u8 && b != ':' as u8 && b != '/' as u8 && b != '>' as u8,
    ensures
        glyph_spec(b) == seq![14u8, 17, 1, 2, 4, 0, 4],
{
}

} // verus!
