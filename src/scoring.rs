use vstd::prelude::*;

verus! {

/// Scores are fixed-point numbers: one unit of score is `SCORE_SCALE` steps.
/// A gap-extension cost of -0.5 is therefore written -500.
pub const SCORE_SCALE: i64 = 1000;

/// Score, in whole units, of a pair in which either symbol is not one of the
/// twenty amino acids of the substitution table.
pub const UNKNOWN_PAIR_SCORE: i64 = -4;

/// The BLOSUM62 substitution matrix, in whole units, over the residues
/// `ARNDCQEGHILKMFPSTWYV` in that order.
pub const BLOSUM62_MATRIX: [[i8; 20]; 20] = [
    [4, -1, -2, -2, 0, -1, -1, 0, -2, -1, -1, -1, -1, -2, -1, 1, 0, -3, -2, 0],
    [-1, 5, 0, -2, -3, 1, 0, -2, 0, -3, -2, 2, -1, -3, -2, -1, -1, -3, -2, -3],
    [-2, 0, 6, 1, -3, 0, 0, 0, 1, -3, -3, 0, -2, -3, -2, 1, 0, -4, -2, -3],
    [-2, -2, 1, 6, -3, 0, 2, -1, -1, -3, -4, -1, -3, -3, -1, 0, -1, -4, -3, -3],
    [0, -3, -3, -3, 9, -3, -4, -3, -3, -1, -1, -3, -1, -2, -3, -1, -1, -2, -2, -1],
    [-1, 1, 0, 0, -3, 5, 2, -2, 0, -3, -2, 1, 0, -3, -1, 0, -1, -2, -1, -2],
    [-1, 0, 0, 2, -4, 2, 5, -2, 0, -3, -3, 1, -2, -3, -1, 0, -1, -3, -2, -2],
    [0, -2, 0, -1, -3, -2, -2, 6, -2, -4, -4, -2, -3, -3, -2, 0, -2, -2, -3, -3],
    [-2, 0, 1, -1, -3, 0, 0, -2, 8, -3, -3, -1, -2, -1, -2, -1, -2, -2, 2, -3],
    [-1, -3, -3, -3, -1, -3, -3, -4, -3, 4, 2, -3, 1, 0, -3, -2, -1, -3, -1, 3],
    [-1, -2, -3, -4, -1, -2, -3, -4, -3, 2, 4, -2, 2, 0, -3, -2, -1, -2, -1, 1],
    [-1, 2, 0, -1, -3, 1, 1, -2, -1, -3, -2, 5, -1, -3, -1, 0, -1, -3, -2, -2],
    [-1, -1, -2, -3, -1, 0, -2, -3, -2, 1, 2, -1, 5, 0, -2, -1, -1, -1, -1, 1],
    [-2, -3, -3, -3, -2, -3, -3, -3, -1, 0, 0, -3, 0, 6, -4, -2, -2, 1, 3, -1],
    [-1, -2, -2, -1, -3, -1, -1, -2, -2, -3, -3, -1, -2, -4, 7, -1, -1, -4, -3, -2],
    [1, -1, 1, 0, -1, 0, 0, 0, -1, -2, -2, 0, -1, -2, -1, 4, 1, -3, -2, -2],
    [0, -1, 0, -1, -1, -1, -1, -2, -2, -1, -1, -1, -1, -2, -1, 1, 5, -2, -2, 0],
    [-3, -3, -4, -4, -2, -2, -3, -2, -2, -3, -2, -3, -1, 1, -4, -3, -2, 11, 2, -3],
    [-2, -2, -2, -3, -2, -1, -2, -3, 2, -1, -1, -2, -1, 3, -3, -2, -2, 2, 7, -1],
    [0, -3, -3, -3, -1, -2, -2, -3, -3, 3, 1, -2, 1, -1, -2, -2, 0, -3, -1, 4],
];

/// Upper-case form of an ASCII letter; every other byte is kept.
pub open spec fn upper(b: u8) -> u8 {
    if 97 <= b <= 122 {
        (b - 32) as u8
    } else {
        b
    }
}

pub fn ascii_upper(b: u8) -> (r: u8)
    ensures
        r == upper(b),
{
    if 97 <= b && b <= 122 {
        b - 32
    } else {
        b
    }
}

/// Two symbols are the same residue when they agree ignoring letter case.
pub open spec fn same_residue(a: u8, b: u8) -> bool {
    upper(a) == upper(b)
}

/// Position of an (upper-cased) symbol in the residue alphabet of the table.
pub open spec fn residue_index(b: u8) -> Option<int> {
    match upper(b) {
        65 => Some(0),  // A
        82 => Some(1),  // R
        78 => Some(2),  // N
        68 => Some(3),  // D
        67 => Some(4),  // C
        81 => Some(5),  // Q
        69 => Some(6),  // E
        71 => Some(7),  // G
        72 => Some(8),  // H
        73 => Some(9),  // I
        76 => Some(10),  // L
        75 => Some(11),  // K
        77 => Some(12),  // M
        70 => Some(13),  // F
        80 => Some(14),  // P
        83 => Some(15),  // S
        84 => Some(16),  // T
        87 => Some(17),  // W
        89 => Some(18),  // Y
        86 => Some(19),  // V
        _ => None,
    }
}

pub fn aa_index(b: u8) -> (r: Option<usize>)
    ensures
        r is Some <==> residue_index(b) is Some,
        r is Some ==> r->0 < 20 && r->0 as int == residue_index(b)->0,
{
    match ascii_upper(b) {
        65 => Some(0),  // A
        82 => Some(1),  // R
        78 => Some(2),  // N
        68 => Some(3),  // D
        67 => Some(4),  // C
        81 => Some(5),  // Q
        69 => Some(6),  // E
        71 => Some(7),  // G
        72 => Some(8),  // H
        73 => Some(9),  // I
        76 => Some(10),  // L
        75 => Some(11),  // K
        77 => Some(12),  // M
        70 => Some(13),  // F
        80 => Some(14),  // P
        83 => Some(15),  // S
        84 => Some(16),  // T
        87 => Some(17),  // W
        89 => Some(18),  // Y
        86 => Some(19),  // V
        _ => None,
    }
}

/// Table score of a pair, in whole units.
pub open spec fn blosum62_units(a: u8, b: u8) -> int {
    match (residue_index(a), residue_index(b)) {
        (Some(i), Some(j)) => BLOSUM62_MATRIX[i][j] as int,
        _ => UNKNOWN_PAIR_SCORE as int,
    }
}

pub fn blosum62_score(a: u8, b: u8) -> (r: i64)
    ensures
        r == blosum62_units(a, b) * SCORE_SCALE,
{
    match (aa_index(a), aa_index(b)) {
        (Some(i), Some(j)) => BLOSUM62_MATRIX[i][j] as i64 * SCORE_SCALE,
        _ => UNKNOWN_PAIR_SCORE * SCORE_SCALE,
    }
}

/// The substitution table reads the same in both directions.
pub proof fn lemma_blosum62_symmetric()
    ensures
        forall|i: int, j: int|
            0 <= i < 20 && 0 <= j < 20 ==> BLOSUM62_MATRIX[i][j] == BLOSUM62_MATRIX[j][i],
{
}

/// Every table score lies between -4 and 11 whole units.
pub proof fn lemma_blosum62_bounded(a: u8, b: u8)
    ensures
        -4 <= blosum62_units(a, b) <= 11,
{
    assert(forall|i: int, j: int|
        0 <= i < 20 && 0 <= j < 20 ==> -4 <= #[trigger] BLOSUM62_MATRIX[i][j] <= 11);
}

} // verus!
