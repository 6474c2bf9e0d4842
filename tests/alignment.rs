use web_bio_tools::alignment::{
    needleman_wunsch_blosum62_internal, needleman_wunsch_internal, needleman_wunsch_with_matrix,
    smith_waterman_blosum62_internal, smith_waterman_internal, smith_waterman_with_matrix,
    AlignmentResult, ScoringModel,
};
use web_bio_tools::scoring::{BLOSUM62_MATRIX, SCORE_SCALE};

fn units(x: f64) -> i64 {
    (x * SCORE_SCALE as f64).round() as i64
}

fn identity(r: &AlignmentResult) -> f64 {
    if r.aligned_length > 0 {
        r.identities as f64 / r.aligned_length as f64
    } else {
        0.0
    }
}

fn score(r: &AlignmentResult) -> f64 {
    r.score as f64 / SCORE_SCALE as f64
}

const PROTEIN_A: &str = "MTFSSTSSAPPPSPLLPATRITVYGCGRDEAALFRRTAPRFGVEATLTEAAVSEENAEMAAGNQCISIDHKTPVTPATLRALHRAGVTYISTRSIGYNHIDVTYAAGVGISVENVTYSPAGVADYTLMLMLMAVRNAKSTVRRAELHDYRLNEIRGKELRDLTVGVIGTGRIGAAVVDRLRGFGSRVLAYGKRPTIAADYVSLDELLRSSDIVSLHVPLTPDTHHLLDQSRIRRMKSGAFVINTGRGPLIDTEALVPALESGRLSGAALDVIEGEEGIFYADCRNRTIESTWLPRLQKMPNVLISPHTAYYTDHALMDTVENSIINCLNFGSRKQHGVGQVGQVEGRHRIRGLFRRTRRFRQVRPGGRTQPRHREVPAVLRGDHEGRRLETLRRARPGLGERRLPS";
const PROTEIN_B: &str = "MSYRDLGLIDSEVIAERRVRALDDSSPSAVPTTGVRVFGCGHDEAVLFREMGTRLGITPSITEEAISETNAELARGNRCISVSHKTQIDNSTLLALSRVGVEYISTRSVGYNHIDVEFAASIGISVGNVDYSPDSVGDYTLMLMLMTVRHAKSIVRRADTHDYRLNDTRGRELRDLTVGVIGTGRIGTAVIDRLQGFGCRVLAHDSGPHASADYVPLDELLRQSDIVTLHTPLTADTHHLLDRQRIDQMKHGAYIVNTGRGPLLDTEALLSALESGRLGGAALDVVEGEEGIFYADCRNRLIENKALVRLQRLPNVLISPHSAYYTDHALNDTVENSLVNCLNFESGRTA";

#[test]
fn align_identical_sequences() {
    let r = smith_waterman_internal("GATTACA", "GATTACA", units(2.0), units(-1.0), units(-1.0), units(-0.5));
    assert_eq!(r.aligned_seq1, "GATTACA");
    assert_eq!(r.aligned_seq2, "GATTACA");
    assert_eq!(r.aligned_length, 7);
    assert!((identity(&r) - 1.0).abs() < f64::EPSILON);
    assert_eq!(r.alignment_markup, "|||||||");
}

#[test]
fn align_acacacta_agcacaca() {
    let r = smith_waterman_internal("ACACACTA", "AGCACACA", units(2.0), units(-1.0), units(-1.0), units(-0.5));
    assert_eq!(r.aligned_seq1, "A-CACACTA");
    assert_eq!(r.aligned_seq2, "AGCACAC-A");
    assert_eq!(r.aligned_length, 7);
    assert!((identity(&r) - 1.0).abs() < f64::EPSILON);
}

#[test]
fn align_gattaca_gcatgcu() {
    let r = smith_waterman_internal("GATTACA", "GCATGCU", units(2.0), units(-1.0), units(-1.0), units(-0.5));
    assert_eq!(r.aligned_seq1, "G-AT---TACA");
    assert_eq!(r.aligned_seq2, "GCATGCU----");
    assert_eq!(r.aligned_length, 3);
    assert!((identity(&r) - 1.0).abs() < f64::EPSILON);
}

#[test]
fn blosum62_identical_sequences() {
    let r = smith_waterman_blosum62_internal("GATTACA", "GATTACA", units(-1.0), units(-0.5));
    assert_eq!(r.aligned_seq1, "GATTACA");
    assert_eq!(r.aligned_seq2, "GATTACA");
    assert_eq!(r.aligned_length, 7);
    assert!((identity(&r) - 1.0).abs() < f64::EPSILON);
}

#[test]
fn smith_waterman_case_insensitive() {
    let r = smith_waterman_internal("gAttAcA", "GATTACA", units(2.0), units(-1.0), units(-1.0), units(-0.5));
    assert_eq!(r.aligned_seq1, "gAttAcA");
    assert_eq!(r.aligned_seq2, "GATTACA");
    assert_eq!(r.aligned_length, 7);
    assert!((identity(&r) - 1.0).abs() < f64::EPSILON);
    assert_eq!(r.alignment_markup, "|||||||");
}

#[test]
fn nw_identical_sequences() {
    let r = needleman_wunsch_internal("GATTACA", "GATTACA", units(2.0), units(-1.0), units(-1.0), units(-0.5));
    assert_eq!(r.aligned_seq1, "GATTACA");
    assert_eq!(r.aligned_seq2, "GATTACA");
    assert_eq!(r.aligned_length, 7);
    assert!((identity(&r) - 1.0).abs() < f64::EPSILON);
}

#[test]
fn needleman_wunsch_case_insensitive() {
    let r = needleman_wunsch_internal("GATTACA", "gattaca", units(2.0), units(-1.0), units(-1.0), units(-0.5));
    assert_eq!(r.aligned_seq1, "GATTACA");
    assert_eq!(r.aligned_seq2, "gattaca");
    assert_eq!(r.aligned_length, 7);
    assert!((identity(&r) - 1.0).abs() < f64::EPSILON);
    assert_eq!(r.alignment_markup, "|||||||");
}

#[test]
fn nw_blosum62_identical_sequences() {
    let r = needleman_wunsch_blosum62_internal("GATTACA", "GATTACA", units(-1.0), units(-0.5));
    assert_eq!(r.aligned_seq1, "GATTACA");
    assert_eq!(r.aligned_seq2, "GATTACA");
    assert_eq!(r.aligned_length, 7);
    assert!((identity(&r) - 1.0).abs() < f64::EPSILON);
}

#[test]
fn blosum62_symmetry() {
    for i in 0..20 {
        for j in 0..20 {
            assert_eq!(
                BLOSUM62_MATRIX[i][j],
                BLOSUM62_MATRIX[j][i],
                "BLOSUM62 matrix is not symmetric at indices ({}, {})",
                i,
                j
            );
        }
    }
}

#[test]
fn sw_known_cases() {
    let seq1 = PROTEIN_A;
    let seq2 = PROTEIN_B;

    assert_eq!(score(&smith_waterman_blosum62_internal(seq1, seq2, units(-10.0), units(-0.5))), 1178.0);

    let r5_005 = smith_waterman_blosum62_internal(seq1, seq2, units(-5.0), units(-0.05));
    assert!((score(&r5_005) - 1198.1).abs() < 0.01, "Expected score close to 1198.1, got {}", score(&r5_005));

    assert_eq!(score(&smith_waterman_blosum62_internal(seq1, seq2, units(-5.0), units(-0.5))), 1185.0);

    assert_eq!(score(&needleman_wunsch_blosum62_internal(seq1, seq2, units(-10.0), units(-0.5))), 1130.0);

    assert_eq!(score(&needleman_wunsch_blosum62_internal(seq1, seq2, units(-2.0), units(-0.5))), 1181.0);

    assert_eq!(
        score(&needleman_wunsch_blosum62_internal(&seq1[10..100], &seq2[10..100], units(-2.0), units(-0.5))),
        201.0
    );

    assert_eq!(
        score(&needleman_wunsch_blosum62_internal(&seq1[10..100], &seq2[10..100], units(-7.0), units(-0.5))),
        178.5
    );
}

#[test]
fn empty_sequences_align_to_nothing() {
    let r = smith_waterman_internal("", "", units(2.0), units(-1.0), units(-1.0), units(-0.5));
    assert_eq!(r.aligned_seq1, "");
    assert_eq!(r.aligned_seq2, "");
    assert_eq!(r.aligned_length, 0);
    assert_eq!(identity(&r), 0.0);
    assert_eq!(r.score, 0);
    let g = needleman_wunsch_internal("", "", units(2.0), units(-1.0), units(-1.0), units(-0.5));
    assert_eq!(g.aligned_seq1, "");
    assert_eq!(g.aligned_length, 0);
    assert_eq!(g.score, 0);
}

#[test]
fn global_alignment_against_empty_is_all_gaps() {
    let r = needleman_wunsch_internal("", "ACG", units(2.0), units(-1.0), units(-1.0), units(-0.5));
    assert_eq!(r.aligned_seq1, "---");
    assert_eq!(r.aligned_seq2, "ACG");
    assert_eq!(r.aligned_length, 0);
    assert_eq!(r.score, units(-2.0));
    assert_eq!(r.alignment_markup, "   ");
}

#[test]
fn global_alignment_covers_both_sequences() {
    let r = needleman_wunsch_internal("GATTACA", "GCATGCU", units(2.0), units(-1.0), units(-1.0), units(-0.5));
    assert_eq!(r.aligned_seq1.len(), r.aligned_seq2.len());
    assert!(r.aligned_seq1.len() >= 7);
    assert_eq!(r.aligned_seq1.replace('-', ""), "GATTACA");
    assert_eq!(r.aligned_seq2.replace('-', ""), "GCATGCU");
}

#[test]
fn markup_marks_favourable_substitutions() {
    // I and V score +3 in BLOSUM62, I and G score -4.
    let r = needleman_wunsch_blosum62_internal("WIW", "WVW", units(-10.0), units(-0.5));
    assert_eq!(r.alignment_markup, "|:|");
    let r = needleman_wunsch_blosum62_internal("WIW", "WGW", units(-10.0), units(-0.5));
    assert_eq!(r.alignment_markup, "|.|");
    assert_eq!(r.score, units(11.0 - 4.0 + 11.0));
}

#[test]
fn unknown_symbols_take_fixed_penalty() {
    let r = needleman_wunsch_blosum62_internal("WZ", "WZ", units(-10.0), units(-0.5));
    assert_eq!(r.score, units(11.0 - 4.0));
}

#[test]
fn case_changes_only_the_output_letters() {
    let a = smith_waterman_internal("GATTACA", "GCATGCU", units(2.0), units(-1.0), units(-1.0), units(-0.5));
    let b = smith_waterman_internal("gattaca", "gcATgcu", units(2.0), units(-1.0), units(-1.0), units(-0.5));
    assert_eq!(a.score, b.score);
    assert_eq!(a.aligned_length, b.aligned_length);
    assert_eq!(a.identities, b.identities);
    assert_eq!(a.alignment_markup, b.alignment_markup);
    assert_eq!(a.aligned_seq1, b.aligned_seq1.to_uppercase());
    assert_eq!(a.aligned_seq2, b.aligned_seq2.to_uppercase());
}

#[test]
fn repeated_calls_give_identical_results() {
    let model = ScoringModel::Blosum62;
    let a = smith_waterman_with_matrix("HEAGAWGHEE", "PAWHEAE", units(-10.0), units(-0.5), &model);
    let b = smith_waterman_with_matrix("HEAGAWGHEE", "PAWHEAE", units(-10.0), units(-0.5), &model);
    assert_eq!(a.aligned_seq1, b.aligned_seq1);
    assert_eq!(a.aligned_seq2, b.aligned_seq2);
    assert_eq!(a.alignment_markup, b.alignment_markup);
    assert_eq!(a.score, b.score);
    assert_eq!(a.aligned_length, b.aligned_length);
    assert_eq!(a.identities, b.identities);
    let c = needleman_wunsch_with_matrix("HEAGAWGHEE", "PAWHEAE", units(-10.0), units(-0.5), &model);
    let d = needleman_wunsch_with_matrix("HEAGAWGHEE", "PAWHEAE", units(-10.0), units(-0.5), &model);
    assert_eq!(c.aligned_seq1, d.aligned_seq1);
    assert_eq!(c.score, d.score);
}

#[test]
fn local_alignment_with_itself_is_the_sequence() {
    let r = smith_waterman_internal("ACGTTGCA", "ACGTTGCA", units(1.0), units(-3.0), units(-2.0), units(-1.0));
    assert_eq!(r.aligned_seq1, "ACGTTGCA");
    assert_eq!(r.aligned_seq2, "ACGTTGCA");
    assert_eq!(r.identities, 8);
    assert_eq!(r.aligned_length, 8);
    assert_eq!(r.alignment_markup, "||||||||");
    assert_eq!(r.score, units(8.0));
}
