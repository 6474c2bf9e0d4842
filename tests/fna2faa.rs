use web_bio_tools::fna2faa::{rev_compl_to, translate_all_frames_internal, translate_frame_internal, build_table, CodonEncoder};

#[test]
fn test_standard_codon_translation() {
    let encoder = CodonEncoder::mk_encoder();
    assert_eq!(encoder.translate_triplet(b"ATG"), (b'M', false));
    assert_eq!(encoder.translate_triplet(b"TAA"), (b'*', false));
}

#[test]
fn test_ambiguous_codon_translation() {
    let encoder = CodonEncoder::mk_encoder();
    assert_eq!(encoder.translate_triplet(b"ATN"), (b'X', true));
    assert_eq!(encoder.translate_triplet(b"NNN"), (b'X', true));
}

#[test]
fn test_rev_complement() {
    let mut buffer = Vec::new();
    rev_compl_to(b"ATGC", &mut buffer);
    assert_eq!(buffer, b"GCAT");
}

#[test]
fn test_translate_frame_forward() {
    let encoder = CodonEncoder::mk_encoder();
    let result = translate_frame_internal(&encoder, "ATGGCC", 0, false).unwrap();
    assert_eq!(result.amino_acids, "MA");
    assert!(result.stops.is_empty());
    assert!(result.ambiguous.is_empty());
}

#[test]
fn test_translate_frame_reverse() {
    let encoder = CodonEncoder::mk_encoder();
    let result = translate_frame_internal(&encoder, "ATGGCC", -1, false).unwrap();
    assert_eq!(result.amino_acids, "GH");
}

#[test]
fn test_translate_frame_stop_at_first() {
    let encoder = CodonEncoder::mk_encoder();
    let result = translate_frame_internal(&encoder, "ATGTAATTT", 0, true).unwrap();
    assert_eq!(result.amino_acids, "M*");
    assert_eq!(result.stops, vec![1]);
}

#[test]
fn test_translate_frame_with_ambiguity_marks_position() {
    let encoder = CodonEncoder::mk_encoder();
    let result = translate_frame_internal(&encoder, "ATNCCC", 0, false).unwrap();
    assert_eq!(result.amino_acids, "XP");
    assert_eq!(result.ambiguous, vec![0]);
}

#[test]
fn test_translate_all_frames() {
    let encoder = CodonEncoder::mk_encoder();
    let summary = translate_all_frames_internal(&encoder, "ATGGCC", false);
    assert_eq!(summary.frames.len(), 6);
    assert_eq!(summary.frames[0].frame, 0);
}

#[test]
fn ambiguous_codon_with_one_meaning_resolves() {
    let encoder = CodonEncoder::mk_encoder();
    // GCN is alanine whatever N stands for; TTR is leucine; lower case is read too.
    assert_eq!(encoder.translate_triplet(b"GCN"), (b'A', false));
    assert_eq!(encoder.translate_triplet(b"ttr"), (b'L', false));
    assert_eq!(encoder.translate_triplet(b"AU-"), (b'X', true));
    assert_eq!(encoder.translate_triplet(b"AT"), (b'X', true));
    assert_eq!(encoder.translate_triplet(b"AT?"), (b'X', true));
}

#[test]
fn reverse_complement_of_codes() {
    let mut buffer = vec![1, 2, 3];
    rev_compl_to(b"aRyN-u?", &mut buffer);
    assert_eq!(buffer, b"?A-NRYT");
}

#[test]
fn invalid_frame_is_reported() {
    let encoder = CodonEncoder::mk_encoder();
    let err = translate_frame_internal(&encoder, "ATGGCC", 3, false).unwrap_err();
    assert_eq!(err, "Invalid frame: 3");
    let err = translate_frame_internal(&encoder, "ATGGCC", -4, false).unwrap_err();
    assert_eq!(err, "Invalid frame: -4");
}

#[test]
fn short_forward_frame_is_empty() {
    let encoder = CodonEncoder::mk_encoder();
    let result = translate_frame_internal(&encoder, "A", 2, false).unwrap();
    assert_eq!(result.amino_acids, "");
    assert_eq!(result.frame, 2);
}

#[test]
fn stops_are_listed_without_stopping() {
    let encoder = CodonEncoder::mk_encoder();
    let result = translate_frame_internal(&encoder, "TAAATGTGA", 0, false).unwrap();
    assert_eq!(result.amino_acids, "*M*");
    assert_eq!(result.stops, vec![0, 2]);
}

#[test]
fn table_holds_standard_code() {
    let t = build_table();
    assert_eq!(t[0], b'K');
    assert_eq!(t[63], b'F');
    assert_eq!(t.iter().filter(|&&a| a == b'*').count(), 3);
}
