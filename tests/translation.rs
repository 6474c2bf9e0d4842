use web_bio_tools::translation::{translate_all_frames, translate_frame};

#[test]
fn translates_simple_sequence() {
    let result = translate_frame("ATGGCC", 1, false).unwrap();
    assert_eq!(result, "MA");
}

#[test]
fn respects_frame_offset() {
    let result = translate_frame("AATGGCC", 2, false).unwrap();
    assert_eq!(result, "MA");
}

#[test]
fn stops_at_first_stop() {
    let result = translate_frame("ATGTAAATG", 1, true).unwrap();
    assert_eq!(result, "M");
}

#[test]
fn handles_all_frames() {
    let result = translate_all_frames("ATGGCC", false).unwrap();
    assert_eq!(result, vec!["MA".to_string(), "W".to_string(), "G".to_string()]);
}

#[test]
fn rejects_invalid_characters() {
    let err = translate_frame("ATG1CC", 1, false).unwrap_err();
    assert!(err.contains("Invalid character"));
}

#[test]
fn rejects_invalid_frame() {
    let err = translate_frame("ATGGCC", 0, false).unwrap_err();
    assert!(err.contains("Frame"));
}

#[test]
fn cleans_case_gaps_space_and_uracil() {
    let result = translate_frame(" aug-\tgcc\n", 1, false).unwrap();
    assert_eq!(result, "MA");
}

#[test]
fn stop_is_kept_unless_asked_to_stop() {
    assert_eq!(translate_frame("ATGTAAATG", 1, false).unwrap(), "M*M");
}

#[test]
fn ambiguity_codes_translate_to_unknown() {
    assert_eq!(translate_frame("ATGNNN", 1, false).unwrap(), "MX");
}

#[test]
fn error_messages_name_the_character() {
    assert_eq!(
        translate_frame("ATG1CC", 1, false).unwrap_err(),
        "Invalid character '1' found in nucleotide sequence"
    );
    assert_eq!(
        translate_frame("ATGqCC", 1, false).unwrap_err(),
        "Unsupported nucleotide 'q' encountered in sequence"
    );
    assert_eq!(translate_frame("AT?", 1, false).unwrap_err(), "Invalid character '?' found in nucleotide sequence");
    assert_eq!(
        translate_frame("ATGGCC", 4, false).unwrap_err(),
        "Frame must be between 1 and 3 (inclusive). Got 4"
    );
    assert_eq!(
        translate_all_frames("A1", false).unwrap_err(),
        "Invalid character '1' found in nucleotide sequence"
    );
}

#[test]
fn empty_sequence_translates_to_nothing() {
    assert_eq!(translate_frame("", 3, false).unwrap(), "");
}
