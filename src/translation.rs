use vstd::prelude::*;

use crate::fna2faa::{STANDARD_CODE, STOP, UNKNOWN_AMINO_ACID};
use crate::text::{all_ascii, ascii_chars, ascii_string, decimal};

verus! {

/// Outcome of `char::is_whitespace`.
pub uninterp spec fn white_space(c: char) -> bool;

/// Relies on `char::is_whitespace`: the Unicode White_Space property, which among
/// ASCII characters holds exactly of tab, line feed, vertical tab, form feed,
/// carriage return and space.
#[verifier::external_body]
fn is_whitespace(c: char) -> (r: bool)
    ensures
        r == white_space(c),
        (c as u32) < 128 ==> (r <==> (c == ' ' || ('\t' <= c && c <= '\r'))),
{
    c.is_whitespace()
}

/// Upper-case nucleotide codes accepted in a sequence (U is read as T).
pub open spec fn is_nucleotide_code(b: u8) -> bool {
    b == 65 || b == 67 || b == 71 || b == 84 || b == 85 || b == 82 || b == 89 || b == 75 || b == 77
        || b == 83 || b == 87 || b == 66 || b == 68 || b == 72 || b == 86 || b == 78
}

pub open spec fn is_ascii_digit(c: char) -> bool {
    '0' <= c <= '9'
}

pub open spec fn is_ascii_letter(c: char) -> bool {
    ('A' <= c <= 'Z') || ('a' <= c <= 'z')
}

/// Upper-case byte of an ASCII letter.
pub open spec fn letter_upper(c: char) -> u8 {
    if 'a' <= c <= 'z' {
        (c as u32 - 32) as u8
    } else {
        c as u8
    }
}

pub open spec fn invalid_character_text(c: char) -> Seq<char> {
    "Invalid character '"@ + seq![c] + "' found in nucleotide sequence"@
}

pub open spec fn unsupported_nucleotide_text(c: char) -> Seq<char> {
    "Unsupported nucleotide '"@ + seq![c] + "' encountered in sequence"@
}

/// Relies on `format!` with `Display` for `char`, which writes the character itself.
#[verifier::external_body]
fn invalid_character_message(c: char) -> (r: String)
    ensures
        r@ == invalid_character_text(c),
{
    format!("Invalid character '{}' found in nucleotide sequence", c)
}

/// Relies on `format!` with `Display` for `char`, which writes the character itself.
#[verifier::external_body]
fn unsupported_nucleotide_message(c: char) -> (r: String)
    ensures
        r@ == unsupported_nucleotide_text(c),
{
    format!("Unsupported nucleotide '{}' encountered in sequence", c)
}

/// Cleaned nucleotide bytes of `s`, or the message of its first bad character:
/// white space and gaps are dropped, letters are upper-cased (U becomes T),
/// digits and other symbols are invalid, letters outside the nucleotide codes are
/// unsupported.
pub open spec fn sanitized(s: Seq<char>) -> Result<Seq<u8>, Seq<char>>
    decreases s.len(),
{
    if s.len() == 0 {
        Ok(Seq::empty())
    } else {
        match sanitized(s.drop_last()) {
            Err(e) => Err(e),
            Ok(p) => {
                let c = s.last();
                if white_space(c) || c == '-' {
                    Ok(p)
                } else if is_ascii_digit(c) {
                    Err(invalid_character_text(c))
                } else if is_ascii_letter(c) {
                    let u = letter_upper(c);
                    if is_nucleotide_code(u) {
                        Ok(p.push(if u == 85 { 84u8 } else { u }))
                    } else {
                        Err(unsupported_nucleotide_text(c))
                    }
                } else {
                    Err(invalid_character_text(c))
                }
            },
        }
    }
}

/// A bad character settles the outcome: what follows it changes nothing.
proof fn lemma_sanitized_error_settles(s: Seq<char>, k: int)
    requires
        0 <= k <= s.len(),
        sanitized(s.subrange(0, k)) is Err,
    ensures
        sanitized(s) == sanitized(s.subrange(0, k)),
    decreases s.len() - k,
{
    if k < s.len() {
        assert(s.subrange(0, k + 1).drop_last() =~= s.subrange(0, k));
        lemma_sanitized_error_settles(s, k + 1);
    } else {
        assert(s.subrange(0, k) =~= s);
    }
}

fn sanitize_sequence(seq: &str) -> (r: Result<Vec<u8>, String>)
    ensures
        match sanitized(seq@) {
            Ok(p) => r matches Ok(v) && v@ == p,
            Err(e) => r matches Err(x) && x@ == e,
        },
{
    let mut cleaned: Vec<u8> = Vec::new();
    for ch in it: seq.chars()
        invariant
            it.seq() == seq@,
            sanitized(seq@.subrange(0, it.index() as int)) == Ok::<Seq<u8>, Seq<char>>(cleaned@),
    {
        let ghost k = it.index() as int;
        proof {
            assert(seq@.subrange(0, k + 1).drop_last() =~= seq@.subrange(0, k));
            assert(ch == seq@[k]);
            assert(seq@.subrange(0, k + 1).last() == ch);
            if sanitized(seq@.subrange(0, k + 1)) is Err {
                lemma_sanitized_error_settles(seq@, k + 1);
            }
        }
        if is_whitespace(ch) || ch == '-' {
            // white space and gap symbols are dropped
        } else if '0' <= ch && ch <= '9' {
            return Err(invalid_character_message(ch));
        } else if ('A' <= ch && ch <= 'Z') || ('a' <= ch && ch <= 'z') {
            let upper: u8 = if 'a' <= ch && ch <= 'z' {
                (ch as u32 - 32) as u8
            } else {
                ch as u8
            };
            if upper == 65 || upper == 67 || upper == 71 || upper == 84 || upper == 85 || upper == 82
                || upper == 89 || upper == 75 || upper == 77 || upper == 83 || upper == 87 || upper == 66
                || upper == 68 || upper == 72 || upper == 86 || upper == 78 {
                cleaned.push(if upper == 85 { 84 } else { upper });
            } else {
                return Err(unsupported_nucleotide_message(ch));
            }
        } else {
            return Err(invalid_character_message(ch));
        }
    }
    assert(seq@.subrange(0, seq@.len() as int) =~= seq@);
    Ok(cleaned)
}

/// Position of an upper-case canonical base in the order A, C, G, T.
pub open spec fn base_position(b: u8) -> Option<int> {
    if b == 65 {
        Some(0)
    } else if b == 67 {
        Some(1)
    } else if b == 71 {
        Some(2)
    } else if b == 84 {
        Some(3)
    } else {
        None
    }
}

fn base_index(b: u8) -> (r: Option<usize>)
    ensures
        r is Some <==> base_position(b) is Some,
        r is Some ==> r->0 < 4 && r->0 as int == base_position(b)->0,
{
    if b == 65 {
        Some(0)
    } else if b == 67 {
        Some(1)
    } else if b == 71 {
        Some(2)
    } else if b == 84 {
        Some(3)
    } else {
        None
    }
}

/// Amino acid of a three-byte codon under the standard code; `X` when a byte is
/// not one of A, C, G, T.
pub open spec fn codon_amino_acid(c: Seq<u8>) -> u8 {
    if base_position(c[0]) is Some && base_position(c[1]) is Some && base_position(c[2]) is Some {
        STANDARD_CODE[base_position(c[0])->0 * 16 + base_position(c[1])->0 * 4 + base_position(c[2])->0]
    } else {
        UNKNOWN_AMINO_ACID
    }
}

fn translate_codon(codon: &[u8]) -> (r: u8)
    requires
        codon@.len() == 3,
    ensures
        r == codon_amino_acid(codon@),
        r < 128,
{
    assert(forall|k: int| 0 <= k < 64 ==> #[trigger] STANDARD_CODE@[k] < 128);
    match (base_index(codon[0]), base_index(codon[1]), base_index(codon[2])) {
        (Some(a), Some(b), Some(c)) => STANDARD_CODE[a * 16 + b * 4 + c],
        _ => UNKNOWN_AMINO_ACID,
    }
}

/// Protein read from byte `idx` of `s`, codon by codon, up to the last whole
/// codon; with `stop_at_first` the first stop codon ends it and is left out.
pub open spec fn protein_from(s: Seq<u8>, idx: nat, stop_at_first: bool) -> Seq<u8>
    decreases s.len() - idx,
{
    if idx + 3 > s.len() {
        Seq::empty()
    } else {
        let aa = codon_amino_acid(s.subrange(idx as int, idx + 3 as int));
        if aa == STOP && stop_at_first {
            Seq::empty()
        } else {
            seq![aa] + protein_from(s, (idx + 3) as nat, stop_at_first)
        }
    }
}

pub open spec fn frame_error_text(frame: usize) -> Seq<char> {
    "Frame must be between 1 and 3 (inclusive). Got "@ + decimal(frame as nat)
}

/// Relies on `format!` with `Display` for `usize`, which writes the number in decimal.
#[verifier::external_body]
fn frame_error_message(frame: usize) -> (r: String)
    ensures
        r@ == frame_error_text(frame),
{
    format!("Frame must be between 1 and 3 (inclusive). Got {}", frame)
}

fn translate_frame_internal(sanitized: &[u8], frame: usize, stop_at_first_stop: bool) -> (r: Result<String, String>)
    ensures
        r is Ok <==> 1 <= frame <= 3,
        r matches Ok(p) ==> p@ == ascii_chars(protein_from(sanitized@, (frame - 1) as nat, stop_at_first_stop)),
        r matches Err(e) ==> e@ == frame_error_text(frame),
{
    if !(1 <= frame && frame <= 3) {
        return Err(frame_error_message(frame));
    }
    let ghost s = sanitized@;
    let ghost whole = protein_from(s, (frame - 1) as nat, stop_at_first_stop);
    let mut translated: Vec<u8> = Vec::new();
    let mut index: usize = frame - 1;
    let mut done = false;
    assert(translated@ + whole =~= whole);
    while !done && sanitized.len() >= 3 && index <= sanitized.len() - 3
        invariant
            s == sanitized@,
            translated@ + protein_from(s, index as nat, stop_at_first_stop) == whole,
            done ==> protein_from(s, index as nat, stop_at_first_stop) == Seq::<u8>::empty(),
            all_ascii(translated@),
        decreases sanitized@.len() - index + if done { 0int } else { 1int },
    {
        let codon = &sanitized[index..index + 3];
        let aa = translate_codon(codon);
        if aa == STOP && stop_at_first_stop {
            done = true;
        } else {
            let ghost rest = protein_from(s, (index + 3) as nat, stop_at_first_stop);
            assert(translated@.push(aa) + rest =~= translated@ + (seq![aa] + rest));
            translated.push(aa);
            index += 3;
        }
    }
    assert(translated@ + Seq::<u8>::empty() =~= translated@);
    Ok(ascii_string(translated))
}

/// Cleans `seq` and translates reading frame `frame` (1 to 3) under the standard
/// code.
pub fn translate_frame(seq: &str, frame: usize, stop_at_first_stop: bool) -> (r: Result<String, String>)
    ensures
        r is Ok <==> sanitized(seq@) is Ok && 1 <= frame <= 3,
        sanitized(seq@) matches Err(e) ==> (r matches Err(x) && x@ == e),
        sanitized(seq@) is Ok && !(1 <= frame <= 3) ==> (r matches Err(x) && x@ == frame_error_text(frame)),
        r matches Ok(p) ==> p@ == ascii_chars(
            protein_from(sanitized(seq@)->Ok_0, (frame - 1) as nat, stop_at_first_stop),
        ),
{
    let cleaned = match sanitize_sequence(seq) {
        Ok(v) => v,
        Err(e) => return Err(e),
    };
    translate_frame_internal(cleaned.as_slice(), frame, stop_at_first_stop)
}

/// Cleans `seq` and translates its three forward reading frames.
pub fn translate_all_frames(seq: &str, stop_at_first_stop: bool) -> (r: Result<Vec<String>, String>)
    ensures
        r is Ok <==> sanitized(seq@) is Ok,
        sanitized(seq@) matches Err(e) ==> (r matches Err(x) && x@ == e),
        r matches Ok(v) ==> v@.len() == 3 && forall|k: int|
            0 <= k < 3 ==> (#[trigger] v@[k])@ == ascii_chars(
                protein_from(sanitized(seq@)->Ok_0, k as nat, stop_at_first_stop),
            ),
{
    let cleaned = match sanitize_sequence(seq) {
        Ok(v) => v,
        Err(e) => return Err(e),
    };
    let mut out: Vec<String> = Vec::new();
    let mut frame: usize = 1;
    while frame <= 3
        invariant
            1 <= frame <= 4,
            out@.len() == frame - 1,
            sanitized(seq@) == Ok::<Seq<u8>, Seq<char>>(cleaned@),
            forall|k: int|
                0 <= k < frame - 1 ==> (#[trigger] out@[k])@ == ascii_chars(
                    protein_from(cleaned@, k as nat, stop_at_first_stop),
                ),
        decreases 4 - frame,
    {
        let translated = match translate_frame_internal(cleaned.as_slice(), frame, stop_at_first_stop) {
            Ok(p) => p,
            Err(e) => return Err(e),
        };
        out.push(translated);
        frame += 1;
    }
    Ok(out)
}

} // verus!
