use vstd::prelude::*;

use vstd::string::StringSliceAdditionalSpecFns;

use crate::scoring::{ascii_upper, upper};
use crate::text::{all_ascii, ascii_chars, ascii_string, signed_decimal};

verus! {

/// The amino-acid symbol of a codon that cannot be resolved to one residue.
pub const UNKNOWN_AMINO_ACID: u8 = 88;

/// The amino-acid symbol of a stop codon.
pub const STOP: u8 = 42;

/// The standard genetic code, indexed by `codon_index` over the base order
/// A, C, G, T.
pub const STANDARD_CODE: [u8; 64] = [
    75, // AAA K
    78, // AAC N
    75, // AAG K
    78, // AAT N
    84, // ACA T
    84, // ACC T
    84, // ACG T
    84, // ACT T
    82, // AGA R
    83, // AGC S
    82, // AGG R
    83, // AGT S
    73, // ATA I
    73, // ATC I
    77, // ATG M
    73, // ATT I
    81, // CAA Q
    72, // CAC H
    81, // CAG Q
    72, // CAT H
    80, // CCA P
    80, // CCC P
    80, // CCG P
    80, // CCT P
    82, // CGA R
    82, // CGC R
    82, // CGG R
    82, // CGT R
    76, // CTA L
    76, // CTC L
    76, // CTG L
    76, // CTT L
    69, // GAA E
    68, // GAC D
    69, // GAG E
    68, // GAT D
    65, // GCA A
    65, // GCC A
    65, // GCG A
    65, // GCT A
    71, // GGA G
    71, // GGC G
    71, // GGG G
    71, // GGT G
    86, // GTA V
    86, // GTC V
    86, // GTG V
    86, // GTT V
    42, // TAA *
    89, // TAC Y
    42, // TAG *
    89, // TAT Y
    83, // TCA S
    83, // TCC S
    83, // TCG S
    83, // TCT S
    42, // TGA *
    67, // TGC C
    87, // TGG W
    67, // TGT C
    76, // TTA L
    70, // TTC F
    76, // TTG L
    70, // TTT F
];

/// Bit mask of the canonical bases (A, C, G, T as bits 0 to 3) that a
/// nucleotide symbol stands for, ignoring case; U counts as T and the gap `-`
/// stands for none.
pub open spec fn spec_base_mask(base: u8) -> Option<u8> {
    match upper(base) {
        65 => Some(1),  // A
        67 => Some(2),  // C
        71 => Some(4),  // G
        84 | 85 => Some(8),  // T U
        82 => Some(5),  // R
        89 => Some(10),  // Y
        83 => Some(6),  // S
        87 => Some(9),  // W
        75 => Some(12),  // K
        77 => Some(3),  // M
        66 => Some(14),  // B
        68 => Some(13),  // D
        72 => Some(11),  // H
        86 => Some(7),  // V
        78 | 88 => Some(15),  // N X
        45 => Some(0),  // -
        _ => None,
    }
}

fn base_mask(base: u8) -> (r: Option<u8>)
    ensures
        r == spec_base_mask(base),
{
    match ascii_upper(base) {
        65 => Some(1),  // A
        67 => Some(2),  // C
        71 => Some(4),  // G
        84 | 85 => Some(8),  // T U
        82 => Some(5),  // R
        89 => Some(10),  // Y
        83 => Some(6),  // S
        87 => Some(9),  // W
        75 => Some(12),  // K
        77 => Some(3),  // M
        66 => Some(14),  // B
        68 => Some(13),  // D
        72 => Some(11),  // H
        86 => Some(7),  // V
        78 | 88 => Some(15),  // N X
        45 => Some(0),  // -
        _ => None,
    }
}

pub open spec fn spec_codon_index(first: int, second: int, third: int) -> int {
    first * 16 + second * 4 + third
}

fn codon_index(first: usize, second: usize, third: usize) -> (r: usize)
    requires
        first < 4,
        second < 4,
        third < 4,
    ensures
        r == spec_codon_index(first as int, second as int, third as int),
        r < 64,
{
    first * 16 + second * 4 + third
}

/// Complement of a nucleotide symbol, in upper case; a symbol that is not a
/// nucleotide code is kept as it is.
pub open spec fn complement(base: u8) -> u8 {
    match upper(base) {
        65 => 84,  // A
        67 => 71,  // C
        71 => 67,  // G
        84 | 85 => 65,  // T U
        82 => 89,  // R
        89 => 82,  // Y
        83 => 83,  // S
        87 => 87,  // W
        75 => 77,  // K
        77 => 75,  // M
        66 => 86,  // B
        68 => 72,  // D
        72 => 68,  // H
        86 => 66,  // V
        78 | 88 => 78,  // N X
        45 => 45,  // -
        _ => base,
    }
}

/// Reverse complement of `src`.
pub open spec fn reverse_complement(src: Seq<u8>) -> Seq<u8> {
    Seq::new(src.len(), |k: int| complement(src[src.len() - 1 - k]))
}

/// Writes the reverse complement of `src` into `dst`, replacing what it held.
pub fn rev_compl_to(src: &[u8], dst: &mut Vec<u8>)
    ensures
        final(dst)@ == reverse_complement(src@),
{
    dst.clear();
    let n = src.len();
    let mut k: usize = n;
    while k > 0
        invariant
            n == src@.len(),
            k <= n,
            dst@.len() == n - k,
            forall|t: int| 0 <= t < dst@.len() ==> #[trigger] dst@[t] == complement(src@[n - 1 - t]),
        decreases k,
    {
        k -= 1;
        let b = src[k];
        let c = match ascii_upper(b) {
            65 => 84,  // A
            67 => 71,  // C
            71 => 67,  // G
            84 | 85 => 65,  // T U
            82 => 89,  // R
            89 => 82,  // Y
            83 => 83,  // S
            87 => 87,  // W
            75 => 77,  // K
            77 => 75,  // M
            66 => 86,  // B
            68 => 72,  // D
            72 => 68,  // H
            86 => 66,  // V
            78 | 88 => 78,  // N X
            45 => 45,  // -
            _ => b,
        };
        dst.push(c);
    }
    assert(dst@ =~= reverse_complement(src@));
}

/// Whether bit `b` (a canonical base) is set in a base mask.
pub open spec fn has_base(mask: u8, b: u8) -> bool {
    mask & (1u8 << b) != 0
}

/// The three base masks of a codon, when it has three symbols that each stand
/// for at least one base.
pub open spec fn codon_masks(codon: Seq<u8>) -> Option<(u8, u8, u8)> {
    if codon.len() == 3 && spec_base_mask(codon[0]) is Some && spec_base_mask(codon[1]) is Some
        && spec_base_mask(codon[2]) is Some && spec_base_mask(codon[0])->0 != 0
        && spec_base_mask(codon[1])->0 != 0 && spec_base_mask(codon[2])->0 != 0 {
        Some((spec_base_mask(codon[0])->0, spec_base_mask(codon[1])->0, spec_base_mask(codon[2])->0))
    } else {
        None
    }
}

/// Codon index `k` is one of the concrete codons the masks stand for.
pub open spec fn expands_to(m: (u8, u8, u8), k: int) -> bool {
    0 <= k < 64 && has_base(m.0, (k / 16) as u8) && has_base(m.1, ((k / 4) % 4) as u8) && has_base(
        m.2,
        (k % 4) as u8,
    )
}

/// Every concrete codon of the masks codes for `aa`, and there is at least one.
pub open spec fn all_code_for(table: Seq<u8>, m: (u8, u8, u8), aa: u8) -> bool {
    &&& exists|k: int| expands_to(m, k) && table[k] == aa
    &&& forall|k: int| expands_to(m, k) ==> table[k] == aa
}

/// The amino acid shared by all concrete codons of the masks, if there is one.
pub open spec fn agreed_amino_acid(table: Seq<u8>, m: (u8, u8, u8)) -> u8 {
    choose|aa: u8| all_code_for(table, m, aa)
}

/// Translation of a (possibly ambiguous) codon: the amino acid that all the
/// concrete codons it stands for share, with a flag that is set when there is
/// no such amino acid (or it is the unknown symbol itself).
pub open spec fn spec_translate_triplet(table: Seq<u8>, codon: Seq<u8>) -> (u8, bool) {
    match codon_masks(codon) {
        Some(m) => {
            if exists|aa: u8| all_code_for(table, m, aa) {
                let aa = agreed_amino_acid(table, m);
                (aa, aa == UNKNOWN_AMINO_ACID)
            } else {
                (UNKNOWN_AMINO_ACID, true)
            }
        },
        None => (UNKNOWN_AMINO_ACID, true),
    }
}

/// Translates codons through a 64-entry amino-acid table.
#[derive(Clone, Debug)]
pub struct CodonEncoder {
    table: [u8; 64],
}

impl View for CodonEncoder {
    type V = Seq<u8>;

    closed spec fn view(&self) -> Seq<u8> {
        self.table@
    }
}

/// The standard genetic code as a lookup table.
pub fn build_table() -> (t: [u8; 64])
    ensures
        t@ == STANDARD_CODE@,
{
    let mut table = [UNKNOWN_AMINO_ACID; 64];
    let mut k: usize = 0;
    while k < 64
        invariant
            k <= 64,
            table@.len() == 64,
            forall|t: int| 0 <= t < k ==> #[trigger] table@[t] == STANDARD_CODE@[t],
        decreases 64 - k,
    {
        table[k] = STANDARD_CODE[k];
        k += 1;
    }
    assert(table@ =~= STANDARD_CODE@);
    table
}

impl CodonEncoder {
    pub fn mk_encoder() -> (e: CodonEncoder)
        ensures
            e@ == STANDARD_CODE@,
    {
        CodonEncoder { table: build_table() }
    }

    /// Amino acid of a codon and whether it is ambiguous.
    pub fn translate_triplet(&self, codon: &[u8]) -> (r: (u8, bool))
        ensures
            r == spec_translate_triplet(self@, codon@),
    {
        if codon.len() != 3 {
            return (UNKNOWN_AMINO_ACID, true);
        }
        let m0 = match base_mask(codon[0]) {
            Some(mask) => mask,
            None => return (UNKNOWN_AMINO_ACID, true),
        };
        let m1 = match base_mask(codon[1]) {
            Some(mask) => mask,
            None => return (UNKNOWN_AMINO_ACID, true),
        };
        let m2 = match base_mask(codon[2]) {
            Some(mask) => mask,
            None => return (UNKNOWN_AMINO_ACID, true),
        };
        if m0 == 0 || m1 == 0 || m2 == 0 {
            return (UNKNOWN_AMINO_ACID, true);
        }
        let ghost m = (m0, m1, m2);
        assert(codon_masks(codon@) == Some(m));
        let mut aa: Option<u8> = None;
        let mut first: u8 = 0;
        while first < 4
            invariant
                first <= 4,
                self@.len() == 64,
                m == (m0, m1, m2),
                codon_masks(codon@) == Some(m),
                aa is None ==> forall|k: int| 0 <= k < first * 16 ==> !expands_to(m, k),
                aa is Some ==> exists|k: int| 0 <= k < first * 16 && expands_to(m, k) && self@[k] == aa->0,
                aa is Some ==> forall|k: int| 0 <= k < first * 16 && expands_to(m, k) ==> self@[k] == aa->0,
            decreases 4 - first,
        {
            if m0 & (1u8 << first) != 0 {
                let mut second: u8 = 0;
                while second < 4
                    invariant
                        first < 4,
                        second <= 4,
                        self@.len() == 64,
                        m == (m0, m1, m2),
                codon_masks(codon@) == Some(m),
                        has_base(m0, first),
                        aa is None ==> forall|k: int| 0 <= k < first * 16 + second * 4 ==> !expands_to(m, k),
                        aa is Some ==> exists|k: int|
                            0 <= k < first * 16 + second * 4 && expands_to(m, k) && self@[k] == aa->0,
                        aa is Some ==> forall|k: int|
                            0 <= k < first * 16 + second * 4 && expands_to(m, k) ==> self@[k] == aa->0,
                    decreases 4 - second,
                {
                    if m1 & (1u8 << second) != 0 {
                        let mut third: u8 = 0;
                        while third < 4
                            invariant
                                first < 4,
                                second < 4,
                                third <= 4,
                                self@.len() == 64,
                                m == (m0, m1, m2),
                codon_masks(codon@) == Some(m),
                                has_base(m0, first),
                                has_base(m1, second),
                                aa is None ==> forall|k: int|
                                    0 <= k < first * 16 + second * 4 + third ==> !expands_to(m, k),
                                aa is Some ==> exists|k: int|
                                    0 <= k < first * 16 + second * 4 + third && expands_to(m, k) && self@[k]
                                        == aa->0,
                                aa is Some ==> forall|k: int|
                                    0 <= k < first * 16 + second * 4 + third && expands_to(m, k) ==> self@[k]
                                        == aa->0,
                            decreases 4 - third,
                        {
                            let idx = codon_index(first as usize, second as usize, third as usize);
                            let ghost k = idx as int;
                            assert(k / 16 == first as int && (k / 4) % 4 == second as int && k % 4 == third as int);
                            if m2 & (1u8 << third) != 0 {
                                assert(expands_to(m, k));
                                let current = self.table[idx];
                                match aa {
                                    None => {
                                        aa = Some(current);
                                    },
                                    Some(existing) => {
                                        if existing != current {
                                            proof {
                                                assert forall|x: u8| !all_code_for(self@, m, x) by {
                                                    if all_code_for(self@, m, x) {
                                                        let k0 = choose|k0: int|
                                                            0 <= k0 < k && expands_to(m, k0) && self@[k0] == existing;
                                                        assert(self@[k0] == x);
                                                        assert(self@[k] == x);
                                                    }
                                                }
                                            }
                                            return (UNKNOWN_AMINO_ACID, true);
                                        }
                                    },
                                }
                            } else {
                                assert(!expands_to(m, k));
                            }
                            third += 1;
                        }
                    } else {
                        assert forall|k: int|
                            first * 16 + second * 4 <= k < first * 16 + second * 4 + 4 implies !expands_to(m, k) by {
                            assert((k / 4) % 4 == second as int);
                        }
                    }
                    second += 1;
                }
            } else {
                assert forall|k: int| first * 16 <= k < first * 16 + 16 implies !expands_to(m, k) by {
                    assert(k / 16 == first as int);
                }
            }
            first += 1;
        }
        match aa {
            Some(x) => {
                assert(all_code_for(self@, m, x));
                let ghost c = agreed_amino_acid(self@, m);
                assert(c == x) by {
                    let k0 = choose|k0: int| expands_to(m, k0) && self@[k0] == c;
                    assert(self@[k0] == x);
                }
                assert(exists|aa: u8| all_code_for(self@, m, aa));
                assert(codon_masks(codon@)->0 == m);
                assert(spec_translate_triplet(self@, codon@) == (c, c == UNKNOWN_AMINO_ACID));
                (x, x == UNKNOWN_AMINO_ACID)
            },
            None => {
                assert forall|x: u8| !all_code_for(self@, m, x) by {
                    if all_code_for(self@, m, x) {
                        let k0 = choose|k0: int| expands_to(m, k0) && self@[k0] == x;
                    }
                }
                (UNKNOWN_AMINO_ACID, true)
            },
        }
    }
}

/// Translation of one reading frame: the amino acids, the positions of stop
/// symbols and the positions of ambiguous codons among them.
#[derive(Clone, Debug, PartialEq, Eq)]
pub struct FrameTranslation {
    pub frame: i8,
    pub amino_acids: String,
    pub stops: Vec<usize>,
    pub ambiguous: Vec<usize>,
}

/// Translations of the six reading frames.
#[derive(Clone, Debug, PartialEq, Eq)]
pub struct TranslationSummary {
    pub frames: Vec<FrameTranslation>,
}

/// Direction and offset of a frame: 0, 1, 2 read the sequence from that offset;
/// -1, -2, -3 read its reverse complement from offset 0, 1, 2.
pub open spec fn frame_offset(frame: i8) -> Option<(bool, int)> {
    if 0 <= frame <= 2 {
        Some((false, frame as int))
    } else if -3 <= frame <= -1 {
        Some((true, -frame - 1))
    } else {
        None
    }
}

/// The bytes a valid frame reads.
pub open spec fn frame_bytes(seq: Seq<u8>, frame: i8) -> Seq<u8> {
    let (reverse, offset) = frame_offset(frame)->0;
    let source = if reverse { reverse_complement(seq) } else { seq };
    if offset > source.len() {
        Seq::empty()
    } else {
        source.subrange(offset, source.len() as int)
    }
}

/// Amino acids, stop positions, ambiguous positions and whether a stop ended the
/// translation, after the first `k` codons of `w`.
pub open spec fn frame_scan(table: Seq<u8>, w: Seq<u8>, stop_at_first: bool, k: nat) -> (
    Seq<u8>,
    Seq<usize>,
    Seq<usize>,
    bool,
)
    decreases k,
{
    if k == 0 {
        (Seq::empty(), Seq::empty(), Seq::empty(), false)
    } else {
        let prev = frame_scan(table, w, stop_at_first, (k - 1) as nat);
        if prev.3 {
            prev
        } else {
            let t = spec_translate_triplet(table, w.subrange(3 * (k - 1), 3 * (k - 1) + 3));
            let pos = prev.0.len() as usize;
            (
                prev.0.push(t.0),
                if t.0 == STOP { prev.1.push(pos) } else { prev.1 },
                if t.1 { prev.2.push(pos) } else { prev.2 },
                stop_at_first && t.0 == STOP,
            )
        }
    }
}

/// Once a stop has ended the translation, further codons change nothing.
proof fn lemma_scan_settled(table: Seq<u8>, w: Seq<u8>, stop_at_first: bool, k: nat, n: nat)
    requires
        k <= n,
        frame_scan(table, w, stop_at_first, k).3 || k == n,
    ensures
        frame_scan(table, w, stop_at_first, n) == frame_scan(table, w, stop_at_first, k),
    decreases n - k,
{
    if k < n {
        lemma_scan_settled(table, w, stop_at_first, k, (n - 1) as nat);
    }
}

/// `r` is the translation of frame `frame` of `seq` through `table`.
pub open spec fn translates_frame(r: FrameTranslation, table: Seq<u8>, seq: Seq<u8>, frame: i8, stop_at_first: bool) -> bool {
    let w = frame_bytes(seq, frame);
    let s = frame_scan(table, w, stop_at_first, w.len() / 3);
    &&& r.frame == frame
    &&& r.amino_acids@ == ascii_chars(s.0)
    &&& r.stops@ == s.1
    &&& r.ambiguous@ == s.2
}

/// The sequence is long enough for a reverse frame's offset.
pub open spec fn frame_fits(seq: Seq<u8>, frame: i8) -> bool {
    frame_offset(frame) matches Some((true, offset)) ==> offset <= seq.len()
}

/// Relies on `format!` with `Display` for `i8`: the text, then the frame in
/// decimal with a leading `-` when it is negative.
#[verifier::external_body]
fn invalid_frame_message(frame: i8) -> (r: String)
    ensures
        r@ == "Invalid frame: "@ + signed_decimal(frame as int),
{
    format!("Invalid frame: {}", frame)
}

proof fn lemma_translate_ascii(table: Seq<u8>, codon: Seq<u8>)
    requires
        all_ascii(table),
        table.len() == 64,
    ensures
        spec_translate_triplet(table, codon).0 < 128,
{
    match codon_masks(codon) {
        Some(m) => {
            if exists|aa: u8| all_code_for(table, m, aa) {
                let aa = agreed_amino_acid(table, m);
                let k = choose|k: int| expands_to(m, k) && table[k] == aa;
            }
        },
        None => {},
    }
}

/// Translates one reading frame of `sequence` (see `frame_offset`), stopping after
/// the first stop codon when `stop_at_first` is set.
pub fn translate_frame_internal(encoder: &CodonEncoder, sequence: &str, frame: i8, stop_at_first: bool) -> (r: Result<
    FrameTranslation,
    String,
>)
    requires
        encoder@ == STANDARD_CODE@,
        frame_fits(sequence.spec_bytes(), frame),
    ensures
        r is Ok <==> frame_offset(frame) is Some,
        r matches Ok(t) ==> translates_frame(t, encoder@, sequence.spec_bytes(), frame, stop_at_first),
        r matches Err(e) ==> e@ == "Invalid frame: "@ + signed_decimal(frame as int),
{
    let (is_reverse, offset): (bool, usize) = if 0 <= frame && frame <= 2 {
        (false, frame as usize)
    } else if -3 <= frame && frame <= -1 {
        (true, (-frame - 1) as usize)
    } else {
        return Err(invalid_frame_message(frame));
    };
    let seq_bytes = sequence.as_bytes();
    let mut buffer: Vec<u8> = Vec::new();
    let source: &[u8] = if is_reverse {
        rev_compl_to(seq_bytes, &mut buffer);
        buffer.as_slice()
    } else {
        if seq_bytes.len() < offset {
            let r = FrameTranslation {
                frame,
                amino_acids: String::new(),
                stops: Vec::new(),
                ambiguous: Vec::new(),
            };
            assert(r.amino_acids@ =~= ascii_chars(Seq::empty()));
            return Ok(r);
        }
        seq_bytes
    };
    let working = &source[offset..source.len()];
    let ghost table = encoder@;
    let ghost w = working@;
    assert(w == frame_bytes(sequence.spec_bytes(), frame));
    proof {
        assert(all_ascii(STANDARD_CODE@)) by {
            assert(forall|k: int| 0 <= k < 64 ==> #[trigger] STANDARD_CODE@[k] < 128);
        }
    }
    let mut amino_acids: Vec<u8> = Vec::new();
    let mut stops: Vec<usize> = Vec::new();
    let mut ambiguous_positions: Vec<usize> = Vec::new();
    let mut index: usize = 0;
    let mut done = false;
    while !done && working.len() - index >= 3
        invariant
            table == encoder@,
            table == STANDARD_CODE@,
            all_ascii(table),
            w == working@,
            index % 3 == 0,
            index <= w.len(),
            all_ascii(amino_acids@),
            amino_acids@.len() <= index / 3,
            (amino_acids@, stops@, ambiguous_positions@, done) == frame_scan(table, w, stop_at_first, (index / 3) as nat),
        decreases w.len() - index,
    {
        let codon = &working[index..index + 3];
        let ghost k = index / 3;
        assert(codon@ == w.subrange(3 * k, 3 * k + 3));
        let (aa, ambiguous) = encoder.translate_triplet(codon);
        proof {
            lemma_translate_ascii(table, codon@);
        }
        let aa_index = amino_acids.len();
        if ambiguous {
            ambiguous_positions.push(aa_index);
        }
        amino_acids.push(aa);
        if aa == STOP {
            stops.push(aa_index);
        }
        done = stop_at_first && aa == STOP;
        index += 3;
        assert(index / 3 == k + 1);
    }
    proof {
        lemma_scan_settled(table, w, stop_at_first, (index / 3) as nat, w.len() / 3);
    }
    Ok(FrameTranslation { frame, amino_acids: ascii_string(amino_acids), stops, ambiguous: ambiguous_positions })
}

/// The six reading frames, in the order they are reported.
pub const ALL_FRAMES: [i8; 6] = [0, 1, 2, -1, -2, -3];

/// Translates the six reading frames of `sequence`, in the order of `ALL_FRAMES`.
pub fn translate_all_frames_internal(encoder: &CodonEncoder, sequence: &str, stop_at_first: bool) -> (r:
    TranslationSummary)
    requires
        encoder@ == STANDARD_CODE@,
        sequence.spec_bytes().len() >= 2,
    ensures
        r.frames@.len() == 6,
        forall|k: int|
            0 <= k < 6 ==> translates_frame(
                #[trigger] r.frames@[k],
                encoder@,
                sequence.spec_bytes(),
                ALL_FRAMES[k],
                stop_at_first,
            ),
{
    let mut frames: Vec<FrameTranslation> = Vec::new();
    let mut k: usize = 0;
    while k < 6
        invariant
            k <= 6,
            encoder@ == STANDARD_CODE@,
            sequence.spec_bytes().len() >= 2,
            frames@.len() == k,
            forall|t: int|
                0 <= t < k ==> translates_frame(
                    #[trigger] frames@[t],
                    encoder@,
                    sequence.spec_bytes(),
                    ALL_FRAMES[t],
                    stop_at_first,
                ),
        decreases 6 - k,
    {
        let frame = ALL_FRAMES[k];
        match translate_frame_internal(encoder, sequence, frame, stop_at_first) {
            Ok(result) => frames.push(result),
            Err(_) => {},
        }
        k += 1;
    }
    TranslationSummary { frames }
}

} // verus!
