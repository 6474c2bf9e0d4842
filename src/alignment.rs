use vstd::prelude::*;

use crate::scoring::{ascii_upper, blosum62_score, blosum62_units, same_residue, upper, SCORE_SCALE};
use crate::text::{all_ascii, ascii_bytes, ascii_chars, ascii_str_bytes, ascii_string, reversed};

verus! {

/// The gap symbol `-` of aligned sequences.
pub const GAP: u8 = 45;

/// Largest magnitude accepted for a match, mismatch or gap score.
pub const MAX_PARAM: i64 = 1073741824;

/// Largest accepted total length of the two sequences of one alignment.
pub const MAX_TOTAL_LEN: usize = 2147483648;

/// How two symbols score against each other.
#[derive(Clone, Copy)]
pub enum ScoringModel {
    /// `match_score` when the symbols agree ignoring case, else `mismatch_penalty`.
    Uniform { match_score: i64, mismatch_penalty: i64 },
    /// The BLOSUM62 table, with a fixed penalty for symbols outside its alphabet.
    Blosum62,
}

impl ScoringModel {
    pub open spec fn spec_score(self, a: u8, b: u8) -> int {
        match self {
            ScoringModel::Uniform { match_score, mismatch_penalty } => {
                if same_residue(a, b) {
                    match_score as int
                } else {
                    mismatch_penalty as int
                }
            },
            ScoringModel::Blosum62 => blosum62_units(a, b) * SCORE_SCALE,
        }
    }

    pub open spec fn params_ok(self) -> bool {
        match self {
            ScoringModel::Uniform { match_score, mismatch_penalty } => {
                -MAX_PARAM <= match_score <= MAX_PARAM && -MAX_PARAM <= mismatch_penalty
                    <= MAX_PARAM
            },
            ScoringModel::Blosum62 => true,
        }
    }

    pub fn score(&self, a: u8, b: u8) -> (r: i64)
        ensures
            r == self.spec_score(a, b),
    {
        match self {
            ScoringModel::Uniform { match_score, mismatch_penalty } => {
                if ascii_upper(a) == ascii_upper(b) {
                    *match_score
                } else {
                    *mismatch_penalty
                }
            },
            ScoringModel::Blosum62 => blosum62_score(a, b),
        }
    }
}

/// Every score the model gives lies within the accepted parameter range.
pub proof fn lemma_score_bounded(model: ScoringModel, a: u8, b: u8)
    requires
        model.params_ok(),
    ensures
        -MAX_PARAM <= model.spec_score(a, b) <= MAX_PARAM,
{
    if model is Blosum62 {
        crate::scoring::lemma_blosum62_bounded(a, b);
    }
}

/// The outcome of one pairwise alignment. Scores are in steps of
/// `1 / SCORE_SCALE`; the fraction of identical walked columns is
/// `identities / aligned_length` (zero when nothing was walked).
pub struct AlignmentResult {
    pub aligned_seq1: String,
    pub aligned_seq2: String,
    pub aligned_length: usize,
    pub identities: usize,
    pub score: i64,
    pub alignment_markup: String,
}

/// One cell of the three score matrices.
#[derive(Clone, Copy)]
pub struct Cell {
    pub m: i64,
    pub ins: i64,
    pub del: i64,
}

pub open spec fn max2(a: int, b: int) -> int {
    if a >= b {
        a
    } else {
        b
    }
}

fn max_i64(a: i64, b: i64) -> (r: i64)
    ensures
        r == max2(a as int, b as int),
{
    if a >= b {
        a
    } else {
        b
    }
}

/// The parameters of one alignment problem.
pub struct Problem {
    pub model: ScoringModel,
    pub gap_open: int,
    pub gap_extend: int,
    pub s1: Seq<u8>,
    pub s2: Seq<u8>,
    pub global: bool,
}

pub open spec fn problem_of(
    model: ScoringModel,
    gap_open: i64,
    gap_extend: i64,
    s1: Seq<u8>,
    s2: Seq<u8>,
    global: bool,
) -> Problem {
    Problem { model, gap_open: gap_open as int, gap_extend: gap_extend as int, s1, s2, global }
}

impl Problem {
    pub open spec fn well_formed(self) -> bool {
        &&& self.model.params_ok()
        &&& -MAX_PARAM <= self.gap_open <= MAX_PARAM
        &&& -MAX_PARAM <= self.gap_extend <= MAX_PARAM
        &&& self.s1.len() + self.s2.len() <= MAX_TOTAL_LEN
    }

    pub open spec fn sub(self, i: int, j: int) -> int {
        self.model.spec_score(self.s1[i - 1], self.s2[j - 1])
    }

    /// Values `(M, Ins, Del)` of cell `(i, j)` under the affine-gap recurrence:
    /// `M` is the best score of the prefixes `s1[..i]`, `s2[..j]` (clipped at zero
    /// in local mode), `Ins` the best one ending in a gap in `s2`, `Del` the best
    /// one ending in a gap in `s1`.
    pub open spec fn dp(self, i: nat, j: nat) -> (int, int, int)
        decreases i + j,
    {
        if i == 0 && j == 0 {
            (0, 0, 0)
        } else if i == 0 {
            if self.global {
                let v = if j == 1 {
                    self.gap_open
                } else {
                    self.dp(0, (j - 1) as nat).2 + self.gap_extend
                };
                (v, v, v)
            } else {
                (0, 0, 0)
            }
        } else if j == 0 {
            if self.global {
                let v = if i == 1 {
                    self.gap_open
                } else {
                    self.dp((i - 1) as nat, 0).1 + self.gap_extend
                };
                (v, v, v)
            } else {
                (0, 0, 0)
            }
        } else {
            let diag = self.dp((i - 1) as nat, (j - 1) as nat).0 + self.sub(i as int, j as int);
            let up = self.dp((i - 1) as nat, j);
            let ins = if i == 1 {
                up.0 + self.gap_open
            } else {
                max2(up.0 + self.gap_open, up.1 + self.gap_extend)
            };
            let left = self.dp(i, (j - 1) as nat);
            let del = if j == 1 {
                left.0 + self.gap_open
            } else {
                max2(left.0 + self.gap_open, left.2 + self.gap_extend)
            };
            let best = max2(max2(diag, ins), del);
            (if self.global { best } else { max2(best, 0) }, ins, del)
        }
    }

    pub open spec fn m(self, i: nat, j: nat) -> int {
        self.dp(i, j).0
    }
}

/// Every matrix value of cell `(i, j)` is at most `(i + j) * MAX_PARAM` in magnitude.
pub proof fn lemma_dp_bounded(p: Problem, i: nat, j: nat)
    requires
        p.well_formed(),
    ensures
        -(i + j) * MAX_PARAM <= p.dp(i, j).0 <= (i + j) * MAX_PARAM,
        -(i + j) * MAX_PARAM <= p.dp(i, j).1 <= (i + j) * MAX_PARAM,
        -(i + j) * MAX_PARAM <= p.dp(i, j).2 <= (i + j) * MAX_PARAM,
    decreases i + j,
{
    if i == 0 && j == 0 {
    } else if i == 0 {
        if j > 1 {
            lemma_dp_bounded(p, 0, (j - 1) as nat);
        }
    } else if j == 0 {
        if i > 1 {
            lemma_dp_bounded(p, (i - 1) as nat, 0);
        }
    } else {
        lemma_dp_bounded(p, (i - 1) as nat, (j - 1) as nat);
        lemma_dp_bounded(p, (i - 1) as nat, j);
        lemma_dp_bounded(p, i, (j - 1) as nat);
        lemma_score_bounded(p.model, p.s1[i - 1], p.s2[j - 1]);
    }
}

pub open spec fn cell_is(c: Cell, v: (int, int, int)) -> bool {
    c.m == v.0 && c.ins == v.1 && c.del == v.2
}

pub open spec fn rows_filled(p: Problem, mat: Seq<Vec<Cell>>, rows: nat) -> bool {
    &&& mat.len() == rows
    &&& forall|ii: int|
        0 <= ii < rows ==> #[trigger] mat[ii]@.len() == p.s2.len() + 1 && forall|jj: int|
            0 <= jj <= p.s2.len() ==> cell_is(#[trigger] mat[ii]@[jj], p.dp(ii as nat, jj as nat))
}

fn next_cell(
    model: &ScoringModel,
    gap_open: i64,
    gap_extend: i64,
    s1: &[u8],
    s2: &[u8],
    global: bool,
    mat: &Vec<Vec<Cell>>,
    row: &Vec<Cell>,
    i: usize,
    j: usize,
) -> (c: Cell)
    requires
        problem_of(*model, gap_open, gap_extend, s1@, s2@, global).well_formed(),
        i <= s1@.len(),
        j <= s2@.len(),
        rows_filled(
            problem_of(*model, gap_open, gap_extend, s1@, s2@, global),
            mat@,
            i as nat,
        ),
        row@.len() == j,
        forall|jj: int|
            0 <= jj < j ==> cell_is(
                #[trigger] row@[jj],
                problem_of(*model, gap_open, gap_extend, s1@, s2@, global).dp(i as nat, jj as nat),
            ),
    ensures
        cell_is(
            c,
            problem_of(*model, gap_open, gap_extend, s1@, s2@, global).dp(i as nat, j as nat),
        ),
{
    let ghost p = problem_of(*model, gap_open, gap_extend, s1@, s2@, global);
    proof {
        lemma_dp_bounded(p, i as nat, j as nat);
        if i > 0 {
            lemma_dp_bounded(p, (i - 1) as nat, j as nat);
        }
        if j > 0 {
            lemma_dp_bounded(p, i as nat, (j - 1) as nat);
        }
        if i > 0 && j > 0 {
            lemma_dp_bounded(p, (i - 1) as nat, (j - 1) as nat);
        }
    }
    if i == 0 && j == 0 {
        Cell { m: 0, ins: 0, del: 0 }
    } else if i == 0 {
        if global {
            let v = if j == 1 {
                gap_open
            } else {
                row[j - 1].del + gap_extend
            };
            Cell { m: v, ins: v, del: v }
        } else {
            Cell { m: 0, ins: 0, del: 0 }
        }
    } else if j == 0 {
        if global {
            let v = if i == 1 {
                gap_open
            } else {
                assert(mat@[i - 1]@.len() == s2@.len() + 1);
                mat[i - 1][0].ins + gap_extend
            };
            Cell { m: v, ins: v, del: v }
        } else {
            Cell { m: 0, ins: 0, del: 0 }
        }
    } else {
        assert(mat@[i - 1]@.len() == s2@.len() + 1);
        proof {
            lemma_score_bounded(*model, s1@[i - 1], s2@[j - 1]);
        }
        let diag = mat[i - 1][j - 1].m + model.score(s1[i - 1], s2[j - 1]);
        let up = mat[i - 1][j];
        let ins = if i == 1 {
            up.m + gap_open
        } else {
            max_i64(up.m + gap_open, up.ins + gap_extend)
        };
        let left = row[j - 1];
        let del = if j == 1 {
            left.m + gap_open
        } else {
            max_i64(left.m + gap_open, left.del + gap_extend)
        };
        let best = max_i64(max_i64(diag, ins), del);
        let m = if global {
            best
        } else {
            max_i64(best, 0)
        };
        Cell { m, ins, del }
    }
}

/// Fills the three score matrices of the problem, row by row.
fn fill_matrices(
    model: &ScoringModel,
    gap_open: i64,
    gap_extend: i64,
    s1: &[u8],
    s2: &[u8],
    global: bool,
) -> (mat: Vec<Vec<Cell>>)
    requires
        problem_of(*model, gap_open, gap_extend, s1@, s2@, global).well_formed(),
    ensures
        rows_filled(
            problem_of(*model, gap_open, gap_extend, s1@, s2@, global),
            mat@,
            (s1@.len() + 1) as nat,
        ),
{
    let ghost p = problem_of(*model, gap_open, gap_extend, s1@, s2@, global);
    let n1 = s1.len();
    let n2 = s2.len();
    let mut mat: Vec<Vec<Cell>> = Vec::new();
    let mut i: usize = 0;
    while i <= n1
        invariant
            p == problem_of(*model, gap_open, gap_extend, s1@, s2@, global),
            p.well_formed(),
            n1 == s1@.len(),
            n2 == s2@.len(),
            i <= n1 + 1,
            rows_filled(p, mat@, i as nat),
        decreases n1 + 1 - i,
    {
        let mut row: Vec<Cell> = Vec::new();
        let mut j: usize = 0;
        while j <= n2
            invariant
                p == problem_of(*model, gap_open, gap_extend, s1@, s2@, global),
                p.well_formed(),
                n1 == s1@.len(),
                n2 == s2@.len(),
                i <= n1,
                j <= n2 + 1,
                rows_filled(p, mat@, i as nat),
                row@.len() == j,
                forall|jj: int| 0 <= jj < j ==> cell_is(#[trigger] row@[jj], p.dp(i as nat, jj as nat)),
            decreases n2 + 1 - j,
        {
            let c = next_cell(model, gap_open, gap_extend, s1, s2, global, &mat, &row, i, j);
            row.push(c);
            j += 1;
        }
        mat.push(row);
        i += 1;
    }
    mat
}

/// Columns of an alignment in the order a traceback emits them (right to left),
/// with the number of walked substitution columns and how many of those pair
/// the same residue.
pub struct Columns {
    pub top: Seq<u8>,
    pub bottom: Seq<u8>,
    pub walked: nat,
    pub identical: nat,
}

pub open spec fn no_columns() -> Columns {
    Columns { top: Seq::empty(), bottom: Seq::empty(), walked: 0, identical: 0 }
}

/// Column `(a, b)` emitted before `rest`; `diag` marks a walked substitution.
pub open spec fn emit(a: u8, b: u8, diag: bool, rest: Columns) -> Columns {
    Columns {
        top: seq![a] + rest.top,
        bottom: seq![b] + rest.bottom,
        walked: if diag { rest.walked + 1 } else { rest.walked },
        identical: if diag && same_residue(a, b) { rest.identical + 1 } else { rest.identical },
    }
}

pub open spec fn join(x: Columns, y: Columns) -> Columns {
    Columns {
        top: x.top + y.top,
        bottom: x.bottom + y.bottom,
        walked: x.walked + y.walked,
        identical: x.identical + y.identical,
    }
}

impl Problem {
    /// Running best `(score, i, j)` of the row-major scan of the inner cells,
    /// once cell `(i, j)` has been seen; a later cell replaces it only when strictly
    /// greater.
    pub open spec fn best(self, i: nat, j: nat) -> (int, nat, nat)
        decreases i, j,
    {
        if i == 0 {
            (0, 0, 0)
        } else if j == 0 {
            self.best((i - 1) as nat, self.s2.len())
        } else {
            let prev = self.best(i, (j - 1) as nat);
            let v = self.m(i, j);
            if v > prev.0 {
                (v, i, j)
            } else {
                prev
            }
        }
    }

    /// Gap columns that consume `s1` down from `i` to `i0`, then `s2` from `j` to `j0`.
    pub open spec fn pad_to(self, i: nat, j: nat, i0: nat, j0: nat) -> Columns
        decreases i + j,
    {
        if i > i0 {
            emit(self.s1[i - 1], GAP, false, self.pad_to((i - 1) as nat, j, i0, j0))
        } else if j > j0 {
            emit(GAP, self.s2[j - 1], false, self.pad_to(i, (j - 1) as nat, i0, j0))
        } else {
            no_columns()
        }
    }

    /// Local traceback from `(i, j)`: walk while the score stays positive,
    /// preferring the substitution, then the gap in `s2`, then the gap in `s1`;
    /// what is left of both prefixes becomes gap columns.
    pub open spec fn walk_local(self, i: nat, j: nat) -> Columns
        decreases i + j,
    {
        if i > 0 && j > 0 && self.m(i, j) > 0 {
            if self.m(i, j) == self.m((i - 1) as nat, (j - 1) as nat) + self.sub(i as int, j as int) {
                emit(self.s1[i - 1], self.s2[j - 1], true, self.walk_local((i - 1) as nat, (j - 1) as nat))
            } else if self.m(i, j) == self.dp(i, j).1 {
                emit(self.s1[i - 1], GAP, false, self.walk_local((i - 1) as nat, j))
            } else if self.m(i, j) == self.dp(i, j).2 {
                emit(GAP, self.s2[j - 1], false, self.walk_local(i, (j - 1) as nat))
            } else {
                self.pad_to(i, j, 0, 0)
            }
        } else {
            self.pad_to(i, j, 0, 0)
        }
    }

    /// Global traceback from `(i, j)` back to `(0, 0)` with the same preference order.
    pub open spec fn walk_global(self, i: nat, j: nat) -> Columns
        decreases i + j,
    {
        if i > 0 && j > 0 && self.m(i, j) == self.m((i - 1) as nat, (j - 1) as nat) + self.sub(
            i as int,
            j as int,
        ) {
            emit(self.s1[i - 1], self.s2[j - 1], true, self.walk_global((i - 1) as nat, (j - 1) as nat))
        } else if i > 0 && self.m(i, j) == self.dp(i, j).1 {
            emit(self.s1[i - 1], GAP, false, self.walk_global((i - 1) as nat, j))
        } else if j > 0 && self.m(i, j) == self.dp(i, j).2 {
            emit(GAP, self.s2[j - 1], false, self.walk_global(i, (j - 1) as nat))
        } else {
            no_columns()
        }
    }

    /// The best local cell of the whole grid.
    pub open spec fn local_best(self) -> (int, nat, nat) {
        self.best(self.s1.len(), self.s2.len())
    }

    /// All columns of the local alignment: the unaligned suffixes as gaps, then
    /// the walk from the best cell.
    pub open spec fn local_columns(self) -> Columns {
        let b = self.local_best();
        join(self.pad_to(self.s1.len(), self.s2.len(), b.1, b.2), self.walk_local(b.1, b.2))
    }

    pub open spec fn global_columns(self) -> Columns {
        self.walk_global(self.s1.len(), self.s2.len())
    }
}

/// Markup symbol of one column: `|` same residue, ` ` gap, `:` favourable
/// substitution, `.` otherwise.
pub open spec fn markup_symbol(model: ScoringModel, a: u8, b: u8) -> u8 {
    if a != GAP && b != GAP && same_residue(a, b) {
        124
    } else if a == GAP || b == GAP {
        32
    } else if model.spec_score(a, b) > 0 {
        58
    } else {
        46
    }
}

pub open spec fn markup(model: ScoringModel, top: Seq<u8>, bottom: Seq<u8>) -> Seq<u8> {
    Seq::new(top.len(), |k: int| markup_symbol(model, top[k], bottom[k]))
}

/// What an alignment result holds for the given columns and score.
pub open spec fn describes(r: AlignmentResult, model: ScoringModel, t: Columns, score: int) -> bool {
    &&& r.aligned_seq1@ == ascii_chars(t.top.reverse())
    &&& r.aligned_seq2@ == ascii_chars(t.bottom.reverse())
    &&& r.aligned_length == t.walked
    &&& r.identities == t.identical
    &&& r.score == score
    &&& r.alignment_markup@ == ascii_chars(markup(model, t.top.reverse(), t.bottom.reverse()))
}

/// `r` is the local (Smith-Waterman) alignment of the problem.
pub open spec fn is_local_alignment(r: AlignmentResult, p: Problem) -> bool {
    describes(r, p.model, p.local_columns(), p.local_best().0)
}

/// `r` is the global (Needleman-Wunsch) alignment of the problem.
pub open spec fn is_global_alignment(r: AlignmentResult, p: Problem) -> bool {
    describes(r, p.model, p.global_columns(), p.m(p.s1.len(), p.s2.len()))
}

fn locate_best(mat: &Vec<Vec<Cell>>, n1: usize, n2: usize, Ghost(p): Ghost<Problem>) -> (r: (
    i64,
    usize,
    usize,
))
    requires
        rows_filled(p, mat@, (n1 + 1) as nat),
        n1 == p.s1.len(),
        n2 == p.s2.len(),
        p.well_formed(),
    ensures
        r.0 == p.local_best().0,
        r.1 == p.local_best().1,
        r.2 == p.local_best().2,
{
    let mut best: i64 = 0;
    let mut bi: usize = 0;
    let mut bj: usize = 0;
    let mut i: usize = 1;
    while i <= n1
        invariant
            rows_filled(p, mat@, (n1 + 1) as nat),
            n1 == p.s1.len(),
            n2 == p.s2.len(),
            p.well_formed(),
            1 <= i <= n1 + 1,
            best == p.best((i - 1) as nat, n2 as nat).0,
            bi == p.best((i - 1) as nat, n2 as nat).1,
            bj == p.best((i - 1) as nat, n2 as nat).2,
        decreases n1 + 1 - i,
    {
        let mut j: usize = 1;
        assert(mat@[i as int]@.len() == n2 + 1);
        while j <= n2
            invariant
                rows_filled(p, mat@, (n1 + 1) as nat),
                n1 == p.s1.len(),
                n2 == p.s2.len(),
                p.well_formed(),
                1 <= i <= n1,
                1 <= j <= n2 + 1,
                mat@[i as int]@.len() == n2 + 1,
                best == p.best(i as nat, (j - 1) as nat).0,
                bi == p.best(i as nat, (j - 1) as nat).1,
                bj == p.best(i as nat, (j - 1) as nat).2,
            decreases n2 + 1 - j,
        {
            let v = mat[i][j].m;
            assert(cell_is(mat@[i as int]@[j as int], p.dp(i as nat, j as nat)));
            if v > best {
                best = v;
                bi = i;
                bj = j;
            }
            j += 1;
        }
        i += 1;
    }
    (best, bi, bj)
}

/// The traceback has emitted `out1`/`out2` (with `walked` substitutions, `identical`
/// of them the same residue) and `rest` remains to be emitted to reach `total`.
pub open spec fn continues(
    out1: Seq<u8>,
    out2: Seq<u8>,
    walked: int,
    identical: int,
    rest: Columns,
    total: Columns,
) -> bool {
    &&& out1 + rest.top == total.top
    &&& out2 + rest.bottom == total.bottom
    &&& walked + rest.walked == total.walked
    &&& identical + rest.identical == total.identical
}

proof fn lemma_continues_emit(
    out1: Seq<u8>,
    out2: Seq<u8>,
    walked: int,
    identical: int,
    a: u8,
    b: u8,
    diag: bool,
    rest: Columns,
    total: Columns,
)
    requires
        continues(out1, out2, walked, identical, emit(a, b, diag, rest), total),
    ensures
        continues(
            out1.push(a),
            out2.push(b),
            if diag { walked + 1 } else { walked },
            if diag && same_residue(a, b) { identical + 1 } else { identical },
            rest,
            total,
        ),
{
    assert(out1.push(a) + rest.top =~= out1 + (seq![a] + rest.top));
    assert(out2.push(b) + rest.bottom =~= out2 + (seq![b] + rest.bottom));
}

proof fn lemma_join_emit(a: u8, b: u8, diag: bool, rest: Columns, w: Columns)
    ensures
        join(emit(a, b, diag, rest), w) == emit(a, b, diag, join(rest, w)),
{
    assert(join(emit(a, b, diag, rest), w).top =~= emit(a, b, diag, join(rest, w)).top);
    assert(join(emit(a, b, diag, rest), w).bottom =~= emit(a, b, diag, join(rest, w)).bottom);
}

proof fn lemma_join_none(w: Columns)
    ensures
        join(no_columns(), w) == w,
{
    assert(join(no_columns(), w).top =~= w.top);
    assert(join(no_columns(), w).bottom =~= w.bottom);
}

proof fn lemma_continues_done(out1: Seq<u8>, out2: Seq<u8>, walked: int, identical: int, total: Columns)
    requires
        continues(out1, out2, walked, identical, no_columns(), total),
    ensures
        out1 == total.top,
        out2 == total.bottom,
        walked == total.walked,
        identical == total.identical,
{
    assert(out1 + Seq::<u8>::empty() =~= out1);
    assert(out2 + Seq::<u8>::empty() =~= out2);
}

/// Emitted columns of a traceback, with its two counters.
struct Trace {
    top: Vec<u8>,
    bottom: Vec<u8>,
    walked: usize,
    identical: usize,
}

fn trace_local(
    model: &ScoringModel,
    s1: &[u8],
    s2: &[u8],
    mat: &Vec<Vec<Cell>>,
    mi: usize,
    mj: usize,
    Ghost(p): Ghost<Problem>,
) -> (t: Trace)
    requires
        p.well_formed(),
        p.model == *model,
        p.s1 == s1@,
        p.s2 == s2@,
        !p.global,
        all_ascii(s1@),
        all_ascii(s2@),
        rows_filled(p, mat@, (s1@.len() + 1) as nat),
        mi == p.local_best().1,
        mj == p.local_best().2,
        mi <= s1@.len(),
        mj <= s2@.len(),
    ensures
        t.top@ == p.local_columns().top,
        t.bottom@ == p.local_columns().bottom,
        t.walked == p.local_columns().walked,
        t.identical == p.local_columns().identical,
        all_ascii(t.top@),
        all_ascii(t.bottom@),
{
    let ghost total = p.local_columns();
    let ghost w = p.walk_local(mi as nat, mj as nat);
    let n1 = s1.len();
    let n2 = s2.len();
    let mut i: usize = n1;
    let mut j: usize = n2;
    let mut top: Vec<u8> = Vec::new();
    let mut bottom: Vec<u8> = Vec::new();
    let mut walked: usize = 0;
    let mut identical: usize = 0;
    assert(top@ + total.top =~= total.top);
    assert(bottom@ + total.bottom =~= total.bottom);
    while i > mi
        invariant
            mi <= i <= n1,
            j == n2,
            n1 == s1@.len(),
            n2 == s2@.len(),
            p.s1 == s1@,
            p.s2 == s2@,
            all_ascii(s1@),
            all_ascii(top@),
            all_ascii(bottom@),
            walked == 0,
            identical == 0,
            continues(top@, bottom@, 0, 0, join(p.pad_to(i as nat, j as nat, mi as nat, mj as nat), w), total),
        decreases i,
    {
        proof {
            lemma_join_emit(s1@[i - 1], GAP, false, p.pad_to((i - 1) as nat, j as nat, mi as nat, mj as nat), w);
            lemma_continues_emit(top@, bottom@, 0, 0, s1@[i - 1], GAP, false,
                join(p.pad_to((i - 1) as nat, j as nat, mi as nat, mj as nat), w), total);
        }
        top.push(s1[i - 1]);
        bottom.push(GAP);
        i -= 1;
    }
    while j > mj
        invariant
            i == mi,
            mj <= j <= n2,
            n1 == s1@.len(),
            n2 == s2@.len(),
            p.s1 == s1@,
            p.s2 == s2@,
            all_ascii(s2@),
            all_ascii(top@),
            all_ascii(bottom@),
            walked == 0,
            identical == 0,
            continues(top@, bottom@, 0, 0, join(p.pad_to(i as nat, j as nat, mi as nat, mj as nat), w), total),
        decreases j,
    {
        proof {
            lemma_join_emit(GAP, s2@[j - 1], false, p.pad_to(i as nat, (j - 1) as nat, mi as nat, mj as nat), w);
            lemma_continues_emit(top@, bottom@, 0, 0, GAP, s2@[j - 1], false,
                join(p.pad_to(i as nat, (j - 1) as nat, mi as nat, mj as nat), w), total);
        }
        top.push(GAP);
        bottom.push(s2[j - 1]);
        j -= 1;
    }
    proof {
        lemma_join_none(w);
    }
    let mut stop = false;
    while !stop && i > 0 && j > 0 && mat[i][j].m > 0
        invariant
            p.well_formed(),
            p.model == *model,
            !p.global,
            i <= n1,
            j <= n2,
            n1 == s1@.len(),
            n2 == s2@.len(),
            p.s1 == s1@,
            p.s2 == s2@,
            all_ascii(s1@),
            all_ascii(s2@),
            all_ascii(top@),
            all_ascii(bottom@),
            rows_filled(p, mat@, (n1 + 1) as nat),
            walked + i <= n1,
            identical <= walked,
            continues(top@, bottom@, walked as int, identical as int, p.walk_local(i as nat, j as nat), total),
            stop ==> p.walk_local(i as nat, j as nat) == p.pad_to(i as nat, j as nat, 0, 0),
        decreases i + j + if stop { 0int } else { 1int },
    {
        assert(mat@[i as int]@.len() == n2 + 1);
        assert(mat@[i - 1]@.len() == n2 + 1);
        assert(cell_is(mat@[i as int]@[j as int], p.dp(i as nat, j as nat)));
        assert(cell_is(mat@[i - 1]@[j - 1], p.dp((i - 1) as nat, (j - 1) as nat)));
        proof {
            lemma_dp_bounded(p, (i - 1) as nat, (j - 1) as nat);
            lemma_score_bounded(*model, s1@[i - 1], s2@[j - 1]);
        }
        let cur = mat[i][j];
        let diag = mat[i - 1][j - 1].m + model.score(s1[i - 1], s2[j - 1]);
        if cur.m == diag {
            let a = s1[i - 1];
            let b = s2[j - 1];
            proof {
                lemma_continues_emit(top@, bottom@, walked as int, identical as int, a, b, true,
                    p.walk_local((i - 1) as nat, (j - 1) as nat), total);
            }
            top.push(a);
            bottom.push(b);
            walked += 1;
            if ascii_upper(a) == ascii_upper(b) {
                identical += 1;
            }
            i -= 1;
            j -= 1;
        } else if cur.m == cur.ins {
            proof {
                lemma_continues_emit(top@, bottom@, walked as int, identical as int, s1@[i - 1], GAP, false,
                    p.walk_local((i - 1) as nat, j as nat), total);
            }
            top.push(s1[i - 1]);
            bottom.push(GAP);
            i -= 1;
        } else if cur.m == cur.del {
            proof {
                lemma_continues_emit(top@, bottom@, walked as int, identical as int, GAP, s2@[j - 1], false,
                    p.walk_local(i as nat, (j - 1) as nat), total);
            }
            top.push(GAP);
            bottom.push(s2[j - 1]);
            j -= 1;
        } else {
            stop = true;
        }
    }
    if !stop && i > 0 && j > 0 {
        assert(mat@[i as int]@.len() == n2 + 1);
        assert(cell_is(mat@[i as int]@[j as int], p.dp(i as nat, j as nat)));
    }
    assert(p.walk_local(i as nat, j as nat) == p.pad_to(i as nat, j as nat, 0, 0));
    while i > 0
        invariant
            i <= n1,
            j <= n2,
            n1 == s1@.len(),
            n2 == s2@.len(),
            p.s1 == s1@,
            p.s2 == s2@,
            all_ascii(s1@),
            all_ascii(top@),
            all_ascii(bottom@),
            continues(top@, bottom@, walked as int, identical as int, p.pad_to(i as nat, j as nat, 0, 0), total),
        decreases i,
    {
        proof {
            lemma_continues_emit(top@, bottom@, walked as int, identical as int, s1@[i - 1], GAP, false,
                p.pad_to((i - 1) as nat, j as nat, 0, 0), total);
        }
        top.push(s1[i - 1]);
        bottom.push(GAP);
        i -= 1;
    }
    while j > 0
        invariant
            i == 0,
            j <= n2,
            n2 == s2@.len(),
            p.s2 == s2@,
            all_ascii(s2@),
            all_ascii(top@),
            all_ascii(bottom@),
            continues(top@, bottom@, walked as int, identical as int, p.pad_to(i as nat, j as nat, 0, 0), total),
        decreases j,
    {
        proof {
            lemma_continues_emit(top@, bottom@, walked as int, identical as int, GAP, s2@[j - 1], false,
                p.pad_to(i as nat, (j - 1) as nat, 0, 0), total);
        }
        top.push(GAP);
        bottom.push(s2[j - 1]);
        j -= 1;
    }
    proof {
        lemma_continues_done(top@, bottom@, walked as int, identical as int, total);
    }
    Trace { top, bottom, walked, identical }
}

fn trace_global(
    model: &ScoringModel,
    s1: &[u8],
    s2: &[u8],
    mat: &Vec<Vec<Cell>>,
    Ghost(p): Ghost<Problem>,
) -> (t: Trace)
    requires
        p.well_formed(),
        p.model == *model,
        p.s1 == s1@,
        p.s2 == s2@,
        p.global,
        all_ascii(s1@),
        all_ascii(s2@),
        rows_filled(p, mat@, (s1@.len() + 1) as nat),
    ensures
        t.top@ == p.global_columns().top,
        t.bottom@ == p.global_columns().bottom,
        t.walked == p.global_columns().walked,
        t.identical == p.global_columns().identical,
        all_ascii(t.top@),
        all_ascii(t.bottom@),
{
    let ghost total = p.global_columns();
    let n1 = s1.len();
    let n2 = s2.len();
    let mut i: usize = n1;
    let mut j: usize = n2;
    let mut top: Vec<u8> = Vec::new();
    let mut bottom: Vec<u8> = Vec::new();
    let mut walked: usize = 0;
    let mut identical: usize = 0;
    assert(top@ + total.top =~= total.top);
    assert(bottom@ + total.bottom =~= total.bottom);
    let mut stop = false;
    while !stop && (i > 0 || j > 0)
        invariant
            p.well_formed(),
            p.model == *model,
            p.global,
            i <= n1,
            j <= n2,
            n1 == s1@.len(),
            n2 == s2@.len(),
            p.s1 == s1@,
            p.s2 == s2@,
            all_ascii(s1@),
            all_ascii(s2@),
            all_ascii(top@),
            all_ascii(bottom@),
            rows_filled(p, mat@, (n1 + 1) as nat),
            walked + i <= n1,
            identical <= walked,
            continues(top@, bottom@, walked as int, identical as int, p.walk_global(i as nat, j as nat), total),
            stop ==> p.walk_global(i as nat, j as nat) == no_columns(),
        decreases i + j + if stop { 0int } else { 1int },
    {
        assert(mat@[i as int]@.len() == n2 + 1);
        assert(cell_is(mat@[i as int]@[j as int], p.dp(i as nat, j as nat)));
        let cur = mat[i][j];
        let mut took_diag = false;
        if i > 0 && j > 0 {
            assert(mat@[i - 1]@.len() == n2 + 1);
            assert(cell_is(mat@[i - 1]@[j - 1], p.dp((i - 1) as nat, (j - 1) as nat)));
            proof {
                lemma_dp_bounded(p, (i - 1) as nat, (j - 1) as nat);
                lemma_score_bounded(*model, s1@[i - 1], s2@[j - 1]);
            }
            let diag = mat[i - 1][j - 1].m + model.score(s1[i - 1], s2[j - 1]);
            if cur.m == diag {
                let a = s1[i - 1];
                let b = s2[j - 1];
                proof {
                    lemma_continues_emit(top@, bottom@, walked as int, identical as int, a, b, true,
                        p.walk_global((i - 1) as nat, (j - 1) as nat), total);
                }
                top.push(a);
                bottom.push(b);
                walked += 1;
                if ascii_upper(a) == ascii_upper(b) {
                    identical += 1;
                }
                i -= 1;
                j -= 1;
                took_diag = true;
            }
        }
        if !took_diag {
            if i > 0 && cur.m == cur.ins {
                proof {
                    lemma_continues_emit(top@, bottom@, walked as int, identical as int, s1@[i - 1], GAP, false,
                        p.walk_global((i - 1) as nat, j as nat), total);
                }
                top.push(s1[i - 1]);
                bottom.push(GAP);
                i -= 1;
            } else if j > 0 && cur.m == cur.del {
                proof {
                    lemma_continues_emit(top@, bottom@, walked as int, identical as int, GAP, s2@[j - 1], false,
                        p.walk_global(i as nat, (j - 1) as nat), total);
                }
                top.push(GAP);
                bottom.push(s2[j - 1]);
                j -= 1;
            } else {
                stop = true;
            }
        }
    }
    proof {
        lemma_continues_done(top@, bottom@, walked as int, identical as int, total);
    }
    Trace { top, bottom, walked, identical }
}

fn build_markup(model: &ScoringModel, top: &Vec<u8>, bottom: &Vec<u8>) -> (r: Vec<u8>)
    requires
        top@.len() == bottom@.len(),
    ensures
        r@ == markup(*model, top@, bottom@),
        all_ascii(r@),
{
    let mut r: Vec<u8> = Vec::new();
    let mut k: usize = 0;
    while k < top.len()
        invariant
            top@.len() == bottom@.len(),
            k <= top@.len(),
            r@.len() == k,
            forall|t: int| 0 <= t < k ==> #[trigger] r@[t] == markup_symbol(*model, top@[t], bottom@[t]),
            all_ascii(r@),
        decreases top@.len() - k,
    {
        let a = top[k];
        let b = bottom[k];
        let c: u8 = if a != GAP && b != GAP && ascii_upper(a) == ascii_upper(b) {
            124
        } else if a == GAP || b == GAP {
            32
        } else if model.score(a, b) > 0 {
            58
        } else {
            46
        };
        r.push(c);
        k += 1;
    }
    assert(r@ =~= markup(*model, top@, bottom@));
    r
}

/// Puts the emitted columns in reading order and annotates them.
fn finish(model: &ScoringModel, t: Trace, score: i64) -> (r: AlignmentResult)
    requires
        t.top@.len() == t.bottom@.len(),
        all_ascii(t.top@),
        all_ascii(t.bottom@),
    ensures
        describes(
            r,
            *model,
            Columns { top: t.top@, bottom: t.bottom@, walked: t.walked as nat, identical: t.identical as nat },
            score as int,
        ),
{
    let top = reversed(&t.top);
    let bottom = reversed(&t.bottom);
    let marks = build_markup(model, &top, &bottom);
    assert(all_ascii(top@));
    assert(all_ascii(bottom@));
    AlignmentResult {
        aligned_seq1: ascii_string(top),
        aligned_seq2: ascii_string(bottom),
        aligned_length: t.walked,
        identities: t.identical,
        score,
        alignment_markup: ascii_string(marks),
    }
}

proof fn lemma_pad_len(p: Problem, i: nat, j: nat, i0: nat, j0: nat)
    ensures
        p.pad_to(i, j, i0, j0).top.len() == p.pad_to(i, j, i0, j0).bottom.len(),
    decreases i + j,
{
    if i > i0 {
        lemma_pad_len(p, (i - 1) as nat, j, i0, j0);
    } else if j > j0 {
        lemma_pad_len(p, i, (j - 1) as nat, i0, j0);
    }
}

proof fn lemma_walk_local_len(p: Problem, i: nat, j: nat)
    ensures
        p.walk_local(i, j).top.len() == p.walk_local(i, j).bottom.len(),
    decreases i + j,
{
    lemma_pad_len(p, i, j, 0, 0);
    if i > 0 && j > 0 {
        lemma_walk_local_len(p, (i - 1) as nat, (j - 1) as nat);
        lemma_walk_local_len(p, (i - 1) as nat, j);
        lemma_walk_local_len(p, i, (j - 1) as nat);
    }
}

/// Both rows of a global alignment have the same length, at least the
/// length of the longer sequence, and the walk consumes both sequences whole.
proof fn lemma_walk_global_shape(p: Problem, i: nat, j: nat)
    requires
        p.global,
    ensures
        p.walk_global(i, j).top.len() == p.walk_global(i, j).bottom.len(),
        p.walk_global(i, j).top.len() >= i,
        p.walk_global(i, j).top.len() >= j,
    decreases i + j,
{
    if i > 0 && j > 0 {
        lemma_walk_global_shape(p, (i - 1) as nat, (j - 1) as nat);
        lemma_walk_global_shape(p, (i - 1) as nat, j);
        lemma_walk_global_shape(p, i, (j - 1) as nat);
    } else if i > 0 {
        lemma_walk_global_shape(p, (i - 1) as nat, j);
    } else if j > 0 {
        lemma_walk_global_shape(p, i, (j - 1) as nat);
    }
}

proof fn lemma_best_in_range(p: Problem, i: nat, j: nat)
    requires
        j <= p.s2.len(),
    ensures
        p.best(i, j).1 <= i,
        p.best(i, j).2 <= p.s2.len(),
    decreases i, j,
{
    if i == 0 {
    } else if j == 0 {
        lemma_best_in_range(p, (i - 1) as nat, p.s2.len());
    } else {
        lemma_best_in_range(p, i, (j - 1) as nat);
    }
}

proof fn lemma_local_columns_len(p: Problem)
    ensures
        p.local_columns().top.len() == p.local_columns().bottom.len(),
{
    let b = p.local_best();
    lemma_pad_len(p, p.s1.len(), p.s2.len(), b.1, b.2);
    lemma_walk_local_len(p, b.1, b.2);
}

/// The local alignment problem of two ASCII strings.
pub open spec fn local_problem(seq1: &str, seq2: &str, gap_open: i64, gap_extend: i64, model: ScoringModel) -> Problem {
    problem_of(model, gap_open, gap_extend, ascii_bytes(seq1@), ascii_bytes(seq2@), false)
}

/// The global alignment problem of two ASCII strings.
pub open spec fn global_problem(seq1: &str, seq2: &str, gap_open: i64, gap_extend: i64, model: ScoringModel) -> Problem {
    problem_of(model, gap_open, gap_extend, ascii_bytes(seq1@), ascii_bytes(seq2@), true)
}

/// Smith-Waterman local alignment of `seq1` and `seq2` under `model` with affine
/// gap costs `gap_open` (first gap column) and `gap_extend` (each further one).
pub fn smith_waterman_with_matrix(
    seq1: &str,
    seq2: &str,
    gap_open: i64,
    gap_extend: i64,
    model: &ScoringModel,
) -> (r: AlignmentResult)
    requires
        seq1.is_ascii(),
        seq2.is_ascii(),
        local_problem(seq1, seq2, gap_open, gap_extend, *model).well_formed(),
    ensures
        is_local_alignment(r, local_problem(seq1, seq2, gap_open, gap_extend, *model)),
        r.aligned_seq1@.len() == r.aligned_seq2@.len(),
        r.alignment_markup@.len() == r.aligned_seq1@.len(),
{
    let ghost p = local_problem(seq1, seq2, gap_open, gap_extend, *model);
    let s1 = ascii_str_bytes(seq1);
    let s2 = ascii_str_bytes(seq2);
    let mat = fill_matrices(model, gap_open, gap_extend, s1, s2, false);
    let (best, mi, mj) = locate_best(&mat, s1.len(), s2.len(), Ghost(p));
    proof {
        lemma_best_in_range(p, p.s1.len(), p.s2.len());
        lemma_local_columns_len(p);
    }
    let t = trace_local(model, s1, s2, &mat, mi, mj, Ghost(p));
    finish(model, t, best)
}

/// Needleman-Wunsch global alignment of `seq1` and `seq2` under `model` with
/// affine gap costs.
pub fn needleman_wunsch_with_matrix(
    seq1: &str,
    seq2: &str,
    gap_open: i64,
    gap_extend: i64,
    model: &ScoringModel,
) -> (r: AlignmentResult)
    requires
        seq1.is_ascii(),
        seq2.is_ascii(),
        global_problem(seq1, seq2, gap_open, gap_extend, *model).well_formed(),
    ensures
        is_global_alignment(r, global_problem(seq1, seq2, gap_open, gap_extend, *model)),
        r.aligned_seq1@.len() == r.aligned_seq2@.len(),
        r.aligned_seq1@.len() >= seq1@.len(),
        r.aligned_seq1@.len() >= seq2@.len(),
        r.alignment_markup@.len() == r.aligned_seq1@.len(),
{
    let ghost p = global_problem(seq1, seq2, gap_open, gap_extend, *model);
    let s1 = ascii_str_bytes(seq1);
    let s2 = ascii_str_bytes(seq2);
    let mat = fill_matrices(model, gap_open, gap_extend, s1, s2, true);
    proof {
        lemma_walk_global_shape(p, p.s1.len(), p.s2.len());
    }
    let n1 = s1.len();
    let n2 = s2.len();
    assert(mat@[n1 as int]@.len() == n2 + 1);
    assert(cell_is(mat@[n1 as int]@[n2 as int], p.dp(n1 as nat, n2 as nat)));
    let score = mat[n1][n2].m;
    let t = trace_global(model, s1, s2, &mat, Ghost(p));
    finish(model, t, score)
}

/// Local alignment under a uniform match/mismatch score.
pub fn smith_waterman_internal(
    seq1: &str,
    seq2: &str,
    match_score: i64,
    mismatch_penalty: i64,
    gap_open: i64,
    gap_extend: i64,
) -> (r: AlignmentResult)
    requires
        seq1.is_ascii(),
        seq2.is_ascii(),
        local_problem(seq1, seq2, gap_open, gap_extend, ScoringModel::Uniform { match_score, mismatch_penalty }).well_formed(),
    ensures
        is_local_alignment(r, local_problem(seq1, seq2, gap_open, gap_extend, ScoringModel::Uniform { match_score, mismatch_penalty })),
        r.aligned_seq1@.len() == r.aligned_seq2@.len(),
{
    smith_waterman_with_matrix(seq1, seq2, gap_open, gap_extend, &ScoringModel::Uniform { match_score, mismatch_penalty })
}

/// Local alignment under the BLOSUM62 table.
pub fn smith_waterman_blosum62_internal(seq1: &str, seq2: &str, gap_open: i64, gap_extend: i64) -> (r: AlignmentResult)
    requires
        seq1.is_ascii(),
        seq2.is_ascii(),
        local_problem(seq1, seq2, gap_open, gap_extend, ScoringModel::Blosum62).well_formed(),
    ensures
        is_local_alignment(r, local_problem(seq1, seq2, gap_open, gap_extend, ScoringModel::Blosum62)),
        r.aligned_seq1@.len() == r.aligned_seq2@.len(),
{
    smith_waterman_with_matrix(seq1, seq2, gap_open, gap_extend, &ScoringModel::Blosum62)
}

/// Global alignment under a uniform match/mismatch score.
pub fn needleman_wunsch_internal(
    seq1: &str,
    seq2: &str,
    match_score: i64,
    mismatch_penalty: i64,
    gap_open: i64,
    gap_extend: i64,
) -> (r: AlignmentResult)
    requires
        seq1.is_ascii(),
        seq2.is_ascii(),
        global_problem(seq1, seq2, gap_open, gap_extend, ScoringModel::Uniform { match_score, mismatch_penalty }).well_formed(),
    ensures
        is_global_alignment(r, global_problem(seq1, seq2, gap_open, gap_extend, ScoringModel::Uniform { match_score, mismatch_penalty })),
        r.aligned_seq1@.len() == r.aligned_seq2@.len(),
        r.aligned_seq1@.len() >= seq1@.len(),
        r.aligned_seq1@.len() >= seq2@.len(),
{
    needleman_wunsch_with_matrix(seq1, seq2, gap_open, gap_extend, &ScoringModel::Uniform { match_score, mismatch_penalty })
}

/// Global alignment under the BLOSUM62 table.
pub fn needleman_wunsch_blosum62_internal(seq1: &str, seq2: &str, gap_open: i64, gap_extend: i64) -> (r: AlignmentResult)
    requires
        seq1.is_ascii(),
        seq2.is_ascii(),
        global_problem(seq1, seq2, gap_open, gap_extend, ScoringModel::Blosum62).well_formed(),
    ensures
        is_global_alignment(r, global_problem(seq1, seq2, gap_open, gap_extend, ScoringModel::Blosum62)),
        r.aligned_seq1@.len() == r.aligned_seq2@.len(),
        r.aligned_seq1@.len() >= seq1@.len(),
        r.aligned_seq1@.len() >= seq2@.len(),
{
    needleman_wunsch_with_matrix(seq1, seq2, gap_open, gap_extend, &ScoringModel::Blosum62)
}

/// Alignment is deterministic: two results that both meet the local contract for
/// the same problem are equal field by field.
pub proof fn lemma_local_deterministic(r1: AlignmentResult, r2: AlignmentResult, p: Problem)
    requires
        is_local_alignment(r1, p),
        is_local_alignment(r2, p),
    ensures
        r1.aligned_seq1@ == r2.aligned_seq1@,
        r1.aligned_seq2@ == r2.aligned_seq2@,
        r1.aligned_length == r2.aligned_length,
        r1.identities == r2.identities,
        r1.score == r2.score,
        r1.alignment_markup@ == r2.alignment_markup@,
{
}

/// Alignment is deterministic: two results that both meet the global contract for
/// the same problem are equal field by field.
pub proof fn lemma_global_deterministic(r1: AlignmentResult, r2: AlignmentResult, p: Problem)
    requires
        is_global_alignment(r1, p),
        is_global_alignment(r2, p),
    ensures
        r1.aligned_seq1@ == r2.aligned_seq1@,
        r1.aligned_seq2@ == r2.aligned_seq2@,
        r1.aligned_length == r2.aligned_length,
        r1.identities == r2.identities,
        r1.score == r2.score,
        r1.alignment_markup@ == r2.alignment_markup@,
{
}

pub open spec fn min_nat(a: nat, b: nat) -> nat {
    if a <= b {
        a
    } else {
        b
    }
}

/// A uniform score that rewards a match, scores no mismatch above a match and
/// rewards no gap.
pub open spec fn rewards_matches(p: Problem) -> bool {
    &&& p.model matches ScoringModel::Uniform { match_score, mismatch_penalty }
    &&& 0 < match_score
    &&& mismatch_penalty <= match_score
    &&& p.gap_open <= 0
    &&& p.gap_extend <= 0
}

pub open spec fn match_score_of(p: Problem) -> int {
    match p.model {
        ScoringModel::Uniform { match_score, .. } => match_score as int,
        ScoringModel::Blosum62 => 0,
    }
}

proof fn lemma_mul_mono(c: int, a: int, b: int)
    requires
        0 <= c,
        a <= b,
    ensures
        c * a <= c * b,
{
    assert(c * a <= c * b) by (nonlinear_arith)
        requires
            0 <= c,
            a <= b,
    ;
}

proof fn lemma_mul_succ(c: int, a: int)
    ensures
        c * a + c == c * (a + 1),
{
    assert(c * a + c == c * (a + 1)) by (nonlinear_arith);
}

/// Under a score that rewards matches, no cell scores more than a match on each
/// column of the shorter prefix.
proof fn lemma_dp_upper(p: Problem, i: nat, j: nat)
    requires
        rewards_matches(p),
    ensures
        p.m(i, j) <= match_score_of(p) * min_nat(i, j),
        i >= 1 ==> p.dp(i, j).1 <= match_score_of(p) * min_nat((i - 1) as nat, j),
        j >= 1 ==> p.dp(i, j).2 <= match_score_of(p) * min_nat(i, (j - 1) as nat),
        i == 0 || j == 0 ==> p.dp(i, j).0 <= 0 && p.dp(i, j).1 <= 0 && p.dp(i, j).2 <= 0,
    decreases i + j,
{
    let c = match_score_of(p);
    lemma_mul_mono(c, 0, min_nat(i, j) as int);
    if i >= 1 {
        lemma_mul_mono(c, 0, min_nat((i - 1) as nat, j) as int);
    }
    if j >= 1 {
        lemma_mul_mono(c, 0, min_nat(i, (j - 1) as nat) as int);
    }
    if i == 0 && j == 0 {
    } else if i == 0 {
        if j > 1 {
            lemma_dp_upper(p, 0, (j - 1) as nat);
        }
    } else if j == 0 {
        if i > 1 {
            lemma_dp_upper(p, (i - 1) as nat, 0);
        }
    } else {
        lemma_dp_upper(p, (i - 1) as nat, (j - 1) as nat);
        lemma_dp_upper(p, (i - 1) as nat, j);
        lemma_dp_upper(p, i, (j - 1) as nat);
        let k = min_nat((i - 1) as nat, (j - 1) as nat) as int;
        lemma_mul_succ(c, k);
        assert(min_nat(i, j) == k + 1);
        lemma_mul_mono(c, min_nat((i - 1) as nat, j) as int, min_nat(i, j) as int);
        lemma_mul_mono(c, min_nat(i, (j - 1) as nat) as int, min_nat(i, j) as int);
        if i >= 2 {
            lemma_mul_mono(c, min_nat((i - 2) as nat, j) as int, min_nat((i - 1) as nat, j) as int);
        }
        if j >= 2 {
            lemma_mul_mono(c, min_nat(i, (j - 2) as nat) as int, min_nat(i, (j - 1) as nat) as int);
        }
    }
}

/// On the diagonal of a sequence against itself, cell `(i, i)` scores `i` matches.
proof fn lemma_self_diagonal(p: Problem, i: nat)
    requires
        rewards_matches(p),
        p.s1 == p.s2,
        i <= p.s1.len(),
    ensures
        p.m(i, i) == match_score_of(p) * i,
        i > 0 ==> p.m(i, i) == p.m((i - 1) as nat, (i - 1) as nat) + p.sub(i as int, i as int),
    decreases i,
{
    lemma_dp_upper(p, i, i);
    if i > 0 {
        lemma_self_diagonal(p, (i - 1) as nat);
        lemma_mul_succ(match_score_of(p), (i - 1) as int);
        assert(same_residue(p.s1[i - 1], p.s2[i - 1]));
    }
}

proof fn lemma_self_best_before(p: Problem, i: nat, j: nat)
    requires
        rewards_matches(p),
        p.s1 == p.s2,
        p.s1.len() > 0,
        i <= p.s1.len(),
        j <= p.s1.len(),
        i < p.s1.len() || j < p.s1.len(),
    ensures
        p.best(i, j).0 < match_score_of(p) * p.s1.len(),
    decreases i, j,
{
    let n = p.s1.len();
    let c = match_score_of(p);
    lemma_mul_mono(c, 1, n as int);
    if i == 0 {
    } else if j == 0 {
        lemma_self_best_before(p, (i - 1) as nat, n);
    } else {
        lemma_self_best_before(p, i, (j - 1) as nat);
        lemma_dp_upper(p, i, j);
        assert(min_nat(i, j) <= n - 1);
        lemma_mul_mono(c, min_nat(i, j) as int, n - 1);
        lemma_mul_succ(c, n - 1);
    }
}

proof fn lemma_self_walk_local(p: Problem, i: nat)
    requires
        rewards_matches(p),
        !p.global,
        p.s1 == p.s2,
        i <= p.s1.len(),
    ensures
        p.walk_local(i, i).top == p.s1.subrange(0, i as int).reverse(),
        p.walk_local(i, i).bottom == p.s1.subrange(0, i as int).reverse(),
        p.walk_local(i, i).walked == i,
        p.walk_local(i, i).identical == i,
    decreases i,
{
    if i > 0 {
        lemma_self_walk_local(p, (i - 1) as nat);
        lemma_self_diagonal(p, i);
        lemma_mul_mono(match_score_of(p), 1, i as int);
        assert(p.s1.subrange(0, i as int).reverse() =~= seq![p.s1[i - 1]] + p.s1.subrange(0, i - 1).reverse());
    } else {
        assert(p.s1.subrange(0, 0).reverse() =~= Seq::<u8>::empty());
    }
}

proof fn lemma_self_walk_global(p: Problem, i: nat)
    requires
        rewards_matches(p),
        p.global,
        p.s1 == p.s2,
        i <= p.s1.len(),
    ensures
        p.walk_global(i, i).top == p.s1.subrange(0, i as int).reverse(),
        p.walk_global(i, i).bottom == p.s1.subrange(0, i as int).reverse(),
        p.walk_global(i, i).walked == i,
        p.walk_global(i, i).identical == i,
    decreases i,
{
    if i > 0 {
        lemma_self_walk_global(p, (i - 1) as nat);
        lemma_self_diagonal(p, i);
        assert(p.s1.subrange(0, i as int).reverse() =~= seq![p.s1[i - 1]] + p.s1.subrange(0, i - 1).reverse());
    } else {
        assert(p.s1.subrange(0, 0).reverse() =~= Seq::<u8>::empty());
    }
}

proof fn lemma_reverse_reverse(s: Seq<u8>)
    ensures
        s.subrange(0, s.len() as int).reverse().reverse() == s,
{
    assert(s.subrange(0, s.len() as int).reverse().reverse() =~= s);
}

pub open spec fn has_gap_symbol(s: Seq<u8>) -> bool {
    exists|k: int| 0 <= k < s.len() && s[k] == GAP
}

/// Markup of a gap-free sequence against itself is all `|`.
proof fn lemma_self_markup(model: ScoringModel, s: Seq<u8>)
    requires
        !has_gap_symbol(s),
    ensures
        ascii_chars(markup(model, s, s)) == Seq::new(s.len(), |k: int| '|'),
{
    assert forall|k: int| 0 <= k < s.len() implies markup_symbol(model, s[k], s[k]) == 124 by {
        assert(s[k] != GAP);
    }
    assert(ascii_chars(markup(model, s, s)) =~= Seq::new(s.len(), |k: int| '|'));
}

/// Local alignment of a non-empty, gap-free sequence with itself, under a uniform
/// score that rewards matches (no mismatch above a match, no gap rewarded), gives
/// the sequence on both rows, every column a walked identity and marked `|`.
pub proof fn lemma_local_self_alignment(r: AlignmentResult, p: Problem)
    requires
        is_local_alignment(r, p),
        rewards_matches(p),
        !p.global,
        p.s1 == p.s2,
        p.s1.len() > 0,
        !has_gap_symbol(p.s1),
    ensures
        r.aligned_seq1@ == ascii_chars(p.s1),
        r.aligned_seq2@ == ascii_chars(p.s1),
        r.aligned_length == p.s1.len(),
        r.identities == r.aligned_length,
        r.score == match_score_of(p) * p.s1.len(),
        r.alignment_markup@ == Seq::new(p.s1.len(), |k: int| '|'),
{
    let n = p.s1.len();
    lemma_self_diagonal(p, n);
    lemma_self_best_before(p, n, (n - 1) as nat);
    assert(p.local_best() == (match_score_of(p) * n, n, n));
    lemma_self_walk_local(p, n);
    lemma_join_none(p.walk_local(n, n));
    lemma_reverse_reverse(p.s1);
    lemma_self_markup(p.model, p.s1);
}

/// Global alignment of a non-empty, gap-free sequence with itself, under a uniform
/// score that rewards matches, gives the sequence on both rows, every column a
/// walked identity and marked `|`.
pub proof fn lemma_global_self_alignment(r: AlignmentResult, p: Problem)
    requires
        is_global_alignment(r, p),
        rewards_matches(p),
        p.global,
        p.s1 == p.s2,
        p.s1.len() > 0,
        !has_gap_symbol(p.s1),
    ensures
        r.aligned_seq1@ == ascii_chars(p.s1),
        r.aligned_seq2@ == ascii_chars(p.s1),
        r.aligned_length == p.s1.len(),
        r.identities == r.aligned_length,
        r.score == match_score_of(p) * p.s1.len(),
        r.alignment_markup@ == Seq::new(p.s1.len(), |k: int| '|'),
{
    let n = p.s1.len();
    lemma_self_diagonal(p, n);
    lemma_self_walk_global(p, n);
    lemma_reverse_reverse(p.s1);
    lemma_self_markup(p.model, p.s1);
}

/// Two byte sequences that are equal ignoring letter case.
pub open spec fn agree_ignoring_case(x: Seq<u8>, y: Seq<u8>) -> bool {
    &&& x.len() == y.len()
    &&& forall|k: int| 0 <= k < x.len() ==> upper(#[trigger] x[k]) == upper(y[k])
}

/// Two character sequences that are equal ignoring ASCII letter case.
pub open spec fn chars_agree_ignoring_case(x: Seq<char>, y: Seq<char>) -> bool {
    &&& x.len() == y.len()
    &&& forall|k: int| 0 <= k < x.len() ==> upper(#[trigger] x[k] as u8) == upper(y[k] as u8)
}

/// Two problems that differ at most in the letter case of their sequences.
pub open spec fn case_variants(p: Problem, q: Problem) -> bool {
    &&& p.model == q.model
    &&& p.gap_open == q.gap_open
    &&& p.gap_extend == q.gap_extend
    &&& p.global == q.global
    &&& agree_ignoring_case(p.s1, q.s1)
    &&& agree_ignoring_case(p.s2, q.s2)
}

pub open spec fn columns_agree(x: Columns, y: Columns) -> bool {
    &&& x.walked == y.walked
    &&& x.identical == y.identical
    &&& agree_ignoring_case(x.top, y.top)
    &&& agree_ignoring_case(x.bottom, y.bottom)
}

proof fn lemma_score_case(model: ScoringModel, a1: u8, b1: u8, a2: u8, b2: u8)
    requires
        upper(a1) == upper(a2),
        upper(b1) == upper(b2),
    ensures
        model.spec_score(a1, b1) == model.spec_score(a2, b2),
        same_residue(a1, b1) == same_residue(a2, b2),
{
    assert(crate::scoring::residue_index(a1) == crate::scoring::residue_index(a2));
    assert(crate::scoring::residue_index(b1) == crate::scoring::residue_index(b2));
    assert(blosum62_units(a1, b1) == blosum62_units(a2, b2));
}

proof fn lemma_dp_case(p: Problem, q: Problem, i: nat, j: nat)
    requires
        case_variants(p, q),
        i <= p.s1.len(),
        j <= p.s2.len(),
    ensures
        p.dp(i, j) == q.dp(i, j),
    decreases i + j,
{
    if i == 0 && j == 0 {
    } else if i == 0 {
        if j > 1 {
            lemma_dp_case(p, q, 0, (j - 1) as nat);
        }
    } else if j == 0 {
        if i > 1 {
            lemma_dp_case(p, q, (i - 1) as nat, 0);
        }
    } else {
        lemma_dp_case(p, q, (i - 1) as nat, (j - 1) as nat);
        lemma_dp_case(p, q, (i - 1) as nat, j);
        lemma_dp_case(p, q, i, (j - 1) as nat);
        lemma_score_case(p.model, p.s1[i - 1], p.s2[j - 1], q.s1[i - 1], q.s2[j - 1]);
    }
}

proof fn lemma_best_case(p: Problem, q: Problem, i: nat, j: nat)
    requires
        case_variants(p, q),
        i <= p.s1.len(),
        j <= p.s2.len(),
    ensures
        p.best(i, j) == q.best(i, j),
    decreases i, j,
{
    if i == 0 {
    } else if j == 0 {
        lemma_best_case(p, q, (i - 1) as nat, p.s2.len());
    } else {
        lemma_best_case(p, q, i, (j - 1) as nat);
        lemma_dp_case(p, q, i, j);
    }
}

proof fn lemma_emit_agree(a1: u8, b1: u8, a2: u8, b2: u8, diag: bool, r1: Columns, r2: Columns)
    requires
        upper(a1) == upper(a2),
        upper(b1) == upper(b2),
        columns_agree(r1, r2),
    ensures
        columns_agree(emit(a1, b1, diag, r1), emit(a2, b2, diag, r2)),
{
    let x = emit(a1, b1, diag, r1);
    let y = emit(a2, b2, diag, r2);
    assert forall|k: int| 0 <= k < x.top.len() implies upper(#[trigger] x.top[k]) == upper(y.top[k]) by {
        if k > 0 {
            assert(x.top[k] == r1.top[k - 1]);
            assert(y.top[k] == r2.top[k - 1]);
        }
    }
    assert forall|k: int| 0 <= k < x.bottom.len() implies upper(#[trigger] x.bottom[k]) == upper(y.bottom[k]) by {
        if k > 0 {
            assert(x.bottom[k] == r1.bottom[k - 1]);
            assert(y.bottom[k] == r2.bottom[k - 1]);
        }
    }
}

proof fn lemma_pad_case(p: Problem, q: Problem, i: nat, j: nat, i0: nat, j0: nat)
    requires
        case_variants(p, q),
        i <= p.s1.len(),
        j <= p.s2.len(),
    ensures
        columns_agree(p.pad_to(i, j, i0, j0), q.pad_to(i, j, i0, j0)),
    decreases i + j,
{
    if i > i0 {
        lemma_pad_case(p, q, (i - 1) as nat, j, i0, j0);
        lemma_emit_agree(p.s1[i - 1], GAP, q.s1[i - 1], GAP, false, p.pad_to((i - 1) as nat, j, i0, j0), q.pad_to((i - 1) as nat, j, i0, j0));
    } else if j > j0 {
        lemma_pad_case(p, q, i, (j - 1) as nat, i0, j0);
        lemma_emit_agree(GAP, p.s2[j - 1], GAP, q.s2[j - 1], false, p.pad_to(i, (j - 1) as nat, i0, j0), q.pad_to(i, (j - 1) as nat, i0, j0));
    }
}

proof fn lemma_walk_local_case(p: Problem, q: Problem, i: nat, j: nat)
    requires
        case_variants(p, q),
        i <= p.s1.len(),
        j <= p.s2.len(),
    ensures
        columns_agree(p.walk_local(i, j), q.walk_local(i, j)),
    decreases i + j,
{
    lemma_pad_case(p, q, i, j, 0, 0);
    lemma_dp_case(p, q, i, j);
    if i > 0 && j > 0 {
        lemma_dp_case(p, q, (i - 1) as nat, (j - 1) as nat);
        lemma_score_case(p.model, p.s1[i - 1], p.s2[j - 1], q.s1[i - 1], q.s2[j - 1]);
        lemma_walk_local_case(p, q, (i - 1) as nat, (j - 1) as nat);
        lemma_walk_local_case(p, q, (i - 1) as nat, j);
        lemma_walk_local_case(p, q, i, (j - 1) as nat);
        lemma_emit_agree(p.s1[i - 1], p.s2[j - 1], q.s1[i - 1], q.s2[j - 1], true,
            p.walk_local((i - 1) as nat, (j - 1) as nat), q.walk_local((i - 1) as nat, (j - 1) as nat));
        lemma_emit_agree(p.s1[i - 1], GAP, q.s1[i - 1], GAP, false,
            p.walk_local((i - 1) as nat, j), q.walk_local((i - 1) as nat, j));
        lemma_emit_agree(GAP, p.s2[j - 1], GAP, q.s2[j - 1], false,
            p.walk_local(i, (j - 1) as nat), q.walk_local(i, (j - 1) as nat));
    }
}

proof fn lemma_walk_global_case(p: Problem, q: Problem, i: nat, j: nat)
    requires
        case_variants(p, q),
        i <= p.s1.len(),
        j <= p.s2.len(),
    ensures
        columns_agree(p.walk_global(i, j), q.walk_global(i, j)),
    decreases i + j,
{
    lemma_dp_case(p, q, i, j);
    if i > 0 && j > 0 {
        lemma_dp_case(p, q, (i - 1) as nat, (j - 1) as nat);
        lemma_score_case(p.model, p.s1[i - 1], p.s2[j - 1], q.s1[i - 1], q.s2[j - 1]);
        lemma_walk_global_case(p, q, (i - 1) as nat, (j - 1) as nat);
        lemma_emit_agree(p.s1[i - 1], p.s2[j - 1], q.s1[i - 1], q.s2[j - 1], true,
            p.walk_global((i - 1) as nat, (j - 1) as nat), q.walk_global((i - 1) as nat, (j - 1) as nat));
    }
    if i > 0 {
        lemma_walk_global_case(p, q, (i - 1) as nat, j);
        lemma_emit_agree(p.s1[i - 1], GAP, q.s1[i - 1], GAP, false,
            p.walk_global((i - 1) as nat, j), q.walk_global((i - 1) as nat, j));
    }
    if j > 0 {
        lemma_walk_global_case(p, q, i, (j - 1) as nat);
        lemma_emit_agree(GAP, p.s2[j - 1], GAP, q.s2[j - 1], false,
            p.walk_global(i, (j - 1) as nat), q.walk_global(i, (j - 1) as nat));
    }
}

proof fn lemma_join_agree(x1: Columns, y1: Columns, x2: Columns, y2: Columns)
    requires
        columns_agree(x1, x2),
        columns_agree(y1, y2),
    ensures
        columns_agree(join(x1, y1), join(x2, y2)),
{
    let a = join(x1, y1);
    let b = join(x2, y2);
    assert forall|k: int| 0 <= k < a.top.len() implies upper(#[trigger] a.top[k]) == upper(b.top[k]) by {
        if k >= x1.top.len() {
            assert(a.top[k] == y1.top[k - x1.top.len()]);
            assert(b.top[k] == y2.top[k - x2.top.len()]);
        }
    }
    assert forall|k: int| 0 <= k < a.bottom.len() implies upper(#[trigger] a.bottom[k]) == upper(b.bottom[k]) by {
        if k >= x1.bottom.len() {
            assert(a.bottom[k] == y1.bottom[k - x1.bottom.len()]);
            assert(b.bottom[k] == y2.bottom[k - x2.bottom.len()]);
        }
    }
}

/// What two results over case-variant columns share: score-free fields, markup,
/// and rows equal ignoring case.
proof fn lemma_describes_case(r1: AlignmentResult, r2: AlignmentResult, model: ScoringModel, t1: Columns, t2: Columns, score: int)
    requires
        describes(r1, model, t1, score),
        describes(r2, model, t2, score),
        columns_agree(t1, t2),
        t1.top.len() == t1.bottom.len(),
    ensures
        r1.aligned_length == r2.aligned_length,
        r1.identities == r2.identities,
        r1.alignment_markup@ == r2.alignment_markup@,
        chars_agree_ignoring_case(r1.aligned_seq1@, r2.aligned_seq1@),
        chars_agree_ignoring_case(r1.aligned_seq2@, r2.aligned_seq2@),
{
    let a1 = t1.top.reverse();
    let b1 = t1.bottom.reverse();
    let a2 = t2.top.reverse();
    let b2 = t2.bottom.reverse();
    let n = t1.top.len();
    assert forall|k: int| 0 <= k < n implies upper(#[trigger] a1[k]) == upper(a2[k]) && upper(b1[k]) == upper(b2[k]) by {
        assert(a1[k] == t1.top[n - 1 - k]);
        assert(a2[k] == t2.top[n - 1 - k]);
        assert(b1[k] == t1.bottom[n - 1 - k]);
        assert(b2[k] == t2.bottom[n - 1 - k]);
    }
    assert forall|k: int| 0 <= k < n implies markup_symbol(model, #[trigger] a1[k], b1[k]) == markup_symbol(model, a2[k], b2[k]) by {
        lemma_score_case(model, a1[k], b1[k], a2[k], b2[k]);
    }
    assert(markup(model, a1, b1) =~= markup(model, a2, b2));
    assert forall|k: int| 0 <= k < n implies upper(#[trigger] r1.aligned_seq1@[k] as u8) == upper(r2.aligned_seq1@[k] as u8) by {
        assert(r1.aligned_seq1@[k] == a1[k] as char);
        assert(r2.aligned_seq1@[k] == a2[k] as char);
    }
    assert forall|k: int| 0 <= k < n implies upper(#[trigger] r1.aligned_seq2@[k] as u8) == upper(r2.aligned_seq2@[k] as u8) by {
        assert(r1.aligned_seq2@[k] == b1[k] as char);
        assert(r2.aligned_seq2@[k] == b2[k] as char);
    }
}

/// Letter case does not steer local alignment: for sequences that differ only in
/// case, the score, the walked and identical counts and the markup are the same,
/// and the aligned rows differ only in case.
pub proof fn lemma_local_case_insensitive(r1: AlignmentResult, r2: AlignmentResult, p: Problem, q: Problem)
    requires
        is_local_alignment(r1, p),
        is_local_alignment(r2, q),
        case_variants(p, q),
    ensures
        r1.score == r2.score,
        r1.aligned_length == r2.aligned_length,
        r1.identities == r2.identities,
        r1.alignment_markup@ == r2.alignment_markup@,
        chars_agree_ignoring_case(r1.aligned_seq1@, r2.aligned_seq1@),
        chars_agree_ignoring_case(r1.aligned_seq2@, r2.aligned_seq2@),
{
    lemma_best_case(p, q, p.s1.len(), p.s2.len());
    lemma_best_in_range(p, p.s1.len(), p.s2.len());
    let b = p.local_best();
    lemma_pad_case(p, q, p.s1.len(), p.s2.len(), b.1, b.2);
    lemma_walk_local_case(p, q, b.1, b.2);
    lemma_join_agree(p.pad_to(p.s1.len(), p.s2.len(), b.1, b.2), p.walk_local(b.1, b.2), q.pad_to(q.s1.len(), q.s2.len(), b.1, b.2), q.walk_local(b.1, b.2));
    lemma_local_columns_len(p);
    lemma_describes_case(r1, r2, p.model, p.local_columns(), q.local_columns(), p.local_best().0);
}

/// Letter case does not steer global alignment: for sequences that differ only in
/// case, the score, the walked and identical counts and the markup are the same,
/// and the aligned rows differ only in case.
pub proof fn lemma_global_case_insensitive(r1: AlignmentResult, r2: AlignmentResult, p: Problem, q: Problem)
    requires
        is_global_alignment(r1, p),
        is_global_alignment(r2, q),
        case_variants(p, q),
        p.global,
    ensures
        r1.score == r2.score,
        r1.aligned_length == r2.aligned_length,
        r1.identities == r2.identities,
        r1.alignment_markup@ == r2.alignment_markup@,
        chars_agree_ignoring_case(r1.aligned_seq1@, r2.aligned_seq1@),
        chars_agree_ignoring_case(r1.aligned_seq2@, r2.aligned_seq2@),
{
    lemma_dp_case(p, q, p.s1.len(), p.s2.len());
    lemma_walk_global_case(p, q, p.s1.len(), p.s2.len());
    lemma_walk_global_shape(p, p.s1.len(), p.s2.len());
    lemma_describes_case(r1, r2, p.model, p.global_columns(), q.global_columns(), p.m(p.s1.len(), p.s2.len()));
}

} // verus!
