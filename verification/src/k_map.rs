//! Gray codes and the Karnaugh map of an expression.

use vstd::prelude::*;
use vstd::string::StringExecFns;
use vstd::arithmetic::power2::{lemma_pow2_pos, lemma_pow2_unfold, lemma2_to64, pow2};
use crate::eval::{binding, eval, holds, lemma_bound_concat, Assignment};
use crate::expr::{Expr, Formula};
use crate::names::{lemma_sorted_unique, names_of};
use crate::text::{bit_text, bits_text, digit, digit_texts, join_names, joined, pattern_text};
use crate::truth_table::{
    is_variable_order, lemma_counting_row_of_index, lemma_variable_count, row_index,
    variable_count, variables, TruthTable,
};

verus! {

/// The reflected Gray code of `n` bits. That of no bits is the one empty
/// pattern. That of `n` bits is that of `n - 1` bits, each pattern with a 0
/// put in front, followed by that of `n - 1` bits in reverse, each pattern
/// with a 1 put in front.
pub open spec fn gray(n: nat) -> Seq<Seq<bool>>
    decreases n,
{
    if n == 0 {
        seq![Seq::empty()]
    } else {
        let prev = gray((n - 1) as nat);
        Seq::new(prev.len(), |i: int| seq![false] + prev[i]) + Seq::new(
            prev.len(),
            |i: int| seq![true] + prev[prev.len() - 1 - i],
        )
    }
}

/// The patterns held by a list of vectors.
pub open spec fn patterns_of(codes: Seq<Vec<bool>>) -> Seq<Seq<bool>> {
    Seq::new(codes.len(), |i: int| codes[i]@)
}

/// `a` and `b` have the same length and differ at exactly one place.
pub open spec fn differ_in_one_bit(a: Seq<bool>, b: Seq<bool>) -> bool {
    &&& a.len() == b.len()
    &&& exists|k: int|
        0 <= k < a.len() && a[k] != b[k] && forall|j: int|
            0 <= j < a.len() && j != k ==> a[j] == b[j]
}

/// The Gray code of `n` bits has `2^n` patterns of `n` bits each.
pub proof fn lemma_gray_len(n: nat)
    ensures
        gray(n).len() == pow2(n),
        forall|i: int| 0 <= i < gray(n).len() ==> (#[trigger] gray(n)[i]).len() == n,
    decreases n,
{
    lemma2_to64();
    if n > 0 {
        lemma_gray_len((n - 1) as nat);
        lemma_pow2_unfold(n);
    }
}

/// Neighbours in the Gray code differ in exactly one bit.
pub proof fn lemma_gray_adjacent(n: nat, i: int)
    requires
        0 <= i,
        i + 1 < gray(n).len(),
    ensures
        differ_in_one_bit(gray(n)[i], gray(n)[i + 1]),
    decreases n,
{
    lemma_gray_len(n);
    if n > 0 {
        let prev = gray((n - 1) as nat);
        let half = prev.len() as int;
        lemma_gray_len((n - 1) as nat);
        let a = gray(n)[i];
        let b = gray(n)[i + 1];
        if i + 1 < half {
            lemma_gray_adjacent((n - 1) as nat, i);
            let k = choose|k: int|
                0 <= k < prev[i].len() && prev[i][k] != prev[i + 1][k] && forall|j: int|
                    0 <= j < prev[i].len() && j != k ==> prev[i][j] == prev[i + 1][j];
            assert(a[k + 1] != b[k + 1]);
            assert forall|j: int| 0 <= j < a.len() && j != k + 1 implies a[j] == b[j] by {
                if j > 0 {
                    assert(prev[i][j - 1] == prev[i + 1][j - 1]);
                }
            }
        } else if i + 1 == half {
            assert(a[0] != b[0]);
            assert forall|j: int| 0 <= j < a.len() && j != 0 implies a[j] == b[j] by {}
        } else {
            let x = half - 1 - (i + 1 - half);
            lemma_gray_adjacent((n - 1) as nat, x);
            let k = choose|k: int|
                0 <= k < prev[x].len() && prev[x][k] != prev[x + 1][k] && forall|j: int|
                    0 <= j < prev[x].len() && j != k ==> prev[x][j] == prev[x + 1][j];
            assert(a == seq![true] + prev[x + 1]);
            assert(b == seq![true] + prev[x]);
            assert(a[k + 1] != b[k + 1]);
            assert forall|j: int| 0 <= j < a.len() && j != k + 1 implies a[j] == b[j] by {
                if j > 0 {
                    assert(prev[x][j - 1] == prev[x + 1][j - 1]);
                }
            }
        }
    }
}

/// The first and the last pattern of the Gray code differ in exactly one bit,
/// so the code closes to a ring.
pub proof fn lemma_gray_wraps(n: nat)
    requires
        n > 0,
    ensures
        differ_in_one_bit(gray(n).first(), gray(n).last()),
{
    lemma_gray_len(n);
    lemma_gray_len((n - 1) as nat);
    lemma_pow2_pos((n - 1) as nat);
    let prev = gray((n - 1) as nat);
    let half = prev.len() as int;
    let a = gray(n)[0];
    let b = gray(n)[half + (half - 1)];
    assert(a == seq![false] + prev[0]);
    assert(b == seq![true] + prev[half - 1 - (half - 1)]);
    assert(a[0] != b[0]);
    assert forall|j: int| 0 <= j < a.len() && j != 0 implies a[j] == b[j] by {}
}

/// No pattern occurs twice in the Gray code.
pub proof fn lemma_gray_distinct(n: nat, i: int, j: int)
    requires
        0 <= i < j < gray(n).len(),
    ensures
        gray(n)[i] != gray(n)[j],
    decreases n,
{
    lemma_gray_len(n);
    if n > 0 {
        let prev = gray((n - 1) as nat);
        let half = prev.len() as int;
        lemma_gray_len((n - 1) as nat);
        let a = gray(n)[i];
        let b = gray(n)[j];
        if j < half {
            lemma_gray_distinct((n - 1) as nat, i, j);
            assert(a.drop_first() =~= prev[i]);
            assert(b.drop_first() =~= prev[j]);
        } else if i < half {
            assert(a[0] != b[0]);
        } else {
            let x = half - 1 - (i - half);
            let y = half - 1 - (j - half);
            lemma_gray_distinct((n - 1) as nat, y, x);
            assert(a.drop_first() =~= prev[x]);
            assert(b.drop_first() =~= prev[y]);
        }
    }
}

/// Every pattern of `n` bits occurs in the Gray code of `n` bits.
pub proof fn lemma_gray_complete(n: nat, pattern: Seq<bool>) -> (i: int)
    requires
        pattern.len() == n,
    ensures
        0 <= i < gray(n).len(),
        gray(n)[i] == pattern,
    decreases n,
{
    lemma_gray_len(n);
    if n == 0 {
        assert(gray(n)[0] =~= pattern);
        0
    } else {
        let prev = gray((n - 1) as nat);
        let half = prev.len() as int;
        lemma_gray_len((n - 1) as nat);
        let k = lemma_gray_complete((n - 1) as nat, pattern.drop_first());
        if pattern[0] {
            let i = half + (half - 1 - k);
            assert(gray(n)[i] =~= pattern);
            i
        } else {
            assert(gray(n)[k] =~= pattern);
            k
        }
    }
}

/// `code` with `bit` put in front.
fn prefixed(bit: bool, code: &Vec<bool>) -> (longer: Vec<bool>)
    ensures
        longer@ == seq![bit] + code@,
{
    let mut new: Vec<bool> = Vec::new();
    new.push(bit);
    let mut i: usize = 0;
    while i < code.len()
        invariant
            i <= code@.len(),
            new@ == seq![bit] + code@.take(i as int),
        decreases code@.len() - i,
    {
        new.push(code[i]);
        assert(code@.take(i + 1) =~= code@.take(i as int).push(code@[i as int]));
        assert(new@ =~= seq![bit] + code@.take(i + 1));
        i += 1;
    }
    assert(code@.take(code@.len() as int) =~= code@);
    new
}

/// The Gray code of `n` bits.
pub fn gray_code(n: usize) -> (codes: Vec<Vec<bool>>)
    ensures
        patterns_of(codes@) == gray(n as nat),
    decreases n,
{
    if n == 0 {
        let mut res: Vec<Vec<bool>> = Vec::new();
        res.push(Vec::new());
        assert(patterns_of(res@) =~= gray(0)) by {
            assert(patterns_of(res@)[0] =~= Seq::<bool>::empty());
        }
        return res;
    }
    let prev = gray_code(n - 1);
    let ghost below = gray((n - 1) as nat);
    let mut res: Vec<Vec<bool>> = Vec::new();
    let mut i: usize = 0;
    while i < prev.len()
        invariant
            i <= prev@.len(),
            patterns_of(prev@) == below,
            res@.len() == i,
            forall|k: int| 0 <= k < i ==> (#[trigger] res@[k])@ == seq![false] + below[k],
        decreases prev@.len() - i,
    {
        let new = prefixed(false, &prev[i]);
        assert(below[i as int] == prev@[i as int]@);
        res.push(new);
        i += 1;
    }
    let mut j: usize = 0;
    while j < prev.len()
        invariant
            j <= prev@.len(),
            patterns_of(prev@) == below,
            res@.len() == prev@.len() + j,
            forall|k: int| 0 <= k < prev@.len() ==> (#[trigger] res@[k])@ == seq![false] + below[k],
            forall|k: int|
                0 <= k < j ==> (#[trigger] res@[prev@.len() + k])@ == seq![true] + below[prev@.len()
                    - 1 - k],
        decreases prev@.len() - j,
    {
        let new = prefixed(true, &prev[prev.len() - 1 - j]);
        assert(below[prev@.len() - 1 - j] == prev@[prev@.len() - 1 - j]@);
        res.push(new);
        j += 1;
    }
    proof {
        let half = below.len() as int;
        assert forall|k: int| 0 <= k < res@.len() implies patterns_of(res@)[k] == gray(n as nat)[k] by {
            if k >= half {
                assert(res@[half + (k - half)]@ == seq![true] + below[half - 1 - (k - half)]);
            }
        }
        assert(patterns_of(res@) =~= gray(n as nat));
    }
    res
}

/// The Karnaugh map of an expression: its variables split in two groups, the
/// Gray codes of both, and one cell for each pair of codes.
#[derive(Clone, Debug)]
pub struct KarnaughMap {
    /// The variables that the rows stand for: the first half of the
    /// variables, the smaller half where their number is odd.
    pub row_vars: Vec<String>,
    /// The variables that the columns stand for: the other variables.
    pub col_vars: Vec<String>,
    /// The Gray code of the row variables: one pattern for each row.
    pub row_codes: Vec<Vec<bool>>,
    /// The Gray code of the column variables: one pattern for each column.
    pub col_codes: Vec<Vec<bool>>,
    /// The value of the expression for each row and column.
    pub cells: Vec<Vec<bool>>,
}

/// What `k_map` gives: a map, or the finding that the expression has too few
/// or too many variables for one.
#[derive(Clone, Debug)]
pub enum KMap {
    Grid(KarnaughMap),
    /// A map is drawn for two to six variables only; the expression has this
    /// many.
    NotSupported(usize),
}

impl KarnaughMap {
    /// `self` is the Karnaugh map of `f`. The variables stand in their
    /// canonical order, the row variables first. The cell of a row and a
    /// column holds the value of `f` where the row variables have the bits of
    /// the row's code and the column variables those of the column's code.
    pub open spec fn is_map_of(&self, f: Formula) -> bool {
        let rows = names_of(self.row_vars@);
        let cols = names_of(self.col_vars@);
        let names = rows + cols;
        &&& is_variable_order(names, f)
        &&& rows.len() == names.len() / 2
        &&& patterns_of(self.row_codes@) == gray(rows.len())
        &&& patterns_of(self.col_codes@) == gray(cols.len())
        &&& self.cells@.len() == self.row_codes@.len()
        &&& forall|r: int|
            0 <= r < self.cells@.len() ==> (#[trigger] self.cells@[r])@.len()
                == self.col_codes@.len()
        &&& forall|r: int, c: int|
            0 <= r < self.cells@.len() && 0 <= c < self.col_codes@.len() ==> (
            #[trigger] self.cells@[r]@[c]) == holds(
                f,
                binding(names, self.row_codes@[r]@ + self.col_codes@[c]@),
            )
    }
}

/// What is shown where no map is drawn.
pub open spec fn not_supported_text() -> Seq<char> {
    "K-Map supported only for 2 to 6 variables"@
}

/// The text that is shown where no map is drawn.
pub fn not_supported_message() -> (text: String)
    ensures
        text@ == not_supported_text(),
{
    String::from_str("K-Map supported only for 2 to 6 variables")
}

impl KarnaughMap {
    /// The text of the corner of the map: the row variables, a backslash,
    /// the column variables.
    pub open spec fn corner(&self) -> Seq<char> {
        joined(names_of(self.row_vars@)) + seq!['\\'] + joined(names_of(self.col_vars@))
    }

    /// The texts of the column codes.
    pub open spec fn column_headings(&self) -> Seq<Seq<char>> {
        Seq::new(self.col_codes@.len(), |c: int| pattern_text(self.col_codes@[c]@))
    }

    /// The text of the corner of the map.
    pub fn corner_label(&self) -> (text: String)
        ensures
            text@ == self.corner(),
    {
        proof {
            reveal_strlit("\\");
        }
        let mut text = join_names(&self.row_vars);
        text.append("\\");
        assert("\\"@ =~= seq!['\\']);
        let cols = join_names(&self.col_vars);
        text.append(cols.as_str());
        text
    }

    /// The header of the map as it is shown: the corner, then the code of
    /// each column.
    pub fn header_cells(&self) -> (cells: Vec<String>)
        ensures
            names_of(cells@) == seq![self.corner()] + self.column_headings(),
    {
        let mut cells: Vec<String> = Vec::new();
        cells.push(self.corner_label());
        assert(names_of(cells@) =~= seq![self.corner()] + self.column_headings().take(0));
        let mut c: usize = 0;
        while c < self.col_codes.len()
            invariant
                c <= self.col_codes@.len(),
                names_of(cells@) == seq![self.corner()] + self.column_headings().take(c as int),
            decreases self.col_codes@.len() - c,
        {
            let ghost before = cells@;
            let heading = bits_text(&self.col_codes[c]);
            cells.push(heading);
            assert(names_of(cells@) =~= names_of(before).push(pattern_text(self.col_codes@[c as int]@)));
            assert(self.column_headings().take(c + 1) =~= self.column_headings().take(
                c as int,
            ).push(pattern_text(self.col_codes@[c as int]@)));
            c += 1;
        }
        assert(self.column_headings().take(self.col_codes@.len() as int)
            =~= self.column_headings());
        cells
    }

    /// Row `r` of the map as it is shown: the code of the row, then the
    /// digit of each cell.
    pub fn row_cells(&self, r: usize) -> (cells: Vec<String>)
        requires
            r < self.row_codes@.len(),
            r < self.cells@.len(),
        ensures
            names_of(cells@) == seq![pattern_text(self.row_codes@[r as int]@)] + digit_texts(
                self.cells@[r as int]@,
            ),
    {
        let mut cells: Vec<String> = Vec::new();
        cells.push(bits_text(&self.row_codes[r]));
        let row = &self.cells[r];
        assert(names_of(cells@) =~= seq![pattern_text(self.row_codes@[r as int]@)] + digit_texts(
            row@,
        ).take(0));
        let mut c: usize = 0;
        while c < row.len()
            invariant
                c <= row@.len(),
                names_of(cells@) == seq![pattern_text(self.row_codes@[r as int]@)] + digit_texts(
                    row@,
                ).take(c as int),
            decreases row@.len() - c,
        {
            let ghost before = cells@;
            cells.push(bit_text(row[c]));
            assert(names_of(cells@) =~= names_of(before).push(seq![digit(row@[c as int])]));
            assert(digit_texts(row@).take(c + 1) =~= digit_texts(row@).take(c as int).push(
                seq![digit(row@[c as int])],
            ));
            c += 1;
        }
        assert(digit_texts(row@).take(row@.len() as int) =~= digit_texts(row@));
        cells
    }
}

/// The strings of `source` from `from` up to `to`.
fn copy_range(source: &Vec<String>, from: usize, to: usize) -> (part: Vec<String>)
    requires
        from <= to <= source@.len(),
    ensures
        names_of(part@) == names_of(source@).subrange(from as int, to as int),
{
    let mut part: Vec<String> = Vec::new();
    let mut i: usize = from;
    while i < to
        invariant
            from <= i <= to,
            to <= source@.len(),
            names_of(part@) == names_of(source@).subrange(from as int, i as int),
        decreases to - i,
    {
        let ghost before = part@;
        part.push(source[i].clone());
        assert(names_of(part@) =~= names_of(before).push(source@[i as int]@));
        assert(names_of(source@).subrange(from as int, i + 1) =~= names_of(source@).subrange(
            from as int,
            i as int,
        ).push(source@[i as int]@));
        i += 1;
    }
    part
}

/// The Karnaugh map of `expr`, where it has two to six variables.
pub fn k_map(expr: &Expr) -> (map: KMap)
    ensures
        match map {
            KMap::Grid(grid) => 2 <= variable_count(expr@) <= 6 && grid.is_map_of(expr@),
            KMap::NotSupported(count) => count == variable_count(expr@) && !(2 <= count <= 6),
        },
{
    let vars = variables(expr);
    if vars.len() < 2 || vars.len() > 6 {
        return KMap::NotSupported(vars.len());
    }
    let row_vars = copy_range(&vars, 0, vars.len() / 2);
    let col_vars = copy_range(&vars, vars.len() / 2, vars.len());
    let row_gray = gray_code(row_vars.len());
    let col_gray = gray_code(col_vars.len());
    let ghost rows = names_of(row_vars@);
    let ghost cols = names_of(col_vars@);
    let ghost names = names_of(vars@);
    proof {
        assert(rows + cols =~= names);
        lemma_gray_len(rows.len());
        lemma_gray_len(cols.len());
    }
    let mut cells: Vec<Vec<bool>> = Vec::new();
    let mut r: usize = 0;
    while r < row_gray.len()
        invariant
            r <= row_gray@.len(),
            rows == names_of(row_vars@),
            cols == names_of(col_vars@),
            patterns_of(row_gray@) == gray(rows.len()),
            patterns_of(col_gray@) == gray(cols.len()),
            forall|i: int| 0 <= i < gray(rows.len()).len() ==> (#[trigger] gray(rows.len())[i]).len()
                == rows.len(),
            forall|i: int| 0 <= i < gray(cols.len()).len() ==> (#[trigger] gray(cols.len())[i]).len()
                == cols.len(),
            cells@.len() == r,
            forall|i: int| 0 <= i < r ==> (#[trigger] cells@[i])@.len() == col_gray@.len(),
            forall|i: int, c: int|
                0 <= i < r && 0 <= c < col_gray@.len() ==> (#[trigger] cells@[i]@[c]) == holds(
                    expr@,
                    binding(rows + cols, row_gray@[i]@ + col_gray@[c]@),
                ),
        decreases row_gray@.len() - r,
    {
        let row = &row_gray[r];
        let mut row_cells: Vec<bool> = Vec::new();
        let mut c: usize = 0;
        while c < col_gray.len()
            invariant
                c <= col_gray@.len(),
                r < row_gray@.len(),
                row == row_gray@[r as int],
                rows == names_of(row_vars@),
                cols == names_of(col_vars@),
                patterns_of(row_gray@) == gray(rows.len()),
                patterns_of(col_gray@) == gray(cols.len()),
                forall|i: int|
                    0 <= i < gray(rows.len()).len() ==> (#[trigger] gray(rows.len())[i]).len()
                        == rows.len(),
                forall|i: int|
                    0 <= i < gray(cols.len()).len() ==> (#[trigger] gray(cols.len())[i]).len()
                        == cols.len(),
                row_cells@.len() == c,
                forall|k: int|
                    0 <= k < c ==> (#[trigger] row_cells@[k]) == holds(
                        expr@,
                        binding(rows + cols, row@ + col_gray@[k]@),
                    ),
            decreases col_gray@.len() - c,
        {
            let col = &col_gray[c];
            let mut assignment = Assignment::new();
            assignment.bind(&row_vars, row);
            assignment.bind(&col_vars, col);
            proof {
                assert(row@ == patterns_of(row_gray@)[r as int]);
                assert(col@ == patterns_of(col_gray@)[c as int]);
                assert(gray(rows.len())[r as int].len() == rows.len());
                assert(gray(cols.len())[c as int].len() == cols.len());
                lemma_bound_concat(Map::empty(), rows, row@, cols, col@);
            }
            let result = eval(expr, &assignment);
            row_cells.push(result);
            c += 1;
        }
        cells.push(row_cells);
        r += 1;
    }
    KMap::Grid(KarnaughMap { row_vars, col_vars, row_codes: row_gray, col_codes: col_gray, cells })
}

/// A map of `n` variables has `2^(n / 2)` rows, the quotient rounded down,
/// and a column for every other power of two: `2^(n - n / 2)` columns.
pub proof fn lemma_map_size(map: KarnaughMap, f: Formula)
    requires
        map.is_map_of(f),
    ensures
        ({
            let n = variable_count(f);
            &&& map.cells@.len() == pow2(n / 2)
            &&& forall|r: int|
                0 <= r < map.cells@.len() ==> (#[trigger] map.cells@[r])@.len() == pow2(
                    (n - n / 2) as nat,
                )
        }),
{
    let rows = names_of(map.row_vars@);
    let cols = names_of(map.col_vars@);
    lemma_variable_count(rows + cols, f);
    lemma_gray_len(rows.len());
    lemma_gray_len(cols.len());
}

/// The map and the truth table of a formula agree: the cell of a row and a
/// column holds the output of that row of the table whose inputs are the
/// row's code followed by the column's.
pub proof fn lemma_map_agrees_with_table(
    map: KarnaughMap,
    table: TruthTable,
    f: Formula,
    r: int,
    c: int,
)
    requires
        map.is_map_of(f),
        table.is_table_of(f),
        0 <= r < map.row_codes@.len(),
        0 <= c < map.col_codes@.len(),
    ensures
        ({
            let inputs = map.row_codes@[r]@ + map.col_codes@[c]@;
            let i = row_index(inputs) as int;
            &&& i < table.rows@.len()
            &&& table.rows@[i].inputs@ == inputs
            &&& table.rows@[i].output == map.cells@[r]@[c]
            &&& map.cells@[r]@[c] == holds(f, binding(names_of(table.variables@), inputs))
        }),
{
    let rows = names_of(map.row_vars@);
    let cols = names_of(map.col_vars@);
    let names = rows + cols;
    let inputs = map.row_codes@[r]@ + map.col_codes@[c]@;
    lemma_sorted_unique(names, names_of(table.variables@));
    lemma_gray_len(rows.len());
    lemma_gray_len(cols.len());
    assert(map.row_codes@[r]@ == patterns_of(map.row_codes@)[r]);
    assert(map.col_codes@[c]@ == patterns_of(map.col_codes@)[c]);
    assert(inputs.len() == names.len());
    lemma_counting_row_of_index(inputs);
    assert(map.cells@[r]@[c] == holds(f, binding(names, inputs)));
}

} // verus!
