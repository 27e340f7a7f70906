//! Confusion-matrix evaluation: a class-by-class count table of actual
//! versus predicted labels, and the exact accuracy and recall fractions
//! derived from it.

use vstd::prelude::*;
use crate::tally::{
    lemma_seq_sum_le, lemma_seq_sum_nonneg, lemma_seq_sum_single, lemma_seq_sum_take_le,
    lemma_seq_sum_update, lemma_seq_sum_zero, seq_sum,
};

verus! {

/// Number of positions `k` at which `actual[k] == a` and `predicted[k] == p`.
pub open spec fn pair_count(predicted: Seq<usize>, actual: Seq<usize>, a: int, p: int) -> int
    decreases predicted.len(),
{
    if predicted.len() == 0 || actual.len() == 0 {
        0
    } else {
        pair_count(predicted.drop_last(), actual.drop_last(), a, p) + (if actual.last() == a
            && predicted.last() == p {
            1int
        } else {
            0int
        })
    }
}

/// Sum of all entries of a matrix.
pub open spec fn mat_sum(m: Seq<Seq<u64>>) -> int
    decreases m.len(),
{
    if m.len() == 0 {
        0
    } else {
        mat_sum(m.drop_last()) + seq_sum(m.last())
    }
}

/// Sum of the diagonal entries of a matrix.
pub open spec fn diag_sum(m: Seq<Seq<u64>>) -> int
    decreases m.len(),
{
    if m.len() == 0 {
        0
    } else {
        diag_sum(m.drop_last()) + m.last()[m.len() - 1]
    }
}

/// A square table of counts, indexed `[actual_label][predicted_label]`.
pub struct ConfusionMatrix {
    cells: Vec<Vec<u64>>,
}

impl ConfusionMatrix {
    /// The matrix as a sequence of rows, one per actual label.
    pub closed spec fn matrix(&self) -> Seq<Seq<u64>> {
        Seq::new(self.cells@.len(), |i: int| self.cells@[i]@)
    }

    /// The number of classes (rows and columns).
    pub open spec fn num_classes(&self) -> int {
        self.matrix().len() as int
    }

    /// Square, with a total small enough to be summed exactly.
    pub open spec fn wf(&self) -> bool {
        &&& forall|a: int|
            0 <= a < self.matrix().len() ==> (#[trigger] self.matrix()[a]).len()
                == self.matrix().len()
        &&& mat_sum(self.matrix()) <= u64::MAX
    }

    /// The entry for an actual label `a` and a predicted label `p`.
    pub fn cell(&self, a: usize, p: usize) -> (c: u64)
        requires
            self.wf(),
            a < self.num_classes(),
            p < self.num_classes(),
        ensures
            c == self.matrix()[a as int][p as int],
    {
        proof {
            assert(self.matrix()[a as int] == self.cells@[a as int]@);
        }
        self.cells[a][p]
    }

    /// How many classes the matrix distinguishes.
    pub fn class_count(&self) -> (n: usize)
        ensures
            n == self.num_classes(),
    {
        self.cells.len()
    }

    /// The exact accuracy fraction: correctly classified count over total
    /// count, or `None` when the matrix holds no samples at all.
    pub fn accuracy(&self) -> (r: Option<(u64, u64)>)
        requires
            self.wf(),
        ensures
            match r {
                Some(f) => {
                    &&& mat_sum(self.matrix()) > 0
                    &&& f.0 == diag_sum(self.matrix())
                    &&& f.1 == mat_sum(self.matrix())
                    &&& f.0 <= f.1
                },
                None => mat_sum(self.matrix()) == 0,
            },
    {
        let ghost m = self.matrix();
        let n = self.cells.len();
        let mut total: u64 = 0;
        let mut correct: u64 = 0;
        let mut a: usize = 0;
        while a < n
            invariant
                self.wf(),
                m == self.matrix(),
                n == m.len(),
                0 <= a <= n,
                total == mat_sum(m.take(a as int)),
                correct == diag_sum(m.take(a as int)),
                0 <= correct <= total,
            decreases n - a,
        {
            proof {
                assert(m.take(a + 1).drop_last() =~= m.take(a as int));
                assert(m.take(a + 1).last() == m[a as int]);
                lemma_mat_sum_take_le(m, a + 1);
                assert(forall|x: int|
                    0 <= x < m.take(a + 1).len() ==> (#[trigger] m.take(a + 1)[x]).len() >= m.take(
                        a + 1,
                    ).len());
                lemma_diag_le_mat(m.take(a + 1));
                lemma_seq_sum_le(m[a as int], a as int);
            }
            let row_total = sum_row(&self.cells[a]);
            total = total + row_total;
            correct = correct + self.cells[a][a];
            a = a + 1;
        }
        proof {
            assert(m.take(n as int) =~= m);
        }
        if total == 0 {
            None
        } else {
            Some((correct, total))
        }
    }

    /// The exact recall fraction for a class: its diagonal entry over its
    /// row total, or `None` when that class never occurs as an actual label.
    pub fn recall(&self, class: usize) -> (r: Option<(u64, u64)>)
        requires
            self.wf(),
            class < self.num_classes(),
        ensures
            match r {
                Some(f) => {
                    &&& seq_sum(self.matrix()[class as int]) > 0
                    &&& f.0 == self.matrix()[class as int][class as int]
                    &&& f.1 == seq_sum(self.matrix()[class as int])
                    &&& f.0 <= f.1
                },
                None => seq_sum(self.matrix()[class as int]) == 0,
            },
    {
        proof {
            lemma_mat_sum_row_le(self.matrix(), class as int);
            lemma_seq_sum_le(self.matrix()[class as int], class as int);
        }
        let row_total = sum_row(&self.cells[class]);
        if row_total == 0 {
            None
        } else {
            Some((self.cells[class][class], row_total))
        }
    }
}

/// Sums one row; the row's sum must fit in the counter type.
fn sum_row(row: &Vec<u64>) -> (s: u64)
    requires
        seq_sum(row@) <= u64::MAX,
    ensures
        s == seq_sum(row@),
{
    let ghost r = row@;
    let mut s: u64 = 0;
    let mut i: usize = 0;
    while i < row.len()
        invariant
            0 <= i <= r.len(),
            r == row@,
            seq_sum(r) <= u64::MAX,
            s == seq_sum(r.take(i as int)),
        decreases r.len() - i,
    {
        proof {
            assert(r.take(i + 1).drop_last() =~= r.take(i as int));
            assert(r.take(i + 1).last() == r[i as int]);
            lemma_seq_sum_take_le(r, i + 1);
            lemma_seq_sum_take_le(r.take(i + 1), i as int);
            assert(r.take(i + 1).take(i as int) =~= r.take(i as int));
        }
        s = s + row[i];
        i = i + 1;
    }
    proof {
        assert(r.take(r.len() as int) =~= r);
    }
    s
}

/// Builds the confusion matrix of a run: for every position `k`, the entry
/// at row `actual[k]`, column `predicted[k]` is incremented once.  The matrix
/// total therefore equals the number of pairs supplied.
pub fn confusion_matrix(predicted: &[usize], actual: &[usize], num_classes: usize) -> (m:
    ConfusionMatrix)
    requires
        predicted@.len() == actual@.len(),
        forall|k: int| 0 <= k < predicted@.len() ==> predicted@[k] < num_classes,
        forall|k: int| 0 <= k < actual@.len() ==> actual@[k] < num_classes,
    ensures
        m.wf(),
        m.num_classes() == num_classes,
        forall|a: int, p: int|
            0 <= a < num_classes && 0 <= p < num_classes ==> m.matrix()[a][p] == pair_count(
                predicted@,
                actual@,
                a,
                p,
            ),
        mat_sum(m.matrix()) == predicted@.len(),
{
    let mut cells: Vec<Vec<u64>> = Vec::new();
    let mut a: usize = 0;
    while a < num_classes
        invariant
            0 <= a <= num_classes,
            cells@.len() == a,
            forall|i: int| 0 <= i < a ==> (#[trigger] cells@[i])@.len() == num_classes,
            forall|i: int, j: int|
                0 <= i < a && 0 <= j < num_classes ==> cells@[i]@[j] == 0,
        decreases num_classes - a,
    {
        let mut row: Vec<u64> = Vec::new();
        let mut p: usize = 0;
        while p < num_classes
            invariant
                0 <= p <= num_classes,
                row@.len() == p,
                forall|j: int| 0 <= j < p ==> row@[j] == 0,
            decreases num_classes - p,
        {
            row.push(0);
            p = p + 1;
        }
        cells.push(row);
        a = a + 1;
    }
    let mut m = ConfusionMatrix { cells };
    proof {
        lemma_mat_sum_all_zero(m.matrix());
        lemma_pair_count_empty(predicted@.take(0), actual@.take(0));
    }
    let mut k: usize = 0;
    while k < predicted.len()
        invariant
            predicted@.len() == actual@.len(),
            0 <= k <= predicted@.len(),
            forall|i: int| 0 <= i < predicted@.len() ==> predicted@[i] < num_classes,
            forall|i: int| 0 <= i < actual@.len() ==> actual@[i] < num_classes,
            m.matrix().len() == num_classes,
            forall|x: int|
                0 <= x < num_classes ==> (#[trigger] m.matrix()[x]).len() == num_classes,
            forall|x: int, y: int|
                0 <= x < num_classes && 0 <= y < num_classes ==> m.matrix()[x][y] == pair_count(
                    predicted@.take(k as int),
                    actual@.take(k as int),
                    x,
                    y,
                ),
            mat_sum(m.matrix()) == k,
        decreases predicted@.len() - k,
    {
        let ghost before = m.matrix();
        let r = actual[k];
        let p = predicted[k];
        proof {
            lemma_mat_cell_le_sum(before, r as int, p as int);
        }
        let c = m.cells[r][p];
        m.cells[r][p] = c + 1;
        proof {
            let after = m.matrix();
            assert(after =~= before.update(
                r as int,
                before[r as int].update(p as int, (c + 1) as u64),
            ));
            lemma_mat_sum_update(before, r as int, p as int, (c + 1) as u64);
            assert(predicted@.take(k + 1).drop_last() =~= predicted@.take(k as int));
            assert(actual@.take(k + 1).drop_last() =~= actual@.take(k as int));
            assert(predicted@.take(k + 1).last() == predicted@[k as int]);
            assert(actual@.take(k + 1).last() == actual@[k as int]);
            assert forall|x: int, y: int|
                0 <= x < num_classes && 0 <= y < num_classes implies after[x][y] == pair_count(
                predicted@.take(k + 1),
                actual@.take(k + 1),
                x,
                y,
            ) by {
                assert(before[x][y] == pair_count(
                    predicted@.take(k as int),
                    actual@.take(k as int),
                    x,
                    y,
                ));
                assert(pair_count(predicted@.take(k + 1), actual@.take(k + 1), x, y)
                    == pair_count(predicted@.take(k as int), actual@.take(k as int), x, y) + (
                if actual@[k as int] == x && predicted@[k as int] == y {
                    1int
                } else {
                    0int
                }));
            }
        }
        k = k + 1;
    }
    proof {
        assert(predicted@.take(predicted@.len() as int) =~= predicted@);
        assert(actual@.take(actual@.len() as int) =~= actual@);
    }
    m
}

proof fn lemma_pair_count_empty(predicted: Seq<usize>, actual: Seq<usize>)
    requires
        predicted.len() == 0,
    ensures
        forall|a: int, p: int| pair_count(predicted, actual, a, p) == 0,
{
}

/// Each entry is at most the matrix total.
proof fn lemma_mat_cell_le_sum(m: Seq<Seq<u64>>, a: int, p: int)
    requires
        0 <= a < m.len(),
        0 <= p < m[a].len(),
    ensures
        m[a][p] <= mat_sum(m),
    decreases m.len(),
{
    if a == m.len() - 1 {
        lemma_seq_sum_le(m.last(), p);
        lemma_mat_sum_nonneg(m.drop_last());
    } else {
        assert(m.drop_last()[a] == m[a]);
        lemma_mat_cell_le_sum(m.drop_last(), a, p);
        lemma_seq_sum_nonneg(m.last());
    }
}

proof fn lemma_mat_sum_nonneg(m: Seq<Seq<u64>>)
    ensures
        mat_sum(m) >= 0,
    decreases m.len(),
{
    if m.len() > 0 {
        lemma_mat_sum_nonneg(m.drop_last());
        lemma_seq_sum_nonneg(m.last());
    }
}

/// Updating one entry moves the matrix total by the difference.
proof fn lemma_mat_sum_update(m: Seq<Seq<u64>>, a: int, p: int, v: u64)
    requires
        0 <= a < m.len(),
        0 <= p < m[a].len(),
    ensures
        mat_sum(m.update(a, m[a].update(p, v))) == mat_sum(m) - m[a][p] + v,
    decreases m.len(),
{
    let t = m.update(a, m[a].update(p, v));
    if a == m.len() - 1 {
        assert(t.drop_last() =~= m.drop_last());
        lemma_seq_sum_update(m.last(), p, v);
    } else {
        assert(t.drop_last() =~= m.drop_last().update(a, m.drop_last()[a].update(p, v)));
        assert(m.drop_last()[a] == m[a]);
        lemma_mat_sum_update(m.drop_last(), a, p, v);
        assert(t.last() == m.last());
    }
}

/// An all-zero matrix sums to zero.
proof fn lemma_mat_sum_all_zero(m: Seq<Seq<u64>>)
    requires
        forall|a: int, p: int|
            0 <= a < m.len() && 0 <= p < m[a].len() ==> #[trigger] m[a][p] == 0,
    ensures
        mat_sum(m) == 0,
    decreases m.len(),
{
    if m.len() > 0 {
        assert(m[m.len() - 1] == m.last());
        lemma_seq_sum_zero(m.last());
        assert(forall|a: int| 0 <= a < m.len() - 1 ==> m.drop_last()[a] == m[a]);
        lemma_mat_sum_all_zero(m.drop_last());
    }
}

/// The total of the first rows never exceeds the total of the whole matrix.
proof fn lemma_mat_sum_take_le(m: Seq<Seq<u64>>, k: int)
    requires
        0 <= k <= m.len(),
    ensures
        mat_sum(m.take(k)) <= mat_sum(m),
        mat_sum(m.take(k)) >= 0,
    decreases m.len() - k,
{
    lemma_mat_sum_nonneg(m.take(k));
    if k < m.len() {
        assert(m.take(k + 1).drop_last() =~= m.take(k));
        assert(m.take(k + 1).last() == m[k]);
        lemma_seq_sum_nonneg(m[k]);
        lemma_mat_sum_take_le(m, k + 1);
    } else {
        assert(m.take(k) =~= m);
    }
}

/// One row's total is at most the matrix total.
proof fn lemma_mat_sum_row_le(m: Seq<Seq<u64>>, a: int)
    requires
        0 <= a < m.len(),
    ensures
        seq_sum(m[a]) <= mat_sum(m),
        seq_sum(m[a]) >= 0,
    decreases m.len(),
{
    lemma_seq_sum_nonneg(m[a]);
    if a == m.len() - 1 {
        assert(m[a] == m.last());
        lemma_mat_sum_nonneg(m.drop_last());
    } else {
        assert(m.drop_last()[a] == m[a]);
        lemma_mat_sum_row_le(m.drop_last(), a);
        lemma_seq_sum_nonneg(m.last());
    }
}

/// The diagonal total never exceeds the matrix total, for a matrix whose
/// rows are long enough to carry a diagonal.
proof fn lemma_diag_le_mat(m: Seq<Seq<u64>>)
    requires
        forall|a: int| 0 <= a < m.len() ==> (#[trigger] m[a]).len() >= m.len(),
    ensures
        0 <= diag_sum(m) <= mat_sum(m),
    decreases m.len(),
{
    if m.len() > 0 {
        assert(forall|a: int| 0 <= a < m.len() - 1 ==> m.drop_last()[a] == m[a]);
        lemma_diag_le_mat(m.drop_last());
        assert(m[m.len() - 1] == m.last());
        lemma_seq_sum_le(m.last(), m.len() - 1);
    }
}

/// Accuracy is perfect when every prediction matches its actual label:
/// for a matrix built from equal label sequences, the diagonal carries
/// the whole total.
pub proof fn lemma_accuracy_one_when_equal(
    m: Seq<Seq<u64>>,
    predicted: Seq<usize>,
    actual: Seq<usize>,
    num_classes: int,
)
    requires
        predicted == actual,
        m.len() == num_classes,
        forall|a: int| 0 <= a < num_classes ==> (#[trigger] m[a]).len() == num_classes,
        forall|a: int, p: int|
            0 <= a < num_classes && 0 <= p < num_classes ==> m[a][p] == pair_count(
                predicted,
                actual,
                a,
                p,
            ),
    ensures
        diag_sum(m) == mat_sum(m),
{
    assert forall|a: int, p: int|
        0 <= a < m.len() && 0 <= p < m[a].len() && a != p implies #[trigger] m[a][p] == 0 by {
        lemma_pair_count_off_diag(predicted, a, p);
    }
    lemma_zero_off_diag_sums(m);
}

proof fn lemma_pair_count_off_diag(labels: Seq<usize>, a: int, p: int)
    requires
        a != p,
    ensures
        pair_count(labels, labels, a, p) == 0,
    decreases labels.len(),
{
    if labels.len() > 0 {
        lemma_pair_count_off_diag(labels.drop_last(), a, p);
    }
}

/// For a matrix that vanishes off the diagonal, the matrix total is the
/// diagonal total.
proof fn lemma_zero_off_diag_sums(m: Seq<Seq<u64>>)
    requires
        forall|a: int| 0 <= a < m.len() ==> (#[trigger] m[a]).len() >= m.len(),
        forall|a: int, p: int|
            0 <= a < m.len() && 0 <= p < m[a].len() && a != p ==> #[trigger] m[a][p] == 0,
    ensures
        diag_sum(m) == mat_sum(m),
    decreases m.len(),
{
    if m.len() > 0 {
        assert(m[m.len() - 1] == m.last());
        lemma_seq_sum_single(m.last(), m.len() - 1);
        assert(forall|a: int| 0 <= a < m.len() - 1 ==> m.drop_last()[a] == m[a]);
        lemma_zero_off_diag_sums(m.drop_last());
    }
}

/// Accuracy is zero when the diagonal is empty: a matrix with a vanishing
/// diagonal has a vanishing diagonal total.
pub proof fn lemma_accuracy_zero_when_no_diag(m: Seq<Seq<u64>>)
    requires
        forall|a: int| 0 <= a < m.len() ==> (#[trigger] m[a]).len() >= m.len(),
        forall|a: int| 0 <= a < m.len() ==> (#[trigger] m[a])[a] == 0,
    ensures
        diag_sum(m) == 0,
    decreases m.len(),
{
    if m.len() > 0 {
        assert(m[m.len() - 1] == m.last());
        assert(forall|a: int| 0 <= a < m.len() - 1 ==> m.drop_last()[a] == m[a]);
        lemma_accuracy_zero_when_no_diag(m.drop_last());
    }
}

} // verus!
