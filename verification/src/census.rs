//! A census of the matrix products that were launched.

use crate::dtype::DType;
use crate::settings::{contents, is_enabled, positive_or, setting_number, switched_on};
use vstd::prelude::*;
use vstd::string::*;

verus! {

/// After how many launches the census is reported if nothing else is set.
pub const DEFAULT_REPORT_EVERY: u64 = 10_000;

/// What tells one kind of matrix product from another.
#[derive(Debug)]
pub struct ShapeKey {
    pub m: usize,
    pub n: usize,
    pub k: usize,
    pub lhs: DType,
    pub rhs: DType,
    pub out: DType,
    /// The route that the launch takes.
    pub path: String,
}

/// A kind of matrix product, without its memory representation.
#[verifier::ext_equal]
pub struct ShapeView {
    pub m: usize,
    pub n: usize,
    pub k: usize,
    pub lhs: DType,
    pub rhs: DType,
    pub out: DType,
    pub path: Seq<char>,
}

impl ShapeKey {
    /// The kind of matrix product.
    pub open spec fn view(&self) -> ShapeView {
        ShapeView {
            m: self.m,
            n: self.n,
            k: self.k,
            lhs: self.lhs,
            rhs: self.rhs,
            out: self.out,
            path: self.path@,
        }
    }

    fn same(&self, other: &ShapeKey) -> (same: bool)
        ensures
            same == (self@ == other@),
    {
        self.m == other.m && self.n == other.n && self.k == other.k && self.lhs == other.lhs
            && self.rhs == other.rhs && self.out == other.out && self.path == other.path
    }
}

/// How often each kind of matrix product was launched.
#[derive(Debug)]
pub struct ShapeCensus {
    /// Whether launches are counted.
    pub enabled: bool,
    /// After how many launches the census is reported.
    pub every: u64,
    /// The kinds with their counts, in the order in which they came up.
    pub rows: Vec<(ShapeKey, u64)>,
    /// The number of launches.
    pub total: u64,
}

/// A report on the census.
#[derive(Debug)]
pub struct CensusReport {
    /// The number of launches so far.
    pub launches: u64,
    /// The rows of the census, most frequent first.
    pub order: Vec<usize>,
}

/// The sum of the counts.
pub open spec fn sum_of_counts(rows: Seq<(ShapeKey, u64)>) -> int
    decreases rows.len(),
{
    if rows.len() == 0 {
        0
    } else {
        sum_of_counts(rows.drop_last()) + rows.last().1
    }
}

/// The count of a kind, which is zero if it has not come up.
pub open spec fn count_of(rows: Seq<(ShapeKey, u64)>, shape: ShapeView) -> int
    decreases rows.len(),
{
    if rows.len() == 0 {
        0
    } else if rows.last().0@ == shape {
        rows.last().1 as int
    } else {
        count_of(rows.drop_last(), shape)
    }
}

/// Whether no kind has two rows.
pub open spec fn kinds_differ(rows: Seq<(ShapeKey, u64)>) -> bool {
    forall|i: int, j: int|
        0 <= i < j < rows.len() ==> (#[trigger] rows[i]).0@ != (#[trigger] rows[j]).0@
}

/// Whether the positions name each of `n` rows once, the most frequent first.
pub open spec fn is_ranking(order: Seq<usize>, rows: Seq<(ShapeKey, u64)>) -> bool {
    &&& order.len() == rows.len()
    &&& order.no_duplicates()
    &&& forall|i: int| 0 <= i < order.len() ==> #[trigger] order[i] < rows.len()
    &&& forall|i: int, j: int|
        0 <= i < j < order.len() ==> rows[#[trigger] order[i] as int].1
            >= rows[#[trigger] order[j] as int].1
}

impl ShapeCensus {
    /// What holds of every census.
    pub open spec fn wf(&self) -> bool {
        &&& self.every > 0
        &&& kinds_differ(self.rows@)
        &&& sum_of_counts(self.rows@) == self.total
        &&& forall|i: int| 0 <= i < self.rows@.len() ==> (#[trigger] self.rows@[i]).1 > 0
    }

    /// An empty census, by the values of the settings `BURN_MATMUL_SHAPE_LOG`
    /// and `BURN_MATMUL_SHAPE_LOG_EVERY`.
    pub fn from_settings(log: Option<&str>, every: Option<&str>) -> (census: Self)
        ensures
            census.wf(),
            census.enabled == switched_on(contents(log)),
            census.rows@.len() == 0,
            match setting_number(contents(every), u64::MAX as int) {
                Some(n) => census.every == if n > 0 {
                    n
                } else {
                    DEFAULT_REPORT_EVERY as int
                },
                None => census.every == DEFAULT_REPORT_EVERY,
            },
    {
        ShapeCensus {
            enabled: is_enabled(log),
            every: positive_or(every, DEFAULT_REPORT_EVERY),
            rows: Vec::new(),
            total: 0,
        }
    }
}

proof fn lemma_count_bounded(rows: Seq<(ShapeKey, u64)>, i: int)
    requires
        0 <= i < rows.len(),
    ensures
        0 <= rows[i].1 <= sum_of_counts(rows),
    decreases rows.len(),
{
    lemma_sum_nonnegative(rows.drop_last());
    if i < rows.len() - 1 {
        lemma_count_bounded(rows.drop_last(), i);
    }
}

proof fn lemma_sum_nonnegative(rows: Seq<(ShapeKey, u64)>)
    ensures
        sum_of_counts(rows) >= 0,
    decreases rows.len(),
{
    if rows.len() > 0 {
        lemma_sum_nonnegative(rows.drop_last());
    }
}

proof fn lemma_count_absent(rows: Seq<(ShapeKey, u64)>, shape: ShapeView)
    requires
        forall|i: int| 0 <= i < rows.len() ==> (#[trigger] rows[i]).0@ != shape,
    ensures
        count_of(rows, shape) == 0,
    decreases rows.len(),
{
    if rows.len() > 0 {
        assert(rows[rows.len() - 1].0@ != shape);
        assert forall|i: int| 0 <= i < rows.len() - 1 implies (#[trigger] rows.drop_last()[i]).0@
            != shape by {
            assert(rows[i].0@ != shape);
        }
        lemma_count_absent(rows.drop_last(), shape);
    }
}

/// What raising one count does to the sum and to the counts.
proof fn lemma_raised(
    before: Seq<(ShapeKey, u64)>,
    after: Seq<(ShapeKey, u64)>,
    at: int,
    shape: ShapeView,
)
    requires
        0 <= at < before.len(),
        kinds_differ(before),
        after.len() == before.len(),
        forall|i: int| 0 <= i < before.len() && i != at ==> #[trigger] after[i] == before[i],
        after[at].0 == before[at].0,
        after[at].1 == before[at].1 + 1,
    ensures
        sum_of_counts(after) == sum_of_counts(before) + 1,
        count_of(after, shape) == count_of(before, shape) + if shape == before[at].0@ {
            1int
        } else {
            0
        },
    decreases before.len(),
{
    let n = before.len() - 1;
    let b = before.drop_last();
    let a = after.drop_last();
    if at == n {
        assert(a =~= b);
        if shape == before[at].0@ {
            assert forall|i: int| 0 <= i < b.len() implies (#[trigger] b[i]).0@ != shape by {
                assert(before[i].0@ != before[n].0@);
            }
        }
    } else {
        assert(after[n] == before[n]);
        assert forall|i: int, j: int| 0 <= i < j < b.len() implies (#[trigger] b[i]).0@ != (
        #[trigger] b[j]).0@ by {
            assert(before[i].0@ != before[j].0@);
        }
        assert forall|i: int| 0 <= i < b.len() && i != at implies #[trigger] a[i] == b[i] by {
            assert(after[i] == before[i]);
        }
        lemma_raised(b, a, at, shape);
        assert(before[at].0@ != before[n].0@);
    }
}

/// The rows, most frequent first.
fn rank(rows: &Vec<(ShapeKey, u64)>) -> (order: Vec<usize>)
    ensures
        is_ranking(order@, rows@),
{
    let mut order: Vec<usize> = Vec::new();
    for i in 0..rows.len()
        invariant
            order.len() == i,
            order@.no_duplicates(),
            forall|a: int| 0 <= a < order.len() ==> #[trigger] order@[a] < i,
            forall|a: int, b: int|
                0 <= a < b < order.len() ==> rows@[#[trigger] order@[a] as int].1
                    >= rows@[#[trigger] order@[b] as int].1,
    {
        let mut at: usize = 0;
        while at < order.len() && rows[order[at]].1 >= rows[i].1
            invariant
                at <= order.len(),
                order.len() == i,
                i < rows.len(),
                forall|a: int| 0 <= a < order.len() ==> #[trigger] order@[a] < i,
                forall|a: int| 0 <= a < at ==> rows@[#[trigger] order@[a] as int].1 >= rows@[i as int].1,
            decreases order.len() - at,
        {
            at = at + 1;
        }
        let ghost before = order@;
        assert(forall|a: int| at <= a < order.len() ==> rows@[#[trigger] order@[a] as int].1
            <= rows@[i as int].1) by {
            if at < before.len() {
                assert(rows@[before[at as int] as int].1 < rows@[i as int].1);
                assert forall|a: int| at <= a < before.len() implies rows@[#[trigger] before[a] as int].1
                    <= rows@[i as int].1 by {
                    if a > at {
                        assert(rows@[before[at as int] as int].1 >= rows@[before[a] as int].1);
                    }
                }
            }
        }
        order.insert(at, i);
        proof {
            let after = order@;
            assert forall|a: int| 0 <= a < after.len() implies #[trigger] after[a] < i + 1 by {
                if a < at {
                    assert(after[a] == before[a]);
                } else if a > at {
                    assert(after[a] == before[a - 1]);
                }
            }
            assert forall|a: int, b: int| 0 <= a < b < after.len() implies rows@[#[trigger] after[a] as int].1
                >= rows@[#[trigger] after[b] as int].1 by {
                let x = if a < at {
                    a
                } else {
                    a - 1
                };
                let y = if b < at {
                    b
                } else {
                    b - 1
                };
                if a != at {
                    assert(after[a] == before[x]);
                }
                if b != at {
                    assert(after[b] == before[y]);
                }
            }
            assert forall|a: int, b: int|
                0 <= a < after.len() && 0 <= b < after.len() && a != b implies after[a]
                != after[b] by {
                let x = if a < at {
                    a
                } else {
                    a - 1
                };
                let y = if b < at {
                    b
                } else {
                    b - 1
                };
                if a != at {
                    assert(after[a] == before[x]);
                }
                if b != at {
                    assert(after[b] == before[y]);
                }
            }
        }
    }
    order
}

/// Counts one launch, and reports the census after every so many.
///
/// `path` tells the route that the launch takes. Nothing is counted unless the
/// census is enabled.
pub fn record(
    census: &mut ShapeCensus,
    m: usize,
    n: usize,
    k: usize,
    lhs: DType,
    rhs: DType,
    out: DType,
    path: &str,
) -> (report: Option<CensusReport>)
    requires
        old(census).wf(),
        old(census).total < u64::MAX,
    ensures
        final(census).wf(),
        final(census).enabled == old(census).enabled,
        final(census).every == old(census).every,
        !old(census).enabled ==> *final(census) == *old(census) && report is None,
        old(census).enabled ==> {
            let launched = ShapeView { m, n, k, lhs, rhs, out, path: path@ };
            &&& final(census).total == old(census).total + 1
            &&& forall|shape: ShapeView| #[trigger]
                count_of(final(census).rows@, shape) == count_of(old(census).rows@, shape)
                    + if shape == launched {
                    1int
                } else {
                    0
                }
            &&& match report {
                Some(report) => {
                    &&& final(census).total % final(census).every == 0
                    &&& report.launches == final(census).total
                    &&& is_ranking(report.order@, final(census).rows@)
                },
                None => final(census).total % final(census).every != 0,
            }
        },
{
    if !census.enabled {
        return None;
    }
    let ghost before = *census;
    let key = ShapeKey { m, n, k, lhs, rhs, out, path: path.to_owned() };
    let ghost launched = ShapeView { m, n, k, lhs, rhs, out, path: path@ };
    assert(key@ =~= launched);
    let mut at: usize = 0;
    while at < census.rows.len() && !census.rows[at].0.same(&key)
        invariant
            *census == before,
            at <= census.rows.len(),
            key@ == launched,
            forall|i: int| 0 <= i < at ==> (#[trigger] census.rows@[i]).0@ != launched,
        decreases census.rows.len() - at,
    {
        at = at + 1;
    }
    if at < census.rows.len() {
        proof {
            lemma_count_bounded(before.rows@, at as int);
        }
        let (found, count) = census.rows.remove(at);
        census.rows.insert(at, (found, count + 1));
        proof {
            let rows = census.rows@;
            assert forall|i: int| 0 <= i < before.rows@.len() && i != at implies #[trigger] rows[i]
                == before.rows@[i] by {}
            assert forall|shape: ShapeView| #[trigger] count_of(rows, shape) == count_of(
                before.rows@,
                shape,
            ) + if shape == launched {
                1int
            } else {
                0
            } by {
                lemma_raised(before.rows@, rows, at as int, shape);
            }
            lemma_raised(before.rows@, rows, at as int, launched);
            assert forall|i: int, j: int| 0 <= i < j < rows.len() implies (#[trigger] rows[i]).0@ != (
            #[trigger] rows[j]).0@ by {
                assert(before.rows@[i].0@ != before.rows@[j].0@);
            }
            assert forall|i: int| 0 <= i < rows.len() implies (#[trigger] rows[i]).1 > 0 by {
                assert(before.rows@[i].1 > 0);
            }
        }
    } else {
        census.rows.push((key, 1));
        proof {
            let rows = census.rows@;
            assert(rows.drop_last() =~= before.rows@);
            lemma_count_absent(before.rows@, launched);
            assert forall|i: int, j: int| 0 <= i < j < rows.len() implies (#[trigger] rows[i]).0@ != (
            #[trigger] rows[j]).0@ by {
                if j < before.rows@.len() {
                    assert(before.rows@[i].0@ != before.rows@[j].0@);
                } else {
                    assert(before.rows@[i].0@ != launched);
                }
            }
            assert forall|i: int| 0 <= i < rows.len() implies (#[trigger] rows[i]).1 > 0 by {
                if i < before.rows@.len() {
                    assert(before.rows@[i].1 > 0);
                }
            }
        }
    }
    census.total = census.total + 1;
    if census.total % census.every == 0 {
        Some(CensusReport { launches: census.total, order: rank(&census.rows) })
    } else {
        None
    }
}

/// Two launches are of the same kind exactly if they agree in everything: the three
/// lengths, the three data types and the route.
pub proof fn lemma_kind_by_everything(a: ShapeKey, b: ShapeKey)
    ensures
        a@ == b@ <==> {
            &&& a.m == b.m
            &&& a.n == b.n
            &&& a.k == b.k
            &&& a.lhs == b.lhs
            &&& a.rhs == b.rhs
            &&& a.out == b.out
            &&& a.path@ == b.path@
        },
{
}

/// A kind's count is that of its row, and zero if it has none.
pub proof fn lemma_count_is_that_of_row(rows: Seq<(ShapeKey, u64)>, shape: ShapeView)
    requires
        forall|i: int, j: int|
            0 <= i < j < rows.len() ==> (#[trigger] rows[i]).0@ != (#[trigger] rows[j]).0@,
    ensures
        forall|i: int|
            0 <= i < rows.len() && (#[trigger] rows[i]).0@ == shape ==> count_of(rows, shape)
                == rows[i].1,
        (forall|i: int| 0 <= i < rows.len() ==> (#[trigger] rows[i]).0@ != shape) ==> count_of(
            rows,
            shape,
        ) == 0,
    decreases rows.len(),
{
    if rows.len() > 0 {
        let rest = rows.drop_last();
        assert forall|i: int, j: int| 0 <= i < j < rest.len() implies (#[trigger] rest[i]).0@ != (
        #[trigger] rest[j]).0@ by {
            assert(rows[i].0@ != rows[j].0@);
        }
        lemma_count_is_that_of_row(rest, shape);
        assert forall|i: int|
            0 <= i < rows.len() && (#[trigger] rows[i]).0@ == shape implies count_of(rows, shape)
            == rows[i].1 by {
            if i < rest.len() {
                assert(rest[i].0@ == shape);
                assert(rows[i].0@ != rows[rows.len() - 1].0@);
            }
        }
        if forall|i: int| 0 <= i < rows.len() ==> (#[trigger] rows[i]).0@ != shape {
            assert(rows[rows.len() - 1].0@ != shape);
            assert forall|i: int| 0 <= i < rest.len() implies (#[trigger] rest[i]).0@ != shape by {
                assert(rows[i].0@ != shape);
            }
        }
    }
}

/// A report names every kind that came up, and none is named before one that came up
/// more often.
pub proof fn lemma_report_names_all(order: Seq<usize>, rows: Seq<(ShapeKey, u64)>, row: int)
    requires
        is_ranking(order, rows),
        0 <= row < rows.len(),
    ensures
        exists|i: int| 0 <= i < order.len() && #[trigger] order[i] == row,
        rows[order[0] as int].1 >= rows[row].1,
        rows[order.last() as int].1 <= rows[row].1,
{
    let n = rows.len() as int;
    let places = order.map_values(|p: usize| p as int);
    assert(places.no_duplicates()) by {
        assert forall|i: int, j: int|
            0 <= i < places.len() && 0 <= j < places.len() && i != j implies places[i]
            != places[j] by {
            assert(order[i] != order[j]);
        }
    }
    places.unique_seq_to_set();
    let all = vstd::set_lib::set_int_range(0, n);
    vstd::set_lib::lemma_int_range(0, n);
    assert(places.to_set().subset_of(all)) by {
        assert forall|p: int| places.to_set().contains(p) implies all.contains(p) by {
            let i = choose|i: int| 0 <= i < places.len() && places[i] == p;
            assert(order[i] < rows.len());
        }
    }
    vstd::set_lib::lemma_subset_equality(places.to_set(), all);
    assert(places.to_set().contains(row));
    let i = choose|i: int| 0 <= i < places.len() && places[i] == row;
    assert(order[i] == row);
    if i > 0 {
        assert(rows[order[0] as int].1 >= rows[order[i] as int].1);
    }
    if i < order.len() - 1 {
        assert(rows[order[i] as int].1 >= rows[order[order.len() - 1] as int].1);
    }
}

} // verus!
