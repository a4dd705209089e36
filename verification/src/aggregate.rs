//! Per-item aggregation: counts and exact running averages.
//!
//! Rows are regrouped into one column per tracked item; each column folds
//! into a partition of the would-throw flags and a running average of each
//! rating, updated incrementally as each present value arrives and kept as
//! an exact rational, so that it provably equals the straightforward
//! sum-divided-by-count mean. Absent ratings never touch the denominator.

use vstd::prelude::*;
use crate::decimal::{Dec, pow10, pow10_u128, scaled19, in_scale_range, lemma_in_range_scaled19,
    lemma_pow10_values, lemma_pow10_adds, lemma_pow10_pos, lemma_pow10_monotonic};
use crate::record::{Fruit, Response, ITEM_COUNT};

verus! {

/// The largest record-set size the aggregator accepts; it keeps every
/// intermediate product of the exact averages inside `u128`.
pub open spec fn max_rows() -> int {
    0x1000_0000_0000_0000
}

/// An exact nonnegative rational, the form an aggregated average takes.
#[derive(Clone, Copy, Debug)]
pub struct Ratio {
    pub num: u128,
    pub den: u128,
}

/// The average `a` equals the sum of the present values (given by their
/// numerators at scale `10^19`) divided by how many there are; with no
/// present value it is the neutral zero.
pub open spec fn avg_matches(a: Ratio, sum19: int, cnt: int) -> bool {
    &&& a.den > 0
    &&& (cnt == 0 ==> a.num == 0 && a.den == 1)
    &&& (cnt > 0 ==> a.num * (pow10(19) * cnt) == sum19 * a.den)
}

/// A running average in exact rational form: after `count` values its
/// value is `num / (10^exp * count)`, updated in place as values arrive.
pub struct RunningAverage {
    pub num: u128,
    pub exp: u64,
    pub count: u64,
}

impl RunningAverage {
    /// The state never carries more fraction digits than one value can,
    /// and its numerator is bounded by `count` values of at most five.
    pub open spec fn wf(self) -> bool {
        &&& self.exp <= 19
        &&& self.num as int <= 5 * pow10(self.exp as nat) * (self.count as int)
    }

    /// The exact sum of the values folded in, at scale `10^19`.
    pub open spec fn sum19(self) -> int {
        self.num * pow10((19 - self.exp) as nat)
    }

    /// The neutral starting state, before any value arrived.
    pub fn new() -> (r: RunningAverage)
        ensures
            r.wf(),
            r.count == 0,
            r.sum19() == 0,
    {
        RunningAverage { num: 0, exp: 0, count: 0 }
    }

    /// Folds the next present value into the running average.
    pub fn push(&mut self, v: Dec)
        requires
            old(self).wf(),
            in_scale_range(v),
            old(self).count < max_rows(),
        ensures
            final(self).wf(),
            final(self).count == old(self).count + 1,
            final(self).sum19() == old(self).sum19() + scaled19(v),
    {
        proof {
            lemma_in_range_scaled19(v);
            lemma_pow10_values();
        }
        let ve = v.exp;
        let newexp = if self.exp >= ve {
            self.exp
        } else {
            ve
        };
        let d1 = newexp - self.exp;
        let d2 = newexp - ve;
        let p1 = pow10_u128(d1);
        let p2 = pow10_u128(d2);
        proof {
            lemma_pow10_adds(self.exp as nat, d1 as nat);
            lemma_pow10_adds(ve as nat, d2 as nat);
            lemma_pow10_pos(d1 as nat);
            lemma_pow10_pos(d2 as nat);
            lemma_pow10_pos(newexp as nat);
            lemma_pow10_monotonic(newexp as nat, 19);
            assert(self.num as int * p1 as int <= 5 * pow10(newexp as nat) * (
            self.count as int)) by (nonlinear_arith)
                requires
                    self.num as int <= 5 * pow10(self.exp as nat) * (self.count as int),
                    pow10(self.exp as nat) * pow10(d1 as nat) == pow10(newexp as nat),
                    p1 as int == pow10(d1 as nat),
                    p1 as int > 0,
                    self.num >= 0,
                    self.count >= 0,
            ;
            assert(v.mant as int * p2 as int <= 5 * pow10(newexp as nat)) by (nonlinear_arith)
                requires
                    v.mant as int <= 5 * pow10(ve as nat),
                    pow10(ve as nat) * pow10(d2 as nat) == pow10(newexp as nat),
                    p2 as int == pow10(d2 as nat),
                    p2 as int > 0,
                    v.mant >= 0,
            ;
            assert(5 * pow10(newexp as nat) * (self.count as int) + 5 * pow10(newexp as nat) == 5
                * pow10(newexp as nat) * (self.count as int + 1)) by (nonlinear_arith);
            assert(5 * pow10(newexp as nat) * (self.count as int + 1) <= 5 * pow10(19)
                * max_rows()) by (nonlinear_arith)
                requires
                    pow10(newexp as nat) <= pow10(19),
                    pow10(newexp as nat) > 0,
                    pow10(19) == 10_000_000_000_000_000_000,
                    0 <= self.count < max_rows(),
            ;
        }
        let num2 = self.num * p1 + (v.mant as u128) * p2;
        proof {
            let g19 = pow10((19 - newexp as int) as nat);
            lemma_pow10_adds(d1 as nat, (19 - newexp as int) as nat);
            lemma_pow10_adds(d2 as nat, (19 - newexp as int) as nat);
            assert(num2 as int * g19 == self.num as int * pow10((19 - self.exp as int) as nat)
                + v.mant as int * pow10((19 - ve as int) as nat)) by (nonlinear_arith)
                requires
                    num2 == self.num as int * p1 as int + v.mant as int * p2 as int,
                    p1 as int * g19 == pow10((19 - self.exp as int) as nat),
                    p2 as int * g19 == pow10((19 - ve as int) as nat),
            ;
            assert(scaled19(v) == v.mant as int * pow10((19 - ve as int) as nat));
        }
        self.num = num2;
        self.exp = newexp;
        self.count = self.count + 1;
    }

    /// Closes the fold: the average as an exact rational.
    pub fn finish(&self) -> (r: Ratio)
        requires
            self.wf(),
            self.count < max_rows(),
        ensures
            avg_matches(r, self.sum19(), self.count as int),
    {
        proof {
            lemma_pow10_values();
        }
        if self.count == 0 {
            Ratio { num: 0, den: 1 }
        } else {
            let p = pow10_u128(self.exp);
            proof {
                lemma_pow10_monotonic(self.exp as nat, 19);
                lemma_pow10_pos(self.exp as nat);
            }
            proof {
                assert(p as int * (self.count as int) <= pow10(19) * max_rows())
                    by (nonlinear_arith)
                    requires
                        0 < p as int <= pow10(19),
                        0 <= self.count < max_rows(),
                ;
                assert(pow10(19) == 10_000_000_000_000_000_000);
            }
            let den = p * (self.count as u128);
            proof {
                let g = pow10((19 - self.exp as int) as nat);
                lemma_pow10_adds(self.exp as nat, (19 - self.exp as int) as nat);
                lemma_pow10_pos((19 - self.exp as int) as nat);
                assert(den as int > 0) by (nonlinear_arith)
                    requires
                        den as int == p as int * (self.count as int),
                        p as int > 0,
                        self.count as int > 0,
                ;
                assert(self.num as int * (pow10(19) * (self.count as int)) == (self.num as int
                    * g) * (p as int * (self.count as int))) by (nonlinear_arith)
                    requires
                        p as int * g == pow10(19),
                ;
            }
            Ratio { num: self.num, den }
        }
    }
}

/// How many records of the column intend to throw the item out.
pub open spec fn count_throws(s: Seq<Fruit>) -> int
    decreases s.len(),
{
    if s.len() == 0 {
        0
    } else {
        count_throws(s.drop_last()) + if s.last().would_throw {
            1int
        } else {
            0int
        }
    }
}

/// How many records of the column carry a present expected rating.
pub open spec fn exp_count(s: Seq<Fruit>) -> int
    decreases s.len(),
{
    if s.len() == 0 {
        0
    } else {
        exp_count(s.drop_last()) + if s.last().expected_rancidness is Some {
            1int
        } else {
            0int
        }
    }
}

/// The sum of the present expected ratings, at scale `10^19`.
pub open spec fn exp_sum19(s: Seq<Fruit>) -> int
    decreases s.len(),
{
    if s.len() == 0 {
        0
    } else {
        exp_sum19(s.drop_last()) + match s.last().expected_rancidness {
            Some(d) => scaled19(d),
            None => 0,
        }
    }
}

/// How many records of the column carry a present desired rating.
pub open spec fn des_count(s: Seq<Fruit>) -> int
    decreases s.len(),
{
    if s.len() == 0 {
        0
    } else {
        des_count(s.drop_last()) + if s.last().desired_rancidness is Some {
            1int
        } else {
            0int
        }
    }
}

/// The sum of the present desired ratings, at scale `10^19`.
pub open spec fn des_sum19(s: Seq<Fruit>) -> int
    decreases s.len(),
{
    if s.len() == 0 {
        0
    } else {
        des_sum19(s.drop_last()) + match s.last().desired_rancidness {
            Some(d) => scaled19(d),
            None => 0,
        }
    }
}

/// Every present rating of the record lies in the scale range, as the
/// normalizer leaves it.
pub open spec fn fruit_normalized(f: Fruit) -> bool {
    &&& (f.expected_rancidness matches Some(d) ==> in_scale_range(d))
    &&& (f.desired_rancidness matches Some(d) ==> in_scale_range(d))
}

/// One aggregate-report entry for one tracked item.
pub struct ReportEntry {
    pub would_throw_count: usize,
    pub would_not_throw_count: usize,
    pub average_expected_rancidness: Ratio,
    pub average_desired_rancidness: Ratio,
}

/// The entry derived from one item's column: an exact partition of the
/// flags, and each average equal to the mean of the present ratings.
pub open spec fn entry_matches(e: ReportEntry, col: Seq<Fruit>) -> bool {
    &&& e.would_throw_count == count_throws(col)
    &&& e.would_throw_count + e.would_not_throw_count == col.len()
    &&& avg_matches(e.average_expected_rancidness, exp_sum19(col), exp_count(col))
    &&& avg_matches(e.average_desired_rancidness, des_sum19(col), des_count(col))
}

/// Folds one item's column of normalized records into its report entry.
pub fn report(fruits: &Vec<Fruit>) -> (r: ReportEntry)
    requires
        fruits@.len() < max_rows(),
        forall|j: int| 0 <= j < fruits@.len() ==> fruit_normalized(#[trigger] fruits@[j]),
    ensures
        entry_matches(r, fruits@),
{
    let n = fruits.len();
    let mut tc: usize = 0;
    let mut ntc: usize = 0;
    let mut ae = RunningAverage::new();
    let mut ad = RunningAverage::new();
    let mut i: usize = 0;
    proof {
        assert(fruits@.take(0) =~= Seq::<Fruit>::empty());
    }
    while i < n
        invariant
            i <= n == fruits@.len() < max_rows(),
            forall|j: int| 0 <= j < fruits@.len() ==> fruit_normalized(#[trigger] fruits@[j]),
            tc == count_throws(fruits@.take(i as int)),
            tc + ntc == i,
            ae.wf(),
            ae.count <= i,
            ae.count == exp_count(fruits@.take(i as int)),
            ae.sum19() == exp_sum19(fruits@.take(i as int)),
            ad.wf(),
            ad.count <= i,
            ad.count == des_count(fruits@.take(i as int)),
            ad.sum19() == des_sum19(fruits@.take(i as int)),
        decreases n - i,
    {
        proof {
            assert(fruits@.take(i + 1).drop_last() =~= fruits@.take(i as int));
            assert(fruits@.take(i + 1).last() == fruits@[i as int]);
        }
        let f = &fruits[i];
        if f.would_throw {
            tc = tc + 1;
        } else {
            ntc = ntc + 1;
        }
        match f.expected_rancidness {
            Some(d) => ae.push(d),
            None => (),
        }
        match f.desired_rancidness {
            Some(d) => ad.push(d),
            None => (),
        }
        i = i + 1;
    }
    proof {
        assert(fruits@.take(n as int) =~= fruits@);
    }
    ReportEntry {
        would_throw_count: tc,
        would_not_throw_count: ntc,
        average_expected_rancidness: ae.finish(),
        average_desired_rancidness: ad.finish(),
    }
}

/// The rows regrouped as one column of records per tracked item.
pub struct VecResponse {
    pub items: Vec<Vec<Fruit>>,
}

impl VecResponse {
    /// Regroups parsed rows into per-item columns, schema order kept.
    pub fn from_responses(responses: Vec<Response>) -> (r: VecResponse)
        requires
            forall|j: int|
                0 <= j < responses@.len() ==> (#[trigger] responses@[j]).items@.len()
                    == ITEM_COUNT,
        ensures
            r.items@.len() == ITEM_COUNT,
            forall|i: int|
                0 <= i < ITEM_COUNT ==> (#[trigger] r.items@[i])@.len() == responses@.len(),
            forall|i: int, j: int|
                0 <= i < ITEM_COUNT && 0 <= j < responses@.len() ==> #[trigger] r.items@[i]@[j]
                    == responses@[j].items@[i],
    {
        let mut cols: Vec<Vec<Fruit>> = Vec::new();
        let mut c: usize = 0;
        while c < ITEM_COUNT
            invariant
                c <= ITEM_COUNT,
                cols@.len() == c,
                forall|i: int| 0 <= i < c ==> (#[trigger] cols@[i])@.len() == 0,
            decreases ITEM_COUNT - c,
        {
            cols.push(Vec::new());
            c = c + 1;
        }
        let ghost orig = responses@;
        let mut rest = responses;
        let total = rest.len();
        proof {
            assert(orig.len() == total);
        }
        let mut j: usize = 0;
        while rest.len() > 0
            invariant
                j + rest@.len() == orig.len(),
                orig.len() <= usize::MAX,
                rest@ == orig.skip(j as int),
                forall|jj: int|
                    0 <= jj < orig.len() ==> (#[trigger] orig[jj]).items@.len() == ITEM_COUNT,
                cols@.len() == ITEM_COUNT,
                forall|i: int| 0 <= i < ITEM_COUNT ==> (#[trigger] cols@[i])@.len() == j,
                forall|i: int, jj: int|
                    0 <= i < ITEM_COUNT && 0 <= jj < j ==> #[trigger] cols@[i]@[jj]
                        == orig[jj].items@[i],
            decreases rest@.len(),
        {
            let row = rest.remove(0);
            proof {
                assert(row == orig[j as int]);
                assert(rest@ =~= orig.skip(j as int + 1));
            }
            let ghost rowitems = row.items@;
            let mut items = row.items;
            let mut i: usize = 0;
            while i < ITEM_COUNT
                invariant
                    i <= ITEM_COUNT,
                    rowitems.len() == ITEM_COUNT,
                    items@ == rowitems.skip(i as int),
                    cols@.len() == ITEM_COUNT,
                    forall|ii: int| 0 <= ii < i ==> (#[trigger] cols@[ii])@.len() == j + 1,
                    forall|ii: int| i <= ii < ITEM_COUNT ==> (#[trigger] cols@[ii])@.len() == j,
                    forall|ii: int| 0 <= ii < i ==> #[trigger] cols@[ii]@[j as int]
                        == rowitems[ii],
                    forall|ii: int, jj: int|
                        0 <= ii < ITEM_COUNT && 0 <= jj < j ==> #[trigger] cols@[ii]@[jj]
                            == orig[jj].items@[ii],
                decreases ITEM_COUNT - i,
            {
                let f = items.remove(0);
                proof {
                    assert(f == rowitems[i as int]);
                    assert(items@ =~= rowitems.skip(i as int + 1));
                }
                let col = &mut cols[i];
                col.push(f);
                i = i + 1;
            }
            j = j + 1;
        }
        VecResponse { items: cols }
    }
}

/// The aggregate report: one entry per tracked item, in schema order.
pub struct FlattenedReport {
    pub entries: Vec<ReportEntry>,
}

impl FlattenedReport {
    /// Folds every item's column into its report entry.
    pub fn from_vec_response(vec_response: &VecResponse) -> (r: FlattenedReport)
        requires
            vec_response.items@.len() == ITEM_COUNT,
            forall|i: int|
                0 <= i < ITEM_COUNT ==> (#[trigger] vec_response.items@[i])@.len() < max_rows(),
            forall|i: int, j: int|
                0 <= i < ITEM_COUNT && 0 <= j < vec_response.items@[i]@.len()
                    ==> fruit_normalized(#[trigger] vec_response.items@[i]@[j]),
        ensures
            r.entries@.len() == ITEM_COUNT,
            forall|i: int|
                0 <= i < ITEM_COUNT ==> entry_matches(
                    #[trigger] r.entries@[i],
                    vec_response.items@[i]@,
                ),
    {
        let mut entries: Vec<ReportEntry> = Vec::new();
        let mut i: usize = 0;
        while i < ITEM_COUNT
            invariant
                i <= ITEM_COUNT,
                vec_response.items@.len() == ITEM_COUNT,
                forall|ii: int|
                    0 <= ii < ITEM_COUNT ==> (#[trigger] vec_response.items@[ii])@.len()
                        < max_rows(),
                forall|ii: int, j: int|
                    0 <= ii < ITEM_COUNT && 0 <= j < vec_response.items@[ii]@.len()
                        ==> fruit_normalized(#[trigger] vec_response.items@[ii]@[j]),
                entries@.len() == i,
                forall|ii: int|
                    0 <= ii < i ==> entry_matches(
                        #[trigger] entries@[ii],
                        vec_response.items@[ii]@,
                    ),
            decreases ITEM_COUNT - i,
        {
            let entry = report(&vec_response.items[i]);
            entries.push(entry);
            i = i + 1;
        }
        FlattenedReport { entries }
    }
}

/// The column of one tracked item across all rows.
pub open spec fn column(rs: Seq<Response>, i: int) -> Seq<Fruit> {
    Seq::new(rs.len(), |j: int| rs[j].items@[i])
}

/// The record set is fit for aggregation: schema-shaped rows, every present
/// rating normalized, and few enough rows for the exact arithmetic.
pub open spec fn aggregatable(rs: Seq<Response>) -> bool {
    &&& rs.len() < max_rows()
    &&& forall|j: int| 0 <= j < rs.len() ==> (#[trigger] rs[j]).items@.len() == ITEM_COUNT
    &&& forall|j: int, k: int|
        0 <= j < rs.len() && 0 <= k < ITEM_COUNT ==> fruit_normalized(
            #[trigger] rs[j].items@[k],
        )
}

/// Law: normalizing makes the rows fit for aggregation — schema-shaped
/// rows that went through the normalizer always yield a report, within the
/// aggregator's size bound.
pub proof fn lemma_massaged_aggregatable(orig: Seq<Response>, m: Seq<Response>)
    requires
        m.len() == orig.len(),
        m.len() < max_rows(),
        forall|j: int| 0 <= j < orig.len() ==> (#[trigger] orig[j]).items@.len() == ITEM_COUNT,
        forall|j: int| 0 <= j < m.len() ==> (#[trigger] m[j]).items@.len()
            == orig[j].items@.len(),
        forall|j: int, k: int|
            0 <= j < m.len() && 0 <= k < orig[j].items@.len() ==> crate::record::massaged_fruit(
                #[trigger] m[j].items@[k],
                orig[j].items@[k],
            ),
    ensures
        aggregatable(m),
{
    assert forall|j: int, k: int|
        0 <= j < m.len() && 0 <= k < ITEM_COUNT implies fruit_normalized(
        #[trigger] m[j].items@[k],
    ) by {
        crate::record::lemma_massage_in_range(orig[j].items@[k], m[j].items@[k]);
    }
}

/// Builds the aggregate report from normalized rows, checking first that
/// the rows are fit for aggregation; unfit rows yield no report instead of
/// a wrong one.
pub fn build_report(responses: Vec<Response>) -> (r: Option<FlattenedReport>)
    ensures
        r is Some <==> aggregatable(responses@),
        ({
            match r {
                Some(rep) => {
                    &&& rep.entries@.len() == ITEM_COUNT
                    &&& forall|i: int|
                        0 <= i < ITEM_COUNT ==> entry_matches(
                            #[trigger] rep.entries@[i],
                            column(responses@, i),
                        )
                },
                None => true,
            }
        }),
{
    let ghost rs = responses@;
    if !((responses.len() as u128) < 0x1000_0000_0000_0000u128) {
        return None;
    }
    let n = responses.len();
    let mut j: usize = 0;
    while j < n
        invariant
            j <= n == rs.len(),
            responses@ == rs,
            forall|jj: int| 0 <= jj < j ==> (#[trigger] rs[jj]).items@.len() == ITEM_COUNT,
            forall|jj: int, k: int|
                0 <= jj < j && 0 <= k < ITEM_COUNT ==> fruit_normalized(
                    #[trigger] rs[jj].items@[k],
                ),
        decreases n - j,
    {
        let row = &responses[j];
        if row.items.len() != ITEM_COUNT {
            return None;
        }
        let mut k: usize = 0;
        while k < ITEM_COUNT
            invariant
                k <= ITEM_COUNT,
                j < rs.len(),
                responses@ == rs,
                rs[j as int].items@.len() == ITEM_COUNT,
                row == rs[j as int],
                forall|kk: int|
                    0 <= kk < k ==> fruit_normalized(#[trigger] rs[j as int].items@[kk]),
            decreases ITEM_COUNT - k,
        {
            let f = &row.items[k];
            let e_ok = match f.expected_rancidness {
                Some(d) => d.ge_int_exec(1) && d.le_int_exec(5),
                None => true,
            };
            let d_ok = match f.desired_rancidness {
                Some(d) => d.ge_int_exec(1) && d.le_int_exec(5),
                None => true,
            };
            if !(e_ok && d_ok) {
                return None;
            }
            k = k + 1;
        }
        j = j + 1;
    }
    let grouped = VecResponse::from_responses(responses);
    let rep = FlattenedReport::from_vec_response(&grouped);
    proof {
        assert forall|i: int| 0 <= i < ITEM_COUNT implies grouped.items@[i]@ =~= column(
            rs,
            i,
        ) by {
            assert(grouped.items@[i]@.len() == rs.len());
        }
    }
    Some(rep)
}

} // verus!
